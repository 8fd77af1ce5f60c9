use cursorforge::error::AppError;
use cursorforge::ico_writer::write_ico;

#[test]
fn an_icon_file_needs_an_image() {
    let entries: Vec<(u32, Vec<u8>)> = Vec::new();
    let refused = write_ico(&entries);
    assert_eq!(refused, Err(AppError::NothingToWrite));
    assert_eq!(AppError::NothingToWrite.message(), "nothing to write");
}

#[test]
fn the_directory_points_at_each_image_in_turn() {
    let entries = vec![(256u32, vec![1u8, 2, 3]), (16u32, vec![9u8, 9])];
    let bytes = write_ico(&entries).unwrap();
    let expected: Vec<u8> = vec![
        0, 0, 1, 0, 2, 0, // reserved, icon, two images
        0, 0, 0, 0, 1, 0, 32, 0, 3, 0, 0, 0, 38, 0, 0, 0, // 256 stored as 0, at 6 + 2 * 16
        16, 16, 0, 0, 1, 0, 32, 0, 2, 0, 0, 0, 41, 0, 0, 0, // right after the first image
        1, 2, 3, 9, 9,
    ];
    assert_eq!(bytes, expected);
}

#[test]
fn a_side_that_does_not_fit_a_byte_is_stored_as_zero() {
    let entries = vec![(300u32, vec![7u8]), (255u32, vec![8u8])];
    let bytes = write_ico(&entries).unwrap();
    assert_eq!((bytes[6], bytes[7]), (0, 0));
    assert_eq!((bytes[22], bytes[23]), (255, 255));
    assert_eq!(bytes.len(), 6 + 2 * 16 + 2);
}
