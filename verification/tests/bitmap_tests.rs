use cursorforge::bitmap::{base64, Bitmap};
use cursorforge::matte::{detect_checkerboard, survivor_is_coherent, survivors, sweep_dust};

fn dot(width: u32, height: u32, x: u32, y: u32) -> Bitmap {
    let mut bitmap = Bitmap::new(width, height);
    bitmap.set_pixel(x, y, [255, 255, 255, 255]);
    bitmap
}

fn marked() -> Bitmap {
    let mut b = Bitmap::new(4, 6);
    b.set_pixel(0, 0, [255, 0, 0, 255]);
    b
}

#[test]
fn trim_reduces_to_the_opaque_box() {
    let trimmed = dot(16, 16, 5, 7).trimmed();
    assert_eq!((trimmed.width, trimmed.height), (1, 1));
    assert_eq!(trimmed.pixel(0, 0), [255, 255, 255, 255]);
}

#[test]
fn a_fully_transparent_bitmap_survives_trimming_unchanged() {
    let empty = Bitmap::new(8, 8);
    let trimmed = empty.trimmed();
    assert_eq!((trimmed.width, trimmed.height), (8, 8));
}

#[test]
fn squaring_centres_without_distorting() {
    let mut wide = Bitmap::new(8, 4);
    wide.set_pixel(0, 0, [1, 2, 3, 255]);
    let squared = wide.squared();
    assert_eq!((squared.width, squared.height), (8, 8));
    assert_eq!(squared.pixel(0, 2), [1, 2, 3, 255]);
}

#[test]
fn outline_wraps_the_artwork_and_never_overwrites_it() {
    let outlined = dot(3, 3, 1, 1).with_contrast_outline();
    assert_eq!(outlined.pixel(1, 1), [255, 255, 255, 255], "artwork intact");
    assert_eq!(outlined.alpha(0, 0), 255, "diagonal neighbour is rimmed");
    assert_eq!(outlined.alpha(0, 1), 255, "orthogonal neighbour is rimmed");
    assert!(outlined.pixel(0, 0)[0] < 32, "the rim is dark");
}

#[test]
fn outline_leaves_pixels_far_from_the_artwork_alone() {
    let outlined = dot(5, 5, 0, 0).with_contrast_outline();
    assert_eq!(outlined.pixel(4, 4), [0, 0, 0, 0]);
    assert_eq!(outlined.pixel(1, 1), [4, 5, 8, 255]);
}

#[test]
fn base64_matches_the_reference_vectors() {
    assert_eq!(base64(b""), "");
    assert_eq!(base64(b"f"), "Zg==");
    assert_eq!(base64(b"fo"), "Zm8=");
    assert_eq!(base64(b"foo"), "Zm9v");
    assert_eq!(base64(b"foobar"), "Zm9vYmFy");
}

#[test]
fn base64_uses_the_last_two_symbols_of_the_alphabet() {
    assert_eq!(base64(&[0xfb, 0xff]), "+/8=");
    assert_eq!(base64(&[0, 0, 0]), "AAAA");
}

#[test]
fn flipping_twice_returns_the_original() {
    let b = marked();
    assert_eq!(b.flipped_h().flipped_h().pixels, b.pixels);
    assert_eq!(b.flipped_v().flipped_v().pixels, b.pixels);
}

#[test]
fn a_flip_moves_the_mark_to_the_opposite_corner() {
    let b = marked();
    assert_eq!(b.flipped_h().pixel(3, 0), [255, 0, 0, 255]);
    assert_eq!(b.flipped_v().pixel(0, 5), [255, 0, 0, 255]);
}

#[test]
fn four_quarter_turns_return_the_original() {
    let b = marked();
    let round = b.rotated(1).rotated(1).rotated(1).rotated(1);
    assert_eq!(round.width, b.width);
    assert_eq!(round.height, b.height);
    assert_eq!(round.pixels, b.pixels);
}

#[test]
fn a_quarter_turn_swaps_the_axes() {
    let b = marked();
    let turned = b.rotated(1);
    assert_eq!((turned.width, turned.height), (6, 4));
    assert_eq!(turned.pixel(5, 0), [255, 0, 0, 255]);
}

#[test]
fn inverting_leaves_alpha_alone() {
    let mut b = Bitmap::new(2, 2);
    b.set_pixel(0, 0, [10, 20, 30, 128]);
    let inverted = b.inverted();
    assert_eq!(inverted.pixel(0, 0), [245, 235, 225, 128]);
    assert_eq!(inverted.pixel(1, 1)[3], 0);
}

#[test]
fn inverting_twice_returns_the_original() {
    let mut b = Bitmap::new(3, 2);
    b.set_pixel(2, 1, [7, 99, 200, 31]);
    assert_eq!(b.inverted().inverted().pixels, b.pixels);
}

#[test]
fn a_crop_box_takes_the_rectangle_asked_for() {
    let mut b = Bitmap::new(10, 10);
    b.set_pixel(5, 5, [1, 2, 3, 255]);
    let c = b.cropped_box(4, 4, 8, 8);
    assert_eq!((c.width, c.height), (4, 4));
    assert_eq!(c.pixel(1, 1), [1, 2, 3, 255]);
}

#[test]
fn padding_grows_every_side() {
    let p = dot(2, 3, 1, 2).padded(2);
    assert_eq!((p.width, p.height), (6, 7));
    assert_eq!(p.pixel(3, 4), [255, 255, 255, 255]);
    assert_eq!(p.pixel(0, 0), [0, 0, 0, 0]);
}

#[test]
fn a_buffer_of_the_wrong_length_is_refused() {
    assert!(Bitmap::from_rgba(2, 2, vec![0; 15]).is_err());
    assert!(Bitmap::from_rgba(2, 2, vec![0; 16]).is_ok());
}

#[test]
fn opaque_bounds_cover_every_visible_pixel() {
    let mut b = Bitmap::new(10, 10);
    b.set_pixel(2, 3, [0, 0, 0, 1]);
    b.set_pixel(7, 5, [0, 0, 0, 255]);
    assert_eq!(b.opaque_bounds(), Some((2, 3, 7, 5)));
    assert_eq!(Bitmap::new(4, 4).opaque_bounds(), None);
}

#[test]
fn a_single_faint_pixel_with_nothing_around_it_is_dust() {
    let mut b = Bitmap::new(16, 16);
    b.set_pixel(4, 4, [180, 180, 180, 12]);
    b.set_pixel(9, 9, [180, 180, 180, 200]);
    b.set_pixel(9, 10, [180, 180, 180, 200]);

    sweep_dust(&mut b);

    assert_eq!(b.alpha(4, 4), 0, "a lone 5% pixel is dust");
    assert_eq!(b.alpha(9, 9), 200, "a pixel with a neighbour is not dust");
}

#[test]
fn a_faint_pixel_beside_artwork_is_not_dust() {
    let mut b = Bitmap::new(8, 8);
    b.set_pixel(3, 3, [180, 180, 180, 12]);
    b.set_pixel(4, 4, [0, 0, 0, 255]);
    sweep_dust(&mut b);
    assert_eq!(b.alpha(3, 3), 12);
}

#[test]
fn a_bitmap_too_small_to_judge_is_not_swept() {
    let mut b = Bitmap::new(2, 2);
    b.set_pixel(0, 0, [1, 1, 1, 5]);
    sweep_dust(&mut b);
    assert_eq!(b.alpha(0, 0), 5);
}

#[test]
fn coherence_tells_a_subject_from_confetti() {
    let mut blob = Bitmap::new(64, 64);
    for y in 20..44 {
        for x in 20..44 {
            blob.set_pixel(x, y, [200, 100, 50, 255]);
        }
    }
    assert!(survivor_is_coherent(&blob));

    let mut confetti = Bitmap::new(64, 64);
    for y in (0..64).step_by(2) {
        for x in (0..64).step_by(2) {
            confetti.set_pixel(x, y, [200, 100, 50, 255]);
        }
    }
    assert!(!survivor_is_coherent(&confetti), "scattered pixels are not a subject");
    assert!(!survivor_is_coherent(&Bitmap::new(32, 32)), "nothing survived");
}

#[test]
fn regions_are_counted_and_measured() {
    let mut b = Bitmap::new(10, 10);
    // An L of five pixels and a separate pair.
    for (x, y) in [(1, 1), (1, 2), (1, 3), (2, 3), (3, 3), (7, 8), (8, 8)] {
        b.set_pixel(x, y, [0, 0, 0, 255]);
    }
    // Faint pixels do not survive, and a diagonal touch does not join.
    b.set_pixel(5, 5, [0, 0, 0, 100]);
    b.set_pixel(4, 4, [0, 0, 0, 200]);
    let s = survivors(&b);
    assert_eq!(s.total, 8);
    assert_eq!(s.pieces, 3);
    assert_eq!(s.largest, 5);
    assert_eq!(s.substantial, 0);
    assert_eq!(s.box_area, 8 * 8);
}

#[test]
fn a_wordmark_of_a_few_real_pieces_is_coherent() {
    let mut b = Bitmap::new(30, 10);
    for letter in 0..3u32 {
        for y in 1..9 {
            for x in (letter * 10 + 1)..(letter * 10 + 8) {
                b.set_pixel(x, y, [0, 0, 0, 255]);
            }
        }
    }
    assert!(survivor_is_coherent(&b));
}

fn board(size: u32, cell: u32, light: u8, dark: u8) -> Bitmap {
    let mut b = Bitmap::new(size, size);
    for y in 0..size {
        for x in 0..size {
            let v = if ((x / cell) + (y / cell)) % 2 == 0 { light } else { dark };
            b.set_pixel(x, y, [v, v, v, 255]);
        }
    }
    b
}

#[test]
fn a_screenshot_of_the_transparency_grid_is_recognised() {
    let found = detect_checkerboard(&board(32, 8, 255, 204)).expect("a board");
    assert_eq!(found.light, [255, 255, 255]);
    assert_eq!(found.dark, [204, 204, 204]);
    assert_eq!(found.cell, 8);
    let dark_first = detect_checkerboard(&board(48, 6, 153, 102)).expect("a board");
    assert_eq!(dark_first.light, [153, 153, 153]);
    assert_eq!(dark_first.cell, 6);
}

#[test]
fn a_flat_card_or_a_coloured_check_is_not_a_board() {
    let mut flat = Bitmap::new(32, 32);
    for y in 0..32 {
        for x in 0..32 {
            flat.set_pixel(x, y, [240, 240, 240, 255]);
        }
    }
    assert!(detect_checkerboard(&flat).is_none());
    let mut shirt = Bitmap::new(32, 32);
    for y in 0..32u32 {
        for x in 0..32u32 {
            let red = ((x / 8) + (y / 8)) % 2 == 0;
            shirt.set_pixel(x, y, if red { [200, 20, 20, 255] } else { [20, 20, 200, 255] });
        }
    }
    assert!(detect_checkerboard(&shirt).is_none(), "a red and blue check is not a transparency board");
    assert!(detect_checkerboard(&board(12, 4, 255, 204)).is_none(), "too small to judge");
    assert!(detect_checkerboard(&Bitmap::new(32, 32)).is_none(), "already transparent");
}
