use cursorforge::bitmap::Bitmap;
use cursorforge::sheet::{blit, ladder_sheet, magnify};

const GREY: [u8; 4] = [100, 100, 100, 255];

fn ground(w: u32, h: u32, rgba: [u8; 4]) -> Bitmap {
    let mut b = Bitmap::new(w, h);
    for y in 0..h {
        for x in 0..w {
            b.set_pixel(x, y, rgba);
        }
    }
    b
}

fn stamp() -> Bitmap {
    let mut over = Bitmap::new(2, 2);
    over.set_pixel(0, 0, [200, 0, 0, 255]);
    over.set_pixel(1, 0, [0, 0, 0, 0]);
    over.set_pixel(0, 1, [255, 255, 255, 128]);
    over.set_pixel(1, 1, [0, 0, 0, 255]);
    over
}

#[test]
fn magnifying_repeats_each_pixel_as_a_square() {
    let mut b = Bitmap::new(2, 1);
    b.set_pixel(0, 0, [1, 2, 3, 4]);
    b.set_pixel(1, 0, [5, 6, 7, 8]);
    let big = magnify(&b, 3);
    assert_eq!((big.width, big.height), (6, 3));
    for y in 0..3 {
        for x in 0..6 {
            let expected = if x < 3 { [1, 2, 3, 4] } else { [5, 6, 7, 8] };
            assert_eq!(big.pixel(x, y), expected);
        }
    }
}

#[test]
fn laying_an_image_mixes_by_coverage_and_skips_clear_pixels() {
    let mut sheet = ground(4, 4, GREY);
    blit(&mut sheet, &stamp(), 1, 1);
    assert_eq!(sheet.pixel(1, 1), [200, 0, 0, 255]);
    assert_eq!(sheet.pixel(2, 1), GREY);
    // (255 * 128 + 100 * 127) / 255
    assert_eq!(sheet.pixel(1, 2), [177, 177, 177, 255]);
    assert_eq!(sheet.pixel(2, 2), [0, 0, 0, 255]);
    assert_eq!(sheet.pixel(0, 0), GREY);
    assert_eq!(sheet.pixel(3, 3), GREY);
}

#[test]
fn what_falls_off_the_sheet_is_dropped() {
    let mut sheet = ground(4, 4, GREY);
    blit(&mut sheet, &stamp(), 3, 3);
    assert_eq!(sheet.pixel(3, 3), [200, 0, 0, 255]);
    for y in 0..4 {
        for x in 0..4 {
            if (x, y) != (3, 3) {
                assert_eq!(sheet.pixel(x, y), GREY);
            }
        }
    }
}

#[test]
fn a_laid_pixel_leaves_the_sheet_opaque() {
    let mut sheet = ground(2, 2, [0, 0, 0, 0]);
    let mut over = Bitmap::new(1, 1);
    over.set_pixel(0, 0, [255, 0, 0, 51]);
    blit(&mut sheet, &over, 0, 0);
    // (255 * 51 + 0) / 255
    assert_eq!(sheet.pixel(0, 0), [51, 0, 0, 255]);
    assert_eq!(sheet.pixel(1, 1), [0, 0, 0, 0]);
}

#[test]
fn the_ladder_sheet_puts_each_size_magnified_above_and_actual_below() {
    let red = ground(2, 2, [255, 0, 0, 255]);
    let blue = ground(1, 1, [0, 0, 255, 255]);
    let sheet = ladder_sheet(&vec![red, blue]);
    assert_eq!((sheet.width, sheet.height), (1762, 670));
    let grey = [44, 46, 52, 255];
    assert_eq!(sheet.pixel(0, 0), grey);
    assert_eq!(sheet.pixel(10, 10), [255, 0, 0, 255]);
    assert_eq!(sheet.pixel(17, 17), [255, 0, 0, 255]);
    assert_eq!(sheet.pixel(18, 10), grey);
    assert_eq!(sheet.pixel(11, 533), [255, 0, 0, 255]);
    assert_eq!(sheet.pixel(12, 532), grey);
    // The next size starts a margin after the first one's magnified width.
    assert_eq!(sheet.pixel(28, 10), [0, 0, 255, 255]);
    assert_eq!(sheet.pixel(31, 13), [0, 0, 255, 255]);
    assert_eq!(sheet.pixel(32, 10), grey);
    assert_eq!(sheet.pixel(28, 532), [0, 0, 255, 255]);
}
