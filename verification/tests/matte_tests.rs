use cursorforge::keyability::confident;
use cursorforge::matte::{after_key, before_key, MatteStep, Refusal};
use cursorforge::bitmap::Bitmap;
use cursorforge::board::{detect_checkerboard, flatten_checkerboard, Checkerboard};
use cursorforge::despill::despill;
use cursorforge::keyability::{border_signals, corner_disagreement, keyability_signals, BorderSignals};

const WHITE: [u8; 4] = [255, 255, 255, 255];
const BLUE: [u8; 4] = [20, 30, 200, 255];

fn solid(w: u32, h: u32, rgba: [u8; 4]) -> Bitmap {
    let mut b = Bitmap::new(w, h);
    for y in 0..h {
        for x in 0..w {
            b.set_pixel(x, y, rgba);
        }
    }
    b
}

fn board(size: u32, cell: u32, light: u8, dark: u8) -> Bitmap {
    let mut b = Bitmap::new(size, size);
    for y in 0..size {
        for x in 0..size {
            let v = if ((x / cell) + (y / cell)) % 2 == 0 { light } else { dark };
            b.set_pixel(x, y, [v, v, v, 255]);
        }
    }
    b
}

#[test]
fn flattening_paints_both_squares_the_lighter_one() {
    let mut b = board(32, 8, 255, 204);
    b.set_pixel(16, 16, [200, 20, 20, 255]);
    let found = detect_checkerboard(&b).expect("a board");
    flatten_checkerboard(&mut b, &found);
    assert_eq!(b.pixel(0, 0), [255, 255, 255, 255]);
    assert_eq!(b.pixel(8, 0), [255, 255, 255, 255], "the dark square takes the light colour");
    assert_eq!(b.pixel(16, 16), [200, 20, 20, 255], "a colour that is not the board stays");
}

#[test]
fn flattening_leaves_translucent_pixels_alone() {
    let mut b = solid(4, 4, [204, 204, 204, 255]);
    b.set_pixel(1, 1, [204, 204, 204, 128]);
    let found = Checkerboard { light: [255, 255, 255], dark: [204, 204, 204], cell: 2 };
    flatten_checkerboard(&mut b, &found);
    assert_eq!(b.pixel(0, 0), [255, 255, 255, 255]);
    assert_eq!(b.pixel(1, 1), [204, 204, 204, 128]);
}

/// A kept strip of white fringe between a cleared margin and blue artwork.
fn fringed() -> (Bitmap, Vec<bool>) {
    let mut b = solid(20, 20, BLUE);
    let mut cleared = vec![false; 400];
    for y in 0..20u32 {
        for x in 0..5u32 {
            b.set_pixel(x, y, [0, 0, 0, 0]);
            cleared[(y * 20 + x) as usize] = true;
        }
        b.set_pixel(5, y, [240, 240, 240, 255]);
        b.set_pixel(6, y, [236, 238, 240, 180]);
    }
    (b, cleared)
}

#[test]
fn a_bright_fringe_takes_the_colour_of_the_artwork_behind_it() {
    let (mut b, cleared) = fringed();
    despill(&mut b, &cleared, WHITE);
    assert_eq!(b.pixel(5, 10), [20, 30, 200, 255]);
    assert_eq!(b.pixel(6, 10), [20, 30, 200, 180], "colour only, never alpha");
    assert_eq!(b.pixel(12, 10), BLUE, "the artwork itself is untouched");
    assert_eq!(b.pixel(2, 10), [0, 0, 0, 0], "cleared pixels are not despilled");
}

#[test]
fn a_fringe_that_does_not_lean_toward_the_background_is_kept() {
    let (mut b, cleared) = fringed();
    for y in 0..20u32 {
        b.set_pixel(5, y, [40, 40, 190, 255]);
    }
    despill(&mut b, &cleared, WHITE);
    assert_eq!(b.pixel(5, 10), [40, 40, 190, 255]);
}

#[test]
fn a_feature_too_thin_to_sample_is_left_as_it_is() {
    let mut b = solid(8, 1, BLUE);
    let mut cleared = vec![false; 8];
    for x in 0..3 {
        cleared[x] = true;
    }
    b.set_pixel(3, 0, [250, 250, 250, 255]);
    let before = b.clone();
    despill(&mut b, &cleared, WHITE);
    assert_eq!(b.pixels, before.pixels, "three clean samples are not enough to judge by");
}

#[test]
fn a_flat_card_has_corners_that_agree() {
    assert_eq!(corner_disagreement(&solid(32, 32, [250, 249, 247, 255])), 0);
}

#[test]
fn one_shaded_corner_is_measured_against_the_others() {
    let mut b = solid(32, 32, [250, 250, 250, 255]);
    for y in 24..32 {
        for x in 24..32 {
            b.set_pixel(x, y, [200, 210, 250, 255]);
        }
    }
    assert_eq!(corner_disagreement(&b), 50);
}

#[test]
fn a_transparent_corner_is_measured_as_opaque_black() {
    let mut b = solid(32, 32, [100, 100, 100, 255]);
    for y in 0..8 {
        for x in 0..8 {
            b.set_pixel(x, y, [250, 250, 250, 0]);
        }
    }
    assert_eq!(corner_disagreement(&b), 100);
}

#[test]
fn a_flat_card_measures_as_one_quiet_colour() {
    let signals = border_signals(&solid(32, 32, [250, 249, 247, 255])).expect("measured");
    assert_eq!(
        signals,
        BorderSignals { corner_disagreement: 0, border_variance: 0, colours: 1, on_edge: 0, band: 32 * 32 - 24 * 24 }
    );
}

#[test]
fn a_busy_border_measures_many_colours_and_edges() {
    let b = board(32, 1, 250, 10);
    let signals = border_signals(&b).expect("measured");
    assert_eq!(signals.colours, 2);
    assert_eq!(signals.on_edge, signals.band, "every pixel of a one-pixel check is on an edge");
    assert_eq!(signals.band, 448);
}

#[test]
fn too_small_or_transparent_borders_are_not_measured() {
    assert!(border_signals(&solid(15, 40, WHITE)).is_none());
    let mut b = Bitmap::new(32, 32);
    for y in 4..28 {
        for x in 4..28 {
            b.set_pixel(x, y, WHITE);
        }
    }
    assert!(border_signals(&b).is_none());
}

#[test]
fn a_screenshot_of_the_grid_is_measured_as_one_background() {
    let signals = keyability_signals(&board(32, 8, 255, 204)).expect("measured");
    assert_eq!(signals.colours, 1);
    assert_eq!(signals.corner_disagreement, 0);
    let raw = border_signals(&board(32, 8, 255, 204)).expect("measured");
    assert_eq!(raw.colours, 2, "unflattened, the grid reads as two colours");
}

#[test]
fn one_tripped_signal_is_evidence_and_two_are_a_pattern() {
    let calm = BorderSignals { corner_disagreement: 40, border_variance: 20, colours: 8, on_edge: 220, band: 1000 };
    assert!(confident(&calm));
    let one = BorderSignals { colours: 9, ..calm };
    assert!(confident(&one));
    let two = BorderSignals { colours: 9, on_edge: 221, ..calm };
    assert!(!confident(&two));
    let corners_and_texture = BorderSignals { corner_disagreement: 41, border_variance: 21, ..calm };
    assert!(!confident(&corners_and_texture));
}

#[test]
fn the_decision_before_keying_follows_the_order_of_the_checks() {
    assert_eq!(before_key(2, 100, true, true, true, false), MatteStep::LeaveAlone);
    assert_eq!(before_key(10, 10, false, false, true, false), MatteStep::AlreadyCutOut);
    assert_eq!(before_key(10, 10, false, false, false, false), MatteStep::Refuse(Refusal::LooksLikeAPhotograph));
    assert_eq!(before_key(10, 10, false, true, false, false), MatteStep::Key);
    assert_eq!(before_key(10, 10, true, false, true, false), MatteStep::Key);
}

#[test]
fn what_a_key_did_is_judged_by_its_share_of_the_image() {
    let mut opaque = Bitmap::new(10, 10);
    for y in 0..10 {
        for x in 0..10 {
            opaque.set_pixel(x, y, [9, 9, 9, 255]);
        }
    }
    let mut mask = vec![false; 100];
    assert_eq!(after_key(&opaque, &mask), Some(Refusal::BarelyMoved));
    for m in mask.iter_mut().take(4) {
        *m = true;
    }
    assert_eq!(after_key(&opaque, &mask), Some(Refusal::BarelyMoved));
    mask[4] = true;
    assert_eq!(after_key(&opaque, &mask), None);
    let mut most = vec![true; 100];
    most[0] = false;
    assert_eq!(after_key(&opaque, &most), None);
    let empty = Bitmap::new(10, 10);
    assert_eq!(after_key(&empty, &most), Some(Refusal::WouldHaveEatenTheSubject));
    let mut eighty_five = vec![true; 100];
    for m in eighty_five.iter_mut().take(15) {
        *m = false;
    }
    assert_eq!(after_key(&empty, &eighty_five), None);
}
