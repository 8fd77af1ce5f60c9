use cursorforge::bitmap::Bitmap;
use cursorforge::crumbs::remove_crumbs;
use cursorforge::keying::{background_mask, despeckle, edge_flood, enclose_background, local_contrast};
use cursorforge::matte::{MIN_TOLERANCE, TOLERANCE};

const WHITE: [u8; 4] = [255, 255, 255, 255];

fn solid(w: u32, h: u32, rgba: [u8; 4]) -> Bitmap {
    let mut b = Bitmap::new(w, h);
    for y in 0..h {
        for x in 0..w {
            b.set_pixel(x, y, rgba);
        }
    }
    b
}

fn fill(b: &mut Bitmap, x0: u32, y0: u32, x1: u32, y1: u32, rgba: [u8; 4]) {
    for y in y0..y1 {
        for x in x0..x1 {
            b.set_pixel(x, y, rgba);
        }
    }
}

fn at(mask: &[bool], w: u32, x: u32, y: u32) -> bool {
    mask[(y * w + x) as usize]
}

/// A dark square on a white card, with a white hole in its middle.
fn card_with_holed_square() -> Bitmap {
    let mut b = solid(32, 32, WHITE);
    fill(&mut b, 8, 8, 24, 24, [10, 10, 10, 255]);
    fill(&mut b, 14, 14, 18, 18, WHITE);
    b
}

#[test]
fn the_edge_flood_takes_the_card_and_stops_at_the_subject() {
    let b = card_with_holed_square();
    let mask = edge_flood(&b, WHITE, TOLERANCE);
    assert_eq!(mask.len(), 32 * 32);
    assert!(at(&mask, 32, 0, 0));
    assert!(at(&mask, 32, 31, 31));
    assert!(at(&mask, 32, 7, 16));
    assert!(!at(&mask, 32, 8, 8), "the subject is not background");
    assert!(!at(&mask, 32, 15, 15), "the hole is not connected to the edge");
}

#[test]
fn enclosed_background_is_cleared_once_the_edge_is() {
    let b = card_with_holed_square();
    let mut mask = edge_flood(&b, WHITE, TOLERANCE);
    enclose_background(&b, WHITE, &mut mask, TOLERANCE);
    assert!(at(&mask, 32, 15, 15), "the hole went");
    assert!(at(&mask, 32, 0, 0), "the outside stays cleared");
    assert!(!at(&mask, 32, 10, 10), "the subject itself is untouched");
}

#[test]
fn an_enclosed_colour_that_only_resembles_the_background_is_kept() {
    let mut b = solid(32, 32, WHITE);
    fill(&mut b, 8, 8, 24, 24, [10, 10, 10, 255]);
    fill(&mut b, 14, 14, 18, 18, [170, 170, 170, 255]);
    let mask = background_mask(&b, WHITE, TOLERANCE);
    assert!(!at(&mask, 32, 15, 15), "a near-miss is not the background");
    assert!(at(&mask, 32, 2, 2));
}

#[test]
fn a_gentle_ramp_is_one_background() {
    let mut b = Bitmap::new(40, 40);
    for y in 0..40 {
        for x in 0..40 {
            let v = 210 + (y / 8) as u8;
            b.set_pixel(x, y, [v, v, v, 255]);
        }
    }
    fill(&mut b, 16, 16, 26, 26, [255, 30, 30, 255]);
    let mask = background_mask(&b, [212, 212, 212, 255], MIN_TOLERANCE);
    let cleared = mask.iter().filter(|c| **c).count();
    assert_eq!(cleared, 40 * 40 - 100, "everything but the subject goes");
    assert!(!at(&mask, 40, 20, 20));
}

#[test]
fn a_gradient_past_the_tolerance_is_followed_step_by_step() {
    // A horizontal ramp of four levels a step apart, each within the local
    // step of the last but the far end well past the tolerance.
    let mut b = Bitmap::new(40, 8);
    for y in 0..8 {
        for x in 0..40 {
            let v = 250 - 10 * (x / 10) as u8;
            b.set_pixel(x, y, [v, v, v, 255]);
        }
    }
    let mask = edge_flood(&b, [250, 250, 250, 255], MIN_TOLERANCE);
    assert!(mask.iter().all(|c| *c), "the flood follows the smooth ramp to its far end");
}

#[test]
fn a_textured_subject_is_not_walked_into() {
    let mut b = solid(40, 40, [128, 128, 128, 255]);
    for y in 10..30 {
        for x in 10..30 {
            let v = if (x + y) % 2 == 0 { 140 } else { 30 };
            b.set_pixel(x, y, [v, v, v, 255]);
        }
    }
    let mask = background_mask(&b, [128, 128, 128, 255], MIN_TOLERANCE);
    assert!(at(&mask, 40, 0, 0), "the flat surround goes");
    assert!(at(&mask, 40, 5, 20));
    let mut lost = 0;
    for y in 12..28 {
        for x in 12..28 {
            if at(&mask, 40, x, y) {
                lost += 1;
            }
        }
    }
    assert_eq!(lost, 0, "no thread of the weave is cleared");
}

#[test]
fn a_transparent_margin_counts_as_background_whatever_its_colour() {
    let mut b = Bitmap::new(10, 10);
    fill(&mut b, 3, 3, 7, 7, [0, 0, 0, 255]);
    let mask = edge_flood(&b, WHITE, MIN_TOLERANCE);
    assert!(at(&mask, 10, 0, 0), "clear black is background");
    assert!(!at(&mask, 10, 4, 4), "opaque black is not");
}

#[test]
fn nothing_is_flooded_when_no_edge_pixel_is_background() {
    let mut b = solid(10, 10, [0, 0, 0, 255]);
    fill(&mut b, 1, 1, 9, 9, WHITE);
    let mask = edge_flood(&b, WHITE, TOLERANCE);
    assert!(mask.iter().all(|c| !*c));
}

#[test]
fn a_lone_pixel_inside_the_background_is_despeckled() {
    let mut mask = vec![true; 25];
    mask[2 * 5 + 2] = false;
    despeckle(&mut mask, 5, 5);
    assert!(mask.iter().all(|c| *c));
}

#[test]
fn two_neighbouring_pixels_protect_each_other_from_despeckle() {
    let mut mask = vec![true; 25];
    mask[2 * 5 + 2] = false;
    mask[2 * 5 + 3] = false;
    despeckle(&mut mask, 5, 5);
    assert!(!mask[2 * 5 + 2]);
    assert!(!mask[2 * 5 + 3]);
}

#[test]
fn a_pixel_on_the_edge_is_never_despeckled() {
    let mut mask = vec![true; 25];
    mask[2 * 5] = false;
    despeckle(&mut mask, 5, 5);
    assert!(!mask[2 * 5]);
    assert_eq!(mask.iter().filter(|c| !**c).count(), 1);
}

#[test]
fn a_dark_speck_on_a_card_goes_with_the_card() {
    let mut b = solid(11, 11, WHITE);
    b.set_pixel(5, 5, [0, 0, 0, 255]);
    let flood = edge_flood(&b, WHITE, TOLERANCE);
    assert!(!at(&flood, 11, 5, 5), "the flood itself stops at the speck");
    let mask = background_mask(&b, WHITE, TOLERANCE);
    assert!(mask.iter().all(|c| *c), "the despeckle takes it");
}

#[test]
fn local_contrast_is_the_widest_channel_spread_around_a_pixel() {
    let mut b = solid(3, 3, [100, 100, 100, 255]);
    b.set_pixel(2, 2, [100, 160, 90, 255]);
    assert_eq!(local_contrast(&b, 1, 1), 60);
    assert_eq!(local_contrast(&b, 0, 0), 0, "the corner's neighbourhood repeats the edge");
    assert_eq!(local_contrast(&b, 2, 2), 60);
}

#[test]
fn clumps_of_leftover_background_go_with_the_card() {
    let mut b = solid(64, 64, WHITE);
    fill(&mut b, 20, 20, 44, 44, [20, 30, 200, 255]);
    for (cx, cy) in [(6u32, 6u32), (54, 8), (10, 52)] {
        fill(&mut b, cx, cy, cx + 3, cy + 2, [238, 240, 243, 255]);
    }
    let flood = edge_flood(&b, WHITE, MIN_TOLERANCE);
    assert!(!at(&flood, 64, 6, 6), "the flood alone leaves the crumbs");
    let mask = background_mask(&b, WHITE, MIN_TOLERANCE);
    for (cx, cy) in [(6u32, 6u32), (54, 8), (10, 52)] {
        for dy in 0..2 {
            for dx in 0..3 {
                assert!(at(&mask, 64, cx + dx, cy + dy), "a crumb survived at {},{}", cx + dx, cy + dy);
            }
        }
    }
    assert!(!at(&mask, 64, 32, 32), "the subject is untouched");
}

#[test]
fn a_detached_detail_of_another_colour_is_not_a_crumb() {
    let mut b = solid(64, 64, WHITE);
    fill(&mut b, 24, 24, 40, 40, [10, 10, 10, 255]);
    fill(&mut b, 8, 8, 10, 10, [220, 30, 30, 255]);
    let mask = background_mask(&b, WHITE, MIN_TOLERANCE);
    for dy in 0..2 {
        for dx in 0..2 {
            assert!(!at(&mask, 64, 8 + dx, 8 + dy), "the red detail stays");
        }
    }
}

#[test]
fn the_largest_island_is_never_a_crumb() {
    let b = solid(10, 10, WHITE);
    let mut mask = vec![true; 100];
    // A three-pixel island and a two-pixel one, both the background colour.
    mask[11] = false;
    mask[12] = false;
    mask[13] = false;
    mask[77] = false;
    mask[78] = false;
    remove_crumbs(&b, &mut mask, WHITE, 25);
    assert!(!mask[11] && !mask[12] && !mask[13], "the largest stays");
    assert!(mask[77] && mask[78], "the smaller one goes");
}

#[test]
fn a_diagonal_chain_is_one_island() {
    let b = solid(10, 10, WHITE);
    let mut mask = vec![true; 100];
    // Three pixels touching only at their corners: one island of three.
    mask[11] = false;
    mask[22] = false;
    mask[33] = false;
    // And two apart from it.
    mask[87] = false;
    mask[88] = false;
    remove_crumbs(&b, &mut mask, WHITE, 25);
    assert!(!mask[11] && !mask[22] && !mask[33]);
    assert!(mask[87] && mask[88]);
}

#[test]
fn islands_that_tie_for_largest_are_both_kept() {
    let b = solid(10, 10, WHITE);
    let mut mask = vec![true; 100];
    mask[11] = false;
    mask[12] = false;
    mask[77] = false;
    mask[78] = false;
    let before = mask.clone();
    remove_crumbs(&b, &mut mask, WHITE, 25);
    assert_eq!(mask, before);
}

#[test]
fn a_negative_soft_band_sweeps_nothing() {
    let b = solid(10, 10, WHITE);
    let mut mask = vec![true; 100];
    mask[11] = false;
    mask[12] = false;
    mask[77] = false;
    let before = mask.clone();
    remove_crumbs(&b, &mut mask, WHITE, -1);
    assert_eq!(mask, before);
}
