use cursorforge::bitmap::Bitmap;
use cursorforge::trace::{find_shapes, trace_outline, MIN_SHAPE};

const WHITE: [u8; 4] = [255, 255, 255, 255];
const INK: [u8; 4] = [20, 20, 30, 255];

fn card(w: u32, h: u32) -> Bitmap {
    let mut b = Bitmap::new(w, h);
    for y in 0..h {
        for x in 0..w {
            b.set_pixel(x, y, WHITE);
        }
    }
    b
}

fn fill(b: &mut Bitmap, x0: u32, y0: u32, x1: u32, y1: u32, rgba: [u8; 4]) {
    for y in y0..y1 {
        for x in x0..x1 {
            b.set_pixel(x, y, rgba);
        }
    }
}

#[test]
fn ink_is_opaque_and_dark() {
    let mut b = Bitmap::new(6, 1);
    b.set_pixel(0, 0, [0, 0, 0, 255]);
    b.set_pixel(1, 0, [255, 255, 255, 255]);
    b.set_pixel(2, 0, [0, 0, 0, 128]);
    b.set_pixel(3, 0, [0, 0, 0, 129]);
    b.set_pixel(4, 0, [160, 160, 160, 255]);
    b.set_pixel(5, 0, [159, 159, 159, 255]);
    let ink = b.ink_layer();
    let alphas: Vec<u8> = (0..6).map(|x| ink.pixel(x, 0)[3]).collect();
    assert_eq!(alphas, vec![255, 0, 0, 255, 0, 255]);
    assert_eq!(ink.pixel(5, 0), [159, 159, 159, 255]);
}

#[test]
fn shapes_are_listed_top_to_bottom_and_specks_are_dropped() {
    let mut b = card(40, 40);
    fill(&mut b, 0, 0, 3, 3, INK);
    fill(&mut b, 20, 2, 35, 17, INK);
    fill(&mut b, 2, 20, 18, 36, INK);
    let shapes = find_shapes(&b);
    assert_eq!(shapes.len(), 2);
    let a = shapes[0];
    assert_eq!((a.id, a.x0, a.y0, a.x1, a.y1, a.count), (2, 20, 2, 34, 16, 225));
    assert_eq!((a.start_x, a.start_y), (20, 2));
    let c = shapes[1];
    assert_eq!((c.id, c.x0, c.y0, c.x1, c.y1, c.count), (3, 2, 20, 17, 35, 256));
    assert_eq!((c.start_x, c.start_y), (2, 20));
}

#[test]
fn a_shape_must_hold_more_than_the_minimum() {
    // 10 by 20 is exactly the minimum and is dropped; one more pixel keeps it.
    let mut b = card(30, 30);
    fill(&mut b, 1, 1, 11, 21, INK);
    assert_eq!(MIN_SHAPE, 200);
    assert!(find_shapes(&b).is_empty());
    b.set_pixel(11, 1, INK);
    let shapes = find_shapes(&b);
    assert_eq!(shapes.len(), 1);
    assert_eq!(shapes[0].count, 201);
    assert_eq!((shapes[0].x0, shapes[0].x1), (1, 11));
}

#[test]
fn shapes_touching_only_at_a_corner_are_separate() {
    let mut b = card(40, 40);
    fill(&mut b, 0, 0, 15, 15, INK);
    fill(&mut b, 15, 15, 30, 30, INK);
    let shapes = find_shapes(&b);
    assert_eq!(shapes.len(), 2);
    assert_eq!((shapes[0].id, shapes[0].count), (1, 225));
    assert_eq!((shapes[1].id, shapes[1].x0, shapes[1].y0), (2, 15, 15));
}

#[test]
fn an_irregular_shape_starts_at_its_first_pixel_in_reading_order() {
    // An L: the top row starts at x 10, the foot reaches further left.
    let mut b = card(40, 40);
    fill(&mut b, 10, 0, 20, 30, INK);
    fill(&mut b, 0, 20, 10, 30, INK);
    let shapes = find_shapes(&b);
    assert_eq!(shapes.len(), 1);
    let s = shapes[0];
    assert_eq!((s.x0, s.y0, s.x1, s.y1, s.count), (0, 0, 19, 29, 400));
    assert_eq!((s.start_x, s.start_y), (10, 0));
}

#[test]
fn a_small_square_is_walked_round_until_the_walk_may_close() {
    let mut b = card(4, 4);
    fill(&mut b, 1, 1, 3, 3, INK);
    let walk = trace_outline(&b, 1, 1);
    let round = [(1, 1), (2, 1), (2, 2), (1, 2)];
    let expected: Vec<(u32, u32)> = round.iter().cycle().take(12).copied().collect();
    assert_eq!(walk, expected);
}

#[test]
fn a_lone_pixel_outline_is_the_pixel() {
    let mut b = card(5, 5);
    b.set_pixel(2, 3, INK);
    assert_eq!(trace_outline(&b, 2, 3), vec![(2, 3)]);
}

#[test]
fn an_outline_from_no_ink_goes_nowhere() {
    let b = card(5, 5);
    assert_eq!(trace_outline(&b, 0, 0), vec![(0, 0)]);
}

#[test]
fn a_block_outline_follows_its_rim_and_stays_on_the_shape() {
    let mut b = card(40, 40);
    fill(&mut b, 5, 5, 25, 20, INK);
    let shapes = find_shapes(&b);
    assert_eq!(shapes.len(), 1);
    let s = shapes[0];
    let walk = trace_outline(&b, s.start_x, s.start_y);
    // Once round the rim of a 20 by 15 block, back at the corner it left.
    assert_eq!(walk.len(), 2 * (19 + 14));
    assert_eq!(walk[0], (5, 5));
    assert_eq!(walk[19], (24, 5));
    assert_eq!(walk[19 + 14], (24, 19));
    assert_eq!(walk[2 * 19 + 14], (5, 19));
    for &(x, y) in &walk {
        assert!((5..25).contains(&x) && (5..20).contains(&y));
        assert!(x == 5 || x == 24 || y == 5 || y == 19);
    }
}
