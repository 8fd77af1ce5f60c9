use cursorforge::bitmap::Bitmap;
use cursorforge::cur_writer::TARGET_SIZES;
use cursorforge::error::AppError;
use cursorforge::hotspot::{suggest, HotspotMode};
use cursorforge::matte::{already_cut_out, sample_border, suggested_tolerance, tolerance_for, MIN_TOLERANCE, TOLERANCE};
use cursorforge::pipeline::{
    animation_bounds, collect_frames, finish_master, frame_delay_ms, guard_dimensions, nearest_size, screen_input, sizes_for_source,
    slice_sprite_sheet, sniff, ImageKind, MAX_DIMENSION, MAX_INPUT_BYTES,
};
use cursorforge::rescale::ladder_for;
use cursorforge::settings::{MAX_CURSOR_PX, MIN_CURSOR_PX};

fn arrow() -> Bitmap {
    let mut bitmap = Bitmap::new(16, 16);
    for y in 0..16u32 {
        for x in 0..=y.min(8) {
            bitmap.set_pixel(x, y, [255, 255, 255, 255]);
        }
    }
    bitmap
}

fn centred_ring() -> Bitmap {
    let mut bitmap = Bitmap::new(17, 17);
    for y in 0..17u32 {
        for x in 0..17u32 {
            let dx = x as f32 - 8.0;
            let dy = y as f32 - 8.0;
            let r = (dx * dx + dy * dy).sqrt();
            if (5.0..7.0).contains(&r) {
                bitmap.set_pixel(x, y, [255, 255, 255, 255]);
            }
        }
    }
    bitmap
}

fn card(size: u32) -> Bitmap {
    let mut b = Bitmap::new(size, size);
    for y in 0..size {
        for x in 0..size {
            b.set_pixel(x, y, [250, 250, 250, 255]);
        }
    }
    b
}

#[test]
fn suggestion_matches_the_shape() {
    assert_eq!(suggest(&arrow()), HotspotMode::TipDetect);
    assert_eq!(suggest(&centred_ring()), HotspotMode::AlphaCentroid);
}

#[test]
fn formats_are_identified_from_magic_bytes_only() {
    assert_eq!(sniff(b"\x89PNG\r\n\x1a\n\0\0\0\0").unwrap(), ImageKind::Png);
    assert_eq!(sniff(b"GIF89a\0\0\0\0\0\0").unwrap(), ImageKind::Gif);
    assert!(sniff(b"MZ\x90\x00\x03\x00\x00\x00\x04\x00\x00\x00").is_err());
    assert!(sniff(b"short").is_err());
}

#[test]
fn oversized_input_is_rejected_before_any_decoding_happens() {
    let huge = vec![0u8; MAX_INPUT_BYTES + 1];
    assert_eq!(screen_input(&huge), Err(AppError::ImageTooLarge));
}

#[test]
fn dimension_guard_rejects_a_decompression_bomb() {
    assert!(guard_dimensions(MAX_DIMENSION + 1, 1).is_err());
    assert!(guard_dimensions(0, 10).is_err());
    assert!(guard_dimensions(MAX_DIMENSION, MAX_DIMENSION).is_ok());
}

#[test]
fn preparing_a_master_squares_and_pads_it() {
    let mut wide = Bitmap::new(20, 10);
    for x in 0..20 {
        wide.set_pixel(x, 5, [255, 255, 255, 255]);
    }
    let master = finish_master(&wide).unwrap();
    assert_eq!(master.width, master.height, "square");
    assert_eq!(master.width, 22, "20px of artwork plus 1px of padding each side");
}

#[test]
fn a_fully_transparent_image_is_refused_with_a_clear_reason() {
    let error = finish_master(&Bitmap::new(16, 16)).unwrap_err();
    assert!(error.message().contains("transparent"));
}

#[test]
fn a_small_subject_in_a_large_frame_keeps_its_own_pixels() {
    let mut frame = Bitmap::new(2048, 2048);
    for y in 900..1100 {
        for x in 900..1100 {
            frame.set_pixel(x, y, [255, 255, 255, 255]);
        }
    }
    let master = finish_master(&frame).expect("a 200px subject is plenty to work from");
    assert!(master.width >= 190, "{}px", master.width);
    assert!(master.width <= 260, "{}px", master.width);
}

#[test]
fn sprite_sheets_slice_in_reading_order() {
    let mut sheet = Bitmap::new(4, 2);
    sheet.set_pixel(0, 0, [1, 0, 0, 255]);
    sheet.set_pixel(2, 0, [2, 0, 0, 255]);
    sheet.set_pixel(0, 1, [3, 0, 0, 255]);
    sheet.set_pixel(2, 1, [4, 0, 0, 255]);
    let cells = slice_sprite_sheet(&sheet, 2, 2).unwrap();
    assert_eq!(cells.len(), 4);
    assert_eq!(cells[0].pixel(0, 0)[0], 1);
    assert_eq!(cells[1].pixel(0, 0)[0], 2);
    assert_eq!(cells[2].pixel(0, 0)[0], 3);
    assert_eq!(cells[3].pixel(0, 0)[0], 4);
}

#[test]
fn sprite_sheets_that_do_not_divide_evenly_are_refused() {
    assert!(slice_sprite_sheet(&Bitmap::new(5, 4), 2, 2).is_err());
    assert!(slice_sprite_sheet(&Bitmap::new(4, 4), 0, 2).is_err());
}

#[test]
fn size_ladders_enlarge_up_to_a_limit_and_then_stop() {
    let sizes = sizes_for_source(64, 64);
    assert!(sizes.contains(&64));
    assert!(sizes.contains(&128));
    assert_eq!(sizes_for_source(512, 512), TARGET_SIZES.to_vec());
    let small = sizes_for_source(16, 16);
    assert!(small.contains(&64), "64 is a 4x enlargement of 16 and is allowed");
    assert!(!small.contains(&96), "96 from a 16px source is 6x and is only bytes");
    let tiny = sizes_for_source(12, 12);
    assert!(!tiny.is_empty());
    assert_eq!(tiny[0], TARGET_SIZES[0]);
}

#[test]
fn an_animation_with_no_content_is_refused_clearly() {
    let frames = vec![(Bitmap::new(8, 8), 60u32), (Bitmap::new(8, 8), 60)];
    for (frame, _) in &frames {
        assert_eq!(finish_master(frame).unwrap_err(), AppError::CompletelyTransparent);
    }
    assert!(collect_frames(Vec::new()).is_err());
}

#[test]
fn nearest_size_snaps_to_a_shipped_resolution() {
    assert_eq!(nearest_size(30), 32);
    assert_eq!(nearest_size(50), 48);
    assert_eq!(nearest_size(1), 10);
    assert_eq!(nearest_size(11), 10);
    assert_eq!(nearest_size(14), 16);
    assert_eq!(nearest_size(1_000), 128);
}

#[test]
fn between_two_rungs_the_smaller_wins() {
    assert_eq!(nearest_size(13), 10);
    assert_eq!(nearest_size(40), 32);
}

#[test]
fn every_size_the_ui_offers_snaps_onto_the_ladder() {
    for requested in MIN_CURSOR_PX..=MAX_CURSOR_PX {
        let snapped = nearest_size(requested);
        assert!(TARGET_SIZES.contains(&snapped), "{requested} snapped to {snapped}, which is not a shipped size");
    }
}

#[test]
fn gif_delays_become_milliseconds() {
    assert_eq!(frame_delay_ms(100, 1), 100);
    assert_eq!(frame_delay_ms(5, 1), 10);
    assert_eq!(frame_delay_ms(0, 0), 100);
}

#[test]
fn the_requested_size_is_always_on_the_ladder() {
    assert!(ladder_for(32, 32, 128).contains(&128));
    assert!(ladder_for(16, 16, 10).contains(&10));
    let ladder = ladder_for(64, 64, 32);
    assert_eq!(ladder.iter().filter(|&&s| s == 32).count(), 1);
    assert!(ladder.windows(2).all(|pair| pair[0] < pair[1]), "sorted and unique");
}

#[test]
fn a_size_off_the_ladder_is_slotted_in_order() {
    assert_eq!(ladder_for(8, 8, 20), vec![10, 16, 20, 24, 32]);
}

#[test]
fn something_that_is_not_a_cursor_is_refused_rather_than_written() {
    assert!(cursorforge::icon_reader::decode_icon(b"not a cursor at all").is_err());
    assert!(cursorforge::ani_reader::decode_ani(b"RIFFxxxxACON").is_err());
}

#[test]
fn a_flat_background_is_keyed_tightly_enough_to_spare_a_similar_subject() {
    assert_eq!(tolerance_for(0), MIN_TOLERANCE, "a flat card gets no slack");
    assert!(tolerance_for(0) < TOLERANCE, "the old fixed tolerance is the ceiling, never the floor");
    assert_eq!(tolerance_for(50), TOLERANCE);
    assert!(tolerance_for(4) > tolerance_for(0));
}

#[test]
fn a_flat_card_is_sampled_and_keyed_tightly() {
    let b = card(32);
    assert_eq!(sample_border(&b), Some([250, 250, 250, 255]));
    assert_eq!(suggested_tolerance(&b), MIN_TOLERANCE);
    assert!(!already_cut_out(&b));
    assert!(already_cut_out(&Bitmap::new(8, 8)));
}

fn dotted(w: u32, h: u32, x: u32, y: u32) -> Bitmap {
    let mut b = Bitmap::new(w, h);
    b.set_pixel(x, y, [255, 0, 0, 255]);
    b
}

#[test]
fn an_animation_is_cropped_to_the_union_of_its_frames() {
    let frames = vec![(dotted(10, 10, 2, 7), 50), (Bitmap::new(10, 10), 50), (dotted(10, 10, 6, 3), 50)];
    assert_eq!(animation_bounds(&frames), Ok((2, 3, 6, 7)));
}

#[test]
fn an_animation_with_nothing_to_show_is_refused() {
    let none: Vec<(Bitmap, u32)> = Vec::new();
    assert_eq!(animation_bounds(&none), Err(AppError::EmptyAnimation));
    assert_eq!(AppError::EmptyAnimation.message(), "the animation has no frames");
    let clear = vec![(Bitmap::new(4, 4), 10), (Bitmap::new(4, 4), 10)];
    assert_eq!(animation_bounds(&clear), Err(AppError::TransparentAnimation));
}
