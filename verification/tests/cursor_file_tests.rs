use cursorforge::ani_reader::{common_size, decode_ani};
use cursorforge::ani_writer::{chunk, enforce_caps, ms_to_jiffies, nul_terminated, write_ani, AniFrame, AniMetadata, MAX_FRAMES, MAX_DURATION_MS};
use cursorforge::bitmap::Bitmap;
use cursorforge::cur_writer::{and_mask_stride, write_cur, CursorImage};
use cursorforge::icon_reader::{decode_icon, looks_like_an_ani, looks_like_an_icon};

const ICONDIR_SIZE: usize = 6;
const ICONDIRENTRY_SIZE: usize = 16;

fn solid(size: u32) -> Bitmap {
    square(size, [255, 255, 255, 255])
}

fn square(size: u32, rgba: [u8; 4]) -> Bitmap {
    let mut bitmap = Bitmap::new(size, size);
    for y in 0..size {
        for x in 0..size {
            bitmap.set_pixel(x, y, rgba);
        }
    }
    bitmap
}

fn read_u16(bytes: &[u8], at: usize) -> u16 {
    u16::from_le_bytes([bytes[at], bytes[at + 1]])
}

fn read_u32(bytes: &[u8], at: usize) -> u32 {
    u32::from_le_bytes([bytes[at], bytes[at + 1], bytes[at + 2], bytes[at + 3]])
}

fn find(haystack: &[u8], needle: &[u8]) -> Option<usize> {
    haystack.windows(needle.len()).position(|w| w == needle)
}

fn frame(delay_ms: u32) -> AniFrame {
    AniFrame { images: vec![CursorImage::new(solid(32), (0, 0))], delay_ms }
}

#[test]
fn header_declares_a_cursor_not_an_icon() {
    let file = write_cur(&[CursorImage::new(solid(32), (0, 0))]).unwrap();
    assert_eq!(read_u16(&file, 0), 0, "idReserved");
    assert_eq!(read_u16(&file, 2), 2, "idType must be 2 for a cursor");
    assert_eq!(read_u16(&file, 4), 1, "idCount");
}

#[test]
fn the_hotspot_lives_in_the_planes_and_bitcount_fields() {
    let file = write_cur(&[CursorImage::new(solid(32), (7, 11))]).unwrap();
    assert_eq!(read_u16(&file, ICONDIR_SIZE + 4), 7, "wPlanes carries X");
    assert_eq!(read_u16(&file, ICONDIR_SIZE + 6), 11, "wBitCount carries Y");
}

#[test]
fn dib_height_is_doubled_for_the_stacked_masks() {
    let file = write_cur(&[CursorImage::new(solid(32), (0, 0))]).unwrap();
    let offset = read_u32(&file, ICONDIR_SIZE + 12) as usize;
    assert_eq!(read_u32(&file, offset), 40, "biSize");
    assert_eq!(read_u32(&file, offset + 4), 32, "biWidth");
    assert_eq!(read_u32(&file, offset + 8), 64, "biHeight = 2 x 32");
    assert_eq!(read_u16(&file, offset + 14), 32, "biBitCount");
    assert_eq!(read_u32(&file, offset + 16), 0, "BI_RGB");
}

#[test]
fn a_256px_image_stores_its_dimensions_as_zero() {
    let file = write_cur(&[CursorImage::new(solid(256), (1, 1))]).unwrap();
    assert_eq!(file[ICONDIR_SIZE], 0, "bWidth for 256 is encoded as 0");
    assert_eq!(file[ICONDIR_SIZE + 1], 0, "bHeight for 256 is encoded as 0");
}

#[test]
fn offsets_and_lengths_describe_the_actual_payloads() {
    let images: Vec<_> = [32u32, 48, 64].iter().map(|&s| CursorImage::new(solid(s), (0, 0))).collect();
    let file = write_cur(&images).unwrap();
    let count = read_u16(&file, 4) as usize;
    assert_eq!(count, 3);
    let mut expected = (ICONDIR_SIZE + ICONDIRENTRY_SIZE * count) as u32;
    for i in 0..count {
        let entry = ICONDIR_SIZE + ICONDIRENTRY_SIZE * i;
        let len = read_u32(&file, entry + 8);
        let offset = read_u32(&file, entry + 12);
        assert_eq!(offset, expected, "entry {i} offset");
        assert!(offset as usize + len as usize <= file.len(), "entry {i} fits");
        expected += len;
    }
    assert_eq!(expected as usize, file.len(), "no trailing slack");
}

#[test]
fn images_are_ordered_smallest_first_whatever_order_they_arrive_in() {
    let images = vec![
        CursorImage::new(solid(64), (0, 0)),
        CursorImage::new(solid(32), (0, 0)),
        CursorImage::new(solid(48), (0, 0)),
    ];
    let file = write_cur(&images).unwrap();
    assert_eq!(file[ICONDIR_SIZE], 32);
    assert_eq!(file[ICONDIR_SIZE + ICONDIRENTRY_SIZE], 48);
    assert_eq!(file[ICONDIR_SIZE + ICONDIRENTRY_SIZE * 2], 64);
}

#[test]
fn and_mask_rows_are_padded_to_four_bytes() {
    assert_eq!(and_mask_stride(1), 4);
    assert_eq!(and_mask_stride(32), 4);
    assert_eq!(and_mask_stride(33), 8);
    assert_eq!(and_mask_stride(48), 8);
    assert_eq!(and_mask_stride(256), 32);
}

#[test]
fn transparent_pixels_set_their_and_mask_bit() {
    let mut bitmap = Bitmap::new(8, 1);
    bitmap.set_pixel(0, 0, [255, 255, 255, 255]);
    let file = write_cur(&[CursorImage::new(bitmap, (0, 0))]).unwrap();
    let offset = read_u32(&file, ICONDIR_SIZE + 12) as usize;
    let and_offset = offset + 40 + 8 * 4;
    assert_eq!(file[and_offset], 0b0111_1111);
}

#[test]
fn empty_and_oversized_inputs_are_refused() {
    assert!(write_cur(&[]).is_err());
    let too_big = Bitmap::new(300, 300);
    assert!(write_cur(&[CursorImage::new(too_big, (0, 0))]).is_err());
}

#[test]
fn a_cursor_this_app_wrote_reads_back_unchanged() {
    let bitmap = square(32, [200, 30, 60, 255]);
    let bytes = write_cur(&[CursorImage::new(bitmap, (4, 7))]).expect("write");
    let read = decode_icon(&bytes).expect("read");
    assert_eq!((read.bitmap.width, read.bitmap.height), (32, 32));
    assert_eq!(read.hotspot, Some((4, 7)));
    assert_eq!(read.bitmap.pixel(10, 10), [200, 30, 60, 255]);
}

#[test]
fn transparency_survives_the_round_trip() {
    let mut bitmap = square(16, [255, 255, 255, 255]);
    bitmap.set_pixel(0, 0, [0, 0, 0, 0]);
    let bytes = write_cur(&[CursorImage::new(bitmap, (0, 0))]).expect("write");
    let read = decode_icon(&bytes).expect("read");
    assert_eq!(read.bitmap.alpha(0, 0), 0);
    assert_eq!(read.bitmap.alpha(8, 8), 255);
}

#[test]
fn the_largest_image_in_the_file_is_the_one_read() {
    let images = vec![
        CursorImage::new(square(16, [10, 10, 10, 255]), (0, 0)),
        CursorImage::new(square(48, [20, 20, 20, 255]), (0, 0)),
        CursorImage::new(square(32, [30, 30, 30, 255]), (0, 0)),
    ];
    let bytes = write_cur(&images).expect("write");
    assert_eq!(decode_icon(&bytes).expect("read").bitmap.width, 48);
}

#[test]
fn a_file_that_is_not_a_cursor_is_refused() {
    assert!(decode_icon(b"this is plainly not a cursor").is_err());
    assert!(!looks_like_an_icon(b"RIFF\0\0\0\0ACON"));
    assert!(looks_like_an_ani(b"RIFF\0\0\0\0ACON"));
}

#[test]
fn every_truncation_of_a_cursor_is_refused_rather_than_trusted() {
    let bytes = write_cur(&[CursorImage::new(square(8, [1, 2, 3, 255]), (1, 1))]).expect("write");
    for len in 0..bytes.len() {
        let _ = decode_icon(&bytes[..len]);
    }
    assert!(decode_icon(&bytes[..ICONDIR_SIZE]).is_err());
}

#[test]
fn jiffy_conversion_rounds_and_clamps() {
    assert_eq!(ms_to_jiffies(0), 1, "never zero");
    assert_eq!(ms_to_jiffies(16), 1);
    assert_eq!(ms_to_jiffies(100), 6);
    assert_eq!(ms_to_jiffies(1_000), 60);
    assert_eq!(ms_to_jiffies(10_000), 100, "clamped");
}

#[test]
fn odd_length_chunks_are_word_aligned() {
    let mut out = Vec::new();
    chunk(*b"test", &[1, 2, 3], &mut out);
    assert_eq!(out.len(), 12, "8 header + 3 payload + 1 pad");
    assert_eq!(read_u32(&out, 4), 3, "size excludes the pad byte");
    assert_eq!(out[11], 0);
}

#[test]
fn container_is_a_riff_acon_with_a_correct_size_field() {
    let file = write_ani(&[frame(100), frame(100)], &AniMetadata::default()).unwrap();
    assert_eq!(&file[0..4], b"RIFF");
    assert_eq!(&file[8..12], b"ACON");
    assert_eq!(read_u32(&file, 4) as usize, file.len() - 8);
}

#[test]
fn frame_and_duration_caps_are_enforced() {
    let delays = vec![100u32; 200];
    let kept = enforce_caps(&delays);
    assert!(kept <= MAX_FRAMES, "frame cap");
    assert!(kept as u32 * 100 <= MAX_DURATION_MS, "duration cap");
    let many: Vec<AniFrame> = (0..200).map(|_| frame(100)).collect();
    let file = write_ani(&many, &AniMetadata::default()).unwrap();
    let at = find(&file, b"anih").unwrap();
    let steps = read_u32(&file, at + 12);
    assert!(steps <= MAX_FRAMES as u32);
    assert!(steps * 100 <= MAX_DURATION_MS);
}

#[test]
fn metadata_is_written_as_inert_nul_terminated_text() {
    let file = write_ani(
        &[frame(100)],
        &AniMetadata { name: Some("PULSE\u{7}\nRING".into()), author: Some("feylo".into()) },
    )
    .unwrap();
    let at = find(&file, b"INAM").unwrap();
    let len = read_u32(&file, at + 4) as usize;
    assert_eq!(&file[at + 8..at + 8 + len], b"PULSERING\0", "controls stripped");
    assert!(find(&file, b"IART").is_some());
    assert_eq!(nul_terminated("ab"), b"ab\0".to_vec());
}

#[test]
fn an_empty_animation_is_refused() {
    assert!(write_ani(&[], &AniMetadata::default()).is_err());
}

#[test]
fn an_animation_reads_back_with_its_frames_and_delays() {
    let frames: Vec<AniFrame> = (0..3)
        .map(|index| AniFrame {
            images: vec![CursorImage::new(square(32, [10 * index as u8 + 10, 0, 0, 255]), (0, 0))],
            delay_ms: 100 * (index + 1),
        })
        .collect();
    let bytes = write_ani(&frames, &AniMetadata::default()).expect("write");
    let read = decode_ani(&bytes).expect("read");
    assert_eq!(read.len(), 3);
    for (index, (bitmap, delay)) in read.iter().enumerate() {
        assert_eq!(bitmap.pixel(5, 5)[0], 10 * index as u8 + 10);
        assert_eq!(*delay, ms_to_jiffies(100 * (index as u32 + 1)) * 1000 / 60);
    }
}

#[test]
fn an_animation_is_not_read_as_a_still() {
    let bytes = write_ani(&[frame(100)], &AniMetadata::default()).expect("write");
    assert!(looks_like_an_ani(&bytes));
    assert!(!looks_like_an_icon(&bytes));
    assert!(decode_icon(&bytes).is_err());
}

#[test]
fn malformed_animations_are_refused_rather_than_trusted() {
    assert!(decode_ani(b"RIFFxxxxACON").is_err());
    assert!(decode_ani(b"").is_err());
    let bytes = write_ani(&[frame(100), frame(200)], &AniMetadata::default()).expect("write");
    for len in 0..bytes.len() {
        let _ = decode_ani(&bytes[..len]);
    }
}

const AF_ICON: u32 = 0x0000_0001;
const AF_SEQUENCE: u32 = 0x0000_0002;

fn marked_frame(delay_ms: u32) -> AniFrame {
    let mut bitmap = Bitmap::new(32, 32);
    bitmap.set_pixel(1, 1, [255, 255, 255, 255]);
    AniFrame { images: vec![CursorImage::new(bitmap, (0, 0))], delay_ms }
}

#[test]
fn anih_reports_the_frame_count_and_the_icon_flag() {
    let file = write_ani(&[marked_frame(100), marked_frame(100), marked_frame(100)], &AniMetadata::default()).unwrap();
    let at = find(&file, b"anih").unwrap();
    assert_eq!(read_u32(&file, at + 4), 36, "chunk size");
    assert_eq!(read_u32(&file, at + 8), 36, "cbSize");
    assert_eq!(read_u32(&file, at + 12), 3, "cSteps");
    assert_eq!(read_u32(&file, at + 16), 3, "cFrames");
    assert_eq!(read_u32(&file, at + 36), 6, "100ms is 6 jiffies");
    assert_eq!(read_u32(&file, at + 40) & AF_ICON, AF_ICON);
}

#[test]
fn every_frame_is_a_complete_cur_file() {
    let file = write_ani(&[marked_frame(80), marked_frame(80)], &AniMetadata::default()).unwrap();
    let at = find(&file, b"icon").unwrap();
    let len = read_u32(&file, at + 4) as usize;
    let cur = &file[at + 8..at + 8 + len];
    assert_eq!(u16::from_le_bytes([cur[0], cur[1]]), 0, "idReserved");
    assert_eq!(u16::from_le_bytes([cur[2], cur[3]]), 2, "embedded idType is 2");
    assert_eq!(u16::from_le_bytes([cur[4], cur[5]]), 1, "idCount");
}

#[test]
fn uneven_timing_emits_rate_and_seq_and_sets_the_sequence_flag() {
    let file = write_ani(&[marked_frame(50), marked_frame(200)], &AniMetadata::default()).unwrap();
    let at = find(&file, b"anih").unwrap();
    assert_eq!(read_u32(&file, at + 40) & AF_SEQUENCE, AF_SEQUENCE);
    let rate = find(&file, b"rate").unwrap();
    assert_eq!(read_u32(&file, rate + 4), 8, "two u32 delays");
    assert_eq!(read_u32(&file, rate + 8), 3, "50ms -> 3 jiffies");
    assert_eq!(read_u32(&file, rate + 12), 12, "200ms -> 12 jiffies");
    assert!(find(&file, b"seq ").is_some());
}

#[test]
fn evenly_timed_animations_skip_the_optional_chunks() {
    let file = write_ani(
        &[marked_frame(100), marked_frame(100), marked_frame(100), marked_frame(100)],
        &AniMetadata::default(),
    )
    .unwrap();
    assert!(find(&file, b"rate").is_none());
    assert!(find(&file, b"seq ").is_none());
}

#[test]
fn malformed_files_are_refused_rather_than_trusted() {
    let cases: Vec<Vec<u8>> = vec![
        vec![],
        vec![0, 0, 2, 0],
        vec![0, 0, 2, 0, 1, 0],
        vec![0, 0, 2, 0, 0xff, 0xff],
        {
            let mut bytes = vec![0, 0, 2, 0, 1, 0];
            bytes.extend_from_slice(&[32, 32, 0, 0, 0, 0, 0, 0]);
            bytes.extend_from_slice(&0xffff_ffffu32.to_le_bytes());
            bytes.extend_from_slice(&0xffff_ffffu32.to_le_bytes());
            bytes
        },
        b"RIFF\x04\x00\x00\x00ACON".to_vec(),
        {
            let mut bytes = b"RIFF\xff\xff\xff\xffACON".to_vec();
            bytes.extend_from_slice(b"anih");
            bytes.extend_from_slice(&0xffff_ffffu32.to_le_bytes());
            bytes
        },
    ];
    for bytes in cases {
        assert!(decode_icon(&bytes).is_err() || decode_ani(&bytes).is_err());
    }
}

#[test]
fn truncation_at_every_length_is_survivable() {
    let bytes = write_cur(&[CursorImage::new(square(32, [9, 9, 9, 255]), (1, 1))]).expect("write");
    for cut in 0..bytes.len() {
        let _ = decode_icon(&bytes[..cut]);
    }
    let frames = vec![AniFrame { images: vec![CursorImage::new(square(16, [9, 9, 9, 255]), (0, 0))], delay_ms: 100 }];
    let ani = write_ani(&frames, &AniMetadata::default()).expect("write");
    for cut in 0..ani.len() {
        let _ = decode_ani(&ani[..cut]);
    }
}

#[test]
fn a_written_animation_reads_back_with_its_delays_rounded_to_jiffies() {
    let frames = vec![
        AniFrame { images: vec![CursorImage::new(square(16, [200, 10, 10, 255]), (0, 0))], delay_ms: 35 },
        AniFrame { images: vec![CursorImage::new(square(16, [10, 200, 10, 255]), (0, 0))], delay_ms: 100 },
    ];
    let bytes = write_ani(&frames, &AniMetadata::default()).expect("write");
    let read = decode_ani(&bytes).expect("read");
    assert_eq!(read.len(), 2);
    assert_eq!(read[0].0.pixel(3, 3), [200, 10, 10, 255]);
    assert_eq!(read[1].0.pixel(3, 3), [10, 200, 10, 255]);
    assert_eq!(read[0].1, 33, "35 ms is two jiffies");
    assert_eq!(read[1].1, 100);
}

#[test]
fn mixed_frames_are_brought_to_the_largest_width_and_height() {
    let frames = vec![(Bitmap::new(16, 40), 100u32), (Bitmap::new(32, 8), 100u32)];
    assert_eq!(common_size(&frames), (32, 40));
    assert_eq!(common_size(&Vec::new()), (1, 1));
}
