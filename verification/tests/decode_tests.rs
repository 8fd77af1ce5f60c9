use cursorforge::error::AppError;
use cursorforge::pipeline::{decode, Source};
use image::codecs::gif::GifEncoder;
use image::{Delay, Frame, ImageFormat, RgbaImage};
use std::io::Cursor;

fn png_of(image: &RgbaImage) -> Vec<u8> {
    let mut bytes = Vec::new();
    image.write_to(&mut Cursor::new(&mut bytes), ImageFormat::Png).unwrap();
    bytes
}

#[test]
fn a_still_png_decodes_to_its_pixels() {
    let mut image = RgbaImage::new(3, 2);
    image.put_pixel(2, 1, image::Rgba([10, 20, 30, 40]));
    match decode(&png_of(&image)).unwrap() {
        Source::Static(b) => {
            assert_eq!((b.width, b.height), (3, 2));
            assert_eq!(b.pixel(2, 1), [10, 20, 30, 40]);
            assert_eq!(b.pixel(0, 0), [0, 0, 0, 0]);
        }
        Source::Animated(_) => panic!("a still PNG is one picture"),
    }
}

#[test]
fn the_header_size_is_refused_before_the_full_decode() {
    let image = RgbaImage::new(5000, 1);
    assert_eq!(decode(&png_of(&image)).err(), Some(AppError::ImageTooLarge));
}

#[test]
fn bytes_that_only_look_like_a_png_are_an_unsupported_format() {
    let mut bytes = vec![0x89, 0x50, 0x4e, 0x47, 0x0d, 0x0a, 0x1a, 0x0a];
    bytes.extend_from_slice(&[7u8; 40]);
    assert_eq!(decode(&bytes).err(), Some(AppError::UnsupportedFormat));
}

#[test]
fn too_short_an_input_is_refused_by_the_screen() {
    assert_eq!(decode(b"GIF8").err(), Some(AppError::TooShort));
}

#[test]
fn a_gif_decodes_frame_by_frame_with_its_delays() {
    let mut bytes = Vec::new();
    {
        let mut encoder = GifEncoder::new(&mut bytes);
        let red = RgbaImage::from_pixel(2, 2, image::Rgba([255, 0, 0, 255]));
        let blue = RgbaImage::from_pixel(2, 2, image::Rgba([0, 0, 255, 255]));
        encoder.encode_frame(Frame::from_parts(red, 0, 0, Delay::from_numer_denom_ms(50, 1))).unwrap();
        encoder.encode_frame(Frame::from_parts(blue, 0, 0, Delay::from_numer_denom_ms(0, 1))).unwrap();
    }
    match decode(&bytes).unwrap() {
        Source::Animated(frames) => {
            assert_eq!(frames.len(), 2);
            assert_eq!(frames[0].0.pixel(1, 1), [255, 0, 0, 255]);
            assert_eq!(frames[1].0.pixel(0, 0), [0, 0, 255, 255]);
            // 50 ms kept; a zero delay is raised to the 10 ms floor.
            assert_eq!((frames[0].1, frames[1].1), (50, 10));
        }
        Source::Static(_) => panic!("two frames are an animation"),
    }
}

#[test]
fn a_bmp_decodes_through_the_image_reader() {
    let mut image = RgbaImage::new(2, 1);
    image.put_pixel(0, 0, image::Rgba([1, 2, 3, 255]));
    image.put_pixel(1, 0, image::Rgba([200, 100, 50, 255]));
    let mut bytes = Vec::new();
    image.write_to(&mut Cursor::new(&mut bytes), ImageFormat::Bmp).unwrap();
    match decode(&bytes).unwrap() {
        Source::Static(b) => {
            assert_eq!((b.width, b.height), (2, 1));
            assert_eq!(b.pixel(1, 0), [200, 100, 50, 255]);
        }
        Source::Animated(_) => panic!("a BMP is one picture"),
    }
}
