use image::imageops::FilterType;
use image::{DynamicImage, GenericImageView, GrayImage, ImageBuffer, ImageOutputFormat, Rgb, RgbImage};
use image_classifier::error::PredictError;
use image_classifier::preprocess::{preprocess_image, TENSOR_LENGTH};
use std::io::Cursor;

fn png_of(picture: &DynamicImage) -> Vec<u8> {
    let mut bytes = Vec::new();
    picture.write_to(&mut Cursor::new(&mut bytes), ImageOutputFormat::Png).unwrap();
    bytes
}

fn gray_picture(width: u32, height: u32) -> DynamicImage {
    DynamicImage::ImageLuma8(GrayImage::from_fn(width, height, |x, y| {
        image::Luma([((x * 3 + y * 7) % 251) as u8])
    }))
}

fn rgb_picture(width: u32, height: u32) -> DynamicImage {
    DynamicImage::ImageRgb8(RgbImage::from_fn(width, height, |x, y| {
        Rgb([((x * 5 + y) % 256) as u8, ((x + y * 9) % 256) as u8, ((x * y) % 256) as u8])
    }))
}

/// The preprocessing written directly against the image crate, with the
/// machine's floating-point arithmetic for the sizes.
fn machine_preprocess(bytes: &[u8]) -> Vec<f32> {
    let mut img = image::load_from_memory(bytes).unwrap();
    if img.color() == image::ColorType::L8 {
        img = DynamicImage::ImageRgb8(img.to_rgb8());
    }
    let (width, height) = img.dimensions();
    if height > 2 * width {
        let kept = (0.8 * height as f32).round() as u32;
        img = img.crop_imm(0, (height - kept) / 2, width, kept);
    }
    let (width, height) = img.dimensions();
    let ratio = width as f32 / height as f32;
    img = if ratio >= 1.0 {
        img.resize(600, (600.0 * ratio).floor() as u32, FilterType::Lanczos3)
    } else {
        img.resize((600.0 / ratio).floor() as u32, 600, FilterType::Lanczos3)
    };
    let (width, height) = img.dimensions();
    let mut canvas: ImageBuffer<Rgb<u8>, Vec<u8>> = ImageBuffer::from_pixel(600, 600, Rgb([0, 0, 0]));
    let left = (600 - width) / 2;
    let top = (600 - height) / 2;
    image::imageops::overlay(&mut canvas, &img.to_rgb8(), left as i64, top as i64);
    canvas.into_raw().iter().map(|v| *v as f32).collect()
}

fn as_numbers(values: &Vec<u8>) -> Vec<f32> {
    values.iter().map(|v| *v as f32).collect()
}

#[test]
fn tall_gray_picture_becomes_a_full_tensor() {
    let bytes = png_of(&gray_picture(1000, 2200));
    let tensor = preprocess_image(&bytes).unwrap();
    assert_eq!(tensor.values().len(), 600 * 600 * 3);
    assert_eq!(tensor.values().len(), TENSOR_LENGTH);
    let numbers = as_numbers(tensor.values());
    assert!(numbers.iter().all(|v| *v >= 0.0 && *v <= 255.0));
    // Cropped to 1000 by 1760, fitted to 341 by 600: a margin of 129 stays
    // black on the left, and the picture begins behind it.
    let row = &tensor.values()[300 * 1800..301 * 1800];
    assert!(row[0..129 * 3].iter().all(|v| *v == 0));
    assert!(row[129 * 3..(129 + 341) * 3].iter().any(|v| *v != 0));
    assert!(row[(129 + 341) * 3..].iter().all(|v| *v == 0));
    assert_eq!(numbers, machine_preprocess(&bytes));
}

#[test]
fn target_square_passes_unchanged() {
    let picture = rgb_picture(600, 600);
    let tensor = preprocess_image(&png_of(&picture)).unwrap();
    assert_eq!(tensor.values(), &picture.to_rgb8().into_raw());
}

#[test]
fn gray_target_square_changes_only_by_the_conversion() {
    let picture = gray_picture(600, 600);
    let tensor = preprocess_image(&png_of(&picture)).unwrap();
    assert_eq!(tensor.values(), &picture.to_rgb8().into_raw());
}

#[test]
fn same_bytes_give_the_same_tensor() {
    let bytes = png_of(&rgb_picture(320, 200));
    let first = preprocess_image(&bytes).unwrap();
    let second = preprocess_image(&bytes).unwrap();
    assert_eq!(first.values(), second.values());
}

#[test]
fn agrees_with_the_machine_on_several_shapes() {
    for (width, height) in [(320u32, 200u32), (200, 320), (100, 201), (100, 200), (700, 650), (1, 1), (3, 1), (1, 7), (600, 599), (601, 600)] {
        let bytes = png_of(&rgb_picture(width, height));
        let tensor = preprocess_image(&bytes).unwrap();
        assert_eq!(as_numbers(tensor.values()), machine_preprocess(&bytes), "{} by {}", width, height);
        let bytes = png_of(&gray_picture(width, height));
        let tensor = preprocess_image(&bytes).unwrap();
        assert_eq!(as_numbers(tensor.values()), machine_preprocess(&bytes), "gray {} by {}", width, height);
    }
}

#[test]
fn agrees_with_the_machine_on_pictures_with_alpha() {
    let rgba = DynamicImage::ImageRgba8(image::RgbaImage::from_fn(90, 40, |x, y| {
        image::Rgba([(x * 2) as u8, (y * 5) as u8, ((x + y) % 256) as u8, ((x * y) % 256) as u8])
    }));
    let bytes = png_of(&rgba);
    let tensor = preprocess_image(&bytes).unwrap();
    assert_eq!(as_numbers(tensor.values()), machine_preprocess(&bytes));
    let gray_alpha = DynamicImage::ImageLumaA8(image::GrayAlphaImage::from_fn(40, 90, |x, y| {
        image::LumaA([(x * 3 + y) as u8, ((x * y) % 256) as u8])
    }));
    let bytes = png_of(&gray_alpha);
    let tensor = preprocess_image(&bytes).unwrap();
    assert_eq!(as_numbers(tensor.values()), machine_preprocess(&bytes));
}

#[test]
fn reads_other_formats_too() {
    let picture = rgb_picture(64, 48);
    let mut bytes = Vec::new();
    picture.write_to(&mut Cursor::new(&mut bytes), ImageOutputFormat::Bmp).unwrap();
    let tensor = preprocess_image(&bytes).unwrap();
    assert_eq!(as_numbers(tensor.values()), machine_preprocess(&bytes));
}

#[test]
fn bytes_that_are_no_picture_are_a_decode_error() {
    assert!(matches!(preprocess_image(b"this is no picture"), Err(PredictError::Decode(_))));
    assert!(matches!(preprocess_image(&[]), Err(PredictError::Decode(_))));
    let mut bytes = png_of(&rgb_picture(20, 20));
    bytes.truncate(40);
    assert!(matches!(preprocess_image(&bytes), Err(PredictError::Decode(_))));
}

#[test]
fn decode_error_carries_the_decoder_s_words() {
    let own = match preprocess_image(b"this is no picture") {
        Err(error) => error.message(),
        Ok(_) => String::new(),
    };
    let theirs = image::load_from_memory(b"this is no picture").unwrap_err().to_string();
    assert_eq!(own, theirs);
    assert!(!own.is_empty());
}
