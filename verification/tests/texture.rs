use std::io::Cursor;

use framework::texture::{Texture, TextureError};
use image::{DynamicImage, ImageFormat, RgbaImage};

fn encoded(width: u32, height: u32, pixels: Vec<u8>, format: ImageFormat) -> Vec<u8> {
    let img = RgbaImage::from_raw(width, height, pixels).unwrap();
    let mut bytes = Vec::new();
    DynamicImage::ImageRgba8(img).write_to(&mut Cursor::new(&mut bytes), format).unwrap();
    bytes
}

fn png_bytes(width: u32, height: u32, pixels: Vec<u8>) -> Vec<u8> {
    encoded(width, height, pixels, ImageFormat::Png)
}

#[test]
fn decode_reads_back_the_encoded_pixels() {
    let pixels = vec![255, 0, 0, 255, 0, 255, 0, 128, 1, 2, 3, 4, 9, 8, 7, 6, 0, 0, 0, 0, 10, 20, 30, 40];
    let bytes = png_bytes(3, 2, pixels.clone());
    let t = Texture::decode(&bytes).unwrap();
    assert_eq!(t.width(), 3);
    assert_eq!(t.height(), 2);
    assert_eq!(t.pixels(), &pixels[..]);
}

#[test]
fn decode_refuses_bytes_that_are_no_image() {
    assert_eq!(Texture::decode(&[1, 2, 3, 4]).err(), Some(TextureError::Decode));
    assert_eq!(Texture::decode(&[]).err(), Some(TextureError::Decode));
}

#[test]
fn from_decoding_keeps_size_and_pixels() {
    let t = Texture::from_decoding(Ok((1, 1, vec![5, 6, 7, 8]))).unwrap();
    assert_eq!((t.width(), t.height()), (1, 1));
    assert_eq!(t.pixels(), &[5, 6, 7, 8]);
}

#[test]
fn decode_guesses_formats_other_than_png() {
    let pixels = vec![255, 0, 0, 255, 0, 255, 0, 255];
    let bytes = encoded(2, 1, pixels.clone(), ImageFormat::Bmp);
    let t = Texture::decode(&bytes).unwrap();
    assert_eq!((t.width(), t.height()), (2, 1));
    assert_eq!(t.pixels(), &pixels[..]);
    let qoi = encoded(2, 1, pixels.clone(), ImageFormat::Qoi);
    assert_eq!(Texture::decode(&qoi).unwrap().pixels(), &pixels[..]);
}
