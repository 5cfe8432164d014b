use std::io::Cursor;

use dublette::gif::gif_frame_fits_exec;
use dublette::hash::{hash_distance_exec, hash_image_bytes};
use image::{DynamicImage, ImageBuffer, ImageOutputFormat, Rgb, RgbImage};

fn png_bytes(img: RgbImage) -> Vec<u8> {
    let mut out = Cursor::new(Vec::new());
    DynamicImage::ImageRgb8(img)
        .write_to(&mut out, ImageOutputFormat::Png)
        .unwrap();
    out.into_inner()
}

fn gradient(horizontal: bool) -> Vec<u8> {
    png_bytes(ImageBuffer::from_fn(100, 100, |x, y| {
        let val = if horizontal { x as u8 } else { y as u8 };
        Rgb([val, val, val])
    }))
}

fn checkerboard(block_size: u32) -> Vec<u8> {
    png_bytes(ImageBuffer::from_fn(100, 100, |x, y| {
        if ((x / block_size) + (y / block_size)) % 2 == 0 {
            Rgb([255, 255, 255])
        } else {
            Rgb([0, 0, 0])
        }
    }))
}

#[test]
fn identical_images_same_hash() {
    let a = hash_image_bytes("a.png", &gradient(true), "png").unwrap();
    let b = hash_image_bytes("b.png", &gradient(true), "png").unwrap();
    assert_eq!(hash_distance_exec(&a, &b), 0);
}

#[test]
fn different_images_different_hash() {
    let a = hash_image_bytes("a.png", &gradient(true), "png").unwrap();
    let b = hash_image_bytes("b.png", &checkerboard(10), "png").unwrap();
    assert!(hash_distance_exec(&a, &b) > 0);
}

#[test]
fn perceptual_hash_is_forty_bits() {
    let a = hash_image_bytes("a.png", &gradient(false), "PNG").unwrap();
    assert_eq!(a.len(), 5);
}

#[test]
fn undecodable_image_errors_with_path() {
    let err = hash_image_bytes("/x/bad.jpg", b"not-an-image-payload", "jpg").unwrap_err();
    assert!(err.starts_with("failed to open /x/bad.jpg: "));
    assert!(err.len() > "failed to open /x/bad.jpg: ".len());
}

#[test]
fn unknown_extension_errors() {
    assert!(hash_image_bytes("a.xyz", &gradient(true), "xyz").is_err());
}

#[test]
fn hamming_distance_counts_differing_bits() {
    assert_eq!(hash_distance_exec(&vec![0b1010_1010], &vec![0b0101_0101]), 8);
    assert_eq!(hash_distance_exec(&vec![0, 0xff], &vec![1, 0xfe]), 2);
    assert_eq!(hash_distance_exec(&vec![7, 7, 7], &vec![7]), 0);
    assert_eq!(hash_distance_exec(&vec![], &vec![1, 2]), 0);
}

#[test]
fn hamming_distance_is_symmetric() {
    let a = vec![0x12, 0x34, 0x56];
    let b = vec![0xff, 0x00, 0x56];
    assert_eq!(hash_distance_exec(&a, &b), hash_distance_exec(&b, &a));
    assert_eq!(hash_distance_exec(&a, &a), 0);
}

#[test]
fn zero_distance_only_for_equal_hashes() {
    let a = vec![0x12, 0x34, 0x56];
    let mut b = a.clone();
    assert_eq!(hash_distance_exec(&a, &b), 0);
    b[2] ^= 0x80;
    assert_eq!(hash_distance_exec(&a, &b), 1);
}

fn gif_bytes() -> Vec<u8> {
    let img: RgbImage = ImageBuffer::from_fn(40, 30, |x, _| Rgb([(x * 6) as u8, 0, 0]));
    let mut out = Cursor::new(Vec::new());
    DynamicImage::ImageRgb8(img)
        .write_to(&mut out, ImageOutputFormat::Gif)
        .unwrap();
    out.into_inner()
}

/// A GIF with a 1x1 screen whose first frame, after a comment extension, is
/// 100x100 at the top left corner.
fn oversized_frame_gif() -> Vec<u8> {
    let mut b = b"GIF89a".to_vec();
    b.extend_from_slice(&[1, 0, 1, 0, 0x80, 0, 0]);
    b.extend_from_slice(&[0, 0, 0, 255, 255, 255]);
    b.extend_from_slice(&[0x21, 0xFE, 3, b'a', b'b', b'c', 0]);
    b.extend_from_slice(&[0x2C, 0, 0, 0, 0, 100, 0, 100, 0, 0]);
    b.extend_from_slice(&[2, 2, 0x4C, 0x01, 0, 0x3B]);
    b
}

#[test]
fn gif_images_hash() {
    let g = gif_bytes();
    assert!(gif_frame_fits_exec(&g));
    let a = hash_image_bytes("a.gif", &g, "gif").unwrap();
    let b = hash_image_bytes("b.GIF", &g, "GIF").unwrap();
    assert_eq!(hash_distance_exec(&a, &b), 0);
}

#[test]
fn gif_frame_larger_than_screen_is_refused() {
    let g = oversized_frame_gif();
    assert!(!gif_frame_fits_exec(&g));
    let err = hash_image_bytes("/x/big.gif", &g, "gif").unwrap_err();
    assert_eq!(err, "failed to open /x/big.gif: the first frame is larger than the logical screen");
}

#[test]
fn frame_check_applies_to_gif_extension_only() {
    let g = oversized_frame_gif();
    let err = hash_image_bytes("/x/big.png", &g, "png").unwrap_err();
    assert!(err.starts_with("failed to open /x/big.png: "));
    assert!(!err.contains("logical screen"));
}

#[test]
fn frame_check_finds_descriptor_after_extensions() {
    let mut g = oversized_frame_gif();
    // a frame as large as the screen fits
    g[31] = 1;
    g[33] = 1;
    assert!(gif_frame_fits_exec(&g));
    // a frame away from the corner is read through its own buffer
    let mut h = oversized_frame_gif();
    h[27] = 1;
    assert!(gif_frame_fits_exec(&h));
    assert!(gif_frame_fits_exec(b"GIF89a"));
}

#[test]
fn image_without_pixels_is_refused() {
    // a GIF whose logical screen and frame are both 0x0
    let mut b = b"GIF89a".to_vec();
    b.extend_from_slice(&[0, 0, 0, 0, 0x80, 0, 0]);
    b.extend_from_slice(&[0, 0, 0, 255, 255, 255]);
    b.extend_from_slice(&[0x2C, 0, 0, 0, 0, 0, 0, 0, 0, 0]);
    b.extend_from_slice(&[2, 2, 0x4C, 0x01, 0, 0x3B]);
    match hash_image_bytes("e.gif", &b, "gif") {
        Ok(_) => panic!("an empty image cannot be hashed"),
        Err(e) => assert!(e.starts_with("failed to open e.gif: ")),
    }
}
