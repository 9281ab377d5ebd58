use molasses::pixels::{decode_image, image_from_decoded, Rgba};

fn png_bytes(width: u32, height: u32, raw: Vec<u8>) -> Vec<u8> {
    let img = image::RgbaImage::from_raw(width, height, raw).unwrap();
    let mut out = std::io::Cursor::new(Vec::new());
    img.write_to(&mut out, image::ImageFormat::Png).unwrap();
    out.into_inner()
}

#[test]
fn png_file_decodes_to_its_pixels() {
    let raw = vec![255, 0, 0, 255, 0, 255, 0, 128, 0, 0, 255, 0, 10, 20, 30, 40, 50, 60, 70, 80, 90, 100, 110, 120];
    let file = png_bytes(3, 2, raw);
    let img = decode_image(&file).unwrap();
    assert_eq!(img.dimensions(), (3, 2));
    assert_eq!(img.get_pixel(0, 0), Rgba { r: 255, g: 0, b: 0, a: 255 });
    assert_eq!(img.get_pixel(1, 0), Rgba { r: 0, g: 255, b: 0, a: 128 });
    assert_eq!(img.get_pixel(2, 0), Rgba { r: 0, g: 0, b: 255, a: 0 });
    assert_eq!(img.get_pixel(0, 1), Rgba { r: 10, g: 20, b: 30, a: 40 });
    assert_eq!(img.get_pixel(2, 1), Rgba { r: 90, g: 100, b: 110, a: 120 });
}

#[test]
fn bytes_that_are_no_image_decode_to_nothing() {
    assert!(decode_image(b"definitely not an image").is_none());
    assert!(decode_image(&[]).is_none());
}

#[test]
fn empty_or_short_decoded_images_are_refused() {
    assert!(image_from_decoded(None).is_none());
    assert!(image_from_decoded(Some((0, 5, vec![]))).is_none());
    assert!(image_from_decoded(Some((5, 0, vec![]))).is_none());
    assert!(image_from_decoded(Some((2, 1, vec![1, 2, 3, 4, 5, 6, 7]))).is_none());
    let img = image_from_decoded(Some((1, 2, vec![1, 2, 3, 4, 5, 6, 7, 8]))).unwrap();
    assert_eq!(img.get_pixel(0, 1), Rgba { r: 5, g: 6, b: 7, a: 8 });
}
