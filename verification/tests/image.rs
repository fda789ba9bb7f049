use rustlibraries::image::{GrayImage, ImageError, RgbImage};

#[test]
fn decodes_ppm_with_comments() {
    let bytes = b"P6\n# generated\n2 1\n255\n\xff\x00\x00\x00\x80\x00";
    let image = RgbImage::decode_ppm(bytes).unwrap();
    assert_eq!(image.width(), 2);
    assert_eq!(image.height(), 1);
    assert_eq!(image.pixels(), &[255, 0, 0, 0, 128, 0]);
}

#[test]
fn converts_to_grayscale() {
    let image = RgbImage::from_rgb(2, 1, vec![255, 0, 0, 0, 255, 0]).unwrap();
    assert_eq!(image.grayscale().pixels(), &[77, 149]);
}

#[test]
fn resizes_nearest_neighbor() {
    let image = GrayImage::from_gray(2, 2, vec![1, 2, 3, 4]).unwrap();
    let resized = image.resize_nearest(4, 2).unwrap();
    assert_eq!(resized.pixels(), &[1, 1, 2, 2, 3, 3, 4, 4]);
}

#[test]
fn thresholds_grayscale() {
    let image = GrayImage::from_gray(4, 1, vec![0, 127, 128, 255]).unwrap();
    assert_eq!(image.threshold(128).pixels(), &[0, 0, 255, 255]);
}

#[test]
fn rejects_bad_payload_length() {
    let err = RgbImage::decode_ppm(b"P6\n2 1\n255\n\x00").unwrap_err();
    assert_eq!(err, ImageError::UnexpectedEof);
}

#[test]
fn image_error_messages_name_the_fields() {
    assert_eq!(
        rustlibraries::image::ImageError::UnsupportedMaxValue(65535).message(),
        "only 8-bit PPM images are supported, got max value 65535"
    );
}

#[test]
fn maximum_value_is_kept_to_its_low_32_bits() {
    let image = RgbImage::decode_ppm(b"P6\n1 1\n4294967551\n\x01\x02\x03").unwrap();
    assert_eq!(image.pixels(), &[1, 2, 3]);
    let err = RgbImage::decode_ppm(b"P6\n1 1\n4294967552\n\x01\x02\x03").unwrap_err();
    assert_eq!(err, ImageError::UnsupportedMaxValue(256));
    let err = RgbImage::decode_ppm(b"P6\n1 1\n65535\n\x01\x02\x03").unwrap_err();
    assert_eq!(err, ImageError::UnsupportedMaxValue(65535));
    assert!(RgbImage::decode_ppm(b"P6\n1 1\n255\n\x01\x02\x03").is_ok());
}
