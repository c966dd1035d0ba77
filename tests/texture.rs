use ray_tracing_rs::texture::ImageTexture;

fn image() -> ImageTexture {
    // 2 x 2: red, green / blue, white.
    let data = vec![255, 0, 0, 0, 255, 0, 0, 0, 255, 255, 255, 255];
    ImageTexture::from_rgb(2, 2, data).unwrap()
}

#[test]
fn from_rgb_checks_length() {
    assert!(ImageTexture::from_rgb(2, 2, vec![0; 11]).is_none());
    assert!(ImageTexture::from_rgb(2, 2, vec![0; 13]).is_none());
    assert!(ImageTexture::from_rgb(usize::MAX, 2, vec![]).is_none());
    assert!(ImageTexture::from_rgb(0, 5, vec![]).is_some());
}

#[test]
fn pixel_lookup() {
    let t = image();
    assert_eq!(t.pixel(0, 0), Some([255, 0, 0]));
    assert_eq!(t.pixel(1, 0), Some([0, 255, 0]));
    assert_eq!(t.pixel(0, 1), Some([0, 0, 255]));
    assert_eq!(t.pixel(1, 1), Some([255, 255, 255]));
}

#[test]
fn pixel_lookup_clamps() {
    let t = image();
    assert_eq!(t.pixel(7, 0), Some([0, 255, 0]));
    assert_eq!(t.pixel(0, 9), Some([0, 0, 255]));
    assert_eq!(t.pixel(usize::MAX, usize::MAX), Some([255, 255, 255]));
}

#[test]
fn empty_image_has_no_pixel() {
    let t = ImageTexture::from_rgb(0, 3, vec![]).unwrap();
    assert_eq!(t.pixel(0, 0), None);
}
