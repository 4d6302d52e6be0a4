use osf_ort::picture::{from_rgb, PictureError};
use osf_ort::BgrImage;

#[test]
fn decodes_a_pixmap() {
    let mut bytes = b"P6\n2 1\n255\n".to_vec();
    bytes.extend([1u8, 2, 3, 40, 50, 60]);
    let im = BgrImage::decode(&bytes).unwrap();
    assert_eq!((im.width, im.height), (2, 1));
    assert_eq!(im.data, vec![3, 2, 1, 60, 50, 40]);
}

#[test]
fn unknown_bytes_are_no_picture() {
    assert_eq!(BgrImage::decode(b"nothing at all").unwrap_err(), PictureError::Unreadable);
    assert_eq!(BgrImage::decode(&[]).unwrap_err(), PictureError::Unreadable);
}

#[test]
fn samples_have_to_fill_the_size() {
    assert_eq!(from_rgb(2, 2, vec![0; 11]).unwrap_err(), PictureError::Short);
    assert_eq!(from_rgb(0x1_0000, 0x1_0000, vec![]).unwrap_err(), PictureError::TooLarge);
    let im = from_rgb(1, 1, vec![7, 8, 9, 10]).unwrap();
    assert_eq!(im.data, vec![9, 8, 7]);
}
