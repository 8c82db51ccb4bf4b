use glue::player::MissingSize;
use glue::picture::{
    nv12_upload_fits, nv12_upload_len, picture_pixels, rgba_upload_fits, rgba_upload_len, PictureError,
    RAW_NV12_KIND,
};
use std::io::Cursor;

fn encode_png_rgb(width: u32, height: u32, data: Vec<u8>) -> Vec<u8> {
    let img = image::RgbImage::from_raw(width, height, data).unwrap();
    let mut out = Vec::new();
    image::DynamicImage::ImageRgb8(img)
        .write_to(&mut Cursor::new(&mut out), image::ImageFormat::Png)
        .unwrap();
    out
}

#[test]
fn raw_nv12_files_are_taken_as_they_are() {
    let file = vec![1u8, 2, 3, 4, 5, 6];
    match picture_pixels(RAW_NV12_KIND, file.clone(), "frame.yuv", Some(2), Some(2)) {
        Ok((w, h, d)) => assert_eq!((w, h, d), (2, 2, file)),
        Err(_) => panic!("a raw file with its size is accepted"),
    }
}

#[test]
fn raw_nv12_files_need_their_size() {
    assert!(matches!(
        picture_pixels(RAW_NV12_KIND, vec![0u8; 6], "frame.yuv", None, Some(2)),
        Err(PictureError::MissingSize(MissingSize::Width))
    ));
    assert!(matches!(
        picture_pixels(RAW_NV12_KIND, vec![0u8; 6], "frame.yuv", None, None),
        Err(PictureError::MissingSize(MissingSize::Width))
    ));
    assert!(matches!(
        picture_pixels(RAW_NV12_KIND, vec![0u8; 6], "frame.yuv", Some(2), None),
        Err(PictureError::MissingSize(MissingSize::Height))
    ));
}

#[test]
fn other_files_are_decoded_to_rgba() {
    let png = encode_png_rgb(2, 1, vec![10, 20, 30, 40, 50, 60]);
    match picture_pixels(0, png, "picture.png", None, None) {
        Ok((w, h, d)) => {
            assert_eq!((w, h), (2, 1));
            assert_eq!(d, vec![10, 20, 30, 255, 40, 50, 60, 255]);
        }
        Err(_) => panic!("a PNG decodes"),
    }
}

#[test]
fn undecodable_files_are_refused() {
    assert!(matches!(picture_pixels(0, vec![1, 2, 3], "picture.png", None, None), Err(PictureError::Decode(_))));
    // the size given is ignored for decoded pictures
    assert!(matches!(picture_pixels(1, Vec::new(), "picture.png", Some(2), Some(2)), Err(PictureError::Decode(_))));
}

#[test]
fn upload_needs_four_bytes_per_pixel() {
    assert_eq!(rgba_upload_len(2, 2, 16), 16);
    assert_eq!(rgba_upload_len(2, 2, 100), 16);
    assert_eq!(rgba_upload_len(0, 5, 0), 0);
    assert!(rgba_upload_fits(2, 2, 16));
    assert!(!rgba_upload_fits(2, 2, 15));
    // a raw NV12 picture holds fewer bytes than its RGBA upload
    assert!(!rgba_upload_fits(4, 2, 12));
    assert!(!rgba_upload_fits(usize::MAX, 2, usize::MAX));
}

#[test]
fn nv12_upload_needs_both_planes() {
    assert_eq!(nv12_upload_len(4, 2, 12), (8, 4));
    assert_eq!(nv12_upload_len(4, 2, 20), (8, 4));
    assert_eq!(nv12_upload_len(3, 3, 13), (9, 4));
    assert!(nv12_upload_fits(4, 2, 12));
    assert!(!nv12_upload_fits(4, 2, 11));
    assert!(nv12_upload_fits(3, 3, 13));
    assert!(!nv12_upload_fits(usize::MAX, 2, usize::MAX));
}

#[test]
fn pictures_are_decoded_by_their_extension() {
    let png = encode_png_rgb(1, 1, vec![1, 2, 3]);
    assert!(matches!(picture_pixels(0, png.clone(), "shot.jpeg", None, None), Err(PictureError::Decode(_))));
    assert!(matches!(picture_pixels(0, png.clone(), "shot", None, None), Err(PictureError::Decode(_))));
    match picture_pixels(0, png, "shot.Png", None, None) {
        Ok((w, h, d)) => assert_eq!((w, h, d), (1, 1, vec![1, 2, 3, 255])),
        Err(_) => panic!("a PNG named .Png decodes"),
    }
}
