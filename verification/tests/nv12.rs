use glue::color::{chroma_u, chroma_v, luma};
use glue::nv12::{NV12Buffer, Nv12Error, RgbImage};
use std::io::Cursor;

fn sample_rgb(width: u32, height: u32) -> Vec<u8> {
    let mut data = Vec::new();
    for y in 0..height {
        for x in 0..width {
            data.push((x * 40 + 7) as u8);
            data.push((y * 50 + 3) as u8);
            data.push(((x + y) * 30 + 11) as u8);
        }
    }
    data
}

fn encode_png(width: u32, height: u32, data: Vec<u8>) -> Vec<u8> {
    let img = image::RgbImage::from_raw(width, height, data).unwrap();
    let mut out = Vec::new();
    image::DynamicImage::ImageRgb8(img)
        .write_to(&mut Cursor::new(&mut out), image::ImageFormat::Png)
        .unwrap();
    out
}

#[test]
fn new_buffer_is_zeroed_with_nv12_size() {
    let nv = NV12Buffer::new(4, 2);
    assert_eq!(nv.width, 4);
    assert_eq!(nv.height, 2);
    assert_eq!(nv.data, vec![0u8; 12]);
    let odd = NV12Buffer::new(3, 3);
    assert_eq!(odd.data.len(), 13);
}

#[test]
fn rgb_image_requires_three_bytes_per_pixel() {
    assert!(RgbImage::from_raw(2, 2, vec![0u8; 11]).is_none());
    let img = RgbImage::from_raw(2, 2, vec![0u8; 12]).unwrap();
    assert_eq!(img.dimensions(), (2, 2));
    let longer = RgbImage::from_raw(1, 1, vec![1, 2, 3, 4]).unwrap();
    assert_eq!(longer.get_pixel(0, 0), (1, 2, 3));
}

#[test]
fn from_rgb_lays_out_y_then_interleaved_uv() {
    let (w, h) = (4u32, 2u32);
    let data = sample_rgb(w, h);
    let img = RgbImage::from_raw(w, h, data.clone()).unwrap();
    let nv = match NV12Buffer::from_rgb(&img) {
        Ok(nv) => nv,
        Err(_) => panic!("conversion failed"),
    };
    assert_eq!(nv.data.len(), 12);
    let px = |x: u32, y: u32| {
        let i = ((y * w + x) * 3) as usize;
        (data[i], data[i + 1], data[i + 2])
    };
    for y in 0..h {
        for x in 0..w {
            let (r, g, b) = px(x, y);
            assert_eq!(nv.data[(y * w + x) as usize], luma(r, g, b));
        }
    }
    // one U/V pair per 2x2 block, from the block's top-left pixel
    let (r0, g0, b0) = px(0, 0);
    let (r2, g2, b2) = px(2, 0);
    assert_eq!(nv.data[8], chroma_u(r0, g0, b0));
    assert_eq!(nv.data[9], chroma_v(r0, g0, b0));
    assert_eq!(nv.data[10], chroma_u(r2, g2, b2));
    assert_eq!(nv.data[11], chroma_v(r2, g2, b2));
}

#[test]
fn from_rgb_of_white_and_black() {
    let img = RgbImage::from_raw(2, 2, vec![255u8; 12]).unwrap();
    let nv = match NV12Buffer::from_rgb(&img) {
        Ok(nv) => nv,
        Err(_) => panic!("conversion failed"),
    };
    assert_eq!(nv.data, vec![255, 255, 255, 255, 128, 128]);
    let img = RgbImage::from_raw(2, 2, vec![0u8; 12]).unwrap();
    let nv = match NV12Buffer::from_rgb(&img) {
        Ok(nv) => nv,
        Err(_) => panic!("conversion failed"),
    };
    assert_eq!(nv.data, vec![0, 0, 0, 0, 128, 128]);
}

#[test]
fn from_rgb_of_empty_picture() {
    let img = RgbImage::from_raw(0, 5, vec![]).unwrap();
    let nv = match NV12Buffer::from_rgb(&img) {
        Ok(nv) => nv,
        Err(_) => panic!("conversion failed"),
    };
    assert!(nv.data.is_empty());
}

#[test]
fn from_image_decodes_and_converts() {
    let (w, h) = (4u32, 4u32);
    let data = sample_rgb(w, h);
    let png = encode_png(w, h, data.clone());
    let nv = match NV12Buffer::from_image(&png, "picture.png") {
        Ok(nv) => nv,
        Err(_) => panic!("decoding failed"),
    };
    let img = RgbImage::from_raw(w, h, data).unwrap();
    let direct = match NV12Buffer::from_rgb(&img) {
        Ok(nv) => nv,
        Err(_) => panic!("conversion failed"),
    };
    assert_eq!((nv.width, nv.height), (4, 4));
    assert_eq!(nv.data, direct.data);
    // the decoder's bytes are really used: not all planes are zero
    assert!(nv.data.iter().any(|&v| v != 0));
}

#[test]
fn from_image_checked_reports_each_error() {
    match NV12Buffer::from_image_checked(b"not an image", "picture.png") {
        Err(Nv12Error::Decode(_)) => {}
        _ => panic!("expected a decode error"),
    }
    let png = encode_png(3, 2, sample_rgb(3, 2));
    match NV12Buffer::from_image_checked(&png, "picture.png") {
        Err(Nv12Error::UnsupportedSize { width, height }) => assert_eq!((width, height), (3, 2)),
        _ => panic!("expected an unsupported size"),
    }
    let png = encode_png(2, 2, vec![255u8; 12]);
    match NV12Buffer::from_image_checked(&png, "picture.png") {
        Ok(nv) => assert_eq!(nv.data, vec![255, 255, 255, 255, 128, 128]),
        Err(_) => panic!("expected a conversion"),
    }
}

#[test]
fn from_image_goes_by_the_file_extension() {
    let png = encode_png(2, 2, vec![255u8; 12]);
    assert!(NV12Buffer::from_image_checked(&png, "media/PICTURE.PNG").is_ok());
    match NV12Buffer::from_image_checked(&png, "picture.jpg") {
        Err(Nv12Error::Decode(_)) => {}
        _ => panic!("a PNG named .jpg is decoded as JPEG and refused"),
    }
    match NV12Buffer::from_image_checked(&png, "picture") {
        Err(Nv12Error::Decode(_)) => {}
        _ => panic!("a path without an extension names no format"),
    }
}
