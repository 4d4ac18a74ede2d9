use data_uri::{
    image_to_jpeg_data_uri, image_to_png_data_uri, ColorKind, EncodeError, PixelBuffer,
};

#[test]
fn png_round_trip() {
    let img = PixelBuffer {
        width: 1,
        height: 1,
        color: ColorKind::Rgb8,
        data: vec![255, 0, 0],
    };
    let uri = image_to_png_data_uri(&img).unwrap();
    let payload = uri.strip_prefix("data:image/png;base64,").unwrap();
    let png_bytes = base64::decode(payload).unwrap();
    let decoded = image::load_from_memory(&png_bytes).unwrap();
    assert_eq!(decoded.width(), 1);
    assert_eq!(decoded.height(), 1);
    assert_eq!(decoded.to_rgb8().into_raw(), vec![255, 0, 0]);
}

#[test]
fn jpeg_prefix_and_decodes() {
    let img = PixelBuffer {
        width: 2,
        height: 2,
        color: ColorKind::L8,
        data: vec![0, 64, 128, 255],
    };
    let uri = image_to_jpeg_data_uri(&img, 80).unwrap();
    let payload = uri.strip_prefix("data:image/jpeg;base64,").unwrap();
    let jpg_bytes = base64::decode(payload).unwrap();
    let decoded = image::load_from_memory(&jpg_bytes).unwrap();
    assert_eq!(decoded.width(), 2);
    assert_eq!(decoded.height(), 2);
}

#[test]
fn jpeg_quality_ordering() {
    // A gradient compresses much better at low quality; the higher quality
    // setting must give the larger payload.
    let mut data = Vec::new();
    for y in 0..16u32 {
        for x in 0..16u32 {
            data.push((x * 16) as u8);
            data.push((y * 16) as u8);
            data.push(((x + y) * 8) as u8);
        }
    }
    let img = PixelBuffer {
        width: 16,
        height: 16,
        color: ColorKind::Rgb8,
        data,
    };
    let low = image_to_jpeg_data_uri(&img, 10).unwrap();
    let high = image_to_jpeg_data_uri(&img, 90).unwrap();
    assert!(high.len() > low.len());
}

#[test]
fn size_mismatch_error() {
    let img = PixelBuffer {
        width: 2,
        height: 2,
        color: ColorKind::Rgb8,
        data: vec![1, 2, 3, 4, 5],
    };
    let png = image_to_png_data_uri(&img);
    assert!(matches!(png, Err(EncodeError::SizeMismatch)));
    let jpg = image_to_jpeg_data_uri(&img, 50);
    assert!(matches!(jpg, Err(EncodeError::SizeMismatch)));
}

#[test]
fn png_zero_dimension_error() {
    // A zero-sized buffer matches 0x0 dimensions, but the PNG format holds
    // no zero-sized image; the codec's refusal is surfaced.
    let img = PixelBuffer {
        width: 0,
        height: 0,
        color: ColorKind::Rgb8,
        data: vec![],
    };
    let png = image_to_png_data_uri(&img);
    assert!(matches!(png, Err(EncodeError::Codec(_))));
}

#[test]
fn jpeg_zero_size_ok() {
    // JPEG headers carry 0 as a side length, so the empty image encodes.
    let img = PixelBuffer {
        width: 0,
        height: 0,
        color: ColorKind::L8,
        data: vec![],
    };
    let jpg = image_to_jpeg_data_uri(&img, 50);
    assert!(jpg.unwrap().starts_with("data:image/jpeg;base64,"));
}

#[test]
fn jpeg_dimension_error() {
    // A JPEG header holds a 16-bit side length, so a 70000-pixel-wide image
    // is refused by the codec and the error is surfaced.
    let img = PixelBuffer {
        width: 70000,
        height: 1,
        color: ColorKind::L8,
        data: vec![0; 70000],
    };
    let jpg = image_to_jpeg_data_uri(&img, 50);
    assert!(matches!(jpg, Err(EncodeError::Codec(_))));
}
