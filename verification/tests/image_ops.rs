use pixmap::bitmap::{BitmapData, DecodeError, Image};
use pixmap::jpeg::JPEG;
use pixmap::ppm::PPM;

#[test]
fn pixel_at_reads_triplets() {
    let mut buf: Vec<u8> = b"P3\n2 2\n255\n255 0 0  0 255 0  0 0 255  255 255 255\n".to_vec();
    let ppm = PPM::from_buffer(&mut buf);
    assert_eq!(ppm.get_pixel_value(0, 0), (255, 0, 0));
    assert_eq!(ppm.get_pixel_value(1, 0), (0, 255, 0));
    assert_eq!(ppm.get_pixel_value(0, 1), (0, 0, 255));
    assert_eq!(ppm.get_pixel_value(1, 1), (255, 255, 255));
}

#[test]
fn pixel_at_out_of_range_saturates() {
    let mut buf: Vec<u8> = b"P3\n2 2\n255\n255 0 0  0 255 0  0 0 255  255 255 255\n".to_vec();
    let ppm = PPM::from_buffer(&mut buf);
    assert_eq!(ppm.get_pixel_value(2, 2), (0, 0, 0));
    assert_eq!(ppm.get_pixel_value(1, 2), (0, 0, 0));
    assert_eq!(ppm.get_pixel_value(2, 0), (0, 0, 0));
    assert_eq!(ppm.get_pixel_value(100, 1), (0, 0, 0));
}

#[test]
fn pixel_at_16bit_values_as_is() {
    let mut buf: Vec<u8> = b"P3\n1 1\n65535\n65535 0 300\n".to_vec();
    let ppm = PPM::from_buffer(&mut buf);
    assert_eq!(ppm.get_pixel_value(0, 0), (65535, 0, 300));
}

#[test]
fn getters_report_dimensions() {
    let mut buf: Vec<u8> = b"P6\n3 2\n255\n".to_vec();
    buf.extend_from_slice(&[0; 18]);
    let ppm = PPM::from_buffer(&mut buf);
    assert_eq!(ppm.get_width(), 3);
    assert_eq!(ppm.get_height(), 2);
    match ppm.get_buffer_ref() {
        BitmapData::U8(v) => assert_eq!(v.len(), 18),
        _ => panic!("expected an 8-bit buffer"),
    }
}

#[test]
fn p6_roundtrip_through_jpeg() {
    let mut buf: Vec<u8> = b"P6\n2 2\n255\n".to_vec();
    buf.extend_from_slice(&[250, 10, 10, 10, 250, 10, 10, 10, 250, 128, 128, 128]);
    let ppm = PPM::from_buffer(&mut buf);
    let mut jpeg_bytes: Vec<u8> = Vec::new();
    let r = ppm.write_to_jpeg(&mut jpeg_bytes, 100);
    assert_eq!(r, Ok(()));
    assert!(!jpeg_bytes.is_empty());
    // The stream is a real JPEG: the codec reads it back at the same size.
    let decoded = JPEG::from_buffer(&mut jpeg_bytes).expect("the stream must decode");
    assert_eq!(decoded.get_width(), 2);
    assert_eq!(decoded.get_height(), 2);
    match decoded.get_buffer_ref() {
        BitmapData::U8(v) => assert_eq!(v.len(), 12),
        _ => panic!("expected an 8-bit buffer"),
    }
}

#[test]
fn roundtrip_pixels_close_at_full_quality() {
    // A uniform color survives JPEG at quality 100 nearly exactly.
    let mut buf: Vec<u8> = b"P6\n2 2\n255\n".to_vec();
    buf.extend_from_slice(&[200, 60, 60, 200, 60, 60, 200, 60, 60, 200, 60, 60]);
    let ppm = PPM::from_buffer(&mut buf);
    let mut jpeg_bytes: Vec<u8> = Vec::new();
    ppm.write_to_jpeg(&mut jpeg_bytes, 100).unwrap();
    let decoded = JPEG::from_buffer(&mut jpeg_bytes).unwrap();
    let (r, g, b) = decoded.get_pixel_value(0, 0);
    assert!((r as i32 - 200).abs() <= 8);
    assert!((g as i32 - 60).abs() <= 8);
    assert!((b as i32 - 60).abs() <= 8);
}

#[test]
fn encode_16bit_buffer() {
    let mut buf: Vec<u8> = b"P3\n1 1\n65535\n65535 0 300\n".to_vec();
    let ppm = PPM::from_buffer(&mut buf);
    let mut jpeg_bytes: Vec<u8> = Vec::new();
    let r = ppm.write_to_jpeg(&mut jpeg_bytes, 90);
    assert_eq!(r, Ok(()));
    // The stream is a real JPEG: the codec reads it back at the same size.
    let decoded = JPEG::from_buffer(&mut jpeg_bytes).expect("the stream must decode");
    assert_eq!(decoded.get_width(), 1);
    assert_eq!(decoded.get_height(), 1);
}

#[test]
fn codec_error_for_oversized_dimensions() {
    // Width beyond 16 bits: the decode is fine (an empty payload), the
    // codec refuses the re-encode.
    let mut buf: Vec<u8> = b"P6\n70000 0\n255\n".to_vec();
    let ppm = PPM::from_buffer(&mut buf);
    assert_eq!(ppm.get_width(), 70000);
    let mut jpeg_bytes: Vec<u8> = Vec::new();
    let r = ppm.write_to_jpeg(&mut jpeg_bytes, 100);
    assert_eq!(r, Err(DecodeError::CodecError));
}

#[test]
fn codec_error_for_garbage_jpeg() {
    let mut buf: Vec<u8> = b"this is not a jpeg stream".to_vec();
    let r = JPEG::from_buffer(&mut buf);
    assert!(matches!(r, Err(DecodeError::CodecError)));
}

#[test]
fn jpeg_input_left_unchanged() {
    let before: Vec<u8> = b"still not a jpeg".to_vec();
    let mut buf = before.clone();
    let _ = JPEG::from_buffer(&mut buf);
    assert_eq!(buf, before);
}
