use pixmap::bitmap::{BitmapData, DecodeError, HeaderField};
use pixmap::ppm::{PPMVer, PPM};

fn fresh() -> PPM {
    PPM {
        width: 0,
        height: 0,
        max_value: 0,
        ver: PPMVer::Absent,
        buffer: BitmapData::Absent,
    }
}

#[test]
fn p3_concrete_decode() {
    let mut buf: Vec<u8> = b"P3\n2 2\n255\n255 0 0  0 255 0  0 0 255  255 255 255\n".to_vec();
    let ppm = PPM::from_buffer(&mut buf);
    assert_eq!(ppm.width, 2);
    assert_eq!(ppm.height, 2);
    assert_eq!(ppm.get_max_value(), 255);
    assert_eq!(ppm.ver, PPMVer::P3);
    match &ppm.buffer {
        BitmapData::U8(v) => {
            assert_eq!(v, &vec![255, 0, 0, 0, 255, 0, 0, 0, 255, 255, 255, 255]);
        }
        _ => panic!("expected an 8-bit buffer"),
    }
}

#[test]
fn p6_single_pixel() {
    let mut buf: Vec<u8> = b"P6\n1 1\n255\n".to_vec();
    buf.extend_from_slice(&[10, 20, 30]);
    let ppm = PPM::from_buffer(&mut buf);
    assert_eq!(ppm.width, 1);
    assert_eq!(ppm.height, 1);
    assert_eq!(ppm.ver, PPMVer::P6);
    match &ppm.buffer {
        BitmapData::U8(v) => assert_eq!(v, &vec![10, 20, 30]),
        _ => panic!("expected an 8-bit buffer"),
    }
}

#[test]
fn p6_payload_survives_normalization() {
    // Raw bytes that look like '#' and whitespace must pass through.
    let mut buf: Vec<u8> = b"P6\n2 1\n255\n".to_vec();
    buf.extend_from_slice(&[35, 10, 32, 13, 9, 35]);
    let ppm = PPM::from_buffer(&mut buf);
    match &ppm.buffer {
        BitmapData::U8(v) => assert_eq!(v, &vec![35, 10, 32, 13, 9, 35]),
        _ => panic!("expected an 8-bit buffer"),
    }
}

#[test]
fn p6_truncated_pixel_data() {
    let mut buf: Vec<u8> = b"P6\n2 2\n255\n".to_vec();
    buf.extend_from_slice(&[1, 2, 3, 4, 5, 6, 7, 8]);
    let mut ppm = fresh();
    let r = ppm.populate_from_buffer(&mut buf);
    assert_eq!(r, Err(DecodeError::PixelDataError));
    assert_eq!(ppm.ver, PPMVer::Absent);
}

#[test]
fn p6_oversized_pixel_data() {
    let mut buf: Vec<u8> = b"P6\n1 1\n255\n".to_vec();
    buf.extend_from_slice(&[1, 2, 3, 4]);
    let mut ppm = fresh();
    let r = ppm.populate_from_buffer(&mut buf);
    assert_eq!(r, Err(DecodeError::PixelDataError));
}

#[test]
fn p3_promotes_to_16bit() {
    let mut buf: Vec<u8> = b"P3\n1 1\n65535\n65535 0 300\n".to_vec();
    let ppm = PPM::from_buffer(&mut buf);
    assert_eq!(ppm.get_max_value(), 65535);
    match &ppm.buffer {
        BitmapData::U16(v) => assert_eq!(v, &vec![65535, 0, 300]),
        _ => panic!("expected a 16-bit buffer"),
    }
}

#[test]
fn p3_comments_ignored() {
    let mut with_comments: Vec<u8> =
        b"P3 #note\n2 2 #the dims\n255 #max\n255 0 0 0 255 0 0 0 255 255 255 255\n".to_vec();
    let mut plain: Vec<u8> =
        b"P3 2 2 255 255 0 0 0 255 0 0 0 255 255 255 255\n".to_vec();
    let a = PPM::from_buffer(&mut with_comments);
    let b = PPM::from_buffer(&mut plain);
    assert_eq!(a.width, b.width);
    assert_eq!(a.height, b.height);
    assert_eq!(a.get_max_value(), b.get_max_value());
    assert_eq!(a.ver, b.ver);
    match (&a.buffer, &b.buffer) {
        (BitmapData::U8(u), BitmapData::U8(v)) => assert_eq!(u, v),
        _ => panic!("expected 8-bit buffers"),
    }
}

#[test]
fn p6_comment_in_header() {
    let mut buf: Vec<u8> = b"P6 #raw variant\n1 1\n255\n".to_vec();
    buf.extend_from_slice(&[7, 8, 9]);
    let ppm = PPM::from_buffer(&mut buf);
    assert_eq!((ppm.width, ppm.height), (1, 1));
    match &ppm.buffer {
        BitmapData::U8(v) => assert_eq!(v, &vec![7, 8, 9]),
        _ => panic!("expected an 8-bit buffer"),
    }
}

#[test]
fn p6_padded_header() {
    // Two consecutive comments and a whitespace run after one separator.
    let mut buf: Vec<u8> = b"P6 #one\n#two\n  1 1\n255\n".to_vec();
    buf.extend_from_slice(&[1, 2, 3]);
    let ppm = PPM::from_buffer(&mut buf);
    assert_eq!((ppm.width, ppm.height), (1, 1));
    match &ppm.buffer {
        BitmapData::U8(v) => assert_eq!(v, &vec![1, 2, 3]),
        _ => panic!("expected an 8-bit buffer"),
    }
}

#[test]
fn p3_whitespace_runs_collapse() {
    let mut messy: Vec<u8> = b"P3\n\n 2   2\n255\n  1 2 3   4 5 6 7 8 9 10 11 12\n".to_vec();
    let mut ppm = fresh();
    let r = ppm.populate_from_buffer(&mut messy);
    assert_eq!(r, Ok(()));
    assert_eq!((ppm.width, ppm.height), (2, 2));
    match &ppm.buffer {
        BitmapData::U8(v) => assert_eq!(v, &vec![1, 2, 3, 4, 5, 6, 7, 8, 9, 10, 11, 12]),
        _ => panic!("expected an 8-bit buffer"),
    }
}

#[test]
fn header_error_magic() {
    let mut buf: Vec<u8> = b"XY\n1 1\n255\n".to_vec();
    let mut ppm = fresh();
    let r = ppm.populate_from_buffer(&mut buf);
    assert_eq!(r, Err(DecodeError::HeaderError(HeaderField::Magic)));
}

#[test]
fn header_error_magic_short_input() {
    let mut buf: Vec<u8> = b"P".to_vec();
    let mut ppm = fresh();
    let r = ppm.populate_from_buffer(&mut buf);
    assert_eq!(r, Err(DecodeError::HeaderError(HeaderField::Magic)));
}

#[test]
fn header_error_width() {
    let mut buf: Vec<u8> = b"P3\nab 2\n255\n1 2 3\n".to_vec();
    let mut ppm = fresh();
    let r = ppm.populate_from_buffer(&mut buf);
    assert_eq!(r, Err(DecodeError::HeaderError(HeaderField::Width)));
}

#[test]
fn header_error_height() {
    let mut buf: Vec<u8> = b"P3\n2 -1\n255\n1 2 3\n".to_vec();
    let mut ppm = fresh();
    let r = ppm.populate_from_buffer(&mut buf);
    assert_eq!(r, Err(DecodeError::HeaderError(HeaderField::Height)));
}

#[test]
fn header_error_max_value() {
    let mut buf: Vec<u8> = b"P6\n1 1\nxyz\nabc".to_vec();
    let mut ppm = fresh();
    let r = ppm.populate_from_buffer(&mut buf);
    assert_eq!(r, Err(DecodeError::HeaderError(HeaderField::MaxValue)));
}

#[test]
fn header_error_missing_terminator() {
    let mut buf: Vec<u8> = b"P3".to_vec();
    let mut ppm = fresh();
    let r = ppm.populate_from_buffer(&mut buf);
    assert_eq!(r, Err(DecodeError::HeaderError(HeaderField::Magic)));
}

#[test]
fn pixel_data_error_bad_byte() {
    let mut buf: Vec<u8> = b"P3\n1 1\n255\n1 2 z\n".to_vec();
    let mut ppm = fresh();
    let r = ppm.populate_from_buffer(&mut buf);
    assert_eq!(r, Err(DecodeError::PixelDataError));
}

#[test]
fn pixel_data_error_sample_too_large() {
    let mut buf: Vec<u8> = b"P3\n1 1\n65535\n1 2 65536\n".to_vec();
    let mut ppm = fresh();
    let r = ppm.populate_from_buffer(&mut buf);
    assert_eq!(r, Err(DecodeError::PixelDataError));
}

#[test]
fn p3_trailing_token_without_whitespace_is_not_flushed() {
    // The final "3" is never closed by whitespace, so only two samples
    // flush and the length check fails.
    let mut buf: Vec<u8> = b"P3\n1 1\n255\n1 2 3".to_vec();
    let mut ppm = fresh();
    let r = ppm.populate_from_buffer(&mut buf);
    assert_eq!(r, Err(DecodeError::PixelDataError));
}

#[test]
fn input_buffer_left_unchanged() {
    let before: Vec<u8> = b"P3\n1 1\n255\n9 8 7\n".to_vec();
    let mut buf = before.clone();
    let _ = PPM::from_buffer(&mut buf);
    assert_eq!(buf, before);
}
