//! The bitmap data model: a tagged buffer of 8-bit or 16-bit interleaved
//! RGB samples, uniform pixel access over it, and JPEG re-encoding through
//! the `image` codec.

use vstd::prelude::*;
use std::io::Cursor;

verus! {

/// The in-memory pixel store: one value per channel per pixel, stored
/// R,G,B contiguously in row-major order, either one byte or one 16-bit
/// sample per channel; `Absent` stands for a buffer not yet populated.
pub enum BitmapData {
    U8(Vec<u8>),
    U16(Vec<u16>),
    Absent,
}

/// The mathematical view of a `BitmapData`: the same tag over sequences.
pub enum BitmapView {
    U8(Seq<u8>),
    U16(Seq<u16>),
    Absent,
}

impl View for BitmapData {
    type V = BitmapView;

    open spec fn view(&self) -> BitmapView {
        match self {
            BitmapData::U8(v) => BitmapView::U8(v@),
            BitmapData::U16(v) => BitmapView::U16(v@),
            BitmapData::Absent => BitmapView::Absent,
        }
    }
}

/// Which header field of a PPM file failed to parse.
#[derive(Clone, Copy, Debug, PartialEq, Eq, Structural)]
pub enum HeaderField {
    Magic,
    Width,
    Height,
    MaxValue,
}

/// Everything that can go wrong while decoding or re-encoding an image:
/// a malformed or missing header token, a pixel payload that does not
/// match the header, or a failure of the external JPEG codec.
#[derive(Clone, Copy, Debug, PartialEq, Eq, Structural)]
pub enum DecodeError {
    HeaderError(HeaderField),
    PixelDataError,
    CodecError,
}

/// The buffer holds samples.
pub open spec fn has_data(b: BitmapView) -> bool {
    b is U8 || b is U16
}

/// The one length formula of the data model: a populated buffer holds
/// exactly `width * height * 3` samples.
pub open spec fn buffer_len_ok(b: BitmapView, w: nat, h: nat) -> bool {
    match b {
        BitmapView::U8(s) => s.len() == w * h * 3,
        BitmapView::U16(s) => s.len() == w * h * 3,
        BitmapView::Absent => true,
    }
}

/// The pixel at (x, y): the three channel values at `(y*w + x)*3`, each
/// widened to 16 bits; `(0, 0, 0)` whenever the coordinates fall outside
/// the image or the buffer cannot supply the triplet.
pub open spec fn pixel_at_spec(b: BitmapView, w: nat, h: nat, x: nat, y: nat) -> (u16, u16, u16) {
    if x >= w || y >= h {
        (0, 0, 0)
    } else {
        let i = ((y * w + x) * 3) as int;
        match b {
            BitmapView::U8(s) => if i + 3 <= s.len() {
                (s[i] as u16, s[i + 1] as u16, s[i + 2] as u16)
            } else {
                (0, 0, 0)
            },
            BitmapView::U16(s) => if i + 3 <= s.len() {
                (s[i], s[i + 1], s[i + 2])
            } else {
                (0, 0, 0)
            },
            BitmapView::Absent => (0, 0, 0),
        }
    }
}

/// In-range coordinates address a full triplet inside the buffer.
proof fn lemma_pixel_index(w: int, h: int, x: int, y: int)
    requires
        0 <= x < w,
        0 <= y < h,
    ensures
        0 <= (y * w + x) * 3,
        (y * w + x) * 3 + 3 <= w * h * 3,
{
    assert(0 <= (y * w + x) * 3 && (y * w + x) * 3 + 3 <= w * h * 3) by (nonlinear_arith)
        requires
            0 <= x < w,
            0 <= y < h,
    {}
}

/// Uniform pixel access over a buffer with its dimensions: the saturating
/// out-of-range policy of the data model, never a panic.
pub fn pixel_value(buf: &BitmapData, width: usize, height: usize, x: usize, y: usize) -> (r: (
    u16,
    u16,
    u16,
))
    requires
        buffer_len_ok(buf@, width as nat, height as nat),
    ensures
        r == pixel_at_spec(buf@, width as nat, height as nat, x as nat, y as nat),
{
    if x >= width || y >= height {
        return (0, 0, 0);
    }
    match buf {
        BitmapData::U8(data) => {
            let n: usize = data.len();
            proof {
                lemma_pixel_index(width as int, height as int, x as int, y as int);
                assert((y * width + x) * 3 + 3 <= n);
            }
            let i = (y * width + x) * 3;
            (data[i] as u16, data[i + 1] as u16, data[i + 2] as u16)
        },
        BitmapData::U16(data) => {
            let n: usize = data.len();
            proof {
                lemma_pixel_index(width as int, height as int, x as int, y as int);
                assert((y * width + x) * 3 + 3 <= n);
            }
            let i = (y * width + x) * 3;
            (data[i], data[i + 1], data[i + 2])
        },
        BitmapData::Absent => (0, 0, 0),
    }
}

/// Law: over an 8-bit buffer whose length matches the dimensions, every
/// in-range pixel reproduces exactly the byte triplet stored for it.
pub proof fn lemma_pixel_reproduces_bytes(data: Seq<u8>, w: nat, h: nat, x: nat, y: nat)
    requires
        data.len() == w * h * 3,
        x < w,
        y < h,
    ensures
        pixel_at_spec(BitmapView::U8(data), w, h, x, y) == (
            data[((y * w + x) * 3) as int] as u16,
            data[((y * w + x) * 3 + 1) as int] as u16,
            data[((y * w + x) * 3 + 2) as int] as u16,
        ),
{
    lemma_pixel_index(w as int, h as int, x as int, y as int);
}

/// Law: any coordinates outside the image yield `(0, 0, 0)`, whatever the
/// buffer holds.
pub proof fn lemma_pixel_out_of_range(b: BitmapView, w: nat, h: nat, x: nat, y: nat)
    requires
        x >= w || y >= h,
    ensures
        pixel_at_spec(b, w, h, x, y) == (0u16, 0u16, 0u16),
{
}

/// The error type of the `image` codec, carried opaquely: the library maps
/// it to `DecodeError::CodecError` and never looks inside.
#[verifier::external_type_specification]
#[verifier::external_body]
pub struct ExImageError(image::ImageError);

/// The JPEG stream that the codec produces for an 8-bit interleaved RGB
/// buffer of the given dimensions at the given quality. The encoder is a
/// pure function of these arguments, so the stream only gets a name here.
pub uninterp spec fn jpeg8_encoding(data: Seq<u8>, w: nat, h: nat, quality: u8) -> Seq<u8>;

/// The JPEG stream for a 16-bit interleaved RGB buffer, named as above.
pub uninterp spec fn jpeg16_encoding(data: Seq<u16>, w: nat, h: nat, quality: u8) -> Seq<u8>;

/// The JPEG stream for any populated buffer.
pub open spec fn jpeg_encoding_of(b: BitmapView, w: nat, h: nat, quality: u8) -> Seq<u8> {
    match b {
        BitmapView::U8(s) => jpeg8_encoding(s, w, h, quality),
        BitmapView::U16(s) => jpeg16_encoding(s, w, h, quality),
        BitmapView::Absent => Seq::empty(),
    }
}

/// Relies on `image::codecs::jpeg::JpegEncoder::encode_image` over an
/// `Rgb8` image buffer: with an exact-fit buffer, `ImageBuffer::from_raw`
/// accepts it, and the encoder succeeds if and only if both dimensions fit
/// in 16 bits (its only error path), since writes into a `Cursor` over a
/// `Vec` cannot fail.
#[verifier::external_body]
fn encode_jpeg_rgb8(data: &Vec<u8>, width: u32, height: u32, quality: u8) -> (r: Result<
    Vec<u8>,
    image::ImageError,
>)
    requires
        data@.len() == width * height * 3,
    ensures
        r is Ok <==> (width <= 0xffff && height <= 0xffff),
        (r matches Ok(v) ==> v@ == jpeg8_encoding(
            data@,
            width as nat,
            height as nat,
            quality,
        )),
{
    let img = image::DynamicImage::ImageRgb8(
        image::ImageBuffer::from_raw(width, height, data.clone()).unwrap(),
    );
    let mut out: Vec<u8> = Vec::new();
    let mut encoder = image::codecs::jpeg::JpegEncoder::new_with_quality(Cursor::new(&mut out), quality);
    let res = encoder.encode_image(&img);
    drop(encoder);
    match res {
        Ok(()) => Ok(out),
        Err(e) => Err(e),
    }
}

/// Relies on `image::codecs::jpeg::JpegEncoder::encode_image` over an
/// `Rgb16` image buffer, exactly as `encode_jpeg_rgb8` does for `Rgb8`.
#[verifier::external_body]
fn encode_jpeg_rgb16(data: &Vec<u16>, width: u32, height: u32, quality: u8) -> (r: Result<
    Vec<u8>,
    image::ImageError,
>)
    requires
        data@.len() == width * height * 3,
    ensures
        r is Ok <==> (width <= 0xffff && height <= 0xffff),
        (r matches Ok(v) ==> v@ == jpeg16_encoding(
            data@,
            width as nat,
            height as nat,
            quality,
        )),
{
    let img = image::DynamicImage::ImageRgb16(
        image::ImageBuffer::from_raw(width, height, data.clone()).unwrap(),
    );
    let mut out: Vec<u8> = Vec::new();
    let mut encoder = image::codecs::jpeg::JpegEncoder::new_with_quality(Cursor::new(&mut out), quality);
    let res = encoder.encode_image(&img);
    drop(encoder);
    match res {
        Ok(()) => Ok(out),
        Err(e) => Err(e),
    }
}

/// Re-encodes a populated buffer as a JPEG stream into `vec`: the encoder
/// accepts exactly the images whose dimensions fit in 16 bits, and then
/// `vec` holds the stream the codec produces for this buffer.
pub fn write_buffer_to_jpeg(
    buf: &BitmapData,
    width: usize,
    height: usize,
    vec: &mut Vec<u8>,
    quality: u8,
) -> (r: Result<(), DecodeError>)
    requires
        buffer_len_ok(buf@, width as nat, height as nat),
        has_data(buf@),
    ensures
        r is Ok <==> (width <= 0xffff && height <= 0xffff),
        (r is Ok ==> final(vec)@ == jpeg_encoding_of(
            buf@,
            width as nat,
            height as nat,
            quality,
        )),
        r is Err ==> r == Err::<(), DecodeError>(DecodeError::CodecError) && final(vec)@ == old(
            vec,
        )@,
{
    if width > 0xffff || height > 0xffff {
        return Err(DecodeError::CodecError);
    }
    match buf {
        BitmapData::U8(data) => {
            match encode_jpeg_rgb8(data, width as u32, height as u32, quality) {
                Ok(bytes) => {
                    *vec = bytes;
                    Ok(())
                },
                Err(_) => Err(DecodeError::CodecError),
            }
        },
        BitmapData::U16(data) => {
            match encode_jpeg_rgb16(data, width as u32, height as u32, quality) {
                Ok(bytes) => {
                    *vec = bytes;
                    Ok(())
                },
                Err(_) => Err(DecodeError::CodecError),
            }
        },
        BitmapData::Absent => {
            proof {
                assert(false);
            }
            Err(DecodeError::CodecError)
        },
    }
}

/// The capability interface of every decoded image: fixed dimensions, a
/// read-only buffer whose length matches them, uniform per-pixel sampling
/// with a saturating out-of-range guard, and JPEG re-encoding.
pub trait Image {
    /// The width the image was constructed with.
    spec fn spec_width(&self) -> nat;

    /// The height the image was constructed with.
    spec fn spec_height(&self) -> nat;

    /// The view of the sample buffer.
    spec fn spec_buffer(&self) -> BitmapView;

    /// Well-formedness: the buffer length matches the dimensions.
    spec fn wf(&self) -> bool;

    /// A well-formed image satisfies the buffer length formula.
    proof fn lemma_wf(&self)
        requires
            self.wf(),
        ensures
            buffer_len_ok(self.spec_buffer(), self.spec_width(), self.spec_height()),
    ;

    fn get_width(&self) -> (r: usize)
        ensures
            r as nat == self.spec_width(),
    ;

    fn get_height(&self) -> (r: usize)
        ensures
            r as nat == self.spec_height(),
    ;

    fn get_buffer_ref(&self) -> (r: &BitmapData)
        ensures
            r@ == self.spec_buffer(),
    ;

    /// The pixel at (x, y), or `(0, 0, 0)` for any coordinates outside the
    /// image: out-of-range access saturates, it never fails.
    fn get_pixel_value(&self, x: usize, y: usize) -> (r: (u16, u16, u16))
        requires
            self.wf(),
        ensures
            r == pixel_at_spec(
                self.spec_buffer(),
                self.spec_width(),
                self.spec_height(),
                x as nat,
                y as nat,
            ),
    ;

    /// Re-encodes the image as JPEG at the given quality. The codec accepts
    /// exactly the images whose dimensions fit in 16 bits; re-encoding a
    /// decoded image of any such size never fails.
    fn write_to_jpeg(&self, vec: &mut Vec<u8>, quality: u8) -> (r: Result<(), DecodeError>)
        requires
            self.wf(),
            has_data(self.spec_buffer()),
        ensures
            r is Ok <==> (self.spec_width() <= 0xffff && self.spec_height() <= 0xffff),
            (r is Ok ==> final(vec)@ == jpeg_encoding_of(
                self.spec_buffer(),
                self.spec_width(),
                self.spec_height(),
                quality,
            )),
            r is Err ==> r == Err::<(), DecodeError>(DecodeError::CodecError) && final(vec)@
                == old(vec)@,
    ;
}

} // verus!
