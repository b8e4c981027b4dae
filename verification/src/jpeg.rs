//! A JPEG image decoded through the `image` codec into the bitmap data
//! model: the compressed stream is coerced to 8-bit interleaved RGB.

use vstd::prelude::*;
use std::io::Cursor;
use crate::bitmap::{
    BitmapData, BitmapView, DecodeError, Image, buffer_len_ok, pixel_value, write_buffer_to_jpeg,
};

verus! {

/// The RGB rendering that the codec gives a JPEG stream: width, height,
/// and the 8-bit interleaved RGB buffer. Decoding is a pure function of
/// the stream, so the rendering only gets a name here.
pub uninterp spec fn jpeg_rgb8_of(bytes: Seq<u8>) -> (nat, nat, Seq<u8>);

/// Whether the codec accepts the stream. Decoding with the format pinned
/// to JPEG reads nothing but these bytes, so acceptance too is a function
/// of them alone.
pub uninterp spec fn jpeg_decodable(bytes: Seq<u8>) -> bool;

/// Relies on `image::io::Reader::decode` with the format pinned to JPEG,
/// and on `DynamicImage::to_rgb8`: the decode succeeds exactly on the
/// streams the codec accepts, and then yields the RGB rendering of the
/// stream, whose raw buffer holds `width * height * 3` bytes.
#[verifier::external_body]
fn decode_jpeg_rgb8(buffer: &Vec<u8>) -> (r: Result<(u32, u32, Vec<u8>), image::ImageError>)
    ensures
        r is Ok <==> jpeg_decodable(buffer@),
        (r matches Ok(t) ==> t.0 as nat == jpeg_rgb8_of(buffer@).0 && t.1 as nat == jpeg_rgb8_of(
            buffer@,
        ).1 && t.2@ == jpeg_rgb8_of(buffer@).2 && t.2@.len() == t.0 * t.1 * 3),
{
    let mut reader = image::io::Reader::new(Cursor::new(&buffer[..]));
    reader.set_format(image::ImageFormat::Jpeg);
    let img = reader.decode()?;
    let (w, h) = (img.width(), img.height());
    Ok((w, h, img.to_rgb8().into_raw()))
}

/// A decoded JPEG image: its dimensions and its 8-bit RGB buffer.
pub struct JPEG {
    pub width: u32,
    pub height: u32,
    pub data: BitmapData,
}

impl JPEG {
    /// Decodes a JPEG stream held in `buffer`: it succeeds exactly on the
    /// streams the codec accepts, and reports that the codec refused any
    /// other.
    pub fn from_buffer(buffer: &mut Vec<u8>) -> (r: Result<JPEG, DecodeError>)
        ensures
            final(buffer)@ == old(buffer)@,
            r is Ok <==> jpeg_decodable(old(buffer)@),
            (r matches Ok(img) ==> ({
                let m = jpeg_rgb8_of(old(buffer)@);
                img.width as nat == m.0 && img.height as nat == m.1 && img.data@ == BitmapView::U8(
                    m.2,
                ) && img.wf()
            })),
            r is Err ==> r == Err::<JPEG, DecodeError>(DecodeError::CodecError),
    {
        let mut jpeg = JPEG { width: 0, height: 0, data: BitmapData::Absent };
        match jpeg.populate_from_buffer(buffer) {
            Ok(()) => Ok(jpeg),
            Err(e) => Err(e),
        }
    }

    /// Decodes a JPEG stream held in `buffer` into `self`, leaving the
    /// input untouched: it succeeds exactly on the streams the codec
    /// accepts, and then the fields hold the RGB rendering of the stream;
    /// on failure `self` is unchanged and the codec failure is reported.
    pub fn populate_from_buffer(&mut self, buffer: &mut Vec<u8>) -> (r: Result<(), DecodeError>)
        ensures
            final(buffer)@ == old(buffer)@,
            r is Ok <==> jpeg_decodable(old(buffer)@),
            (r is Ok ==> ({
                let m = jpeg_rgb8_of(old(buffer)@);
                final(self).width as nat == m.0 && final(self).height as nat == m.1
                    && final(self).data@ == BitmapView::U8(m.2) && final(self).wf()
            })),
            r is Err ==> r == Err::<(), DecodeError>(DecodeError::CodecError) && *final(self)
                == *old(self),
    {
        match decode_jpeg_rgb8(buffer) {
            Ok((w, h, data)) => {
                self.width = w;
                self.height = h;
                self.data = BitmapData::U8(data);
                Ok(())
            },
            Err(_) => Err(DecodeError::CodecError),
        }
    }
}

impl Image for JPEG {
    open spec fn spec_width(&self) -> nat {
        self.width as nat
    }

    open spec fn spec_height(&self) -> nat {
        self.height as nat
    }

    open spec fn spec_buffer(&self) -> BitmapView {
        self.data@
    }

    open spec fn wf(&self) -> bool {
        buffer_len_ok(self.data@, self.width as nat, self.height as nat)
    }

    proof fn lemma_wf(&self) {
    }

    fn get_width(&self) -> (r: usize) {
        self.width as usize
    }

    fn get_height(&self) -> (r: usize) {
        self.height as usize
    }

    fn get_buffer_ref(&self) -> (r: &BitmapData) {
        &self.data
    }

    fn get_pixel_value(&self, x: usize, y: usize) -> (r: (u16, u16, u16)) {
        let w = self.width as usize;
        let h = self.height as usize;
        pixel_value(&self.data, w, h, x, y)
    }

    fn write_to_jpeg(&self, vec: &mut Vec<u8>, quality: u8) -> (r: Result<(), DecodeError>) {
        let w = self.width as usize;
        let h = self.height as usize;
        write_buffer_to_jpeg(&self.data, w, h, vec, quality)
    }
}

} // verus!
