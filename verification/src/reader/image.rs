//! IMGS section decoder: raster images — decoded raw pixels (RGBA8 or
//! RGB8), row-major, top-to-bottom, no padding.

use vstd::prelude::*;
use crate::error::{error_at, Error, ErrorKind};
use crate::limits::{MAX_IMAGE_COUNT, MAX_IMAGE_DIM};
use crate::reader::cursor::{take_bytes, take_int, Cursor};

verus! {

/// Image pixel formats (codes 0 and 1 in declaration order).
#[derive(Debug, Clone, Copy, PartialEq, Eq, Structural)]
pub enum ImageFormat {
    /// RGBA8 — 4 bytes per pixel.
    Rgba8,
    /// RGB8 — 3 bytes per pixel.
    Rgb8,
}

/// The bytes per pixel of a format.
pub open spec fn format_bpp(format: ImageFormat) -> int {
    match format {
        ImageFormat::Rgba8 => 4,
        ImageFormat::Rgb8 => 3,
    }
}

impl ImageFormat {
    /// The bytes per pixel.
    pub fn bytes_per_pixel(self) -> (r: usize)
        ensures
            r == format_bpp(self),
    {
        match self {
            ImageFormat::Rgba8 => 4,
            ImageFormat::Rgb8 => 3,
        }
    }
}

/// A raster image.
#[derive(Debug, Clone, PartialEq, Eq)]
pub struct ImageRecord {
    /// Dense image id.
    pub id: u32,
    /// Width in pixels.
    pub width: u16,
    /// Height in pixels.
    pub height: u16,
    /// The pixel format.
    pub format: ImageFormat,
    /// Raw pixels, row-major, top-to-bottom.
    pub data: Vec<u8>,
}

/// The mathematical value of an image.
pub struct ImageRecordView {
    /// Dense image id.
    pub id: u32,
    /// Width in pixels.
    pub width: u16,
    /// Height in pixels.
    pub height: u16,
    /// The pixel format.
    pub format: ImageFormat,
    /// Raw pixels.
    pub data: Seq<u8>,
}

impl View for ImageRecord {
    type V = ImageRecordView;

    open spec fn view(&self) -> ImageRecordView {
        ImageRecordView {
            id: self.id,
            width: self.width,
            height: self.height,
            format: self.format,
            data: self.data@,
        }
    }
}

/// The outcome of decoding image `i` starting at `pos`.
#[verifier::opaque]
pub open spec fn image_item_spec(p: Seq<u8>, pos: int, i: int) -> Result<(ImageRecordView, int), ErrorKind> {
    match take_int(p, pos, 4) {
        Err(k) => Err(k),
        Ok(id) => if id != i {
            Err(ErrorKind::InvalidValue)
        } else {
            match take_int(p, pos + 4, 2) {
                Err(k) => Err(k),
                Ok(width) => match take_int(p, pos + 6, 2) {
                    Err(k) => Err(k),
                    Ok(height) => match take_int(p, pos + 8, 1) {
                        Err(k) => Err(k),
                        Ok(format_code) => match take_int(p, pos + 9, 1) {
                            Err(k) => Err(k),
                            Ok(flags) => match take_int(p, pos + 10, 4) {
                                Err(k) => Err(k),
                                Ok(byte_len) => if flags != 0 {
                                    Err(ErrorKind::InvalidFlags)
                                } else if format_code > 1 {
                                    Err(ErrorKind::InvalidValue)
                                } else {
                                    let format = if format_code == 0 { ImageFormat::Rgba8 } else { ImageFormat::Rgb8 };
                                    if width > 16384 || height > 16384 {
                                        Err(ErrorKind::InvalidValue)
                                    } else if byte_len != width * height * format_bpp(format) {
                                        Err(ErrorKind::InvalidValue)
                                    } else {
                                        match take_bytes(p, pos + 14, byte_len) {
                                            Err(k) => Err(k),
                                            Ok(data) => Ok((
                                                ImageRecordView {
                                                    id: id as u32,
                                                    width: width as u16,
                                                    height: height as u16,
                                                    format,
                                                    data,
                                                },
                                                pos + 14 + byte_len,
                                            )),
                                        }
                                    }
                                },
                            },
                        },
                    },
                },
            }
        },
    }
}

/// Decoding the first `n` images starting at byte 4.
pub open spec fn image_items_spec(p: Seq<u8>, n: nat) -> Result<(Seq<ImageRecordView>, int), ErrorKind>
    decreases n,
{
    if n == 0 {
        Ok((Seq::empty(), 4))
    } else {
        match image_items_spec(p, (n - 1) as nat) {
            Err(k) => Err(k),
            Ok((items, pos)) => match image_item_spec(p, pos, n - 1) {
                Err(k) => Err(k),
                Ok((item, end)) => Ok((items.push(item), end)),
            },
        }
    }
}

/// The outcome of decoding an IMGS payload.
pub open spec fn images_spec(p: Seq<u8>) -> Result<Seq<ImageRecordView>, ErrorKind> {
    match take_int(p, 0, 4) {
        Err(k) => Err(k),
        Ok(count) => if count > 1048576 {
            Err(ErrorKind::InvalidValue)
        } else {
            match image_items_spec(p, count as nat) {
                Err(k) => Err(k),
                Ok((items, end)) => if end != p.len() {
                    Err(ErrorKind::InvalidValue)
                } else {
                    Ok(items)
                },
            }
        },
    }
}

proof fn lemma_items_err_sticks(p: Seq<u8>, m: nat, n: nat)
    requires
        m <= n,
        image_items_spec(p, m) is Err,
    ensures
        image_items_spec(p, n) == image_items_spec(p, m),
    decreases n - m,
{
    if m < n {
        lemma_items_err_sticks(p, m, (n - 1) as nat);
    }
}

fn decode_item(c: &mut Cursor, i: usize) -> (r: Result<ImageRecord, Error>)
    requires
        old(c).pos <= old(c).bytes@.len(),
        old(c).section is None,
        i < 1048576,
    ensures
        final(c).bytes == old(c).bytes,
        final(c).section is None,
        final(c).pos <= final(c).bytes@.len(),
        match image_item_spec(old(c).bytes@, old(c).pos as int, i as int) {
            Ok((v, end)) => r matches Ok(x) && x@ == v && final(c).pos == end,
            Err(k) => r matches Err(e) && e.kind == k && e.section is None,
        },
{
    reveal(image_item_spec);
    let id = c.u32("image id")?;
    if id as u64 != i as u64 {
        return Err(error_at(ErrorKind::InvalidValue, None, "image id is not dense"));
    }
    let width = c.u16("image width")?;
    let height = c.u16("image height")?;
    let format_value = c.u8("image format")?;
    let image_flags = c.u8("image flags")?;
    let byte_len = c.u32("image byte_len")?;
    if image_flags != 0 {
        return Err(error_at(ErrorKind::InvalidFlags, None, "image reserved flags must be zero"));
    }
    let format = match format_value {
        0 => ImageFormat::Rgba8,
        1 => ImageFormat::Rgb8,
        _ => {
            return Err(error_at(ErrorKind::InvalidValue, None, "unknown image format"));
        },
    };
    if width as u64 > MAX_IMAGE_DIM || height as u64 > MAX_IMAGE_DIM {
        return Err(error_at(ErrorKind::InvalidValue, None, "image dimensions exceed the cap"));
    }
    let bpp = format.bytes_per_pixel() as u64;
    assert(0 <= width * height <= 16384 * 16384) by (nonlinear_arith)
        requires
            width <= 16384,
            height <= 16384,
    ;
    assert(0 <= width * height * bpp <= 16384 * 16384 * 4) by (nonlinear_arith)
        requires
            width * height <= 16384 * 16384,
            bpp <= 4,
    ;
    let expected: u64 = (width as u64) * (height as u64) * bpp;
    if byte_len as u64 != expected {
        return Err(error_at(ErrorKind::InvalidValue, None, "image byte_len != width x height x bpp"));
    }
    let data = vstd::slice::slice_to_vec(c.bytes(byte_len as usize, "image data")?);
    Ok(ImageRecord { id, width, height, format, data })
}

/// Decode the IMGS payload.
pub fn decode(payload: &[u8]) -> (r: Result<Vec<ImageRecord>, Error>)
    ensures
        match images_spec(payload@) {
            Ok(v) => r matches Ok(out) && out@.map_values(|x: ImageRecord| x@) == v,
            Err(k) => r matches Err(e) && e.kind == k && e.section is None,
        },
{
    let ghost p = payload@;
    let mut c = Cursor::new(payload, 0, None);
    let image_count = c.u32("image count")?;
    if image_count as u64 > MAX_IMAGE_COUNT {
        return Err(error_at(ErrorKind::InvalidValue, None, "image count exceeds the cap"));
    }
    let mut out: Vec<ImageRecord> = Vec::new();
    assert(out@.map_values(|x: ImageRecord| x@) =~= Seq::<ImageRecordView>::empty());
    let mut i: usize = 0;
    while i < image_count as usize
        invariant
            p == payload@,
            c.bytes@ == p,
            c.section is None,
            c.pos <= p.len(),
            i <= image_count,
            image_count <= 1048576,
            take_int(p, 0, 4) == Ok::<int, ErrorKind>(image_count as int),
            image_items_spec(p, i as nat) == Ok::<(Seq<ImageRecordView>, int), ErrorKind>(
                (out@.map_values(|x: ImageRecord| x@), c.pos as int),
            ),
        decreases image_count - i,
    {
        let item = match decode_item(&mut c, i) {
            Ok(item) => item,
            Err(e) => {
                assert(image_items_spec(p, (i + 1) as nat) == Err::<(Seq<ImageRecordView>, int), ErrorKind>(e.kind));
                proof {
                    lemma_items_err_sticks(p, (i + 1) as nat, image_count as nat);
                }
                return Err(e);
            },
        };
        let ghost before = out@;
        out.push(item);
        assert(out@.map_values(|x: ImageRecord| x@) =~= before.map_values(|x: ImageRecord| x@).push(item@));
        i += 1;
    }
    c.finish("IMGS payload")?;
    Ok(out)
}

} // verus!
