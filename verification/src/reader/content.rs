//! CONT section decoder: content payloads — UTF-8 text and image
//! references. Payload ids are dense `0..payload_count` in emission order;
//! text bytes are preserved verbatim.

use vstd::prelude::*;
use crate::error::{error_at, Error, ErrorKind};
use crate::limits::MAX_CONTENT_COUNT;
use crate::reader::cursor::{take_int, take_utf8, Cursor};

verus! {

/// Payload kinds (codes 0 and 1 in declaration order).
#[derive(Debug, Clone, Copy, PartialEq, Eq, Structural)]
pub enum PayloadKind {
    /// `text_utf8` (0) — raw UTF-8.
    TextUtf8,
    /// `image_ref` (1) — a `u32` image id into IMGS.
    ImageRef,
}

/// The payload kind a code denotes.
pub open spec fn payload_kind_of(code: u8) -> Option<PayloadKind> {
    if code == 0 {
        Some(PayloadKind::TextUtf8)
    } else if code == 1 {
        Some(PayloadKind::ImageRef)
    } else {
        None
    }
}

impl PayloadKind {
    /// Interpret a payload kind code; `None` for out-of-range codes.
    pub fn from_code(code: u8) -> (r: Option<Self>)
        ensures
            r == payload_kind_of(code),
    {
        match code {
            0 => Some(PayloadKind::TextUtf8),
            1 => Some(PayloadKind::ImageRef),
            _ => None,
        }
    }
}

/// The decoded data of a content payload.
#[derive(Debug, Clone, PartialEq, Eq)]
pub enum ContentData {
    /// A text payload.
    Text(String),
    /// An image reference: the image id into IMGS.
    ImageRef(u32),
}

/// The mathematical value of content data.
pub enum ContentDataView {
    /// Text as characters.
    Text(Seq<char>),
    /// An image id.
    ImageRef(u32),
}

impl View for ContentData {
    type V = ContentDataView;

    open spec fn view(&self) -> ContentDataView {
        match self {
            ContentData::Text(t) => ContentDataView::Text(t@),
            ContentData::ImageRef(id) => ContentDataView::ImageRef(*id),
        }
    }
}

/// A content payload.
#[derive(Debug, Clone, PartialEq, Eq)]
pub struct ContentPayload {
    /// Dense payload id (`0..payload_count`).
    pub id: u32,
    /// The payload kind.
    pub kind: PayloadKind,
    /// The decoded data.
    pub data: ContentData,
}

/// The mathematical value of a content payload.
pub struct ContentPayloadView {
    /// Dense payload id.
    pub id: u32,
    /// The payload kind.
    pub kind: PayloadKind,
    /// The decoded data.
    pub data: ContentDataView,
}

impl View for ContentPayload {
    type V = ContentPayloadView;

    open spec fn view(&self) -> ContentPayloadView {
        ContentPayloadView { id: self.id, kind: self.kind, data: self.data@ }
    }
}

/// The outcome of decoding payload `i` starting at `pos`: the payload and
/// the end position.
#[verifier::opaque]
pub open spec fn content_item_spec(p: Seq<u8>, pos: int, i: int) -> Result<(ContentPayloadView, int), ErrorKind> {
    match take_int(p, pos, 4) {
        Err(k) => Err(k),
        Ok(id) => if id != i {
            Err(ErrorKind::InvalidValue)
        } else {
            match take_int(p, pos + 4, 1) {
                Err(k) => Err(k),
                Ok(code) => match payload_kind_of(code as u8) {
                    None => Err(ErrorKind::InvalidValue),
                    Some(kind) => match take_int(p, pos + 5, 1) {
                        Err(k) => Err(k),
                        Ok(flags) => match take_int(p, pos + 6, 2) {
                            Err(k) => Err(k),
                            Ok(reserved) => match take_int(p, pos + 8, 4) {
                                Err(k) => Err(k),
                                Ok(byte_len) => if flags != 0 || reserved != 0 {
                                    Err(ErrorKind::InvalidFlags)
                                } else {
                                    match kind {
                                        PayloadKind::TextUtf8 => match take_utf8(p, pos + 12, byte_len) {
                                            Err(k) => Err(k),
                                            Ok(text) => Ok((
                                                ContentPayloadView { id: id as u32, kind, data: ContentDataView::Text(text) },
                                                pos + 12 + byte_len,
                                            )),
                                        },
                                        PayloadKind::ImageRef => if byte_len != 4 {
                                            Err(ErrorKind::InvalidValue)
                                        } else {
                                            match take_int(p, pos + 12, 4) {
                                                Err(k) => Err(k),
                                                Ok(image_id) => Ok((
                                                    ContentPayloadView {
                                                        id: id as u32,
                                                        kind,
                                                        data: ContentDataView::ImageRef(image_id as u32),
                                                    },
                                                    pos + 16,
                                                )),
                                            }
                                        },
                                    }
                                },
                            },
                        },
                    },
                },
            }
        },
    }
}

/// Decoding the first `n` payloads starting at byte 4.
pub open spec fn content_items_spec(p: Seq<u8>, n: nat) -> Result<(Seq<ContentPayloadView>, int), ErrorKind>
    decreases n,
{
    if n == 0 {
        Ok((Seq::empty(), 4))
    } else {
        match content_items_spec(p, (n - 1) as nat) {
            Err(k) => Err(k),
            Ok((items, pos)) => match content_item_spec(p, pos, n - 1) {
                Err(k) => Err(k),
                Ok((item, end)) => Ok((items.push(item), end)),
            },
        }
    }
}

/// The outcome of decoding a CONT payload.
pub open spec fn content_spec(p: Seq<u8>) -> Result<Seq<ContentPayloadView>, ErrorKind> {
    match take_int(p, 0, 4) {
        Err(k) => Err(k),
        Ok(count) => if count > 16777216 {
            Err(ErrorKind::InvalidValue)
        } else {
            match content_items_spec(p, count as nat) {
                Err(k) => Err(k),
                Ok((items, end)) => if end != p.len() {
                    Err(ErrorKind::InvalidValue)
                } else {
                    Ok(items)
                },
            }
        },
    }
}

proof fn lemma_items_err_sticks(p: Seq<u8>, m: nat, n: nat)
    requires
        m <= n,
        content_items_spec(p, m) is Err,
    ensures
        content_items_spec(p, n) == content_items_spec(p, m),
    decreases n - m,
{
    if m < n {
        lemma_items_err_sticks(p, m, (n - 1) as nat);
    }
}

fn decode_item(c: &mut Cursor, i: usize) -> (r: Result<ContentPayload, Error>)
    requires
        old(c).pos <= old(c).bytes@.len(),
        old(c).section is None,
        i < 16777216,
    ensures
        final(c).bytes == old(c).bytes,
        final(c).section is None,
        final(c).pos <= final(c).bytes@.len(),
        match content_item_spec(old(c).bytes@, old(c).pos as int, i as int) {
            Ok((v, end)) => r matches Ok(x) && x@ == v && final(c).pos == end,
            Err(k) => r matches Err(e) && e.kind == k && e.section is None,
        },
{
    reveal(content_item_spec);
    let id = c.u32("payload id")?;
    if id as u64 != i as u64 {
        return Err(error_at(ErrorKind::InvalidValue, None, "payload id is not dense"));
    }
    let kind_value = c.u8("payload kind")?;
    let kind = match PayloadKind::from_code(kind_value) {
        Some(kind) => kind,
        None => {
            return Err(error_at(ErrorKind::InvalidValue, None, "unknown payload kind"));
        },
    };
    let payload_flags = c.u8("payload flags")?;
    let reserved = c.u16("payload reserved")?;
    let byte_len = c.u32("payload byte_len")?;
    if payload_flags != 0 || reserved != 0 {
        return Err(error_at(ErrorKind::InvalidFlags, None, "payload reserved flags/bits must be zero"));
    }
    let data = match kind {
        PayloadKind::TextUtf8 => {
            let text = c.utf8(byte_len as usize, "payload text")?;
            ContentData::Text(text)
        },
        PayloadKind::ImageRef => {
            if byte_len != 4 {
                return Err(error_at(ErrorKind::InvalidValue, None, "image_ref byte_len != 4"));
            }
            let image_id = c.u32("payload image id")?;
            ContentData::ImageRef(image_id)
        },
    };
    Ok(ContentPayload { id, kind, data })
}

/// Decode the CONT payload.
pub fn decode(payload: &[u8]) -> (r: Result<Vec<ContentPayload>, Error>)
    ensures
        match content_spec(payload@) {
            Ok(v) => r matches Ok(out) && out@.map_values(|x: ContentPayload| x@) == v,
            Err(k) => r matches Err(e) && e.kind == k && e.section is None,
        },
{
    let ghost p = payload@;
    let mut c = Cursor::new(payload, 0, None);
    let payload_count = c.u32("payload count")?;
    if payload_count as u64 > MAX_CONTENT_COUNT {
        return Err(error_at(ErrorKind::InvalidValue, None, "payload count exceeds the cap"));
    }
    let mut out: Vec<ContentPayload> = Vec::new();
    assert(out@.map_values(|x: ContentPayload| x@) =~= Seq::<ContentPayloadView>::empty());
    let mut i: usize = 0;
    while i < payload_count as usize
        invariant
            p == payload@,
            c.bytes@ == p,
            c.section is None,
            c.pos <= p.len(),
            i <= payload_count,
            payload_count <= 16777216,
            take_int(p, 0, 4) == Ok::<int, ErrorKind>(payload_count as int),
            content_items_spec(p, i as nat) == Ok::<(Seq<ContentPayloadView>, int), ErrorKind>(
                (out@.map_values(|x: ContentPayload| x@), c.pos as int),
            ),
        decreases payload_count - i,
    {
        let item = match decode_item(&mut c, i) {
            Ok(item) => item,
            Err(e) => {
                assert(content_items_spec(p, (i + 1) as nat) == Err::<(Seq<ContentPayloadView>, int), ErrorKind>(e.kind));
                proof {
                    lemma_items_err_sticks(p, (i + 1) as nat, payload_count as nat);
                }
                return Err(e);
            },
        };
        let ghost before = out@;
        out.push(item);
        assert(out@.map_values(|x: ContentPayload| x@) =~= before.map_values(|x: ContentPayload| x@).push(item@));
        i += 1;
    }
    c.finish("CONT payload")?;
    Ok(out)
}

} // verus!
