//! Container structure: the 16-byte header, the section table, and payload
//! decoding (decompression, decoded-length and CRC-32 verification).

use vstd::prelude::*;
use std::io::Read;
use crate::error::{error_at, Error, ErrorKind};
use crate::limits::{MAX_FILE_LEN, MAX_SECTION_COUNT, MAX_SECTION_DECODED_LEN};
use crate::reader::checksum::{adler32, adler32_of, crc32, crc32_ieee};
use crate::reader::cursor::{le_u16, le_u32, le_u64, take_int, Cursor};

verus! {

/// The current format version.
pub const VERSION: u16 = 1;
/// The header is 16 bytes.
pub const HEADER_LEN: usize = 16;
/// Each section table entry is 32 bytes.
pub const SECTION_ENTRY_LEN: usize = 32;
/// The header CRC covers bytes `0..12`.
pub const CRC_COVERED_LEN: usize = 12;

/// Compression codes.
#[derive(Debug, Clone, Copy, PartialEq, Eq, Structural)]
pub enum Compression {
    /// No compression; the stored bytes are the decoded payload.
    Uncompressed,
    /// zlib (RFC 1950), deflate.
    Zlib,
}

/// Section kind codes.
#[derive(Debug, Clone, Copy, PartialEq, Eq, Hash, PartialOrd, Ord, Structural)]
pub enum SectionKind {
    /// INFO (code 1) — metadata (deterministic JSON).
    Info,
    /// CHNK (code 2) — chunk graph.
    Chunk,
    /// STYL (code 3) — resolved style table.
    Style,
    /// CONT (code 4) — content payloads.
    Content,
    /// GLYF (code 5) — MSDF glyph atlases.
    Glyph,
    /// IMGS (code 6) — raster images.
    Images,
    /// SEAL (code 7) — integrity hash tree.
    Seal,
}

/// The name of a section kind.
pub open spec fn section_kind_name(k: SectionKind) -> Seq<char> {
    match k {
        SectionKind::Info => "Info"@,
        SectionKind::Chunk => "Chunk"@,
        SectionKind::Style => "Style"@,
        SectionKind::Content => "Content"@,
        SectionKind::Glyph => "Glyph"@,
        SectionKind::Images => "Images"@,
        SectionKind::Seal => "Seal"@,
    }
}

impl SectionKind {
    /// The variant's name.
    pub fn name(self) -> (r: &'static str)
        ensures
            r@ == section_kind_name(self),
    {
        match self {
            SectionKind::Info => "Info",
            SectionKind::Chunk => "Chunk",
            SectionKind::Style => "Style",
            SectionKind::Content => "Content",
            SectionKind::Glyph => "Glyph",
            SectionKind::Images => "Images",
            SectionKind::Seal => "Seal",
        }
    }
}

/// The section kind a code denotes; `None` for reserved/unknown codes.
pub open spec fn section_kind_of(code: u32) -> Option<SectionKind> {
    if code == 1 {
        Some(SectionKind::Info)
    } else if code == 2 {
        Some(SectionKind::Chunk)
    } else if code == 3 {
        Some(SectionKind::Style)
    } else if code == 4 {
        Some(SectionKind::Content)
    } else if code == 5 {
        Some(SectionKind::Glyph)
    } else if code == 6 {
        Some(SectionKind::Images)
    } else if code == 7 {
        Some(SectionKind::Seal)
    } else {
        None
    }
}

/// The code of a section kind (its canonical emission order).
pub open spec fn section_code(kind: SectionKind) -> u32 {
    match kind {
        SectionKind::Info => 1,
        SectionKind::Chunk => 2,
        SectionKind::Style => 3,
        SectionKind::Content => 4,
        SectionKind::Glyph => 5,
        SectionKind::Images => 6,
        SectionKind::Seal => 7,
    }
}

impl SectionKind {
    /// Interpret a section kind code; `None` for reserved/unknown kinds
    /// (readers skip them).
    pub fn from_code(code: u32) -> (r: Option<Self>)
        ensures
            r == section_kind_of(code),
    {
        match code {
            1 => Some(SectionKind::Info),
            2 => Some(SectionKind::Chunk),
            3 => Some(SectionKind::Style),
            4 => Some(SectionKind::Content),
            5 => Some(SectionKind::Glyph),
            6 => Some(SectionKind::Images),
            7 => Some(SectionKind::Seal),
            _ => None,
        }
    }

    /// The canonical emission order (equal to the kind's code).
    pub fn canonical_order(self) -> (r: u8)
        ensures
            r == section_code(self),
    {
        match self {
            SectionKind::Info => 1,
            SectionKind::Chunk => 2,
            SectionKind::Style => 3,
            SectionKind::Content => 4,
            SectionKind::Glyph => 5,
            SectionKind::Images => 6,
            SectionKind::Seal => 7,
        }
    }

    /// The kind's code as stored in the section table.
    pub fn code(self) -> (r: u32)
        ensures
            r == section_code(self),
            section_kind_of(r) == Some(self),
    {
        self.canonical_order() as u32
    }
}

/// A validated section table entry.
#[derive(Debug, Clone, PartialEq, Eq, Structural)]
pub struct SectionEntry {
    /// The table index (file order).
    pub index: usize,
    /// The section kind code (known or reserved).
    pub kind: u32,
    /// The compression code.
    pub compression: Compression,
    /// The flags byte: bit 0 is `critical`, meaningful only for unknown kinds.
    pub flags: u8,
    /// Absolute byte offset of the stored payload.
    pub offset: u64,
    /// Stored byte length.
    pub stored_len: u64,
    /// Decoded byte length.
    pub decoded_len: u64,
    /// CRC-32 over the decoded payload.
    pub crc32: u32,
}

/// A validated, fully decoded section payload.
#[derive(Debug, Clone, PartialEq, Eq)]
pub struct SectionPayload {
    /// The table entry this payload came from.
    pub entry: SectionEntry,
    /// The decoded bytes.
    pub bytes: Vec<u8>,
}

impl View for SectionPayload {
    type V = (SectionEntry, Seq<u8>);

    open spec fn view(&self) -> (SectionEntry, Seq<u8>) {
        (self.entry, self.bytes@)
    }
}

/// The views of a sequence of section payloads.
pub open spec fn views(s: Seq<SectionPayload>) -> Seq<(SectionEntry, Seq<u8>)> {
    s.map_values(|p: SectionPayload| p@)
}

/// The validated container structure (header + section table).
#[derive(Debug, Clone, PartialEq, Eq)]
pub struct Structure {
    /// The format version.
    pub version: u16,
    /// The header flags.
    pub flags: u16,
    /// Section table entries in file order.
    pub entries: Vec<SectionEntry>,
}

/// The header fields the reader keeps.
pub struct Header {
    /// The format version.
    pub version: u16,
    /// The header flags.
    pub flags: u16,
    /// The number of section table entries.
    pub section_count: u32,
}

/// The outcome of validating the 16-byte header: `(version, flags,
/// section_count)` or the error kind.
pub open spec fn header_spec(bytes: Seq<u8>) -> Result<(u16, u16, u32), ErrorKind> {
    if bytes.len() < 16 {
        Err(ErrorKind::TooShort)
    } else if !(bytes[0] == 67 && bytes[1] == 85 && bytes[2] == 76 && bytes[3] == 76) {
        Err(ErrorKind::BadMagic)
    } else if le_u16(bytes.subrange(4, 6)) != 1 {
        Err(ErrorKind::UnsupportedVersion)
    } else if crc32_ieee(bytes.take(12)) != le_u32(bytes.subrange(12, 16)) {
        Err(ErrorKind::HeaderCrcMismatch)
    } else if le_u32(bytes.subrange(8, 12)) > 64 {
        Err(ErrorKind::TooManySections)
    } else if le_u32(bytes.subrange(8, 12)) == 0 {
        Err(ErrorKind::InvalidValue)
    } else {
        Ok((le_u16(bytes.subrange(4, 6)), le_u16(bytes.subrange(6, 8)), le_u32(bytes.subrange(8, 12))))
    }
}

/// The outcome of decoding table entry `index`, whose 32 bytes start at
/// `16 + 32 * index`.
pub open spec fn entry_spec(bytes: Seq<u8>, index: int) -> Result<SectionEntry, ErrorKind> {
    let start = 16 + 32 * index;
    if start + 32 > bytes.len() {
        Err(ErrorKind::Truncated)
    } else {
        let e = bytes.subrange(start, start + 32);
        let kind = le_u32(e.subrange(0, 4));
        let code = e[4];
        let flags = e[5];
        let reserved = le_u16(e.subrange(6, 8));
        let decoded_len = le_u32(e.subrange(24, 28));
        if code > 1 {
            Err(ErrorKind::UnsupportedCompression)
        } else if flags > 1 || reserved != 0 || (section_kind_of(kind) is Some && flags != 0) {
            Err(ErrorKind::InvalidFlags)
        } else if decoded_len > 2147483648 {
            Err(ErrorKind::DecodedLenExceeded)
        } else if decoded_len == 0 {
            Err(ErrorKind::InvalidValue)
        } else {
            Ok(SectionEntry {
                index: index as usize,
                kind,
                compression: if code == 0 { Compression::Uncompressed } else { Compression::Zlib },
                flags,
                offset: le_u64(e.subrange(8, 16)),
                stored_len: le_u64(e.subrange(16, 24)),
                decoded_len: decoded_len as u64,
                crc32: le_u32(e.subrange(28, 32)),
            })
        }
    }
}

/// Decoding the first `n` table entries in file order; a failing entry
/// yields its error kind scoped to its index.
pub open spec fn entries_spec(bytes: Seq<u8>, n: nat) -> Result<Seq<SectionEntry>, (ErrorKind, Option<usize>)>
    decreases n,
{
    if n == 0 {
        Ok(Seq::empty())
    } else {
        match entries_spec(bytes, (n - 1) as nat) {
            Ok(es) => match entry_spec(bytes, n - 1) {
                Ok(e) => Ok(es.push(e)),
                Err(k) => Err((k, Some((n - 1) as usize))),
            },
            Err(x) => Err(x),
        }
    }
}

/// The first of the first `n` entries whose stored range leaves the file.
pub open spec fn bounds_spec(es: Seq<SectionEntry>, file_len: int, n: nat) -> Option<(ErrorKind, Option<usize>)>
    decreases n,
{
    if n == 0 {
        None
    } else {
        match bounds_spec(es, file_len, (n - 1) as nat) {
            Some(x) => Some(x),
            None => {
                let e = es[n - 1];
                if e.offset + e.stored_len > u64::MAX {
                    Some((ErrorKind::Overflow, Some(e.index)))
                } else if e.offset + e.stored_len > file_len {
                    Some((ErrorKind::OutOfBounds, Some(e.index)))
                } else {
                    None
                }
            },
        }
    }
}

/// The outcome of validating a package's container structure:
/// `(version, flags, entries)` or the error kind and section scope.
pub open spec fn structure_spec(bytes: Seq<u8>) -> Result<(u16, u16, Seq<SectionEntry>), (ErrorKind, Option<usize>)> {
    if bytes.len() < 16 {
        Err((ErrorKind::TooShort, None))
    } else if bytes.len() > 4294967296 {
        Err((ErrorKind::InvalidValue, None))
    } else {
        match header_spec(bytes) {
            Err(k) => Err((k, None)),
            Ok((version, flags, count)) => if bytes.len() < 16 + 32 * count {
                Err((ErrorKind::Truncated, None))
            } else {
                match entries_spec(bytes, count as nat) {
                    Err(x) => Err(x),
                    Ok(es) => match bounds_spec(es, bytes.len() as int, count as nat) {
                        Some(x) => Err(x),
                        None => Ok((version, flags, es)),
                    },
                }
            },
        }
    }
}

proof fn lemma_entries_len(bytes: Seq<u8>, n: nat)
    requires
        n <= 65536,
    ensures
        entries_spec(bytes, n) matches Ok(es) ==> es.len() == n && forall|i: int|
            0 <= i < n ==> (#[trigger] es[i]).index == i,
    decreases n,
{
    if n > 0 {
        lemma_entries_len(bytes, (n - 1) as nat);
        if let Ok(es) = entries_spec(bytes, (n - 1) as nat) {
            if let Ok(e) = entry_spec(bytes, n - 1) {
                assert(e.index == n - 1);
                assert(forall|i: int| 0 <= i < n - 1 ==> es.push(e)[i] == es[i]);
            }
        }
    }
}

proof fn lemma_entries_err_sticks(bytes: Seq<u8>, m: nat, n: nat)
    requires
        m <= n,
        entries_spec(bytes, m) is Err,
    ensures
        entries_spec(bytes, n) == entries_spec(bytes, m),
    decreases n - m,
{
    if m < n {
        lemma_entries_err_sticks(bytes, m, (n - 1) as nat);
    }
}

proof fn lemma_bounds_err_sticks(es: Seq<SectionEntry>, file_len: int, m: nat, n: nat)
    requires
        m <= n,
        bounds_spec(es, file_len, m) is Some,
    ensures
        bounds_spec(es, file_len, n) == bounds_spec(es, file_len, m),
    decreases n - m,
{
    if m < n {
        lemma_bounds_err_sticks(es, file_len, m, (n - 1) as nat);
    }
}

fn parse_header(bytes: &[u8]) -> (r: Result<Header, Error>)
    ensures
        match header_spec(bytes@) {
            Ok((v, f, n)) => r matches Ok(h) && h.version == v && h.flags == f && h.section_count
                == n,
            Err(k) => r matches Err(e) && e.kind == k && e.section is None,
        },
{
    if bytes.len() < HEADER_LEN {
        return Err(error_at(ErrorKind::TooShort, None, "header bytes unavailable"));
    }
    let header_bytes = vstd::slice::slice_subrange(bytes, 0, HEADER_LEN);
    let ghost h = header_bytes@;
    assert(forall|i: int| 0 <= i < 16 ==> h[i] == bytes@[i]);
    let mut c = Cursor::new(header_bytes, 0, None);
    let m0 = c.u8("magic")?;
    let m1 = c.u8("magic")?;
    let m2 = c.u8("magic")?;
    let m3 = c.u8("magic")?;
    if !(m0 == 67 && m1 == 85 && m2 == 76 && m3 == 76) {
        return Err(error_at(ErrorKind::BadMagic, None, "magic is not \"CULL\""));
    }
    let version = c.u16("version")?;
    assert(h.subrange(4, 6) =~= bytes@.subrange(4, 6));
    if version != VERSION {
        return Err(error_at(ErrorKind::UnsupportedVersion, None, "unsupported format version"));
    }
    let flags = c.u16("flags")?;
    let section_count = c.u32("section_count")?;
    let header_crc = c.u32("header_crc32")?;
    c.finish("header")?;
    assert(h.subrange(6, 8) =~= bytes@.subrange(6, 8));
    assert(h.subrange(8, 12) =~= bytes@.subrange(8, 12));
    assert(h.subrange(12, 16) =~= bytes@.subrange(12, 16));
    let covered = vstd::slice::slice_subrange(bytes, 0, CRC_COVERED_LEN);
    assert(covered@ =~= bytes@.take(12));
    let actual = crc32(covered);
    if actual != header_crc {
        return Err(error_at(ErrorKind::HeaderCrcMismatch, None, "header crc32 mismatch"));
    }
    if section_count as u64 > MAX_SECTION_COUNT {
        return Err(error_at(ErrorKind::TooManySections, None, "section_count exceeds the cap"));
    }
    if section_count == 0 {
        return Err(error_at(ErrorKind::InvalidValue, None, "section_count must be at least 1"));
    }
    Ok(Header { version, flags, section_count })
}

fn parse_entry(bytes: &[u8], index: usize, start: usize) -> (r: Result<SectionEntry, Error>)
    requires
        start == 16 + 32 * index,
    ensures
        match entry_spec(bytes@, index as int) {
            Ok(e) => r == Ok::<SectionEntry, Error>(e),
            Err(k) => r matches Err(e) && e.kind == k && e.section == Some(index),
        },
{
    if start > bytes.len() || bytes.len() - start < SECTION_ENTRY_LEN {
        return Err(error_at(ErrorKind::Truncated, Some(index), "section entry out of range"));
    }
    let entry_bytes = vstd::slice::slice_subrange(bytes, start, start + SECTION_ENTRY_LEN);
    let ghost e = entry_bytes@;
    let mut c = Cursor::new(entry_bytes, 0, Some(index));
    let kind = c.u32("section kind")?;
    let compression_code = c.u8("compression")?;
    let entry_flags = c.u8("flags")?;
    let reserved = c.u16("reserved")?;
    let offset = c.u64("offset")?;
    let stored_len = c.u64("stored_len")?;
    let decoded_len = c.u32("decoded_len")? as u64;
    let crc = c.u32("crc32")?;
    c.finish("section entry")?;
    assert(e.subrange(0, 4) =~= e.subrange(0, 4));
    let compression = match compression_code {
        0 => Compression::Uncompressed,
        1 => Compression::Zlib,
        _ => {
            return Err(error_at(ErrorKind::UnsupportedCompression, Some(index), "compression code not in {0, 1}"));
        },
    };
    let known_kind = SectionKind::from_code(kind).is_some();
    assert(entry_flags & 0xFE != 0 <==> entry_flags > 1) by (bit_vector);
    if entry_flags & 0xFE != 0 || reserved != 0 || (known_kind && entry_flags != 0) {
        return Err(error_at(ErrorKind::InvalidFlags, Some(index), "reserved flags/reserved bits must be zero"));
    }
    if decoded_len > MAX_SECTION_DECODED_LEN {
        return Err(error_at(ErrorKind::DecodedLenExceeded, Some(index), "decoded_len exceeds the cap"));
    }
    if decoded_len == 0 {
        return Err(error_at(ErrorKind::InvalidValue, Some(index), "decoded_len must be at least 1"));
    }
    let entry = SectionEntry {
        index,
        kind,
        compression,
        flags: entry_flags,
        offset,
        stored_len,
        decoded_len,
        crc32: crc,
    };
    assert(e =~= bytes@.subrange(start as int, start + 32));
    Ok(entry)
}

/// Validate the container structure of a package: header, section table,
/// and every entry's stored range, without decoding payloads.
pub fn validate_structure(bytes: &[u8]) -> (r: Result<Structure, Error>)
    ensures
        match structure_spec(bytes@) {
            Ok((v, f, es)) => r matches Ok(s) && s.version == v && s.flags == f && s.entries@ == es,
            Err((k, sec)) => r matches Err(e) && e.kind == k && e.section == sec,
        },
{
    if bytes.len() < HEADER_LEN {
        return Err(error_at(ErrorKind::TooShort, None, "package is shorter than the header"));
    }
    let file_len = bytes.len() as u64;
    if file_len > MAX_FILE_LEN {
        return Err(error_at(ErrorKind::InvalidValue, None, "file exceeds the size cap"));
    }
    let header = parse_header(bytes)?;
    let count = header.section_count as usize;
    let table_end = HEADER_LEN + count * SECTION_ENTRY_LEN;
    if bytes.len() < table_end {
        return Err(error_at(ErrorKind::Truncated, None, "section table exceeds the file"));
    }
    let mut entries: Vec<SectionEntry> = Vec::new();
    let mut index: usize = 0;
    while index < count
        invariant
            count == header.section_count,
            count <= 64,
            index <= count,
            bytes@.len() >= 16 + 32 * count,
            bytes@.len() <= 4294967296,
            header_spec(bytes@) == Ok::<(u16, u16, u32), ErrorKind>((header.version, header.flags, header.section_count)),
            entries_spec(bytes@, index as nat) == Ok::<Seq<SectionEntry>, (ErrorKind, Option<usize>)>(
                entries@,
            ),
        decreases count - index,
    {
        let start = HEADER_LEN + index * SECTION_ENTRY_LEN;
        let entry = match parse_entry(bytes, index, start) {
            Ok(entry) => entry,
            Err(e) => {
                proof {
                    lemma_entries_err_sticks(bytes@, (index + 1) as nat, count as nat);
                }
                return Err(e);
            },
        };
        entries.push(entry);
        index += 1;
    }
    proof {
        lemma_entries_len(bytes@, count as nat);
    }
    let mut j: usize = 0;
    while j < entries.len()
        invariant
            entries@.len() == count,
            j <= count,
            count == header.section_count,
            bytes@.len() >= 16 + 32 * count,
            bytes@.len() <= 4294967296,
            header_spec(bytes@) == Ok::<(u16, u16, u32), ErrorKind>((header.version, header.flags, header.section_count)),
            entries_spec(bytes@, count as nat) == Ok::<Seq<SectionEntry>, (ErrorKind, Option<usize>)>(
                entries@,
            ),
            file_len == bytes@.len(),
            bounds_spec(entries@, bytes@.len() as int, j as nat) is None,
        decreases count - j,
    {
        let entry = &entries[j];
        if entry.offset > u64::MAX - entry.stored_len {
            proof {
                lemma_bounds_err_sticks(entries@, bytes@.len() as int, (j + 1) as nat, count as nat);
            }
            return Err(error_at(ErrorKind::Overflow, Some(entry.index), "offset + stored_len overflow"));
        }
        let end = entry.offset + entry.stored_len;
        if end > file_len {
            proof {
                lemma_bounds_err_sticks(entries@, bytes@.len() as int, (j + 1) as nat, count as nat);
            }
            return Err(error_at(ErrorKind::OutOfBounds, Some(entry.index), "payload range exceeds the file"));
        }
        j += 1;
    }
    Ok(Structure { version: header.version, flags: header.flags, entries })
}

/// Big-endian value of four bytes.
pub open spec fn be_u32(s: Seq<u8>) -> u32 {
    (s[3] + s[2] * 256 + s[1] * 65536 + s[0] * 16777216) as u32
}

/// The bytes a zlib decoder yields for `stored` when reading at most `cap`
/// bytes, or `None` when the decoder reports an error first.
pub uninterp spec fn zlib_inflate_prefix(stored: Seq<u8>, cap: u64) -> Option<Seq<u8>>;

/// Inflate a zlib stream, reading at most `cap` decoded bytes.
///
/// Calls `flate2::read::ZlibDecoder` through `Read::take(cap)` and
/// `Read::read_to_end`; the contract names the outcome as a function of the
/// stored bytes and the cap, and states that at most `cap` bytes come back.
#[verifier::external_body]
fn zlib_read_capped(stored: &[u8], cap: u64) -> (r: Option<Vec<u8>>)
    ensures
        match r {
            Some(v) => zlib_inflate_prefix(stored@, cap) == Some(v@) && v@.len() <= cap,
            None => zlib_inflate_prefix(stored@, cap) is None,
        },
{
    let mut out = Vec::new();
    match flate2::read::ZlibDecoder::new(stored).take(cap).read_to_end(&mut out) {
        Ok(_) => Some(out),
        Err(_) => None,
    }
}

/// How many decoded bytes to read at most: one more than the authoritative
/// length, so an overlong stream shows, or every byte a `u64` can count.
pub open spec fn inflate_cap(decoded_len: u64) -> u64 {
    if decoded_len == u64::MAX {
        u64::MAX
    } else {
        (decoded_len + 1) as u64
    }
}

/// The outcome of inflating a stored zlib stream whose authoritative decoded
/// length is `decoded_len`: the explicit header checks, the decoder's output
/// (never more than `decoded_len + 1` bytes are read), its exact length, and
/// the trailing Adler-32.
pub open spec fn inflate_spec(stored: Seq<u8>, decoded_len: u64) -> Result<Seq<u8>, ErrorKind> {
    if stored.len() < 2 {
        Err(ErrorKind::ZlibHeaderInvalid)
    } else if stored[0] % 16 != 8 {
        Err(ErrorKind::ZlibHeaderInvalid)
    } else if (stored[0] * 256 + stored[1]) % 31 != 0 {
        Err(ErrorKind::ZlibHeaderInvalid)
    } else if stored.len() < 6 {
        Err(ErrorKind::Truncated)
    } else if decoded_len > usize::MAX {
        Err(ErrorKind::Overflow)
    } else {
        inflated_spec(stored, decoded_len, zlib_inflate_prefix(stored, inflate_cap(decoded_len)))
    }
}

/// The outcome of checking what the decoder produced from a stored zlib
/// stream: a failed decode, an output of another length than
/// `decoded_len`, or an output whose Adler-32 differs from the stream's
/// trailer is refused; a stream too short for a trailer is truncated.
pub open spec fn inflated_spec(stored: Seq<u8>, decoded_len: u64, out: Option<Seq<u8>>) -> Result<Seq<u8>, ErrorKind> {
    if stored.len() < 4 {
        Err(ErrorKind::Truncated)
    } else {
        match out {
            None => Err(ErrorKind::DecompressMismatch),
            Some(o) => if o.len() != decoded_len {
                Err(ErrorKind::DecompressMismatch)
            } else if be_u32(stored.subrange(stored.len() - 4, stored.len() as int)) != adler32_of(o) {
                Err(ErrorKind::ZlibAdlerMismatch)
            } else {
                Ok(o)
            },
        }
    }
}

/// The decoder's output as a plain value.
pub open spec fn output_view(out: Option<Vec<u8>>) -> Option<Seq<u8>> {
    match out {
        Some(v) => Some(v@),
        None => None,
    }
}

/// Check what the zlib decoder produced from `stored` against the
/// authoritative `decoded_len` and the stream's Adler-32 trailer; failures
/// are scoped to section `index`.
pub fn check_inflated(stored: &[u8], decoded_len: u64, out: Option<Vec<u8>>, index: usize) -> (r: Result<Vec<u8>, Error>)
    ensures
        match inflated_spec(stored@, decoded_len, output_view(out)) {
            Ok(o) => r matches Ok(v) && v@ == o,
            Err(k) => r matches Err(e) && e.kind == k && e.section == Some(index),
        },
{
    if stored.len() < 4 {
        return Err(error_at(ErrorKind::Truncated, Some(index), "the zlib trailer needs 4 bytes"));
    }
    let out = match out {
        Some(out) => out,
        None => {
            return Err(error_at(ErrorKind::DecompressMismatch, Some(index), "inflate failed"));
        },
    };
    if out.len() as u64 != decoded_len {
        return Err(error_at(ErrorKind::DecompressMismatch, Some(index), "decoded length differs from decoded_len"));
    }
    let n = stored.len();
    let stored_adler: u32 = stored[n - 1] as u32 + (stored[n - 2] as u32) * 256 + (stored[n - 3] as u32)
        * 65536 + (stored[n - 4] as u32) * 16777216;
    let ghost tail = stored@.subrange(n - 4, n as int);
    assert(tail[0] == stored@[n - 4] && tail[1] == stored@[n - 3] && tail[2] == stored@[n - 2]
        && tail[3] == stored@[n - 1]);
    let actual_adler = adler32(out.as_slice());
    if stored_adler != actual_adler {
        return Err(error_at(ErrorKind::ZlibAdlerMismatch, Some(index), "zlib adler32 mismatch"));
    }
    Ok(out)
}

/// Check a decoded payload's CRC-32 (`actual`, computed over it) against
/// the table's `expected`; a mismatch is refused, scoped to section `index`.
pub fn check_payload_crc(decoded: Vec<u8>, actual: u32, expected: u32, index: usize) -> (r: Result<Vec<u8>, Error>)
    ensures
        actual == expected ==> (r matches Ok(v) && v@ == decoded@),
        actual != expected ==> (r matches Err(e) && e.kind == ErrorKind::CrcMismatch && e.section == Some(index)),
{
    if actual != expected {
        return Err(error_at(ErrorKind::CrcMismatch, Some(index), "payload crc32 mismatch"));
    }
    Ok(decoded)
}

/// Inflate a zlib stream with explicit wrapper verification: the two-byte
/// header (`CMF & 0x0F == 8`, `(CMF << 8 | FLG) % 31 == 0`), bounded
/// accumulation (never more than `decoded_len + 1` bytes), `decoded_len`
/// exactness, and the trailing Adler-32 against the decoded output.
pub fn inflate_verified(stored: &[u8], decoded_len: u64, index: usize) -> (r: Result<Vec<u8>, Error>)
    ensures
        match inflate_spec(stored@, decoded_len) {
            Ok(out) => r matches Ok(v) && v@ == out,
            Err(k) => r matches Err(e) && e.kind == k && e.section == Some(index),
        },
{
    if stored.len() < 2 {
        return Err(error_at(ErrorKind::ZlibHeaderInvalid, Some(index), "the zlib header needs 2 bytes"));
    }
    let cmf = stored[0];
    let flg = stored[1];
    let header: u16 = (cmf as u16) * 256 + flg as u16;
    assert(cmf & 0x0f == cmf % 16) by (bit_vector);
    if cmf & 0x0f != 8 {
        return Err(error_at(ErrorKind::ZlibHeaderInvalid, Some(index), "zlib compression method must be deflate (8)"));
    }
    if header % 31 != 0 {
        return Err(error_at(ErrorKind::ZlibHeaderInvalid, Some(index), "zlib header fails the % 31 check"));
    }
    if stored.len() < 6 {
        return Err(error_at(ErrorKind::Truncated, Some(index), "the zlib trailer needs 4 bytes"));
    }
    if decoded_len > usize::MAX as u64 {
        return Err(error_at(ErrorKind::Overflow, Some(index), "decoded_len does not fit usize"));
    }
    let cap = if decoded_len == u64::MAX { u64::MAX } else { decoded_len + 1 };
    let out = zlib_read_capped(stored, cap);
    check_inflated(stored, decoded_len, out, index)
}

/// The outcome of decoding a section payload: the stored range, then
/// decompression (when flagged) with decoded-length verification, then the
/// CRC-32 check. Every failure is scoped to the entry's index.
pub open spec fn payload_spec(bytes: Seq<u8>, e: SectionEntry) -> Result<Seq<u8>, ErrorKind> {
    if e.offset > usize::MAX || e.stored_len > usize::MAX || e.offset + e.stored_len > usize::MAX {
        Err(ErrorKind::Overflow)
    } else if e.offset + e.stored_len > bytes.len() {
        Err(ErrorKind::OutOfBounds)
    } else {
        let stored = bytes.subrange(e.offset as int, e.offset + e.stored_len);
        let decoded = match e.compression {
            Compression::Uncompressed => if stored.len() != e.decoded_len {
                Err(ErrorKind::DecompressMismatch)
            } else {
                Ok(stored)
            },
            Compression::Zlib => inflate_spec(stored, e.decoded_len),
        };
        match decoded {
            Err(k) => Err(k),
            Ok(d) => if crc32_ieee(d) != e.crc32 {
                Err(ErrorKind::CrcMismatch)
            } else {
                Ok(d)
            },
        }
    }
}

/// Decode a section payload: decompress when flagged, verify the decoded
/// length, and verify the CRC-32.
pub fn decode_payload(bytes: &[u8], entry: &SectionEntry) -> (r: Result<Vec<u8>, Error>)
    ensures
        match payload_spec(bytes@, *entry) {
            Ok(d) => r matches Ok(v) && v@ == d,
            Err(k) => r matches Err(e) && e.kind == k && e.section == Some(entry.index),
        },
{
    if entry.offset > usize::MAX as u64 || entry.stored_len > usize::MAX as u64 {
        return Err(error_at(ErrorKind::Overflow, Some(entry.index), "payload range does not fit usize"));
    }
    let start = entry.offset as usize;
    let stored_len = entry.stored_len as usize;
    if start > usize::MAX - stored_len {
        return Err(error_at(ErrorKind::Overflow, Some(entry.index), "payload range overflow"));
    }
    let end = start + stored_len;
    if end > bytes.len() {
        return Err(error_at(ErrorKind::OutOfBounds, Some(entry.index), "payload range exceeds the file"));
    }
    let stored = vstd::slice::slice_subrange(bytes, start, end);
    let decoded = match entry.compression {
        Compression::Uncompressed => {
            if stored.len() as u64 != entry.decoded_len {
                return Err(error_at(ErrorKind::DecompressMismatch, Some(entry.index), "stored length differs from decoded_len"));
            }
            vstd::slice::slice_to_vec(stored)
        },
        Compression::Zlib => inflate_verified(stored, entry.decoded_len, entry.index)?,
    };
    let actual = crc32(decoded.as_slice());
    check_payload_crc(decoded, actual, entry.crc32, entry.index)
}

} // verus!
