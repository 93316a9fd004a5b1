//! The `.cull` container reader.
//!
//! [`parse`] validates the header and section table with overflow-checked
//! arithmetic, decodes every payload (decompressing zlib with explicit header
//! and trailing Adler-32 verification), verifies each payload's CRC-32 and
//! `decoded_len`, rejects duplicate kinds, out-of-order known kinds and
//! critical unknown kinds, keeps noncritical unknown kinds addressable without
//! interpreting them, requires INFO, and verifies the SEAL when present.
//! Typed section decoders run on demand from the validated payloads.

pub mod cursor;
pub mod checksum;
pub mod container;
pub mod chunk;
pub mod content;
pub mod image;
pub mod style;
pub mod glyph;
pub mod info;
pub mod seal;

use vstd::prelude::*;
use crate::error::{error_at, Error, ErrorKind};
use crate::limits::MAX_TOTAL_DECODED;
use crate::reader::chunk::ChunkSection;
use crate::reader::content::ContentPayload;
use crate::reader::glyph::Atlas;
use crate::reader::image::ImageRecord;
use crate::reader::info::Info;
use crate::reader::seal::Seal;
use crate::reader::style::StyleRecord;

pub use checksum::{adler32, crc32};
pub use container::{
    check_inflated, check_payload_crc, decode_payload, inflate_verified, section_code, section_kind_of, validate_structure, views,
    Compression, SectionEntry, SectionKind, SectionPayload, Structure, CRC_COVERED_LEN,
};

verus! {

/// A fully parsed and validated package. Section payloads are owned; the
/// typed decoders run on demand from them.
#[derive(Debug)]
pub struct Package {
    /// The format version (always 1).
    pub version: u16,
    /// The header flags (reserved; ignored).
    pub flags: u16,
    /// Section table entries in file order.
    pub entries: Vec<SectionEntry>,
    /// Decoded known sections, in file order (kinds strictly increasing).
    pub sections: Vec<SectionPayload>,
    /// Decoded unknown sections, in file order (addressable, never interpreted).
    pub unknown: Vec<SectionPayload>,
    /// Header bytes `0..12`, which the SEAL overall hash covers.
    pub header_prefix: [u8; CRC_COVERED_LEN],
}

/// The decoded bytes of the first section in `secs[i..]` whose kind is `code`.
pub open spec fn find_section(secs: Seq<(SectionEntry, Seq<u8>)>, code: u32, i: int) -> Option<Seq<u8>>
    decreases secs.len() - i,
{
    if i < 0 || i >= secs.len() {
        None
    } else if secs[i].0.kind == code {
        Some(secs[i].1)
    } else {
        find_section(secs, code, i + 1)
    }
}

impl Package {
    /// Header bytes `0..12`.
    pub open spec fn prefix(&self) -> Seq<u8> {
        self.header_prefix@
    }

    /// The decoded payload of the known section of `code`, if present.
    pub open spec fn payload_of(&self, code: u32) -> Option<Seq<u8>> {
        find_section(views(self.sections@), code, 0)
    }

    /// Header bytes `0..12`.
    pub(crate) fn header_prefix(&self) -> (r: &[u8])
        ensures
            r@ == self.prefix(),
    {
        self.header_prefix.as_slice()
    }

    /// The decoded payload of a known section, if present.
    pub fn section(&self, kind: SectionKind) -> (r: Option<&[u8]>)
        ensures
            match self.payload_of(section_code(kind)) {
                Some(p) => r matches Some(b) && b@ == p,
                None => r is None,
            },
    {
        let code = kind.code();
        let mut i: usize = 0;
        while i < self.sections.len()
            invariant
                i <= self.sections@.len(),
                code == section_code(kind),
                find_section(views(self.sections@), code, 0) == find_section(views(self.sections@), code, i as int),
            decreases self.sections@.len() - i,
        {
            if self.sections[i].entry.kind == code {
                return Some(self.sections[i].bytes.as_slice());
            }
            i = i + 1;
        }
        None
    }

    /// INFO metadata, decoded and validated on each access.
    pub fn info(&self) -> (r: Result<Option<Info>, Error>)
        ensures
            match self.payload_of(1) {
                None => r matches Ok(None),
                Some(p) => match info::info_spec(p) {
                    Ok(v) => r matches Ok(Some(x)) && x@ == v,
                    Err(k) => r matches Err(e) && e.kind == k && e.section is None && e.message@ == info::info_message(p),
                },
            },
    {
        match self.section(SectionKind::Info) {
            None => Ok(None),
            Some(payload) => match info::decode(payload) {
                Ok(i) => Ok(Some(i)),
                Err(e) => Err(e),
            },
        }
    }

    /// CHNK chunk graph, decoded and validated on each access.
    pub fn chunks(&self) -> (r: Result<Option<ChunkSection>, Error>)
        ensures
            match self.payload_of(2) {
                None => r matches Ok(None),
                Some(p) => match chunk::chunk_section_spec(p) {
                    Ok(v) => r matches Ok(Some(x)) && x@ == v,
                    Err(k) => r matches Err(e) && e.kind == k && e.section is None,
                },
            },
    {
        match self.section(SectionKind::Chunk) {
            None => Ok(None),
            Some(payload) => Ok(Some(chunk::decode(payload)?)),
        }
    }

    /// STYL style records, decoded and validated on each access.
    pub fn styles(&self) -> (r: Result<Option<Vec<StyleRecord>>, Error>)
        ensures
            match self.payload_of(3) {
                None => r matches Ok(None),
                Some(p) => match style::styles_spec(p) {
                    Ok(v) => r matches Ok(Some(x)) && x@.map_values(|s: StyleRecord| s@) == v,
                    Err(k) => r matches Err(e) && e.kind == k && e.section is None,
                },
            },
    {
        match self.section(SectionKind::Style) {
            None => Ok(None),
            Some(payload) => Ok(Some(style::decode(payload)?)),
        }
    }

    /// CONT content payloads, decoded and validated on each access.
    pub fn content(&self) -> (r: Result<Option<Vec<ContentPayload>>, Error>)
        ensures
            match self.payload_of(4) {
                None => r matches Ok(None),
                Some(p) => match content::content_spec(p) {
                    Ok(v) => r matches Ok(Some(x)) && x@.map_values(|c: ContentPayload| c@) == v,
                    Err(k) => r matches Err(e) && e.kind == k && e.section is None,
                },
            },
    {
        match self.section(SectionKind::Content) {
            None => Ok(None),
            Some(payload) => Ok(Some(content::decode(payload)?)),
        }
    }

    /// GLYF atlases, decoded and validated on each access.
    pub fn atlases(&self) -> (r: Result<Option<Vec<Atlas>>, Error>)
        ensures
            match self.payload_of(5) {
                None => r matches Ok(None),
                Some(p) => match glyph::atlases_spec(p) {
                    Ok(v) => r matches Ok(Some(x)) && x@.map_values(|a: Atlas| a@) == v,
                    Err(k) => r matches Err(e) && e.kind == k && e.section is None,
                },
            },
    {
        match self.section(SectionKind::Glyph) {
            None => Ok(None),
            Some(payload) => Ok(Some(glyph::decode(payload)?)),
        }
    }

    /// IMGS images, decoded and validated on each access.
    pub fn images(&self) -> (r: Result<Option<Vec<ImageRecord>>, Error>)
        ensures
            match self.payload_of(6) {
                None => r matches Ok(None),
                Some(p) => match image::images_spec(p) {
                    Ok(v) => r matches Ok(Some(x)) && x@.map_values(|i: ImageRecord| i@) == v,
                    Err(k) => r matches Err(e) && e.kind == k && e.section is None,
                },
            },
    {
        match self.section(SectionKind::Images) {
            None => Ok(None),
            Some(payload) => Ok(Some(image::decode(payload)?)),
        }
    }

    /// SEAL hash tree, decoded and validated on each access.
    pub fn seal(&self) -> (r: Result<Option<Seal>, Error>)
        ensures
            match self.payload_of(7) {
                None => r matches Ok(None),
                Some(p) => match seal::seal_spec(p) {
                    Ok(v) => r matches Ok(Some(x)) && x@ == v,
                    Err(k) => r matches Err(e) && e.kind == k && e.section is None && e.message@ == seal::seal_message(p),
                },
            },
    {
        match self.section(SectionKind::Seal) {
            None => Ok(None),
            Some(payload) => match seal::decode(payload) {
                Ok(s) => Ok(Some(s)),
                Err(e) => Err(e),
            },
        }
    }

    /// Verify the SEAL hash tree against every covered section. `Ok` when
    /// the seal is absent or verifies.
    pub fn verify_seal(&self) -> (r: Result<(), Error>)
        ensures
            match self.payload_of(7) {
                None => r is Ok,
                Some(p) => match seal::seal_spec(p) {
                    Err(k) => r matches Err(e) && e.kind == k && e.section is None && e.message@ == seal::seal_message(p),
                    Ok(s) => match seal::verify_spec(self.prefix(), views(self.sections@), s) {
                        Ok(()) => r is Ok,
                        Err(k) => r matches Err(e) && e.kind == k && e.section is None
                            && e.message@ == seal::verify_message(views(self.sections@), s),
                    },
                },
            },
    {
        match self.seal() {
            Err(e) => Err(e),
            Ok(None) => Ok(()),
            Ok(Some(seal_section)) => seal::verify(self, &seal_section),
        }
    }
}

/// The mathematical value of a [`Package`].
pub struct PackageView {
    pub version: u16,
    pub flags: u16,
    pub entries: Seq<SectionEntry>,
    pub sections: Seq<(SectionEntry, Seq<u8>)>,
    pub unknown: Seq<(SectionEntry, Seq<u8>)>,
    pub prefix: Seq<u8>,
}

impl View for Package {
    type V = PackageView;

    open spec fn view(&self) -> PackageView {
        PackageView {
            version: self.version,
            flags: self.flags,
            entries: self.entries@,
            sections: views(self.sections@),
            unknown: views(self.unknown@),
            prefix: self.header_prefix@,
        }
    }
}

/// The sections read so far while loading a package: the known ones and the
/// noncritical unknown ones (each with its entry and decoded payload, in
/// file order), and the running decoded total.
pub struct LoadState {
    pub known: Seq<(SectionEntry, Seq<u8>)>,
    pub unknown: Seq<(SectionEntry, Seq<u8>)>,
    pub total: int,
}

/// Whether a section of `kind` is among `secs`.
pub open spec fn has_kind(secs: Seq<(SectionEntry, Seq<u8>)>, kind: u32) -> bool {
    exists|i: int| 0 <= i < secs.len() && #[trigger] secs[i].0.kind == kind
}

/// Loading the first `n` entries in file order: each payload is decoded and
/// checked, the decoded total stays within 4 GiB, a known kind must be new
/// and greater than every known kind before it, and an unknown kind must not
/// be marked critical.
pub open spec fn load_spec(bytes: Seq<u8>, es: Seq<SectionEntry>, n: nat) -> Result<LoadState, (ErrorKind, Option<usize>)>
    decreases n,
{
    if n == 0 {
        Ok(LoadState { known: Seq::empty(), unknown: Seq::empty(), total: 0 })
    } else {
        match load_spec(bytes, es, (n - 1) as nat) {
            Err(x) => Err(x),
            Ok(st) => {
                let e = es[n - 1];
                match container::payload_spec(bytes, e) {
                    Err(k) => Err((k, Some(e.index))),
                    Ok(d) => {
                        let total = st.total + d.len();
                        if total > u64::MAX {
                            Err((ErrorKind::Overflow, Some(e.index)))
                        } else if total > 4294967296 {
                            Err((ErrorKind::DecodedLenExceeded, Some(e.index)))
                        } else if section_kind_of(e.kind) is Some {
                            if has_kind(st.known, e.kind) {
                                Err((ErrorKind::DuplicateSection, Some(e.index)))
                            } else if st.known.len() > 0 && e.kind <= st.known.last().0.kind {
                                Err((ErrorKind::InvalidSectionOrder, Some(e.index)))
                            } else {
                                Ok(LoadState { known: st.known.push((e, d)), unknown: st.unknown, total })
                            }
                        } else if e.flags % 2 == 1 {
                            Err((ErrorKind::UnknownCriticalSection, Some(e.index)))
                        } else {
                            Ok(LoadState { known: st.known, unknown: st.unknown.push((e, d)), total })
                        }
                    },
                }
            },
        }
    }
}

/// The SEAL check of a loaded package: `Ok` without a SEAL, otherwise the
/// decoded seal must verify against the header prefix and known sections.
pub open spec fn seal_outcome(prefix: Seq<u8>, known: Seq<(SectionEntry, Seq<u8>)>) -> Result<(), ErrorKind> {
    match find_section(known, 7, 0) {
        None => Ok(()),
        Some(p) => match seal::seal_spec(p) {
            Err(k) => Err(k),
            Ok(s) => seal::verify_spec(prefix, known, s),
        },
    }
}

/// The outcome of parsing a package: the container structure, every
/// section loaded, INFO present, and the SEAL verified.
pub open spec fn parse_spec(bytes: Seq<u8>) -> Result<PackageView, (ErrorKind, Option<usize>)> {
    match container::structure_spec(bytes) {
        Err(x) => Err(x),
        Ok((version, flags, es)) => match load_spec(bytes, es, es.len()) {
            Err(x) => Err(x),
            Ok(st) => if !has_kind(st.known, 1) {
                Err((ErrorKind::MissingRequiredSection, None))
            } else {
                match seal_outcome(bytes.take(12), st.known) {
                    Err(k) => Err((k, None)),
                    Ok(()) => Ok(PackageView {
                        version,
                        flags,
                        entries: es,
                        sections: st.known,
                        unknown: st.unknown,
                        prefix: bytes.take(12),
                    }),
                }
            },
        },
    }
}

/// The known sections loaded from the first `n` entries come in strictly
/// increasing kind order.
proof fn lemma_load_known_ordered(bytes: Seq<u8>, es: Seq<SectionEntry>, n: nat)
    requires
        load_spec(bytes, es, n) is Ok,
    ensures
        forall|i: int, j: int| 0 <= i < j < load_spec(bytes, es, n)->Ok_0.known.len() ==> (#[trigger] load_spec(bytes, es, n)->Ok_0.known[i]).0.kind
            < (#[trigger] load_spec(bytes, es, n)->Ok_0.known[j]).0.kind,
    decreases n,
{
    if n > 0 {
        lemma_load_known_ordered(bytes, es, (n - 1) as nat);
        let st = load_spec(bytes, es, (n - 1) as nat)->Ok_0;
        let now = load_spec(bytes, es, n)->Ok_0;
        assert forall|i: int, j: int| 0 <= i < j < now.known.len() implies (#[trigger] now.known[i]).0.kind < (#[trigger] now.known[j]).0.kind by {
            if j == now.known.len() - 1 && now.known.len() > st.known.len() {
                assert(now.known[i] == st.known[i]);
                if i < st.known.len() - 1 {
                    assert(st.known[i].0.kind < st.known[st.known.len() - 1].0.kind);
                }
            } else {
                assert(now.known[i] == st.known[i]);
                assert(now.known[j] == st.known[j]);
            }
        }
    }
}

/// A package that parses holds an INFO section, and its known sections come
/// in strictly increasing kind order, so no kind occurs twice.
pub proof fn lemma_parsed_sections_ordered(bytes: Seq<u8>)
    requires
        parse_spec(bytes) is Ok,
    ensures
        has_kind(parse_spec(bytes)->Ok_0.sections, 1),
        forall|i: int, j: int| 0 <= i < j < parse_spec(bytes)->Ok_0.sections.len() ==> (#[trigger] parse_spec(bytes)->Ok_0.sections[i]).0.kind
            < (#[trigger] parse_spec(bytes)->Ok_0.sections[j]).0.kind,
{
    let es = container::structure_spec(bytes)->Ok_0.2;
    lemma_load_known_ordered(bytes, es, es.len());
}

proof fn lemma_load_err_sticks(bytes: Seq<u8>, es: Seq<SectionEntry>, m: nat, n: nat)
    requires
        m <= n,
        load_spec(bytes, es, m) is Err,
    ensures
        load_spec(bytes, es, n) == load_spec(bytes, es, m),
    decreases n - m,
{
    if m < n {
        lemma_load_err_sticks(bytes, es, m, (n - 1) as nat);
    }
}

/// A copy of a table entry.
fn copy_entry(e: &SectionEntry) -> (r: SectionEntry)
    ensures
        r == *e,
{
    SectionEntry {
        index: e.index,
        kind: e.kind,
        compression: e.compression,
        flags: e.flags,
        offset: e.offset,
        stored_len: e.stored_len,
        decoded_len: e.decoded_len,
        crc32: e.crc32,
    }
}

/// Whether a known section of `kind` has been loaded.
fn seen_kind(secs: &Vec<SectionPayload>, kind: u32) -> (r: bool)
    ensures
        r == has_kind(views(secs@), kind),
{
    let mut i: usize = 0;
    while i < secs.len()
        invariant
            i <= secs@.len(),
            forall|j: int| 0 <= j < i ==> #[trigger] views(secs@)[j].0.kind != kind,
        decreases secs@.len() - i,
    {
        if secs[i].entry.kind == kind {
            assert(views(secs@)[i as int].0.kind == kind);
            return true;
        }
        i = i + 1;
    }
    false
}

/// Header bytes `0..12` of a file at least that long.
fn header_prefix_of(bytes: &[u8]) -> (r: [u8; CRC_COVERED_LEN])
    requires
        bytes@.len() >= 12,
    ensures
        r@ == bytes@.take(12),
{
    let mut out = [0u8; CRC_COVERED_LEN];
    let mut i: usize = 0;
    while i < CRC_COVERED_LEN
        invariant
            i <= 12,
            bytes@.len() >= 12,
            forall|j: int| 0 <= j < i ==> out@[j] == bytes@[j],
        decreases 12 - i,
    {
        out[i] = bytes[i];
        i = i + 1;
    }
    assert(out@ =~= bytes@.take(12));
    out
}

/// Parse and validate a complete package.
///
/// Validates the header and table, decodes every payload, verifies each
/// CRC-32 and `decoded_len`, rejects duplicate and out-of-order known kinds
/// and critical unknown kinds, requires INFO, and verifies the SEAL when
/// present.
pub fn parse(bytes: &[u8]) -> (r: Result<Package, Error>)
    ensures
        match parse_spec(bytes@) {
            Ok(v) => r matches Ok(p) && p@ == v,
            Err((k, s)) => r matches Err(e) && e.kind == k && e.section == s,
        },
{
    let structure = validate_structure(bytes)?;
    let entries = structure.entries;
    let header_prefix = header_prefix_of(bytes);
    let ghost es = entries@;
    let mut sections: Vec<SectionPayload> = Vec::new();
    let mut unknown: Vec<SectionPayload> = Vec::new();
    let mut total_decoded: u64 = 0;
    assert(views(sections@) =~= Seq::<(SectionEntry, Seq<u8>)>::empty());
    assert(views(unknown@) =~= Seq::<(SectionEntry, Seq<u8>)>::empty());
    let mut i: usize = 0;
    while i < entries.len()
        invariant
            es == entries@,
            container::structure_spec(bytes@) matches Ok((v, f, x)) && x == es && v == structure.version
                && f == structure.flags,
            i <= es.len(),
            load_spec(bytes@, es, i as nat) == Ok::<LoadState, (ErrorKind, Option<usize>)>(LoadState {
                known: views(sections@),
                unknown: views(unknown@),
                total: total_decoded as int,
            }),
        decreases es.len() - i,
    {
        let entry = &entries[i];
        let payload = match decode_payload(bytes, entry) {
            Ok(p) => p,
            Err(e) => {
                proof {
                    lemma_load_err_sticks(bytes@, es, (i + 1) as nat, es.len());
                }
                return Err(e);
            },
        };
        let len = payload.len() as u64;
        if total_decoded > u64::MAX - len {
            proof {
                lemma_load_err_sticks(bytes@, es, (i + 1) as nat, es.len());
            }
            return Err(error_at(ErrorKind::Overflow, Some(entry.index), "total decoded size overflow"));
        }
        total_decoded = total_decoded + len;
        if total_decoded > MAX_TOTAL_DECODED {
            proof {
                lemma_load_err_sticks(bytes@, es, (i + 1) as nat, es.len());
            }
            return Err(error_at(ErrorKind::DecodedLenExceeded, Some(entry.index), "total decoded size exceeds the cap"));
        }
        let item = SectionPayload { entry: copy_entry(entry), bytes: payload };
        match SectionKind::from_code(entry.kind) {
            Some(_) => {
                if seen_kind(&sections, entry.kind) {
                    proof {
                        lemma_load_err_sticks(bytes@, es, (i + 1) as nat, es.len());
                    }
                    return Err(error_at(ErrorKind::DuplicateSection, Some(entry.index), "duplicate section kind"));
                }
                if sections.len() > 0 && entry.kind <= sections[sections.len() - 1].entry.kind {
                    proof {
                        lemma_load_err_sticks(bytes@, es, (i + 1) as nat, es.len());
                    }
                    return Err(error_at(ErrorKind::InvalidSectionOrder, Some(entry.index), "canonical section order violated"));
                }
                let ghost before = sections@;
                sections.push(item);
                assert(views(sections@) =~= views(before).push(item@));
            },
            None => {
                let entry_flags = entry.flags;
                assert(entry_flags & 0x01 != 0 <==> entry_flags % 2 == 1) by (bit_vector);
                if entry_flags & 0x01 != 0 {
                    proof {
                        lemma_load_err_sticks(bytes@, es, (i + 1) as nat, es.len());
                    }
                    return Err(error_at(ErrorKind::UnknownCriticalSection, Some(entry.index), "unknown section kind marked critical"));
                }
                let ghost before = unknown@;
                unknown.push(item);
                assert(views(unknown@) =~= views(before).push(item@));
            },
        }
        i = i + 1;
    }
    if !seen_kind(&sections, 1) {
        return Err(error_at(ErrorKind::MissingRequiredSection, None, "required INFO section is absent"));
    }
    let package = Package {
        version: structure.version,
        flags: structure.flags,
        entries,
        sections,
        unknown,
        header_prefix,
    };
    match package.verify_seal() {
        Ok(()) => Ok(package),
        Err(e) => Err(Error { kind: e.kind, section: None, message: e.message }),
    }
}

/// A section table that holds a kind finds it from any position before
/// the first entry of that kind.
proof fn lemma_find_present(secs: Seq<(SectionEntry, Seq<u8>)>, code: u32, i: int, w: int)
    requires
        0 <= i <= w < secs.len(),
        secs[w].0.kind == code,
    ensures
        find_section(secs, code, i) is Some,
    decreases w - i,
{
    if secs[i].0.kind != code {
        lemma_find_present(secs, code, i + 1, w);
    }
}

/// A package that parses has an INFO section, so its `info` never answers
/// `Ok(None)`: it decodes the INFO payload, or reports why it cannot.
pub proof fn lemma_parsed_package_has_info(bytes: Seq<u8>, p: &Package)
    requires
        parse_spec(bytes) is Ok,
        p@ == parse_spec(bytes)->Ok_0,
    ensures
        p.payload_of(1) is Some,
{
    lemma_parsed_sections_ordered(bytes);
    let secs = views(p.sections@);
    let w = choose|i: int| 0 <= i < secs.len() && #[trigger] secs[i].0.kind == 1;
    lemma_find_present(secs, 1, 0, w);
}

} // verus!
