//! SEAL section decoder and verifier: the integrity hash tree.
//!
//! The SEAL section carries a per-section SHA-256 over every covered section's
//! decoded payload plus an `overall_hash` that binds header identity, section
//! kinds, decoded lengths, and content. The definition is deliberately
//! non-circular: the SEAL section does not cover itself, and the overall hash
//! covers header bytes `0..12` instead of the raw table (whose offsets depend
//! on the SEAL section's own size).

use vstd::prelude::*;
use sha2::{Digest, Sha256};
use crate::error::{error_at, Error, ErrorKind};
use crate::limits::MAX_COVERED_SECTIONS;
use crate::reader::container::{views, SectionEntry, SectionPayload};
use crate::reader::cursor::{take_bytes, take_int, Cursor};
use crate::reader::Package;

verus! {

/// The SEAL overall hash is 32 bytes.
pub const OVERALL_HASH_LEN: usize = 32;
/// The hash tree mode.
pub const SEAL_MODE_HASH_TREE: u8 = 1;
/// The hash algorithm code for SHA-256.
pub const SEAL_ALGO_SHA256: u8 = 0;
/// The SEAL section's kind code.
pub const SEAL_KIND: u32 = 7;

/// One covered section's hash.
#[derive(Debug, Clone, PartialEq, Eq)]
pub struct SectionHash {
    /// The covered section kind.
    pub kind: u32,
    /// SHA-256 of the section's decoded payload.
    pub hash: [u8; OVERALL_HASH_LEN],
}

/// A decoded SEAL section.
#[derive(Debug, Clone, PartialEq, Eq)]
pub struct Seal {
    /// The hash tree mode (must be [`SEAL_MODE_HASH_TREE`]).
    pub mode: u8,
    /// The hash algorithm (must be [`SEAL_ALGO_SHA256`]).
    pub algo: u8,
    /// Per-section hashes in file order.
    pub hashes: Vec<SectionHash>,
    /// The overall content hash.
    pub overall: [u8; OVERALL_HASH_LEN],
}

/// The mathematical value of a [`Seal`]: mode, algorithm, `(kind, hash)`
/// entries in file order and the overall hash.
pub struct SealView {
    pub mode: u8,
    pub algo: u8,
    pub hashes: Seq<(u32, Seq<u8>)>,
    pub overall: Seq<u8>,
}

impl View for Seal {
    type V = SealView;

    open spec fn view(&self) -> SealView {
        SealView {
            mode: self.mode,
            algo: self.algo,
            hashes: self.hashes@.map_values(|h: SectionHash| (h.kind, h.hash@)),
            overall: self.overall@,
        }
    }
}

/// The SHA-256 digest of a byte sequence.
pub uninterp spec fn sha256_of(data: Seq<u8>) -> Seq<u8>;

/// SHA-256 of the given bytes.
///
/// Calls `sha2::Sha256::digest`; the contract names the 32-byte digest as a
/// function of the bytes alone.
#[verifier::external_body]
fn sha256(bytes: &[u8]) -> (r: [u8; OVERALL_HASH_LEN])
    ensures
        r@ == sha256_of(bytes@),
{
    Sha256::digest(bytes).into()
}

/// Decoding `n` `(kind, hash)` entries of 36 bytes each from `start`.
pub open spec fn seal_hashes_spec(p: Seq<u8>, start: int, n: nat) -> Result<(Seq<(u32, Seq<u8>)>, int), ErrorKind>
    decreases n,
{
    if n == 0 {
        Ok((Seq::empty(), start))
    } else {
        match seal_hashes_spec(p, start, (n - 1) as nat) {
            Err(k) => Err(k),
            Ok((hs, pos)) => match take_int(p, pos, 4) {
                Err(k) => Err(k),
                Ok(kind) => match take_bytes(p, pos + 4, 32) {
                    Err(k) => Err(k),
                    Ok(h) => Ok((hs.push((kind as u32, h)), pos + 36)),
                },
            },
        }
    }
}

/// The outcome of decoding a SEAL payload: the 8-byte preamble (mode,
/// algorithm, flags, reserved, count) with its checks, the entries, the
/// overall hash, and no trailing bytes.
pub open spec fn seal_spec(p: Seq<u8>) -> Result<SealView, ErrorKind> {
    match take_bytes(p, 0, 8) {
        Err(k) => Err(k),
        Ok(pre) => {
            let count = take_int(p, 4, 4)->Ok_0;
            if pre[0] != 1 {
                Err(ErrorKind::InvalidValue)
            } else if pre[1] != 0 {
                Err(ErrorKind::UnsupportedAlgorithm)
            } else if pre[2] != 0 || pre[3] != 0 {
                Err(ErrorKind::InvalidFlags)
            } else if count > 64 {
                Err(ErrorKind::InvalidValue)
            } else {
                match seal_hashes_spec(p, 8, count as nat) {
                    Err(k) => Err(k),
                    Ok((hashes, pos)) => match take_bytes(p, pos, 32) {
                        Err(k) => Err(k),
                        Ok(overall) => if pos + 32 != p.len() {
                            Err(ErrorKind::InvalidValue)
                        } else {
                            Ok(SealView { mode: pre[0], algo: pre[1], hashes, overall })
                        },
                    },
                }
            }
        },
    }
}

/// The message of the first failure while decoding `n` entries from
/// `start` (meaningful where that decoding fails): the field that ran short.
pub open spec fn seal_hashes_message(p: Seq<u8>, start: int, n: nat) -> Seq<char>
    decreases n,
{
    if n == 0 {
        Seq::empty()
    } else {
        match seal_hashes_spec(p, start, (n - 1) as nat) {
            Err(_) => seal_hashes_message(p, start, (n - 1) as nat),
            Ok((_, pos)) => match take_int(p, pos, 4) {
                Err(_) => "SEAL section kind"@,
                Ok(_) => "SEAL digest"@,
            },
        }
    }
}

/// The message of a refused SEAL payload (meaningful where [`seal_spec`]
/// fails): the preamble field that ran short, the preamble check that
/// failed, the entry field that ran short, or the overall hash or trailing
/// bytes.
pub open spec fn seal_message(p: Seq<u8>) -> Seq<char> {
    match take_bytes(p, 0, 8) {
        Err(_) => if p.len() < 1 {
            "SEAL mode"@
        } else if p.len() < 2 {
            "SEAL algo"@
        } else if p.len() < 3 {
            "SEAL flags"@
        } else if p.len() < 4 {
            "SEAL reserved"@
        } else {
            "SEAL count"@
        },
        Ok(pre) => {
            let count = take_int(p, 4, 4)->Ok_0;
            if pre[0] != 1 {
                "SEAL mode is not the hash tree"@
            } else if pre[1] != 0 {
                "SEAL algorithm is not SHA-256"@
            } else if pre[2] != 0 || pre[3] != 0 {
                "SEAL flags/reserved bits must be zero"@
            } else if count > 64 {
                "SEAL count exceeds the cap"@
            } else {
                match seal_hashes_spec(p, 8, count as nat) {
                    Err(_) => seal_hashes_message(p, 8, count as nat),
                    Ok((_, pos)) => match take_bytes(p, pos, 32) {
                        Err(_) => "SEAL overall"@,
                        Ok(_) => "SEAL payload"@,
                    },
                }
            }
        },
    }
}

proof fn lemma_seal_hashes_err_sticks(p: Seq<u8>, start: int, m: nat, n: nat)
    requires
        m <= n,
        seal_hashes_spec(p, start, m) is Err,
    ensures
        seal_hashes_spec(p, start, n) == seal_hashes_spec(p, start, m),
        seal_hashes_message(p, start, n) == seal_hashes_message(p, start, m),
    decreases n - m,
{
    if m < n {
        lemma_seal_hashes_err_sticks(p, start, m, (n - 1) as nat);
    }
}

/// Copy a 32-byte digest out of a slice.
fn digest_array(b: &[u8]) -> (r: [u8; OVERALL_HASH_LEN])
    requires
        b@.len() == 32,
    ensures
        r@ == b@,
{
    let mut out = [0u8; OVERALL_HASH_LEN];
    let mut i: usize = 0;
    while i < OVERALL_HASH_LEN
        invariant
            i <= 32,
            b@.len() == 32,
            forall|j: int| 0 <= j < i ==> out@[j] == b@[j],
        decreases 32 - i,
    {
        out[i] = b[i];
        i = i + 1;
    }
    assert(out@ =~= b@);
    out
}

/// Decode and structurally validate the SEAL payload.
pub fn decode(payload: &[u8]) -> (r: Result<Seal, Error>)
    ensures
        match seal_spec(payload@) {
            Ok(v) => r matches Ok(s) && s@ == v,
            Err(k) => r matches Err(e) && e.kind == k && e.section is None && e.message@ == seal_message(payload@),
        },
{
    let ghost p = payload@;
    let mut c = Cursor::new(payload, 0, None);
    let mode = c.u8("SEAL mode")?;
    let algo = c.u8("SEAL algo")?;
    let flags = c.u8("SEAL flags")?;
    let reserved = c.u8("SEAL reserved")?;
    let count = c.u32("SEAL count")?;
    assert(take_bytes(p, 0, 8)->Ok_0 =~= p.subrange(0, 8));
    if mode != SEAL_MODE_HASH_TREE {
        return Err(error_at(ErrorKind::InvalidValue, None, "SEAL mode is not the hash tree"));
    }
    if algo != SEAL_ALGO_SHA256 {
        return Err(error_at(ErrorKind::UnsupportedAlgorithm, None, "SEAL algorithm is not SHA-256"));
    }
    if flags != 0 || reserved != 0 {
        return Err(error_at(ErrorKind::InvalidFlags, None, "SEAL flags/reserved bits must be zero"));
    }
    if count as u64 > MAX_COVERED_SECTIONS {
        return Err(error_at(ErrorKind::InvalidValue, None, "SEAL count exceeds the cap"));
    }
    let mut hashes: Vec<SectionHash> = Vec::new();
    assert(hashes@.map_values(|h: SectionHash| (h.kind, h.hash@)) =~= Seq::<(u32, Seq<u8>)>::empty());
    let mut i: usize = 0;
    while i < count as usize
        invariant
            p == payload@,
            c.bytes@ == p,
            c.section is None,
            c.pos <= p.len(),
            i <= count,
            count <= 64,
            p.len() >= 8,
            p[0] == 1 && p[1] == 0 && p[2] == 0 && p[3] == 0,
            take_int(p, 4, 4) == Ok::<int, ErrorKind>(count as int),
            seal_hashes_spec(p, 8, i as nat) == Ok::<(Seq<(u32, Seq<u8>)>, int), ErrorKind>(
                (hashes@.map_values(|h: SectionHash| (h.kind, h.hash@)), c.pos as int),
            ),
        decreases count - i,
    {
        let kind = match c.u32("SEAL section kind") {
            Ok(kind) => kind,
            Err(e) => {
                assert(seal_hashes_spec(p, 8, (i + 1) as nat) == Err::<(Seq<(u32, Seq<u8>)>, int), ErrorKind>(e.kind));
                proof {
                    lemma_seal_hashes_err_sticks(p, 8, (i + 1) as nat, count as nat);
                }
                return Err(e);
            },
        };
        let hash_bytes = match c.bytes(OVERALL_HASH_LEN, "SEAL digest") {
            Ok(b) => b,
            Err(e) => {
                assert(seal_hashes_spec(p, 8, (i + 1) as nat) == Err::<(Seq<(u32, Seq<u8>)>, int), ErrorKind>(e.kind));
                proof {
                    lemma_seal_hashes_err_sticks(p, 8, (i + 1) as nat, count as nat);
                }
                return Err(e);
            },
        };
        let hash = digest_array(hash_bytes);
        let ghost before = hashes@;
        hashes.push(SectionHash { kind, hash });
        assert(hashes@.map_values(|h: SectionHash| (h.kind, h.hash@)) =~= before.map_values(
            |h: SectionHash| (h.kind, h.hash@),
        ).push((kind, hash@)));
        i = i + 1;
    }
    let overall_bytes = c.bytes(OVERALL_HASH_LEN, "SEAL overall")?;
    let overall = digest_array(overall_bytes);
    c.finish("SEAL payload")?;
    Ok(Seal { mode, algo, hashes, overall })
}

/// The covered sections: every section but the SEAL itself, in file order.
pub open spec fn covered_of(secs: Seq<(SectionEntry, Seq<u8>)>) -> Seq<(SectionEntry, Seq<u8>)>
    decreases secs.len(),
{
    if secs.len() == 0 {
        Seq::empty()
    } else {
        let rest = covered_of(secs.drop_last());
        if secs.last().0.kind != SEAL_KIND {
            rest.push(secs.last())
        } else {
            rest
        }
    }
}

/// The decoded bytes the verifier holds for `kind`: those of the last
/// covered section of that kind.
pub open spec fn last_of_kind(cov: Seq<(SectionEntry, Seq<u8>)>, kind: u32) -> Option<Seq<u8>>
    decreases cov.len(),
{
    if cov.len() == 0 {
        None
    } else if cov.last().0.kind == kind {
        Some(cov.last().1)
    } else {
        last_of_kind(cov.drop_last(), kind)
    }
}

/// Whether the per-section entries match the covered sections: one entry per
/// covered section, each naming a covered kind whose payload hashes to the
/// entry's digest.
pub open spec fn hashes_match(cov: Seq<(SectionEntry, Seq<u8>)>, hashes: Seq<(u32, Seq<u8>)>) -> bool {
    &&& hashes.len() == cov.len()
    &&& forall|i: int| 0 <= i < hashes.len() ==> match #[trigger] last_of_kind(cov, hashes[i].0) {
        Some(b) => sha256_of(b) == hashes[i].1,
        None => false,
    }
}

/// The message of the first entry, from `j` on, whose hash does not check:
/// its kind is not covered, or its digest differs.
pub open spec fn hash_failure_message(cov: Seq<(SectionEntry, Seq<u8>)>, hashes: Seq<(u32, Seq<u8>)>, j: int) -> Seq<char>
    decreases hashes.len() - j,
{
    if j < 0 || j >= hashes.len() {
        Seq::empty()
    } else {
        match last_of_kind(cov, hashes[j].0) {
            None => "SEAL covers a kind the package lacks"@,
            Some(b) => if sha256_of(b) != hashes[j].1 {
                "SEAL section hash mismatch"@
            } else {
                hash_failure_message(cov, hashes, j + 1)
            },
        }
    }
}

/// Where a section of `kind` goes when inserted into `s[..p]`: after every
/// section whose kind is not greater (so equal kinds keep their order).
pub open spec fn insert_pos(s: Seq<(SectionEntry, Seq<u8>)>, kind: u32, p: nat) -> nat
    decreases p,
{
    if p == 0 {
        0
    } else if s[p - 1].0.kind > kind {
        insert_pos(s, kind, (p - 1) as nat)
    } else {
        p
    }
}

/// The sections ordered by kind, equal kinds in file order.
pub open spec fn sort_by_kind(s: Seq<(SectionEntry, Seq<u8>)>) -> Seq<(SectionEntry, Seq<u8>)>
    decreases s.len(),
{
    if s.len() == 0 {
        Seq::empty()
    } else {
        let r = sort_by_kind(s.drop_last());
        r.insert(insert_pos(r, s.last().0.kind, r.len()) as int, s.last())
    }
}

/// The four little-endian bytes of a `u32`.
pub open spec fn le32(x: u32) -> Seq<u8> {
    seq![(x % 256) as u8, ((x / 256) % 256) as u8, ((x / 65536) % 256) as u8, ((x / 16777216) % 256) as u8]
}

/// The bytes the overall hash covers after the header prefix: for each
/// section, its kind and decoded length (both `u32` LE) and its payload.
pub open spec fn seal_stream(s: Seq<(SectionEntry, Seq<u8>)>) -> Seq<u8>
    decreases s.len(),
{
    if s.len() == 0 {
        Seq::empty()
    } else {
        seal_stream(s.drop_last()) + le32(s.last().0.kind) + le32(s.last().1.len() as u32)
            + s.last().1
    }
}

/// The message of a refused SEAL check (meaningful where [`verify_spec`]
/// fails), in the order the checks run.
pub open spec fn verify_message(secs: Seq<(SectionEntry, Seq<u8>)>, seal: SealView) -> Seq<char> {
    let cov = covered_of(secs);
    if seal.hashes.len() != cov.len() {
        "SEAL covers a different number of sections"@
    } else if !hashes_match(cov, seal.hashes) {
        hash_failure_message(cov, seal.hashes, 0)
    } else if exists|i: int| 0 <= i < cov.len() && #[trigger] cov[i].1.len() > u32::MAX {
        "decoded payload exceeds u32 length"@
    } else {
        "SEAL overall hash mismatch"@
    }
}

/// The outcome of verifying a seal against a package's header prefix and
/// known sections.
pub open spec fn verify_spec(prefix: Seq<u8>, secs: Seq<(SectionEntry, Seq<u8>)>, seal: SealView) -> Result<(), ErrorKind> {
    let cov = covered_of(secs);
    if !hashes_match(cov, seal.hashes) {
        Err(ErrorKind::SealMismatch)
    } else if exists|i: int| 0 <= i < cov.len() && #[trigger] cov[i].1.len() > u32::MAX {
        Err(ErrorKind::Internal)
    } else if sha256_of(prefix + seal_stream(sort_by_kind(cov))) != seal.overall {
        Err(ErrorKind::SealMismatch)
    } else {
        Ok(())
    }
}

/// The sections that a sequence of indices picks.
pub open spec fn picked(secs: Seq<SectionPayload>, idx: Seq<usize>) -> Seq<(SectionEntry, Seq<u8>)> {
    idx.map_values(|i: usize| secs[i as int]@)
}

/// Indices of the covered sections, in file order.
fn covered_indices(secs: &Vec<SectionPayload>) -> (r: Vec<usize>)
    ensures
        picked(secs@, r@) == covered_of(views(secs@)),
        forall|i: int| 0 <= i < r@.len() ==> #[trigger] r@[i] < secs@.len(),
{
    let mut out: Vec<usize> = Vec::new();
    let mut i: usize = 0;
    while i < secs.len()
        invariant
            i <= secs@.len(),
            picked(secs@, out@) == covered_of(views(secs@).take(i as int)),
            forall|j: int| 0 <= j < out@.len() ==> #[trigger] out@[j] < secs@.len(),
        decreases secs@.len() - i,
    {
        assert(views(secs@).take((i + 1) as int).drop_last() =~= views(secs@).take(i as int));
        if secs[i].entry.kind != SEAL_KIND {
            let ghost before = out@;
            out.push(i);
            assert(picked(secs@, out@) =~= picked(secs@, before).push(secs@[i as int]@));
        }
        i = i + 1;
    }
    assert(views(secs@).take(secs@.len() as int) =~= views(secs@));
    out
}

/// The index of the last covered section of `kind`.
fn last_index_of_kind(secs: &Vec<SectionPayload>, cov: &Vec<usize>, kind: u32) -> (r: Option<usize>)
    requires
        forall|i: int| 0 <= i < cov@.len() ==> #[trigger] cov@[i] < secs@.len(),
    ensures
        match last_of_kind(picked(secs@, cov@), kind) {
            None => r is None,
            Some(b) => r matches Some(j) && j < secs@.len() && secs@[j as int].bytes@ == b,
        },
{
    let mut p: usize = cov.len();
    assert(cov@.take(cov@.len() as int) =~= cov@);
    while p > 0
        invariant
            p <= cov@.len(),
            forall|i: int| 0 <= i < cov@.len() ==> #[trigger] cov@[i] < secs@.len(),
            last_of_kind(picked(secs@, cov@), kind) == last_of_kind(picked(secs@, cov@.take(p as int)), kind),
        decreases p,
    {
        let j = cov[p - 1];
        assert(picked(secs@, cov@.take((p - 1) as int)) =~= picked(secs@, cov@.take(p as int)).drop_last());
        if secs[j].entry.kind == kind {
            return Some(j);
        }
        p = p - 1;
    }
    None
}

/// The covered indices ordered by kind, equal kinds in file order.
fn sorted_by_kind(secs: &Vec<SectionPayload>, cov: &Vec<usize>) -> (r: Vec<usize>)
    requires
        forall|i: int| 0 <= i < cov@.len() ==> #[trigger] cov@[i] < secs@.len(),
    ensures
        picked(secs@, r@) == sort_by_kind(picked(secs@, cov@)),
        forall|i: int| 0 <= i < r@.len() ==> #[trigger] r@[i] < secs@.len(),
{
    let mut order: Vec<usize> = Vec::new();
    let mut i: usize = 0;
    while i < cov.len()
        invariant
            i <= cov@.len(),
            forall|j: int| 0 <= j < cov@.len() ==> #[trigger] cov@[j] < secs@.len(),
            forall|j: int| 0 <= j < order@.len() ==> #[trigger] order@[j] < secs@.len(),
            picked(secs@, order@) == sort_by_kind(picked(secs@, cov@).take(i as int)),
        decreases cov@.len() - i,
    {
        let x = cov[i];
        let kind = secs[x].entry.kind;
        let ghost sorted = picked(secs@, order@);
        let mut p: usize = order.len();
        while p > 0 && secs[order[p - 1]].entry.kind > kind
            invariant
                p <= order@.len(),
                sorted == picked(secs@, order@),
                forall|j: int| 0 <= j < order@.len() ==> #[trigger] order@[j] < secs@.len(),
                insert_pos(sorted, kind, order@.len() as nat) == insert_pos(sorted, kind, p as nat),
            decreases p,
        {
            p = p - 1;
        }
        order.insert(p, x);
        proof {
            let s = picked(secs@, cov@).take((i + 1) as int);
            assert(s.drop_last() =~= picked(secs@, cov@).take(i as int));
            assert(s.last() == secs@[x as int]@);
            assert(picked(secs@, order@) =~= sorted.insert(p as int, secs@[x as int]@));
        }
        i = i + 1;
    }
    assert(picked(secs@, cov@).take(cov@.len() as int) =~= picked(secs@, cov@));
    order
}

/// Whether two digests are equal.
fn digests_equal(a: &[u8; OVERALL_HASH_LEN], b: &[u8; OVERALL_HASH_LEN]) -> (r: bool)
    ensures
        r == (a@ == b@),
{
    let mut i: usize = 0;
    while i < OVERALL_HASH_LEN
        invariant
            i <= 32,
            a@.len() == 32,
            b@.len() == 32,
            forall|j: int| 0 <= j < i ==> a@[j] == b@[j],
        decreases 32 - i,
    {
        if a[i] != b[i] {
            return false;
        }
        i = i + 1;
    }
    assert(a@ =~= b@);
    true
}

/// Append the four little-endian bytes of `x`.
fn push_le32(out: &mut Vec<u8>, x: u32)
    ensures
        final(out)@ == old(out)@ + le32(x),
{
    out.push((x % 256) as u8);
    out.push(((x / 256) % 256) as u8);
    out.push(((x / 65536) % 256) as u8);
    out.push(((x / 16777216) % 256) as u8);
    assert(final(out)@ =~= old(out)@ + le32(x));
}

/// Append a byte slice.
fn push_bytes(out: &mut Vec<u8>, b: &[u8])
    ensures
        final(out)@ == old(out)@ + b@,
{
    let mut i: usize = 0;
    while i < b.len()
        invariant
            i <= b@.len(),
            out@ == old(out)@ + b@.take(i as int),
        decreases b@.len() - i,
    {
        out.push(b[i]);
        assert(b@.take((i + 1) as int) =~= b@.take(i as int).push(b@[i as int]));
        i = i + 1;
    }
    assert(b@.take(b@.len() as int) =~= b@);
}

/// Check a computed SHA-256 digest (`actual`) against the one the SEAL
/// records (`expected`); a mismatch is refused with `message`.
pub fn check_digest(actual: &[u8; OVERALL_HASH_LEN], expected: &[u8; OVERALL_HASH_LEN], message: &str) -> (r: Result<(), Error>)
    ensures
        actual@ == expected@ ==> r is Ok,
        actual@ != expected@ ==> (r matches Err(e) && e.kind == ErrorKind::SealMismatch && e.section is None
            && e.message@ == message@),
{
    if !digests_equal(actual, expected) {
        return Err(Error::new(ErrorKind::SealMismatch, crate::text::to_owned_string(message)));
    }
    Ok(())
}

/// Verify the SEAL hash tree against the package.
///
/// The covered sections are every known non-SEAL section: per-section hashes
/// must match the decoded payloads (one entry per covered section, each
/// entry's kind covered), and the overall hash is recomputed over header
/// bytes `0..12` then every covered section in canonical kind order as
/// `u32 kind` (LE) + `u32 decoded_len` (LE) + decoded payload.
pub fn verify(package: &Package, seal: &Seal) -> (r: Result<(), Error>)
    ensures
        match verify_spec(package.prefix(), views(package.sections@), seal@) {
            Ok(()) => r is Ok,
            Err(k) => r matches Err(e) && e.kind == k && e.section is None
                && e.message@ == verify_message(views(package.sections@), seal@),
        },
{
    let secs = &package.sections;
    let cov = covered_indices(secs);
    let ghost cv = picked(secs@, cov@);
    if seal.hashes.len() != cov.len() {
        return Err(error_at(ErrorKind::SealMismatch, None, "SEAL covers a different number of sections"));
    }
    let mut i: usize = 0;
    while i < seal.hashes.len()
        invariant
            secs@ == package.sections@,
            cv == picked(secs@, cov@),
            cv == covered_of(views(secs@)),
            forall|j: int| 0 <= j < cov@.len() ==> #[trigger] cov@[j] < secs@.len(),
            seal@.hashes.len() == cv.len(),
            i <= seal@.hashes.len(),
            forall|j: int| 0 <= j < i ==> match #[trigger] last_of_kind(cv, seal@.hashes[j].0) {
                Some(b) => sha256_of(b) == seal@.hashes[j].1,
                None => false,
            },
            hash_failure_message(cv, seal@.hashes, 0) == hash_failure_message(cv, seal@.hashes, i as int),
        decreases seal@.hashes.len() - i,
    {
        let entry = &seal.hashes[i];
        assert(seal@.hashes[i as int] == (entry.kind, entry.hash@));
        match last_index_of_kind(secs, &cov, entry.kind) {
            None => {
                assert(!hashes_match(cv, seal@.hashes)) by {
                    assert(last_of_kind(cv, seal@.hashes[i as int].0) is None);
                }
                return Err(error_at(ErrorKind::SealMismatch, None, "SEAL covers a kind the package lacks"));
            },
            Some(j) => {
                let actual = sha256(secs[j].bytes.as_slice());
                let checked = check_digest(&actual, &entry.hash, "SEAL section hash mismatch");
                if checked.is_err() {
                    assert(!hashes_match(cv, seal@.hashes)) by {
                        assert(last_of_kind(cv, seal@.hashes[i as int].0) == Some(secs@[j as int].bytes@));
                    }
                    return checked;
                }
                assert(last_of_kind(cv, seal@.hashes[i as int].0) == Some(secs@[j as int].bytes@));
            },
        }
        i = i + 1;
    }
    assert(hashes_match(cv, seal@.hashes));
    let mut k: usize = 0;
    while k < cov.len()
        invariant
            secs@ == package.sections@,
            cv == covered_of(views(secs@)),
            hashes_match(cv, seal@.hashes),
            cv == picked(secs@, cov@),
            forall|j: int| 0 <= j < cov@.len() ==> #[trigger] cov@[j] < secs@.len(),
            k <= cov@.len(),
            forall|j: int| 0 <= j < k ==> #[trigger] cv[j].1.len() <= u32::MAX,
        decreases cov@.len() - k,
    {
        assert(cv[k as int].1 == secs@[cov@[k as int] as int].bytes@);
        if secs[cov[k]].bytes.len() > 0xFFFF_FFFFusize {
            return Err(error_at(ErrorKind::Internal, None, "decoded payload exceeds u32 length"));
        }
        k = k + 1;
    }
    let order = sorted_by_kind(secs, &cov);
    let mut message: Vec<u8> = Vec::new();
    push_bytes(&mut message, package.header_prefix());
    let ghost sorted = picked(secs@, order@);
    let mut m: usize = 0;
    while m < order.len()
        invariant
            secs@ == package.sections@,
            cv == covered_of(views(secs@)),
            hashes_match(cv, seal@.hashes),
            forall|j: int| 0 <= j < cv.len() ==> #[trigger] cv[j].1.len() <= u32::MAX,
            sorted == sort_by_kind(cv),
            sorted == picked(secs@, order@),
            forall|j: int| 0 <= j < order@.len() ==> #[trigger] order@[j] < secs@.len(),
            m <= order@.len(),
            message@ == package.prefix() + seal_stream(sorted.take(m as int)),
        decreases order@.len() - m,
    {
        let section = &secs[order[m]];
        push_le32(&mut message, section.entry.kind);
        push_le32(&mut message, section.bytes.len() as u32);
        push_bytes(&mut message, section.bytes.as_slice());
        proof {
            let t = sorted.take((m + 1) as int);
            assert(t.drop_last() =~= sorted.take(m as int));
            assert(t.last() == section@);
            assert(message@ =~= package.prefix() + seal_stream(t));
        }
        m = m + 1;
    }
    assert(sorted.take(order@.len() as int) =~= sorted);
    let overall = sha256(message.as_slice());
    check_digest(&overall, &seal.overall, "SEAL overall hash mismatch")
}

} // verus!
