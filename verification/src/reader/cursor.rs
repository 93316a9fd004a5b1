//! The bounds-checked cursor: every read is verified against the remaining
//! bytes and never panics on untrusted input.

use vstd::prelude::*;
use vstd::utf8::{decode_utf8, valid_utf8};
use crate::error::{error_at, scoped_message, Error, ErrorKind};

verus! {

/// Little-endian value of two bytes.
pub open spec fn le_u16(s: Seq<u8>) -> u16 {
    (s[0] + s[1] * 256) as u16
}

/// Little-endian value of four bytes.
pub open spec fn le_u32(s: Seq<u8>) -> u32 {
    (s[0] + s[1] * 256 + s[2] * 65536 + s[3] * 16777216) as u32
}

/// Little-endian value of eight bytes.
pub open spec fn le_u64(s: Seq<u8>) -> u64 {
    (le_u32(s) + le_u32(s.subrange(4, 8)) * 4294967296) as u64
}

/// The outcome of taking `n` bytes at `pos` from `s`: the taken bytes, or the
/// error kind the cursor reports (overflow of the read range, or truncation).
pub open spec fn take_bytes(s: Seq<u8>, pos: int, n: int) -> Result<Seq<u8>, ErrorKind> {
    if pos + n > usize::MAX {
        Err(ErrorKind::Overflow)
    } else if pos + n > s.len() {
        Err(ErrorKind::Truncated)
    } else {
        Ok(s.subrange(pos, pos + n))
    }
}

/// Reading a fixed-width little-endian integer of `n` bytes at `pos`.
pub open spec fn take_int(s: Seq<u8>, pos: int, n: int) -> Result<int, ErrorKind> {
    match take_bytes(s, pos, n) {
        Ok(b) => Ok(
            if n == 1 {
                b[0] as int
            } else if n == 2 {
                le_u16(b) as int
            } else if n == 4 {
                le_u32(b) as int
            } else {
                le_u64(b) as int
            },
        ),
        Err(e) => Err(e),
    }
}

/// Reading `n` bytes of UTF-8 text at `pos`.
pub open spec fn take_utf8(s: Seq<u8>, pos: int, n: int) -> Result<Seq<char>, ErrorKind> {
    match take_bytes(s, pos, n) {
        Ok(b) => if valid_utf8(b) {
            Ok(decode_utf8(b))
        } else {
            Err(ErrorKind::InvalidUtf8)
        },
        Err(e) => Err(e),
    }
}

/// `std::str::from_utf8`: the text when the bytes are valid UTF-8.
#[verifier::external_body]
pub fn str_from_utf8(bytes: &[u8]) -> (r: Option<&str>)
    ensures
        r is Some <==> valid_utf8(bytes@),
        r matches Some(s) ==> s@ == decode_utf8(bytes@),
{
    std::str::from_utf8(bytes).ok()
}

/// A bounds-checked reader over a byte slice.
pub struct Cursor<'a> {
    /// The bytes being read.
    pub bytes: &'a [u8],
    /// The current read position.
    pub pos: usize,
    /// The section table index used to scope errors.
    pub section: Option<usize>,
}

impl<'a> Cursor<'a> {
    /// Create a cursor over `bytes` starting at `pos`.
    pub fn new(bytes: &'a [u8], pos: usize, section: Option<usize>) -> (r: Self)
        ensures
            r.bytes@ == bytes@,
            r.pos == pos,
            r.section == section,
    {
        Cursor { bytes, pos, section }
    }

    /// An error scoped like this cursor.
    pub fn err(&self, kind: ErrorKind, message: &str) -> (r: Error)
        ensures
            r.kind == kind,
            r.section == self.section,
            r.message@ == scoped_message(message@, self.section),
    {
        error_at(kind, self.section, message)
    }

    /// Take `n` bytes, bounds-checked.
    pub fn bytes(&mut self, n: usize, what: &str) -> (r: Result<&'a [u8], Error>)
        requires
            old(self).pos <= old(self).bytes@.len(),
        ensures
            final(self).bytes == old(self).bytes,
            final(self).section == old(self).section,
            final(self).pos <= final(self).bytes@.len(),
            match take_bytes(old(self).bytes@, old(self).pos as int, n as int) {
                Ok(b) => r matches Ok(out) && out@ == b && final(self).pos == old(self).pos + n,
                Err(k) => r matches Err(e) && e.kind == k && e.section == old(self).section
                    && e.message@ == scoped_message(what@, old(self).section)
                    && final(self).pos == old(self).pos,
            },
    {
        let end = match self.pos.checked_add(n) {
            Some(end) => end,
            None => {
                return Err(self.err(ErrorKind::Overflow, what));
            },
        };
        if end > self.bytes.len() {
            return Err(self.err(ErrorKind::Truncated, what));
        }
        let out = vstd::slice::slice_subrange(self.bytes, self.pos, end);
        self.pos = end;
        Ok(out)
    }

    /// Read a `u8`.
    pub fn u8(&mut self, what: &str) -> (r: Result<u8, Error>)
        requires
            old(self).pos <= old(self).bytes@.len(),
        ensures
            final(self).bytes == old(self).bytes,
            final(self).section == old(self).section,
            final(self).pos <= final(self).bytes@.len(),
            match take_int(old(self).bytes@, old(self).pos as int, 1) {
                Ok(v) => r matches Ok(x) && x == v && final(self).pos == old(self).pos + 1,
                Err(k) => r matches Err(e) && e.kind == k && e.section == old(self).section
                    && e.message@ == scoped_message(what@, old(self).section),
            },
    {
        let b = self.bytes(1, what)?;
        Ok(b[0])
    }

    /// Read a little-endian `u16`.
    pub fn u16(&mut self, what: &str) -> (r: Result<u16, Error>)
        requires
            old(self).pos <= old(self).bytes@.len(),
        ensures
            final(self).bytes == old(self).bytes,
            final(self).section == old(self).section,
            final(self).pos <= final(self).bytes@.len(),
            match take_int(old(self).bytes@, old(self).pos as int, 2) {
                Ok(v) => r matches Ok(x) && x == v && final(self).pos == old(self).pos + 2,
                Err(k) => r matches Err(e) && e.kind == k && e.section == old(self).section
                    && e.message@ == scoped_message(what@, old(self).section),
            },
    {
        let b = self.bytes(2, what)?;
        Ok(b[0] as u16 + (b[1] as u16) * 256)
    }

    /// Read a little-endian `u32`.
    pub fn u32(&mut self, what: &str) -> (r: Result<u32, Error>)
        requires
            old(self).pos <= old(self).bytes@.len(),
        ensures
            final(self).bytes == old(self).bytes,
            final(self).section == old(self).section,
            final(self).pos <= final(self).bytes@.len(),
            match take_int(old(self).bytes@, old(self).pos as int, 4) {
                Ok(v) => r matches Ok(x) && x == v && final(self).pos == old(self).pos + 4,
                Err(k) => r matches Err(e) && e.kind == k && e.section == old(self).section
                    && e.message@ == scoped_message(what@, old(self).section),
            },
    {
        let b = self.bytes(4, what)?;
        Ok(b[0] as u32 + (b[1] as u32) * 256 + (b[2] as u32) * 65536 + (b[3] as u32) * 16777216)
    }

    /// Read a little-endian `u64`.
    pub fn u64(&mut self, what: &str) -> (r: Result<u64, Error>)
        requires
            old(self).pos <= old(self).bytes@.len(),
        ensures
            final(self).bytes == old(self).bytes,
            final(self).section == old(self).section,
            final(self).pos <= final(self).bytes@.len(),
            match take_int(old(self).bytes@, old(self).pos as int, 8) {
                Ok(v) => r matches Ok(x) && x == v && final(self).pos == old(self).pos + 8,
                Err(k) => r matches Err(e) && e.kind == k && e.section == old(self).section
                    && e.message@ == scoped_message(what@, old(self).section),
            },
    {
        let b = self.bytes(8, what)?;
        let lo: u64 = b[0] as u64 + (b[1] as u64) * 256 + (b[2] as u64) * 65536 + (b[3] as u64)
            * 16777216;
        let hi: u64 = b[4] as u64 + (b[5] as u64) * 256 + (b[6] as u64) * 65536 + (b[7] as u64)
            * 16777216;
        assert(b@.subrange(4, 8)[0] == b@[4] && b@.subrange(4, 8)[1] == b@[5]
            && b@.subrange(4, 8)[2] == b@[6] && b@.subrange(4, 8)[3] == b@[7]);
        Ok(lo + hi * 4294967296)
    }

    /// Read `n` bytes as UTF-8, rejecting malformed sequences.
    pub fn utf8(&mut self, n: usize, what: &str) -> (r: Result<String, Error>)
        requires
            old(self).pos <= old(self).bytes@.len(),
        ensures
            final(self).bytes == old(self).bytes,
            final(self).section == old(self).section,
            final(self).pos <= final(self).bytes@.len(),
            match take_utf8(old(self).bytes@, old(self).pos as int, n as int) {
                Ok(t) => r matches Ok(x) && x@ == t && final(self).pos == old(self).pos + n,
                Err(k) => r matches Err(e) && e.kind == k && e.section == old(self).section
                    && e.message@ == scoped_message(what@, old(self).section),
            },
    {
        let raw = self.bytes(n, what)?;
        match str_from_utf8(raw) {
            Some(text) => Ok(crate::text::to_owned_string(text)),
            None => Err(self.err(ErrorKind::InvalidUtf8, what)),
        }
    }

    /// Assert that no trailing bytes remain.
    pub fn finish(&self, what: &str) -> (r: Result<(), Error>)
        requires
            self.pos <= self.bytes@.len(),
        ensures
            r is Ok <==> self.pos == self.bytes@.len(),
            r matches Err(e) ==> e.kind == ErrorKind::InvalidValue && e.section == self.section
                && e.message@ == scoped_message(what@, self.section),
    {
        if self.remaining() != 0 {
            return Err(self.err(ErrorKind::InvalidValue, what));
        }
        Ok(())
    }

    /// The number of bytes remaining.
    pub fn remaining(&self) -> (r: usize)
        ensures
            r == if self.pos <= self.bytes@.len() { self.bytes@.len() - self.pos } else { 0 },
    {
        self.bytes.len().saturating_sub(self.pos)
    }
}

} // verus!
