//! Typed reader errors.
//!
//! Every failure of the package reader is an [`Error`] with a precise
//! [`ErrorKind`] discriminant and, where useful, the section table index the
//! failure is scoped to. The reader never panics on malformed input: every
//! path returns a `Result`.

use vstd::prelude::*;
use crate::text::{push_decimal, push_str};

verus! {

/// The discriminant of a reader failure.
#[derive(Debug, Clone, Copy, PartialEq, Eq, Structural)]
pub enum ErrorKind {
    /// The input is shorter than the header.
    TooShort,
    /// The magic bytes are not `CULL`.
    BadMagic,
    /// The format version is not supported.
    UnsupportedVersion,
    /// The header CRC-32 does not match.
    HeaderCrcMismatch,
    /// `section_count` exceeds the v1 cap.
    TooManySections,
    /// The input ends before a structure it declares.
    Truncated,
    /// A section's `offset + stored_len` exceeds the file.
    OutOfBounds,
    /// Two sections share a kind.
    DuplicateSection,
    /// The compression code is not in `{0, 1}`.
    UnsupportedCompression,
    /// Reserved flags or reserved bits are set.
    InvalidFlags,
    /// A section's `decoded_len` exceeds the v1 cap.
    DecodedLenExceeded,
    /// A decoded stream's length differs from `decoded_len`.
    DecompressMismatch,
    /// The payload CRC-32 does not match the table entry.
    CrcMismatch,
    /// A text field is not valid UTF-8.
    InvalidUtf8,
    /// A structural value is invalid (out of range, unknown kind, trailing bytes).
    InvalidValue,
    /// Arithmetic overflow while validating untrusted offsets or lengths.
    Overflow,
    /// The zlib header bytes are invalid.
    ZlibHeaderInvalid,
    /// The zlib stream's trailing Adler-32 does not match the decoded output.
    ZlibAdlerMismatch,
    /// The SEAL hash tree does not verify.
    SealMismatch,
    /// The SEAL mode or algorithm is not supported.
    UnsupportedAlgorithm,
    /// Known sections appear out of canonical order.
    InvalidSectionOrder,
    /// An unknown section kind is marked critical.
    UnknownCriticalSection,
    /// The required INFO section is absent.
    MissingRequiredSection,
    /// A reader defect surfaced as a typed error (never a panic).
    Internal,
}

/// A structured reader failure.
#[derive(Debug, Clone, PartialEq, Eq)]
pub struct Error {
    /// The failure discriminant.
    pub kind: ErrorKind,
    /// The section table index when the failure is section-scoped.
    pub section: Option<usize>,
    /// A human-readable detail.
    pub message: String,
}

impl Error {
    /// Construct an unscoped error.
    pub fn new(kind: ErrorKind, message: String) -> (r: Self)
        ensures
            r.kind == kind,
            r.section is None,
            r.message@ == message@,
    {
        Error { kind, section: None, message }
    }

    /// Construct a section-scoped error; the message is suffixed with
    /// ` (section N)`.
    pub fn for_section(kind: ErrorKind, section: usize, message: String) -> (r: Self)
        ensures
            r.kind == kind,
            r.section == Some(section),
            r.message@ == message@ + " (section "@ + crate::text::decimal(section as nat)
                + ")"@,
    {
        let mut text = message;
        push_str(&mut text, " (section ");
        push_decimal(&mut text, section as u64);
        push_str(&mut text, ")");
        Error { kind, section: Some(section), message: text }
    }

    /// The failure discriminant.
    pub fn kind(&self) -> (r: ErrorKind)
        ensures
            r == self.kind,
    {
        self.kind
    }
}

/// The message of an error built from `message`: a section-scoped one is
/// suffixed with ` (section N)`.
pub open spec fn scoped_message(message: Seq<char>, section: Option<usize>) -> Seq<char> {
    match section {
        Some(index) => message + " (section "@ + crate::text::decimal(index as nat) + ")"@,
        None => message,
    }
}

/// Build an error whose message is a string literal.
pub fn error_at(kind: ErrorKind, section: Option<usize>, message: &str) -> (r: Error)
    ensures
        r.kind == kind,
        r.section == section,
        r.message@ == scoped_message(message@, section),
{
    let text = crate::text::to_owned_string(message);
    match section {
        Some(index) => Error::for_section(kind, index, text),
        None => Error::new(kind, text),
    }
}

/// The name of an error kind.
pub open spec fn kind_name(k: ErrorKind) -> Seq<char> {
    match k {
        ErrorKind::TooShort => "TooShort"@,
        ErrorKind::BadMagic => "BadMagic"@,
        ErrorKind::UnsupportedVersion => "UnsupportedVersion"@,
        ErrorKind::HeaderCrcMismatch => "HeaderCrcMismatch"@,
        ErrorKind::TooManySections => "TooManySections"@,
        ErrorKind::Truncated => "Truncated"@,
        ErrorKind::OutOfBounds => "OutOfBounds"@,
        ErrorKind::DuplicateSection => "DuplicateSection"@,
        ErrorKind::UnsupportedCompression => "UnsupportedCompression"@,
        ErrorKind::InvalidFlags => "InvalidFlags"@,
        ErrorKind::DecodedLenExceeded => "DecodedLenExceeded"@,
        ErrorKind::DecompressMismatch => "DecompressMismatch"@,
        ErrorKind::CrcMismatch => "CrcMismatch"@,
        ErrorKind::InvalidUtf8 => "InvalidUtf8"@,
        ErrorKind::InvalidValue => "InvalidValue"@,
        ErrorKind::Overflow => "Overflow"@,
        ErrorKind::ZlibHeaderInvalid => "ZlibHeaderInvalid"@,
        ErrorKind::ZlibAdlerMismatch => "ZlibAdlerMismatch"@,
        ErrorKind::SealMismatch => "SealMismatch"@,
        ErrorKind::UnsupportedAlgorithm => "UnsupportedAlgorithm"@,
        ErrorKind::InvalidSectionOrder => "InvalidSectionOrder"@,
        ErrorKind::UnknownCriticalSection => "UnknownCriticalSection"@,
        ErrorKind::MissingRequiredSection => "MissingRequiredSection"@,
        ErrorKind::Internal => "Internal"@,
    }
}

impl ErrorKind {
    /// The kind's name.
    pub fn name(self) -> (r: &'static str)
        ensures
            r@ == kind_name(self),
    {
        match self {
            ErrorKind::TooShort => "TooShort",
            ErrorKind::BadMagic => "BadMagic",
            ErrorKind::UnsupportedVersion => "UnsupportedVersion",
            ErrorKind::HeaderCrcMismatch => "HeaderCrcMismatch",
            ErrorKind::TooManySections => "TooManySections",
            ErrorKind::Truncated => "Truncated",
            ErrorKind::OutOfBounds => "OutOfBounds",
            ErrorKind::DuplicateSection => "DuplicateSection",
            ErrorKind::UnsupportedCompression => "UnsupportedCompression",
            ErrorKind::InvalidFlags => "InvalidFlags",
            ErrorKind::DecodedLenExceeded => "DecodedLenExceeded",
            ErrorKind::DecompressMismatch => "DecompressMismatch",
            ErrorKind::CrcMismatch => "CrcMismatch",
            ErrorKind::InvalidUtf8 => "InvalidUtf8",
            ErrorKind::InvalidValue => "InvalidValue",
            ErrorKind::Overflow => "Overflow",
            ErrorKind::ZlibHeaderInvalid => "ZlibHeaderInvalid",
            ErrorKind::ZlibAdlerMismatch => "ZlibAdlerMismatch",
            ErrorKind::SealMismatch => "SealMismatch",
            ErrorKind::UnsupportedAlgorithm => "UnsupportedAlgorithm",
            ErrorKind::InvalidSectionOrder => "InvalidSectionOrder",
            ErrorKind::UnknownCriticalSection => "UnknownCriticalSection",
            ErrorKind::MissingRequiredSection => "MissingRequiredSection",
            ErrorKind::Internal => "Internal",
        }
    }
}

/// The text of an error: its kind, the section it is scoped to when it
/// has one, and its message.
pub open spec fn error_text(e: Error) -> Seq<char> {
    match e.section {
        Some(index) => kind_name(e.kind) + " (section "@ + crate::text::decimal(index as nat) + "): "@ + e.message@,
        None => kind_name(e.kind) + ": "@ + e.message@,
    }
}

impl Error {
    /// The error's text: `"<kind> (section <index>): <message>"`, or
    /// `"<kind>: <message>"` when it is not scoped to a section.
    pub fn render(&self) -> (r: String)
        ensures
            r@ == error_text(*self),
    {
        let mut text = crate::text::to_owned_string(self.kind.name());
        match self.section {
            Some(index) => {
                push_str(&mut text, " (section ");
                push_decimal(&mut text, index as u64);
                push_str(&mut text, "): ");
            },
            None => {
                push_str(&mut text, ": ");
            },
        }
        push_str(&mut text, self.message.as_str());
        text
    }
}

} // verus!
