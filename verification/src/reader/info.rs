//! INFO section decoder: deterministic JSON — a single flat object, no
//! whitespace, minimal escaping, integer-only numbers. The parser accepts
//! exactly this subset: unknown, duplicate or wrong-typed keys are rejected
//! with typed errors, so a package can never smuggle ambiguous metadata into
//! the runtime.

use vstd::prelude::*;
use vstd::utf8::{decode_utf8, valid_utf8};
use crate::error::{error_at, Error, ErrorKind};
use crate::limits::MAX_INFO_LEN;
use crate::reader::cursor::str_from_utf8;
use crate::text::{chars_of, push_char, to_owned_string};

verus! {

/// INFO metadata.
#[derive(Debug, Clone, PartialEq, Eq)]
pub struct Info {
    /// Must equal the header version (`1`).
    pub format_version: u32,
    /// The compiler name.
    pub generator: String,
    /// The semantic compiler version.
    pub generator_version: String,
    /// Hex SHA-256 of the normalized source input(s).
    pub source_digest: String,
    /// Hex: first 16 bytes of SHA-256 over the decoded content sections.
    pub document_id: String,
    /// The document title.
    pub title: Option<String>,
    /// A BCP 47 language tag.
    pub lang: Option<String>,
    /// CHNK record count.
    pub chunk_count: u32,
    /// STYL record count.
    pub style_count: u32,
    /// CONT payload count.
    pub content_count: u32,
    /// GLYF atlas count.
    pub atlas_count: u32,
    /// IMGS image count.
    pub image_count: u32,
}

/// The mathematical value of [`Info`].
pub struct InfoView {
    pub format_version: u32,
    pub generator: Seq<char>,
    pub generator_version: Seq<char>,
    pub source_digest: Seq<char>,
    pub document_id: Seq<char>,
    pub title: Option<Seq<char>>,
    pub lang: Option<Seq<char>>,
    pub chunk_count: u32,
    pub style_count: u32,
    pub content_count: u32,
    pub atlas_count: u32,
    pub image_count: u32,
}

/// The view of an optional string.
pub open spec fn opt_view(s: Option<String>) -> Option<Seq<char>> {
    match s {
        Some(t) => Some(t@),
        None => None,
    }
}

impl View for Info {
    type V = InfoView;

    open spec fn view(&self) -> InfoView {
        InfoView {
            format_version: self.format_version,
            generator: self.generator@,
            generator_version: self.generator_version@,
            source_digest: self.source_digest@,
            document_id: self.document_id@,
            title: opt_view(self.title),
            lang: opt_view(self.lang),
            chunk_count: self.chunk_count,
            style_count: self.style_count,
            content_count: self.content_count,
            atlas_count: self.atlas_count,
            image_count: self.image_count,
        }
    }
}

/// A value of the INFO subset: a string or an integer.
pub enum JsonValueView {
    Str(Seq<char>),
    Num(u64),
}

/// An executable value of the INFO subset.
#[derive(Debug, Clone, PartialEq, Eq)]
enum JsonValue {
    Str(String),
    Num(u64),
}

impl View for JsonValue {
    type V = JsonValueView;

    closed spec fn view(&self) -> JsonValueView {
        match self {
            JsonValue::Str(s) => JsonValueView::Str(s@),
            JsonValue::Num(n) => JsonValueView::Num(*n),
        }
    }
}

/// The value of a hexadecimal digit (either case), or `-1`.
pub open spec fn hex_value(c: char) -> int {
    if '0' <= c && c <= '9' {
        c as int - 48
    } else if 'a' <= c && c <= 'f' {
        c as int - 87
    } else if 'A' <= c && c <= 'F' {
        c as int - 55
    } else {
        -1
    }
}

/// The value of the `n` hexadecimal digits at `pos`, or `-1` when one of
/// them is not a hex digit.
pub open spec fn hex_code(t: Seq<char>, pos: int, n: nat) -> int
    decreases n,
{
    if n == 0 {
        0
    } else {
        let prev = hex_code(t, pos, (n - 1) as nat);
        let d = hex_value(t[pos + n - 1]);
        if prev < 0 || d < 0 {
            -1
        } else {
            prev * 16 + d
        }
    }
}

/// The character of a `\u` escape whose four code units start at `pos`:
/// exactly four hex digits; surrogates are refused.
pub open spec fn unicode_escape(t: Seq<char>, pos: int) -> Option<char> {
    if pos + 4 > t.len() {
        None
    } else {
        let code = hex_code(t, pos, 4);
        if code < 0 || (0xD800 <= code && code <= 0xDFFF) {
            None
        } else {
            Some(code as char)
        }
    }
}

/// The character a simple escape letter stands for.
pub open spec fn simple_escape(e: char) -> Option<char> {
    if e == '"' {
        Some('"')
    } else if e == '\\' {
        Some('\\')
    } else if e == 'n' {
        Some('\n')
    } else if e == 'r' {
        Some('\r')
    } else if e == 't' {
        Some('\t')
    } else if e == 'b' {
        Some('\u{0008}')
    } else if e == 'f' {
        Some('\u{000c}')
    } else {
        None
    }
}

/// Scanning the body of a string literal from `pos` with `acc` read so far:
/// the decoded text and the position after the closing quote.
pub open spec fn string_rest(t: Seq<char>, pos: int, acc: Seq<char>) -> Option<(Seq<char>, int)>
    decreases t.len() - pos,
{
    if pos < 0 || pos >= t.len() {
        None
    } else if t[pos] == '"' {
        Some((acc, pos + 1))
    } else if t[pos] == '\\' {
        if pos + 1 >= t.len() {
            None
        } else if t[pos + 1] == 'u' {
            match unicode_escape(t, pos + 2) {
                None => None,
                Some(ch) => string_rest(t, pos + 6, acc.push(ch)),
            }
        } else {
            match simple_escape(t[pos + 1]) {
                None => None,
                Some(ch) => string_rest(t, pos + 2, acc.push(ch)),
            }
        }
    } else {
        string_rest(t, pos + 1, acc.push(t[pos]))
    }
}

/// A string literal starting at `pos` (which must hold the opening quote).
pub open spec fn json_string(t: Seq<char>, pos: int) -> Option<(Seq<char>, int)> {
    if 0 <= pos < t.len() && t[pos] == '"' {
        string_rest(t, pos + 1, Seq::empty())
    } else {
        None
    }
}

/// Whether `c` is an ASCII decimal digit.
pub open spec fn is_digit(c: char) -> bool {
    '0' <= c && c <= '9'
}

/// The end of the run of decimal digits starting at `pos`.
pub open spec fn digits_end(t: Seq<char>, pos: int) -> int
    decreases t.len() - pos,
{
    if 0 <= pos < t.len() && is_digit(t[pos]) {
        digits_end(t, pos + 1)
    } else {
        pos
    }
}

/// The value of the decimal digits in `t[start..end]`.
pub open spec fn digits_value(t: Seq<char>, start: int, end: int) -> nat
    decreases end - start,
{
    if end <= start {
        0
    } else {
        digits_value(t, start, end - 1) * 10 + ((t[end - 1] as int - 48) as nat)
    }
}

/// A value starting at `pos`: a string, or a non-negative integer that fits
/// in 64 bits.
pub open spec fn json_value(t: Seq<char>, pos: int) -> Option<(JsonValueView, int)> {
    if pos < 0 || pos >= t.len() {
        None
    } else if t[pos] == '"' {
        match json_string(t, pos) {
            None => None,
            Some((s, end)) => Some((JsonValueView::Str(s), end)),
        }
    } else if is_digit(t[pos]) {
        let end = digits_end(t, pos);
        let n = digits_value(t, pos, end);
        if n > u64::MAX {
            None
        } else {
            Some((JsonValueView::Num(n as u64), end))
        }
    } else {
        None
    }
}

/// Whether `key` is among the keys read so far.
pub open spec fn has_key(keys: Seq<(Seq<char>, JsonValueView)>, key: Seq<char>) -> bool {
    exists|i: int| 0 <= i < keys.len() && #[trigger] keys[i].0 == key
}

pub proof fn lemma_string_rest_advances(t: Seq<char>, pos: int, acc: Seq<char>)
    ensures
        string_rest(t, pos, acc) matches Some((s, end)) ==> pos < end <= t.len(),
    decreases t.len() - pos,
{
    if 0 <= pos < t.len() && t[pos] != '"' {
        if t[pos] == '\\' {
            if pos + 1 < t.len() {
                if t[pos + 1] == 'u' {
                    if let Some(ch) = unicode_escape(t, pos + 2) {
                        lemma_string_rest_advances(t, pos + 6, acc.push(ch));
                    }
                } else if let Some(ch) = simple_escape(t[pos + 1]) {
                    lemma_string_rest_advances(t, pos + 2, acc.push(ch));
                }
            }
        } else {
            lemma_string_rest_advances(t, pos + 1, acc.push(t[pos]));
        }
    }
}

pub proof fn lemma_digits_end(t: Seq<char>, pos: int)
    requires
        0 <= pos <= t.len(),
    ensures
        pos <= digits_end(t, pos) <= t.len(),
        forall|i: int| pos <= i < digits_end(t, pos) ==> is_digit(#[trigger] t[i]),
        digits_end(t, pos) < t.len() ==> !is_digit(t[digits_end(t, pos)]),
    decreases t.len() - pos,
{
    if pos < t.len() && is_digit(t[pos]) {
        lemma_digits_end(t, pos + 1);
    }
}

pub proof fn lemma_json_value_advances(t: Seq<char>, pos: int)
    ensures
        json_value(t, pos) matches Some((v, end)) ==> pos < end <= t.len(),
{
    if 0 <= pos < t.len() {
        if t[pos] == '"' {
            lemma_string_rest_advances(t, pos + 1, Seq::empty());
        } else if is_digit(t[pos]) {
            lemma_digits_end(t, pos + 1);
        }
    }
}

/// The members of the object from `pos` (which must hold a key's opening
/// quote), with `keys` read so far: every member is `"key":value`, keys
/// are distinct, members are separated by `,` and the object ends at `}`.
pub open spec fn members(t: Seq<char>, pos: int, keys: Seq<(Seq<char>, JsonValueView)>) -> Option<(Seq<(Seq<char>, JsonValueView)>, int)>
    decreases t.len() - pos,
{
    match json_string(t, pos) {
        None => None,
        Some((key, p1)) => if has_key(keys, key) {
            None
        } else if p1 >= t.len() || t[p1] != ':' {
            None
        } else {
            match json_value(t, p1 + 1) {
                None => None,
                Some((v, p2)) => {
                    let ks = keys.push((key, v));
                    if p2 < t.len() && t[p2] == ',' {
                        proof {
                            lemma_string_rest_advances(t, pos + 1, Seq::empty());
                            lemma_json_value_advances(t, p1 + 1);
                        }
                        members(t, p2 + 1, ks)
                    } else if p2 < t.len() && t[p2] == '}' {
                        Some((ks, p2 + 1))
                    } else {
                        None
                    }
                },
            }
        },
    }
}

/// The members of a whole INFO text: `{}` or `{` members `}` with nothing
/// after the closing brace.
pub open spec fn info_object(t: Seq<char>) -> Option<Seq<(Seq<char>, JsonValueView)>> {
    if t.len() == 0 || t[0] != '{' {
        None
    } else if t.len() > 1 && t[1] == '}' {
        if t.len() == 2 {
            Some(Seq::empty())
        } else {
            None
        }
    } else {
        match members(t, 1, Seq::empty()) {
            None => None,
            Some((ks, end)) => if end == t.len() {
                Some(ks)
            } else {
                None
            },
        }
    }
}

/// An integer value that fits in 32 bits.
pub open spec fn value_u32(v: JsonValueView) -> Option<u32> {
    match v {
        JsonValueView::Num(n) => if n <= u32::MAX {
            Some(n as u32)
        } else {
            None
        },
        JsonValueView::Str(_) => None,
    }
}

/// A string value.
pub open spec fn value_str(v: JsonValueView) -> Option<Seq<char>> {
    match v {
        JsonValueView::Str(s) => Some(s),
        JsonValueView::Num(_) => None,
    }
}

/// The INFO value before any key is applied.
pub open spec fn empty_info() -> InfoView {
    InfoView {
        format_version: 0,
        generator: Seq::empty(),
        generator_version: Seq::empty(),
        source_digest: Seq::empty(),
        document_id: Seq::empty(),
        title: None,
        lang: None,
        chunk_count: 0,
        style_count: 0,
        content_count: 0,
        atlas_count: 0,
        image_count: 0,
    }
}

/// Applying one `key: value` member to the INFO value read so far.
pub open spec fn apply_key(info: InfoView, key: Seq<char>, v: JsonValueView) -> Option<InfoView> {
    if key == "format_version"@ {
        match value_u32(v) { Some(n) => Some(InfoView { format_version: n, ..info }), None => None }
    } else if key == "generator"@ {
        match value_str(v) { Some(s) => Some(InfoView { generator: s, ..info }), None => None }
    } else if key == "generator_version"@ {
        match value_str(v) { Some(s) => Some(InfoView { generator_version: s, ..info }), None => None }
    } else if key == "source_digest"@ {
        match value_str(v) { Some(s) => Some(InfoView { source_digest: s, ..info }), None => None }
    } else if key == "document_id"@ {
        match value_str(v) { Some(s) => Some(InfoView { document_id: s, ..info }), None => None }
    } else if key == "title"@ {
        match value_str(v) { Some(s) => Some(InfoView { title: Some(s), ..info }), None => None }
    } else if key == "lang"@ {
        match value_str(v) { Some(s) => Some(InfoView { lang: Some(s), ..info }), None => None }
    } else if key == "chunk_count"@ {
        match value_u32(v) { Some(n) => Some(InfoView { chunk_count: n, ..info }), None => None }
    } else if key == "style_count"@ {
        match value_u32(v) { Some(n) => Some(InfoView { style_count: n, ..info }), None => None }
    } else if key == "content_count"@ {
        match value_u32(v) { Some(n) => Some(InfoView { content_count: n, ..info }), None => None }
    } else if key == "atlas_count"@ {
        match value_u32(v) { Some(n) => Some(InfoView { atlas_count: n, ..info }), None => None }
    } else if key == "image_count"@ {
        match value_u32(v) { Some(n) => Some(InfoView { image_count: n, ..info }), None => None }
    } else {
        None
    }
}

/// Applying the first `n` members in order.
pub open spec fn apply_keys(keys: Seq<(Seq<char>, JsonValueView)>, n: nat) -> Option<InfoView>
    decreases n,
{
    if n == 0 {
        Some(empty_info())
    } else {
        match apply_keys(keys, (n - 1) as nat) {
            None => None,
            Some(info) => apply_key(info, keys[n - 1].0, keys[n - 1].1),
        }
    }
}

/// The outcome of decoding an INFO payload.
pub open spec fn info_spec(p: Seq<u8>) -> Result<InfoView, ErrorKind> {
    if p.len() > 1048576 {
        Err(ErrorKind::InvalidValue)
    } else if !valid_utf8(p) {
        Err(ErrorKind::InvalidUtf8)
    } else {
        match info_object(decode_utf8(p)) {
            None => Err(ErrorKind::InvalidValue),
            Some(keys) => match apply_keys(keys, keys.len()) {
                None => Err(ErrorKind::InvalidValue),
                Some(info) => Ok(info),
            },
        }
    }
}

/// The message of a failed string scan from `pos` (meaningful where
/// [`string_rest`] fails): the input ended inside the string or inside an
/// escape, or an escape is malformed.
pub open spec fn string_rest_message(t: Seq<char>, pos: int) -> Seq<char>
    decreases t.len() - pos,
{
    if pos < 0 || pos >= t.len() {
        "unterminated string"@
    } else if t[pos] == '"' {
        Seq::empty()
    } else if t[pos] == '\\' {
        if pos + 1 >= t.len() {
            "unterminated escape"@
        } else if t[pos + 1] == 'u' {
            match unicode_escape(t, pos + 2) {
                None => "bad unicode escape"@,
                Some(_) => string_rest_message(t, pos + 6),
            }
        } else {
            match simple_escape(t[pos + 1]) {
                None => "bad escape"@,
                Some(_) => string_rest_message(t, pos + 2),
            }
        }
    } else {
        string_rest_message(t, pos + 1)
    }
}

/// The message of a refused expectation of a character at `pos`.
pub open spec fn expect_message(t: Seq<char>, pos: int) -> Seq<char> {
    if pos >= t.len() {
        "unexpected end of input"@
    } else {
        "unexpected character"@
    }
}

/// The message of a failed string literal at `pos` (meaningful where
/// [`json_string`] fails).
pub open spec fn json_string_message(t: Seq<char>, pos: int) -> Seq<char> {
    if 0 <= pos < t.len() && t[pos] == '"' {
        string_rest_message(t, pos + 1)
    } else {
        expect_message(t, pos)
    }
}

/// The message of a failed value at `pos` (meaningful where [`json_value`]
/// fails).
pub open spec fn json_value_message(t: Seq<char>, pos: int) -> Seq<char> {
    if pos < 0 || pos >= t.len() {
        "expected a value, found end of input"@
    } else if t[pos] == '"' {
        json_string_message(t, pos)
    } else if is_digit(t[pos]) {
        "integer does not fit u64"@
    } else {
        "unexpected value start"@
    }
}

/// The message of failed members from `pos` (meaningful where [`members`]
/// fails).
pub open spec fn members_message(t: Seq<char>, pos: int, keys: Seq<(Seq<char>, JsonValueView)>) -> Seq<char>
    decreases t.len() - pos,
{
    match json_string(t, pos) {
        None => json_string_message(t, pos),
        Some((key, p1)) => if has_key(keys, key) {
            "duplicate key"@
        } else if p1 >= t.len() || t[p1] != ':' {
            expect_message(t, p1)
        } else {
            match json_value(t, p1 + 1) {
                None => json_value_message(t, p1 + 1),
                Some((v, p2)) => {
                    if p2 < t.len() && t[p2] == ',' {
                        proof {
                            lemma_string_rest_advances(t, pos + 1, Seq::empty());
                            lemma_json_value_advances(t, p1 + 1);
                        }
                        members_message(t, p2 + 1, keys.push((key, v)))
                    } else if p2 < t.len() && t[p2] == '}' {
                        Seq::empty()
                    } else {
                        "expected ',' or '}' in INFO object"@
                    }
                },
            }
        },
    }
}

/// The message of a refused INFO text (meaningful where [`info_object`]
/// fails).
pub open spec fn info_object_message(t: Seq<char>) -> Seq<char> {
    if t.len() == 0 || t[0] != '{' {
        expect_message(t, 0)
    } else if t.len() > 1 && t[1] == '}' {
        "trailing characters after the INFO object"@
    } else {
        match members(t, 1, Seq::empty()) {
            None => members_message(t, 1, Seq::empty()),
            Some(_) => "trailing characters after the INFO object"@,
        }
    }
}

/// The message of a refused integer member.
pub open spec fn u32_message(v: JsonValueView) -> Seq<char> {
    match v {
        JsonValueView::Num(_) => "INFO: integer does not fit u32"@,
        JsonValueView::Str(_) => "INFO: key must be an integer"@,
    }
}

/// The message of a refused member (meaningful where [`apply_key`] fails).
pub open spec fn apply_key_message(key: Seq<char>, v: JsonValueView) -> Seq<char> {
    if key == "format_version"@ {
        u32_message(v)
    } else if key == "generator"@ || key == "generator_version"@ || key == "source_digest"@ || key == "document_id"@
        || key == "title"@ || key == "lang"@ {
        "INFO: key must be a string"@
    } else if key == "chunk_count"@ || key == "style_count"@ || key == "content_count"@ || key == "atlas_count"@
        || key == "image_count"@ {
        u32_message(v)
    } else {
        "INFO: unknown key"@
    }
}

/// The message of the first refused member among the first `n`
/// (meaningful where [`apply_keys`] fails).
pub open spec fn apply_keys_message(keys: Seq<(Seq<char>, JsonValueView)>, n: nat) -> Seq<char>
    decreases n,
{
    if n == 0 {
        Seq::empty()
    } else {
        match apply_keys(keys, (n - 1) as nat) {
            None => apply_keys_message(keys, (n - 1) as nat),
            Some(_) => apply_key_message(keys[n - 1].0, keys[n - 1].1),
        }
    }
}

/// The message of a refused INFO payload (meaningful where [`info_spec`]
/// fails).
pub open spec fn info_message(p: Seq<u8>) -> Seq<char> {
    if p.len() > 1048576 {
        "INFO payload exceeds the size cap"@
    } else if !valid_utf8(p) {
        "INFO payload is not valid UTF-8"@
    } else {
        match info_object(decode_utf8(p)) {
            None => info_object_message(decode_utf8(p)),
            Some(keys) => apply_keys_message(keys, keys.len()),
        }
    }
}

proof fn lemma_hex_code_invalid_sticks(t: Seq<char>, start: int, m: nat, n: nat)
    requires
        m <= n,
        hex_code(t, start, m) < 0,
    ensures
        hex_code(t, start, n) < 0,
    decreases n - m,
{
    if m < n {
        lemma_hex_code_invalid_sticks(t, start, m, (n - 1) as nat);
    }
}

proof fn lemma_digits_value_monotone(t: Seq<char>, start: int, mid: int, end: int)
    requires
        start <= mid <= end,
        forall|i: int| start <= i < end ==> is_digit(#[trigger] t[i]),
    ensures
        digits_value(t, start, mid) <= digits_value(t, start, end),
    decreases end - mid,
{
    if mid < end {
        lemma_digits_value_monotone(t, start, mid, end - 1);
        assert(is_digit(t[end - 1]));
    }
}

/// `char::from_u32`: the character with the given scalar value, when it is
/// one (not a surrogate, at most `0x10FFFF`).
#[verifier::external_body]
fn char_from_u32(code: u32) -> (r: Option<char>)
    ensures
        (code <= 0x10FFFF && !(0xD800 <= code && code <= 0xDFFF)) ==> r == Some(code as char),
        !(code <= 0x10FFFF && !(0xD800 <= code && code <= 0xDFFF)) ==> r is None,
{
    char::from_u32(code)
}

/// The INFO subset parser over the characters of the payload.
struct InfoJson {
    text: Vec<char>,
    pos: usize,
}

impl InfoJson {
    fn new(text: Vec<char>) -> (r: Self)
        ensures
            r.text@ == text@,
            r.pos == 0,
    {
        InfoJson { text, pos: 0 }
    }

    fn error(&self, message: &str) -> (r: Error)
        ensures
            r.kind == ErrorKind::InvalidValue,
            r.section is None,
            r.message@ == message@,
    {
        error_at(ErrorKind::InvalidValue, None, message)
    }

    /// The next character, or `None` at the end of input.
    fn peek(&self) -> (r: Option<char>)
        ensures
            r == (if self.pos < self.text@.len() {
                Some(self.text@[self.pos as int])
            } else {
                None::<char>
            }),
    {
        if self.pos < self.text.len() {
            Some(self.text[self.pos])
        } else {
            None
        }
    }

    /// Consume the next character.
    fn advance(&mut self) -> (r: Result<(), Error>)
        ensures
            final(self).text@ == old(self).text@,
            old(self).pos < old(self).text@.len() ==> r is Ok && final(self).pos == old(self).pos + 1,
            old(self).pos >= old(self).text@.len() ==> (r matches Err(e) && e.kind == ErrorKind::InvalidValue
                && e.section is None && final(self).pos == old(self).pos
                && e.message@ == "expected a character, found end of input"@),
    {
        if self.pos < self.text.len() {
            self.pos = self.pos + 1;
            Ok(())
        } else {
            Err(self.error("expected a character, found end of input"))
        }
    }

    fn expect(&mut self, ch: char) -> (r: Result<(), Error>)
        ensures
            final(self).text@ == old(self).text@,
            (old(self).pos < old(self).text@.len() && old(self).text@[old(self).pos as int] == ch) ==> r is Ok
                && final(self).pos == old(self).pos + 1,
            !(old(self).pos < old(self).text@.len() && old(self).text@[old(self).pos as int] == ch) ==> (r matches Err(e)
                && e.kind == ErrorKind::InvalidValue && e.section is None
                && e.message@ == expect_message(old(self).text@, old(self).pos as int)),
    {
        match self.peek() {
            Some(actual) => {
                if actual == ch {
                    self.advance()
                } else {
                    Err(self.error("unexpected character"))
                }
            },
            None => Err(self.error("unexpected end of input")),
        }
    }

    /// The four code units of a `\u` escape at the current position,
    /// consumed when they decode to a character.
    fn unicode_escape(&mut self) -> (r: Option<char>)
        ensures
            final(self).text@ == old(self).text@,
            r == unicode_escape(old(self).text@, old(self).pos as int),
            r is Some ==> final(self).pos == old(self).pos + 4,
    {
        let t = &self.text;
        let pos = self.pos;
        if pos > t.len() || t.len() - pos < 4 {
            return None;
        }
        let mut i: usize = pos;
        let n: usize = 4;
        let ghost start = i as int;
        let mut code: u32 = 0;
        let end: usize = pos + 4;
        while i < end
            invariant
                end == pos + 4,
                t@ == self.text@,
                pos == self.pos,
                self.pos == old(self).pos,
                self.text@ == old(self).text@,
                pos + 4 <= t@.len(),
                start == pos as int,
                start <= i <= pos + 4,
                n == pos + 4 - start,
                hex_code(t@, start, (i - start) as nat) == code as int,
                code < 65536,
                i - start < 4 ==> code < 4096,
                i - start < 3 ==> code < 256,
                i - start < 2 ==> code < 16,
                i - start == 0 ==> code == 0,
            decreases pos + 4 - i,
        {
            let c = t[i];
            let d: u32 = if '0' <= c && c <= '9' {
                (c as u32) - 48
            } else if 'a' <= c && c <= 'f' {
                (c as u32) - 87
            } else if 'A' <= c && c <= 'F' {
                (c as u32) - 55
            } else {
                assert(hex_code(t@, start, (i - start + 1) as nat) < 0);
                proof {
                    lemma_hex_code_invalid_sticks(t@, start, (i - start + 1) as nat, n as nat);
                }
                return None;
            };
            code = code * 16 + d;
            i = i + 1;
        }
        if 0xD800 <= code && code <= 0xDFFF {
            None
        } else {
            let r = char_from_u32(code);
            self.pos = end;
            r
        }
    }

    fn string(&mut self) -> (r: Result<String, Error>)
        ensures
            final(self).text@ == old(self).text@,
            match json_string(old(self).text@, old(self).pos as int) {
                Some((s, end)) => r matches Ok(x) && x@ == s && final(self).pos == end,
                None => r matches Err(e) && e.kind == ErrorKind::InvalidValue && e.section is None
                    && e.message@ == json_string_message(old(self).text@, old(self).pos as int),
            },
    {
        self.expect('"')?;
        let ghost t = self.text@;
        let mut out = String::new();
        loop
            invariant
                self.text@ == t,
                t == old(self).text@,
                json_string(t, old(self).pos as int) == string_rest(t, self.pos as int, out@),
                json_string_message(t, old(self).pos as int) == string_rest_message(t, self.pos as int),
            decreases t.len() - self.pos,
        {
            let ch = self.peek();
            match ch {
                None => {
                    return Err(self.error("unterminated string"));
                },
                Some(c) => {
                    if c == '"' {
                        self.advance()?;
                        return Ok(out);
                    } else if c == '\\' {
                        self.advance()?;
                        let esc = self.peek();
                        match esc {
                            None => {
                                return Err(self.error("unterminated escape"));
                            },
                            Some(e) => {
                                if e == 'u' {
                                    self.advance()?;
                                    let decoded = self.unicode_escape();
                                    match decoded {
                                        Some(u) => {
                                            push_char(&mut out, u);
                                        },
                                        None => {
                                            return Err(self.error("bad unicode escape"));
                                        },
                                    }
                                } else {
                                    let mapped = if e == '"' {
                                        Some('"')
                                    } else if e == '\\' {
                                        Some('\\')
                                    } else if e == 'n' {
                                        Some('\n')
                                    } else if e == 'r' {
                                        Some('\r')
                                    } else if e == 't' {
                                        Some('\t')
                                    } else if e == 'b' {
                                        Some('\u{0008}')
                                    } else if e == 'f' {
                                        Some('\u{000c}')
                                    } else {
                                        None
                                    };
                                    match mapped {
                                        Some(m) => {
                                            push_char(&mut out, m);
                                            self.advance()?;
                                        },
                                        None => {
                                            return Err(self.error("bad escape"));
                                        },
                                    }
                                }
                            },
                        }
                    } else {
                        push_char(&mut out, c);
                        self.advance()?;
                    }
                },
            }
        }
    }

    fn value(&mut self) -> (r: Result<JsonValue, Error>)
        ensures
            final(self).text@ == old(self).text@,
            match json_value(old(self).text@, old(self).pos as int) {
                Some((v, end)) => r matches Ok(x) && x@ == v && final(self).pos == end,
                None => r matches Err(e) && e.kind == ErrorKind::InvalidValue && e.section is None
                    && e.message@ == json_value_message(old(self).text@, old(self).pos as int),
            },
    {
        match self.peek() {
            Some(c) => {
                if c == '"' {
                    let s = self.string()?;
                    Ok(JsonValue::Str(s))
                } else if '0' <= c && c <= '9' {
                    let ghost t = self.text@;
                    let start = self.pos;
                    proof {
                        lemma_digits_end(t, start as int);
                    }
                    let mut value: u64 = 0;
                    loop
                        invariant
                            self.text@ == t,
                            t == old(self).text@,
                            start == old(self).pos,
                            start < t.len(),
                            is_digit(t[start as int]),
                            start <= self.pos <= digits_end(t, start as int),
                            digits_end(t, start as int) <= t.len(),
                            forall|i: int| start <= i < digits_end(t, start as int) ==> is_digit(#[trigger] t[i]),
                            digits_end(t, start as int) < t.len() ==> !is_digit(t[digits_end(t, start as int)]),
                            digits_value(t, start as int, self.pos as int) == value as nat,
                        decreases t.len() - self.pos,
                    {
                        let next = self.peek();
                        match next {
                            Some(d) => {
                                if '0' <= d && d <= '9' {
                                    let dv: u64 = (d as u64) - 48;
                                    if value > (u64::MAX - dv) / 10 {
                                        proof {
                                            lemma_digits_value_monotone(t, start as int, (self.pos + 1) as int, digits_end(t, start as int));
                                        }
                                        return Err(self.error("integer does not fit u64"));
                                    }
                                    value = value * 10 + dv;
                                    self.advance()?;
                                } else {
                                    return Ok(JsonValue::Num(value));
                                }
                            },
                            None => {
                                return Ok(JsonValue::Num(value));
                            },
                        }
                    }
                } else {
                    Err(self.error("unexpected value start"))
                }
            },
            None => Err(self.error("expected a value, found end of input")),
        }
    }

    /// Assert that the parse consumed the whole input.
    fn finish(&self) -> (r: Result<(), Error>)
        ensures
            r is Ok <==> self.pos == self.text@.len(),
            r matches Err(e) ==> e.kind == ErrorKind::InvalidValue && e.section is None
                && e.message@ == "trailing characters after the INFO object"@,
    {
        if self.pos != self.text.len() {
            return Err(self.error("trailing characters after the INFO object"));
        }
        Ok(())
    }
}

/// The views of the members read so far.
pub open spec fn pairs_view(v: Seq<(String, JsonValue)>) -> Seq<(Seq<char>, JsonValueView)> {
    v.map_values(|m: (String, JsonValue)| (m.0@, m.1@))
}

impl JsonValue {
    /// The text of a string value.
    fn into_string(&self) -> (r: Result<String, Error>)
        ensures
            match value_str(self@) {
                Some(s) => r matches Ok(x) && x@ == s,
                None => r matches Err(e) && e.kind == ErrorKind::InvalidValue && e.section is None
                    && e.message@ == "INFO: key must be a string"@,
            },
    {
        match self {
            JsonValue::Str(s) => Ok(s.clone()),
            JsonValue::Num(_) => Err(error_at(ErrorKind::InvalidValue, None, "INFO: key must be a string")),
        }
    }

    /// An integer value that fits in 32 bits.
    fn into_u32(&self) -> (r: Result<u32, Error>)
        ensures
            match value_u32(self@) {
                Some(n) => r == Ok::<u32, Error>(n),
                None => r matches Err(e) && e.kind == ErrorKind::InvalidValue && e.section is None
                    && e.message@ == u32_message(self@),
            },
    {
        match self {
            JsonValue::Num(n) => {
                if *n <= 0xFFFF_FFFFu64 {
                    Ok(*n as u32)
                } else {
                    Err(error_at(ErrorKind::InvalidValue, None, "INFO: integer does not fit u32"))
                }
            },
            JsonValue::Str(_) => Err(error_at(ErrorKind::InvalidValue, None, "INFO: key must be an integer")),
        }
    }
}

/// Whether `key` spells `name`.
fn key_is(key: &String, name: &str) -> (r: bool)
    ensures
        r == (key@ == name@),
{
    let owned = to_owned_string(name);
    *key == owned
}

/// Whether `key` is among the members read so far.
fn seen_key(keys: &Vec<(String, JsonValue)>, key: &String) -> (r: bool)
    ensures
        r == has_key(pairs_view(keys@), key@),
{
    let mut j: usize = 0;
    while j < keys.len()
        invariant
            j <= keys@.len(),
            forall|i: int| 0 <= i < j ==> #[trigger] pairs_view(keys@)[i].0 != key@,
        decreases keys@.len() - j,
    {
        if keys[j].0 == *key {
            assert(pairs_view(keys@)[j as int].0 == key@);
            return true;
        }
        j = j + 1;
    }
    false
}

/// Parse the whole INFO object: `{}` or `{` members `}`, then the end of
/// input.
fn object(parser: &mut InfoJson) -> (r: Result<Vec<(String, JsonValue)>, Error>)
    requires
        old(parser).pos == 0,
    ensures
        match info_object(old(parser).text@) {
            Some(ks) => r matches Ok(x) && pairs_view(x@) == ks,
            None => r matches Err(e) && e.kind == ErrorKind::InvalidValue && e.section is None
                && e.message@ == info_object_message(old(parser).text@),
        },
{
    let ghost t = parser.text@;
    parser.expect('{')?;
    let mut keys: Vec<(String, JsonValue)> = Vec::new();
    if parser.peek() == Some('}') {
        parser.advance()?;
        parser.finish()?;
        return Ok(keys);
    }
    assert(pairs_view(keys@) =~= Seq::<(Seq<char>, JsonValueView)>::empty());
    loop
        invariant_except_break
            t == old(parser).text@,
            t.len() > 0 && t[0] == '{' && !(t.len() > 1 && t[1] == '}'),
            parser.text@ == t,
            parser.pos <= t.len(),
            members(t, 1, Seq::empty()) == members(t, parser.pos as int, pairs_view(keys@)),
            members_message(t, 1, Seq::empty()) == members_message(t, parser.pos as int, pairs_view(keys@)),
        ensures
            t == old(parser).text@,
            t.len() > 0 && t[0] == '{' && !(t.len() > 1 && t[1] == '}'),
            parser.text@ == t,
            members(t, 1, Seq::empty()) == Some((pairs_view(keys@), parser.pos as int)),
        decreases t.len() - parser.pos,
    {
        let ghost p0 = parser.pos as int;
        let key = parser.string()?;
        if seen_key(&keys, &key) {
            return Err(parser.error("duplicate key"));
        }
        parser.expect(':')?;
        let ghost pv = parser.pos as int;
        let value = parser.value()?;
        proof {
            lemma_string_rest_advances(t, p0 + 1, Seq::empty());
            lemma_json_value_advances(t, pv);
        }
        let ghost before = keys@;
        keys.push((key, value));
        assert(pairs_view(keys@) =~= pairs_view(before).push((key@, value@)));
        match parser.peek() {
            Some(c) => {
                if c == ',' {
                    parser.advance()?;
                } else if c == '}' {
                    parser.advance()?;
                    break;
                } else {
                    return Err(parser.error("expected ',' or '}' in INFO object"));
                }
            },
            None => {
                return Err(parser.error("expected ',' or '}' in INFO object"));
            },
        }
    }
    parser.finish()?;
    Ok(keys)
}

/// Apply one member to the INFO value read so far.
fn apply_member(info: &mut Info, key: &String, value: &JsonValue) -> (r: Result<(), Error>)
    ensures
        match apply_key(old(info)@, key@, value@) {
            Some(v) => r is Ok && final(info)@ == v,
            None => r matches Err(e) && e.kind == ErrorKind::InvalidValue && e.section is None
                && e.message@ == apply_key_message(key@, value@),
        },
{
    if key_is(key, "format_version") {
        info.format_version = value.into_u32()?;
    } else if key_is(key, "generator") {
        info.generator = value.into_string()?;
    } else if key_is(key, "generator_version") {
        info.generator_version = value.into_string()?;
    } else if key_is(key, "source_digest") {
        info.source_digest = value.into_string()?;
    } else if key_is(key, "document_id") {
        info.document_id = value.into_string()?;
    } else if key_is(key, "title") {
        info.title = Some(value.into_string()?);
    } else if key_is(key, "lang") {
        info.lang = Some(value.into_string()?);
    } else if key_is(key, "chunk_count") {
        info.chunk_count = value.into_u32()?;
    } else if key_is(key, "style_count") {
        info.style_count = value.into_u32()?;
    } else if key_is(key, "content_count") {
        info.content_count = value.into_u32()?;
    } else if key_is(key, "atlas_count") {
        info.atlas_count = value.into_u32()?;
    } else if key_is(key, "image_count") {
        info.image_count = value.into_u32()?;
    } else {
        return Err(error_at(ErrorKind::InvalidValue, None, "INFO: unknown key"));
    }
    Ok(())
}

proof fn lemma_apply_keys_none_sticks(keys: Seq<(Seq<char>, JsonValueView)>, m: nat, n: nat)
    requires
        m <= n,
        apply_keys(keys, m) is None,
    ensures
        apply_keys(keys, n) is None,
        apply_keys_message(keys, n) == apply_keys_message(keys, m),
    decreases n - m,
{
    if m < n {
        lemma_apply_keys_none_sticks(keys, m, (n - 1) as nat);
    }
}

/// Decode the INFO payload.
pub fn decode(payload: &[u8]) -> (r: Result<Info, Error>)
    ensures
        match info_spec(payload@) {
            Ok(v) => r matches Ok(x) && x@ == v,
            Err(k) => r matches Err(e) && e.kind == k && e.section is None && e.message@ == info_message(payload@),
        },
{
    if payload.len() as u64 > MAX_INFO_LEN {
        return Err(error_at(ErrorKind::InvalidValue, None, "INFO payload exceeds the size cap"));
    }
    let text = match str_from_utf8(payload) {
        Some(text) => text,
        None => {
            return Err(error_at(ErrorKind::InvalidUtf8, None, "INFO payload is not valid UTF-8"));
        },
    };
    let chars = chars_of(text);
    let mut parser = InfoJson::new(chars);
    let keys = object(&mut parser)?;
    let ghost ks = pairs_view(keys@);
    let mut info = Info {
        format_version: 0,
        generator: String::new(),
        generator_version: String::new(),
        source_digest: String::new(),
        document_id: String::new(),
        title: None,
        lang: None,
        chunk_count: 0,
        style_count: 0,
        content_count: 0,
        atlas_count: 0,
        image_count: 0,
    };
    let mut i: usize = 0;
    while i < keys.len()
        invariant
            ks == pairs_view(keys@),
            info_spec(payload@) == (match apply_keys(ks, ks.len()) {
                None => Err(ErrorKind::InvalidValue),
                Some(v) => Ok(v),
            }),
            i <= keys@.len(),
            apply_keys(ks, i as nat) == Some(info@),
            info_spec(payload@) is Err ==> info_message(payload@) == apply_keys_message(ks, ks.len()),
        decreases keys@.len() - i,
    {
        match apply_member(&mut info, &keys[i].0, &keys[i].1) {
            Ok(()) => {},
            Err(e) => {
                proof {
                    lemma_apply_keys_none_sticks(ks, (i + 1) as nat, ks.len());
                }
                return Err(e);
            },
        }
        i = i + 1;
    }
    Ok(info)
}

} // verus!
