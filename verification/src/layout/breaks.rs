//! Text breaking — word boundaries and line-break opportunities.
//!
//! The rules implemented here:
//!
//! - A break is allowed after whitespace runs.
//! - A break is forbidden inside a word (letters, digits, underscores,
//!   apostrophes in contractions).
//! - A break is forbidden before closing punctuation
//!   `, . ; : ! ? ) ] } %` and after opening punctuation `( [ {` and quotes.
//! - CJK ideographs/hiragana/katakana/hangul: break allowed between any two;
//!   forbidden before closing CJK punctuation.
//! - Explicit newlines are forced breaks (preformatted content).

use vstd::prelude::*;
use unicode_general_category::get_general_category;
use unicode_general_category::GeneralCategory as G;
use unicode_script::{Script, UnicodeScript};
use crate::text::{chars_of, push_char};

verus! {

/// How a break after a token is classified.
#[derive(Debug, Clone, Copy, PartialEq, Eq, Hash, Structural)]
pub enum BreakClass {
    /// A space: the natural break opportunity (glue).
    Space,
    /// A permissible break with no glue (CJK between-ideograph).
    Allowed,
    /// No break here (inside a word, before punctuation, …).
    Forbidden,
    /// A forced break (explicit newline).
    Forced,
}

/// One text token for the line breaker.
#[derive(Debug, Clone, PartialEq, Eq)]
pub struct TextToken {
    /// The token's text.
    pub text: String,
    /// How a break after the token is classified.
    pub break_after: BreakClass,
}

/// The mathematical value of a token.
pub struct TokenView {
    pub text: Seq<char>,
    pub break_after: BreakClass,
}

impl View for TextToken {
    type V = TokenView;

    open spec fn view(&self) -> TokenView {
        TokenView { text: self.text@, break_after: self.break_after }
    }
}

/// Close punctuation (Pe).
pub const GC_CLOSE_PUNCTUATION: u8 = 0;
/// Connector punctuation (Pc).
pub const GC_CONNECTOR_PUNCTUATION: u8 = 1;
/// Currency symbol (Sc).
pub const GC_CURRENCY_SYMBOL: u8 = 3;
/// Dash punctuation (Pd).
pub const GC_DASH_PUNCTUATION: u8 = 4;
/// Decimal number (Nd).
pub const GC_DECIMAL_NUMBER: u8 = 5;
/// Final punctuation (Pf).
pub const GC_FINAL_PUNCTUATION: u8 = 7;
/// Initial punctuation (Pi).
pub const GC_INITIAL_PUNCTUATION: u8 = 9;
/// Letter number (Nl).
pub const GC_LETTER_NUMBER: u8 = 10;
/// Lowercase letter (Ll).
pub const GC_LOWERCASE_LETTER: u8 = 12;
/// Math symbol (Sm).
pub const GC_MATH_SYMBOL: u8 = 13;
/// Modifier letter (Lm).
pub const GC_MODIFIER_LETTER: u8 = 14;
/// Modifier symbol (Sk).
pub const GC_MODIFIER_SYMBOL: u8 = 15;
/// Open punctuation (Ps).
pub const GC_OPEN_PUNCTUATION: u8 = 17;
/// Other letter (Lo).
pub const GC_OTHER_LETTER: u8 = 18;
/// Other number (No).
pub const GC_OTHER_NUMBER: u8 = 19;
/// Other punctuation (Po).
pub const GC_OTHER_PUNCTUATION: u8 = 20;
/// Other symbol (So).
pub const GC_OTHER_SYMBOL: u8 = 21;
/// Space separator (Zs).
pub const GC_SPACE_SEPARATOR: u8 = 24;
/// Titlecase letter (Lt).
pub const GC_TITLECASE_LETTER: u8 = 27;
/// Uppercase letter (Lu).
pub const GC_UPPERCASE_LETTER: u8 = 29;
/// Any category the breaker does not distinguish.
pub const GC_OTHER: u8 = 255;

/// The Hangul script.
pub const SCRIPT_HANGUL: u8 = 49;
/// The Han script.
pub const SCRIPT_HAN: u8 = 50;
/// The Hiragana script.
pub const SCRIPT_HIRAGANA: u8 = 54;
/// The Katakana script.
pub const SCRIPT_KATAKANA: u8 = 63;
/// Any other script.
pub const SCRIPT_OTHER: u8 = 255;

/// The Unicode general category of a character, as one of the `GC_*`
/// codes above (the position of the category among the crate's variants),
/// or [`GC_OTHER`] for a category the breaker does not distinguish.
pub uninterp spec fn general_category_of(c: char) -> u8;

/// The Unicode script of a character: [`SCRIPT_HAN`], [`SCRIPT_HANGUL`],
/// [`SCRIPT_HIRAGANA`], [`SCRIPT_KATAKANA`], or [`SCRIPT_OTHER`].
pub uninterp spec fn script_of(c: char) -> u8;

/// `unicode_general_category::get_general_category`, mapped to the `GC_*`
/// codes; the contract names the result as a function of the character.
#[verifier::external_body]
fn general_category(ch: char) -> (r: u8)
    ensures
        r == general_category_of(ch),
{
    match get_general_category(ch) {
        G::ClosePunctuation => 0, G::ConnectorPunctuation => 1, G::CurrencySymbol => 3, G::DashPunctuation => 4,
        G::DecimalNumber => 5, G::FinalPunctuation => 7, G::InitialPunctuation => 9, G::LetterNumber => 10,
        G::LowercaseLetter => 12, G::MathSymbol => 13, G::ModifierLetter => 14, G::ModifierSymbol => 15,
        G::OpenPunctuation => 17, G::OtherLetter => 18, G::OtherNumber => 19, G::OtherPunctuation => 20,
        G::OtherSymbol => 21, G::SpaceSeparator => 24, G::TitlecaseLetter => 27, G::UppercaseLetter => 29,
        _ => 255,
    }
}

/// `unicode_script::UnicodeScript::script` for a `char`, mapped to the
/// `SCRIPT_*` codes; the contract names the result as a function of the
/// character.
#[verifier::external_body]
fn script(ch: char) -> (r: u8)
    ensures
        r == script_of(ch),
{
    match ch.script() {
        Script::Hangul => 49,
        Script::Han => 50,
        Script::Hiragana => 54,
        Script::Katakana => 63,
        _ => 255,
    }
}

/// Whitespace as ECMAScript `\s` has it: `Zs` plus TAB, VT, FF, LF, CR, LS,
/// PS and ZWNBSP.
pub open spec fn space_spec(c: char) -> bool {
    general_category_of(c) == GC_SPACE_SEPARATOR || c == '\u{0009}' || c == '\u{000b}' || c == '\u{000c}'
        || c == '\u{000a}' || c == '\u{000d}' || c == '\u{2028}' || c == '\u{2029}' || c == '\u{feff}'
}

/// Letters, digits, underscore, right single quote.
pub open spec fn word_spec(c: char) -> bool {
    let g = general_category_of(c);
    g == GC_UPPERCASE_LETTER || g == GC_LOWERCASE_LETTER || g == GC_TITLECASE_LETTER || g == GC_MODIFIER_LETTER
        || g == GC_OTHER_LETTER || g == GC_DECIMAL_NUMBER || g == GC_LETTER_NUMBER || g == GC_OTHER_NUMBER
        || c == '_' || c == '\u{2019}'
}

/// Punctuation or symbols.
pub open spec fn punct_spec(c: char) -> bool {
    let g = general_category_of(c);
    g == GC_CLOSE_PUNCTUATION || g == GC_CONNECTOR_PUNCTUATION || g == GC_DASH_PUNCTUATION
        || g == GC_FINAL_PUNCTUATION || g == GC_INITIAL_PUNCTUATION || g == GC_OPEN_PUNCTUATION
        || g == GC_OTHER_PUNCTUATION || g == GC_CURRENCY_SYMBOL || g == GC_MODIFIER_SYMBOL || g == GC_MATH_SYMBOL
        || g == GC_OTHER_SYMBOL
}

/// Closing punctuation that binds to the preceding character.
pub open spec fn nbb_spec(c: char) -> bool {
    c == ',' || c == '.' || c == '!' || c == '?' || c == ';' || c == ':' || c == '%' || c == '\u{2026}' || c
        == ')' || c == ']' || c == '}' || c == '\u{3001}' || c == '\u{3002}' || c == '\u{ff09}' || c
        == '\u{ff3d}' || c == '\u{300b}' || c == '\u{300d}' || c == '\u{3011}' || c == '\u{ff1f}' || c
        == '\u{ff01}' || c == '\u{ff1b}' || c == '\u{ff1a}'
}

/// Opening punctuation and quotes that bind to the following character.
pub open spec fn nba_spec(c: char) -> bool {
    c == '(' || c == '[' || c == '"' || c == '\u{2018}' || c == '\u{201c}' || c == '\u{00ab}' || c
        == '\u{300c}' || c == '\u{300e}' || c == '\u{3008}' || c == '\u{300a}' || c == '\u{ff08}' || c
        == '\u{ff3b}' || c == '\u{3010}' || c == '\u{2019}'
}

/// The CJK scripts: Han, Hiragana, Katakana, Hangul.
pub open spec fn cjk_spec(c: char) -> bool {
    let s = script_of(c);
    s == SCRIPT_HAN || s == SCRIPT_HIRAGANA || s == SCRIPT_KATAKANA || s == SCRIPT_HANGUL
}

fn is_space(ch: char) -> (r: bool)
    ensures
        r == space_spec(ch),
{
    general_category(ch) == GC_SPACE_SEPARATOR || ch == '\u{0009}' || ch == '\u{000b}' || ch == '\u{000c}'
        || ch == '\u{000a}' || ch == '\u{000d}' || ch == '\u{2028}' || ch == '\u{2029}' || ch == '\u{feff}'
}

fn is_word_char(ch: char) -> (r: bool)
    ensures
        r == word_spec(ch),
{
    let g = general_category(ch);
    g == GC_UPPERCASE_LETTER || g == GC_LOWERCASE_LETTER || g == GC_TITLECASE_LETTER || g == GC_MODIFIER_LETTER
        || g == GC_OTHER_LETTER || g == GC_DECIMAL_NUMBER || g == GC_LETTER_NUMBER || g == GC_OTHER_NUMBER
        || ch == '_' || ch == '\u{2019}'
}

fn is_punctuation_or_symbol(ch: char) -> (r: bool)
    ensures
        r == punct_spec(ch),
{
    let g = general_category(ch);
    g == GC_CLOSE_PUNCTUATION || g == GC_CONNECTOR_PUNCTUATION || g == GC_DASH_PUNCTUATION
        || g == GC_FINAL_PUNCTUATION || g == GC_INITIAL_PUNCTUATION || g == GC_OPEN_PUNCTUATION
        || g == GC_OTHER_PUNCTUATION || g == GC_CURRENCY_SYMBOL || g == GC_MODIFIER_SYMBOL || g == GC_MATH_SYMBOL
        || g == GC_OTHER_SYMBOL
}

fn is_no_break_before(ch: char) -> (r: bool)
    ensures
        r == nbb_spec(ch),
{
    ch == ',' || ch == '.' || ch == '!' || ch == '?' || ch == ';' || ch == ':' || ch == '%' || ch == '\u{2026}'
        || ch == ')' || ch == ']' || ch == '}' || ch == '\u{3001}' || ch == '\u{3002}' || ch == '\u{ff09}' || ch
        == '\u{ff3d}' || ch == '\u{300b}' || ch == '\u{300d}' || ch == '\u{3011}' || ch == '\u{ff1f}' || ch
        == '\u{ff01}' || ch == '\u{ff1b}' || ch == '\u{ff1a}'
}

fn is_no_break_after(ch: char) -> (r: bool)
    ensures
        r == nba_spec(ch),
{
    ch == '(' || ch == '[' || ch == '"' || ch == '\u{2018}' || ch == '\u{201c}' || ch == '\u{00ab}' || ch
        == '\u{300c}' || ch == '\u{300e}' || ch == '\u{3008}' || ch == '\u{300a}' || ch == '\u{ff08}' || ch
        == '\u{ff3b}' || ch == '\u{3010}' || ch == '\u{2019}'
}

fn is_cjk(ch: char) -> (r: bool)
    ensures
        r == cjk_spec(ch),
{
    let s = script(ch);
    s == SCRIPT_HAN || s == SCRIPT_HIRAGANA || s == SCRIPT_KATAKANA || s == SCRIPT_HANGUL
}

/// Whitespace that may join a run: any whitespace but a newline or a
/// carriage return, which are breaks of their own.
pub open spec fn run_space_spec(c: char) -> bool {
    space_spec(c) && c != '\n' && c != '\r'
}

/// The end of the whitespace run starting at `j`; a newline ends it.
pub open spec fn space_end(t: Seq<char>, j: int) -> int
    decreases t.len() - j,
{
    if 0 <= j < t.len() && run_space_spec(t[j]) {
        space_end(t, j + 1)
    } else {
        j
    }
}

/// The end of the run of closing punctuation starting at `j`.
pub open spec fn nbb_end(t: Seq<char>, j: int) -> int
    decreases t.len() - j,
{
    if 0 <= j < t.len() && nbb_spec(t[j]) {
        nbb_end(t, j + 1)
    } else {
        j
    }
}

/// The end of the word run that started at `i`, scanned from `j`: word
/// characters and closing punctuation extend it, an opener extends it only
/// at its start; whitespace, CJK, newlines and anything else end it.
pub open spec fn word_end(t: Seq<char>, i: int, j: int) -> int
    decreases t.len() - j,
{
    if j < 0 || j >= t.len() {
        j
    } else {
        let c = t[j];
        if space_spec(c) || cjk_spec(c) || c == '\n' || c == '\r' {
            j
        } else if word_spec(c) {
            word_end(t, i, j + 1)
        } else if punct_spec(c) {
            if nbb_spec(c) {
                word_end(t, i, j + 1)
            } else if nba_spec(c) && j == i {
                word_end(t, i, j + 1)
            } else {
                j
            }
        } else {
            j
        }
    }
}

/// The token starting at `i` and the position after it.
pub open spec fn token_at(t: Seq<char>, i: int) -> (TokenView, int) {
    let c = t[i];
    if c == '\n' || c == '\r' {
        (TokenView { text: seq![c], break_after: BreakClass::Forced }, i + 1)
    } else if space_spec(c) {
        let j = space_end(t, i);
        (TokenView { text: t.subrange(i, j), break_after: BreakClass::Space }, j)
    } else if cjk_spec(c) {
        let j = nbb_end(t, i + 1);
        (TokenView {
            text: t.subrange(i, j),
            break_after: if j < t.len() { BreakClass::Allowed } else { BreakClass::Forbidden },
        }, j)
    } else {
        let e = word_end(t, i, i);
        let j = if e == i { i + 1 } else { e };
        (TokenView {
            text: t.subrange(i, j),
            break_after: if j < t.len() {
                if nba_spec(t[j]) { BreakClass::Forbidden } else { BreakClass::Allowed }
            } else {
                BreakClass::Forbidden
            },
        }, j)
    }
}

pub proof fn lemma_space_end(t: Seq<char>, j: int)
    requires
        0 <= j <= t.len(),
    ensures
        j <= space_end(t, j) <= t.len(),
    decreases t.len() - j,
{
    if j < t.len() && run_space_spec(t[j]) {
        lemma_space_end(t, j + 1);
    }
}

pub proof fn lemma_nbb_end(t: Seq<char>, j: int)
    requires
        0 <= j <= t.len(),
    ensures
        j <= nbb_end(t, j) <= t.len(),
    decreases t.len() - j,
{
    if j < t.len() && nbb_spec(t[j]) {
        lemma_nbb_end(t, j + 1);
    }
}

pub proof fn lemma_word_end(t: Seq<char>, i: int, j: int)
    requires
        0 <= j <= t.len(),
    ensures
        j <= word_end(t, i, j) <= t.len(),
    decreases t.len() - j,
{
    if j < t.len() {
        lemma_word_end(t, i, j + 1);
    }
}

/// A token always advances, and never past the end.
pub proof fn lemma_token_advances(t: Seq<char>, i: int)
    requires
        0 <= i < t.len(),
    ensures
        i < token_at(t, i).1 <= t.len(),
{
    lemma_space_end(t, i);
    lemma_space_end(t, i + 1);
    lemma_nbb_end(t, i + 1);
    lemma_word_end(t, i, i);
}

/// The tokens of `t` from position `i` on.
pub open spec fn tokens_from(t: Seq<char>, i: int) -> Seq<TokenView>
    decreases t.len() - i,
{
    if i < 0 || i >= t.len() {
        Seq::empty()
    } else {
        proof {
            lemma_token_advances(t, i);
        }
        seq![token_at(t, i).0] + tokens_from(t, token_at(t, i).1)
    }
}

/// A `String` holding `chars[i..j]`.
fn collect_range(chars: &Vec<char>, i: usize, j: usize) -> (r: String)
    requires
        i <= j <= chars@.len(),
    ensures
        r@ == chars@.subrange(i as int, j as int),
{
    let mut out = String::new();
    let mut k = i;
    while k < j
        invariant
            i <= k <= j <= chars@.len(),
            out@ == chars@.subrange(i as int, k as int),
        decreases j - k,
    {
        push_char(&mut out, chars[k]);
        assert(chars@.subrange(i as int, (k + 1) as int) =~= chars@.subrange(i as int, k as int).push(chars@[k as int]));
        k = k + 1;
    }
    out
}

/// Tokenize text into breakable units. Whitespace runs become separate
/// tokens with [`BreakClass::Space`]; CJK characters become individual tokens
/// with [`BreakClass::Allowed`] breaks between them; word runs stay intact.
pub fn tokenize_for_breaking(text: &str) -> (r: Vec<TextToken>)
    ensures
        r@.map_values(|t: TextToken| t@) == tokens_from(text@, 0),
{
    let chars = chars_of(text);
    let ghost t = chars@;
    let n = chars.len();
    let mut tokens: Vec<TextToken> = Vec::new();
    let mut i: usize = 0;
    while i < n
        invariant
            t == chars@,
            t == text@,
            n == t.len(),
            i <= n,
            tokens_from(t, 0) == tokens@.map_values(|x: TextToken| x@) + tokens_from(t, i as int),
        decreases n - i,
    {
        let cp = chars[i];
        proof {
            lemma_token_advances(t, i as int);
        }
        let ghost expect = token_at(t, i as int);
        let token;
        let j: usize;
        if cp == '\n' || cp == '\r' {
            let mut s = String::new();
            push_char(&mut s, cp);
            token = TextToken { text: s, break_after: BreakClass::Forced };
            j = i + 1;
        } else if is_space(cp) {
            let mut k = i;
            while k < n && is_space(chars[k]) && chars[k] != '\n' && chars[k] != '\r'
                invariant
                    i <= k <= n,
                    n == chars@.len(),
                    space_end(chars@, i as int) == space_end(chars@, k as int),
                decreases n - k,
            {
                k = k + 1;
            }
            token = TextToken { text: collect_range(&chars, i, k), break_after: BreakClass::Space };
            j = k;
        } else if is_cjk(cp) {
            let mut k = i + 1;
            while k < n && is_no_break_before(chars[k])
                invariant
                    i < k <= n,
                    n == chars@.len(),
                    nbb_end(chars@, (i + 1) as int) == nbb_end(chars@, k as int),
                decreases n - k,
            {
                k = k + 1;
            }
            token = TextToken {
                text: collect_range(&chars, i, k),
                break_after: if k < n { BreakClass::Allowed } else { BreakClass::Forbidden },
            };
            j = k;
        } else {
            let mut k = i;
            while k < n
                invariant
                    i <= k <= n,
                    n == chars@.len(),
                    word_end(chars@, i as int, i as int) == word_end(chars@, i as int, k as int),
                ensures
                    i <= k <= n,
                    word_end(chars@, i as int, i as int) == k,
                decreases n - k,
            {
                let next_ch = chars[k];
                if is_space(next_ch) || is_cjk(next_ch) || next_ch == '\n' || next_ch == '\r' {
                    break;
                }
                if is_word_char(next_ch) {
                    k = k + 1;
                    continue;
                }
                if is_punctuation_or_symbol(next_ch) {
                    if is_no_break_before(next_ch) {
                        k = k + 1;
                        continue;
                    }
                    if is_no_break_after(next_ch) && k == i {
                        k = k + 1;
                        continue;
                    }
                    break;
                }
                break;
            }
            let end = if k == i { i + 1 } else { k };
            let break_after = if end < n {
                if is_no_break_after(chars[end]) {
                    BreakClass::Forbidden
                } else {
                    BreakClass::Allowed
                }
            } else {
                BreakClass::Forbidden
            };
            token = TextToken { text: collect_range(&chars, i, end), break_after };
            j = end;
        }
        assert(token@ == expect.0 && j == expect.1) by {
            if cp == '\n' || cp == '\r' {
                assert(token@.text =~= seq![cp]);
            } else if space_spec(cp) {
                assert(j == space_end(t, i as int));
            } else if cjk_spec(cp) {
                assert(j == nbb_end(t, (i + 1) as int));
            } else {
                assert(word_end(t, i as int, i as int) <= j);
            }
        }
        let ghost before = tokens@;
        tokens.push(token);
        assert(tokens@.map_values(|x: TextToken| x@) =~= before.map_values(|x: TextToken| x@).push(expect.0));
        assert(tokens_from(t, i as int) == seq![expect.0] + tokens_from(t, j as int));
        assert(tokens@.map_values(|x: TextToken| x@) + tokens_from(t, j as int) =~= before.map_values(
            |x: TextToken| x@,
        ) + tokens_from(t, i as int));
        i = j;
    }
    assert(tokens@.map_values(|x: TextToken| x@) + tokens_from(t, n as int) =~= tokens@.map_values(
        |x: TextToken| x@,
    ));
    tokens
}

/// Whether a codepoint is a combining mark in the common combining blocks
/// (Combining Diacritical Marks, their Extended and Supplement blocks,
/// the marks for symbols, and the half marks).
pub fn is_combining_mark(cp: u32) -> (r: bool)
    ensures
        r == ((0x0300 <= cp <= 0x036f) || (0x1ab0 <= cp <= 0x1aff) || (0x1dc0 <= cp <= 0x1dff) || (0x20d0 <= cp
            <= 0x20ff) || (0xfe20 <= cp <= 0xfe2f)),
{
    (0x0300 <= cp && cp <= 0x036f) || (0x1ab0 <= cp && cp <= 0x1aff) || (0x1dc0 <= cp && cp <= 0x1dff) || (0x20d0
        <= cp && cp <= 0x20ff) || (0xfe20 <= cp && cp <= 0xfe2f)
}

/// The concatenated texts of a token sequence.
pub open spec fn joined(toks: Seq<TokenView>) -> Seq<char>
    decreases toks.len(),
{
    if toks.len() == 0 {
        Seq::empty()
    } else {
        toks[0].text + joined(toks.drop_first())
    }
}

/// Tokenization is lossless: the tokens' texts, concatenated in order,
/// give back the text from `i` on.
pub proof fn lemma_tokens_cover_text(t: Seq<char>, i: int)
    requires
        0 <= i <= t.len(),
    ensures
        joined(tokens_from(t, i)) == t.subrange(i, t.len() as int),
    decreases t.len() - i,
{
    if i < t.len() {
        lemma_token_advances(t, i);
        let (tok, j) = token_at(t, i);
        lemma_tokens_cover_text(t, j);
        let toks = tokens_from(t, i);
        assert(toks.drop_first() =~= tokens_from(t, j));
        assert(tok.text == t.subrange(i, j)) by {
            if t[i] == '\n' || t[i] == '\r' {
                assert(t.subrange(i, i + 1) =~= seq![t[i]]);
            }
        }
        assert(t.subrange(i, j) + t.subrange(j, t.len() as int) =~= t.subrange(i, t.len() as int));
    } else {
        assert(t.subrange(i, t.len() as int) =~= Seq::<char>::empty());
    }
}

/// Every token is non-empty.
pub proof fn lemma_tokens_nonempty(t: Seq<char>, i: int, k: int)
    requires
        0 <= i <= t.len(),
        0 <= k < tokens_from(t, i).len(),
    ensures
        tokens_from(t, i)[k].text.len() > 0,
    decreases t.len() - i,
{
    lemma_token_advances(t, i);
    let (tok, j) = token_at(t, i);
    if k > 0 {
        assert(tokens_from(t, i)[k] == tokens_from(t, j)[k - 1]);
        lemma_tokens_nonempty(t, j, k - 1);
    }
}

/// Text continues after every token but the last.
proof fn lemma_later_token_means_more_text(t: Seq<char>, i: int)
    requires
        0 <= i < t.len(),
        tokens_from(t, i).len() > 1,
    ensures
        token_at(t, i).1 < t.len(),
{
    lemma_token_advances(t, i);
    let j = token_at(t, i).1;
    assert(tokens_from(t, i) == seq![token_at(t, i).0] + tokens_from(t, j));
    if j >= t.len() {
        assert(tokens_from(t, j) == Seq::<TokenView>::empty());
    }
}

/// CJK text may wrap between any two characters: every token that starts
/// with a CJK character (one that is not whitespace) and is followed by
/// more text allows a break after it.
pub proof fn lemma_cjk_tokens_allow_a_break(t: Seq<char>, i: int, k: int)
    requires
        0 <= i <= t.len(),
        0 <= k < tokens_from(t, i).len() - 1,
        cjk_spec(tokens_from(t, i)[k].text[0]),
        !space_spec(tokens_from(t, i)[k].text[0]),
    ensures
        tokens_from(t, i)[k].break_after == BreakClass::Allowed,
    decreases t.len() - i,
{
    lemma_token_advances(t, i);
    let (tok, j) = token_at(t, i);
    if k > 0 {
        assert(tokens_from(t, i)[k] == tokens_from(t, j)[k - 1]);
        lemma_cjk_tokens_allow_a_break(t, j, k - 1);
    } else {
        lemma_later_token_means_more_text(t, i);
        lemma_nbb_end(t, i + 1);
        assert(tokens_from(t, i)[0] == tok);
        let c = t[i];
        if c == '\n' || c == '\r' {
            assert(tok.text == seq![c]);
        } else {
            assert(tok.text[0] == c);
        }
    }
}

/// A token's text starts with the character at its position.
proof fn lemma_token_first_char(t: Seq<char>, i: int)
    requires
        0 <= i < t.len(),
    ensures
        token_at(t, i).0.text.len() > 0,
        token_at(t, i).0.text[0] == t[i],
{
    lemma_token_advances(t, i);
}

/// The break after each token: a newline (or carriage return) is a token
/// of its own with a forced break; whitespace gives a space break; the
/// last token of other text forbids a break; a word or symbol token
/// followed by more text allows a break unless the next token opens with
/// an opening bracket or quote, which binds to what follows it.
pub proof fn lemma_token_break_classes(t: Seq<char>, i: int, k: int)
    requires
        0 <= i <= t.len(),
        0 <= k < tokens_from(t, i).len(),
    ensures
        ({
            let toks = tokens_from(t, i);
            let tok = toks[k];
            let c = tok.text[0];
            &&& (c == '\n' || c == '\r') ==> tok.text == seq![c] && tok.break_after == BreakClass::Forced
            &&& (c != '\n' && c != '\r' && space_spec(c)) ==> tok.break_after == BreakClass::Space
            &&& (!space_spec(c) && k == toks.len() - 1) ==> tok.break_after == BreakClass::Forbidden
            &&& (!space_spec(c) && !cjk_spec(c) && k < toks.len() - 1) ==> tok.break_after == (if nba_spec(
                toks[k + 1].text[0],
            ) {
                BreakClass::Forbidden
            } else {
                BreakClass::Allowed
            })
        }),
    decreases t.len() - i,
{
    lemma_token_advances(t, i);
    let (tok, j) = token_at(t, i);
    let toks = tokens_from(t, i);
    assert(toks == seq![tok] + tokens_from(t, j));
    if k > 0 {
        assert(toks[k] == tokens_from(t, j)[k - 1]);
        if k < toks.len() - 1 {
            assert(toks[k + 1] == tokens_from(t, j)[k]);
        }
        lemma_token_break_classes(t, j, k - 1);
    } else {
        lemma_token_first_char(t, i);
        lemma_nbb_end(t, i + 1);
        lemma_space_end(t, i);
        lemma_word_end(t, i, i);
        if j >= t.len() {
            assert(tokens_from(t, j) == Seq::<TokenView>::empty());
        } else {
            assert(tokens_from(t, j)[0] == token_at(t, j).0);
            lemma_token_first_char(t, j);
            assert(toks[1] == token_at(t, j).0);
        }
    }
}

} // verus!
