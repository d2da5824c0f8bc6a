use vstd::prelude::*;
use vstd::slice::{slice_subrange, slice_to_vec};
use vstd::utf8::*;
use crate::error::{lex_error, LexError, LexErrorKind};

verus! {

pub const QUOTE: u8 = 0x22;
pub const BACKSLASH: u8 = 0x5C;
pub const CURLY_OPEN: u8 = 0x7B;
pub const CURLY_CLOSE: u8 = 0x7D;
pub const SQUARE_OPEN: u8 = 0x5B;
pub const SQUARE_CLOSE: u8 = 0x5D;
pub const COMMA: u8 = 0x2C;
pub const COLON: u8 = 0x3A;
pub const MINUS: u8 = 0x2D;

/// The kinds of token that JSON text is made of.
#[derive(Clone, Copy, Debug, PartialEq, Eq, Structural)]
pub enum TokenKind {
    CurlyOpen,
    CurlyClose,
    SquareOpen,
    SquareClose,
    Comma,
    Colon,
    StringLiteral,
    Number,
    Boolean,
    Null,
    EndOfInput,
}

/// The model of a token: its kind, the bytes `start..end`
/// that it takes up in the input, and its text. The text of a string
/// literal is what stands between its quotes, with the escapes replaced by
/// what they stand for; the text of any other token is its bytes as they
/// are.
pub struct Lexeme {
    pub kind: TokenKind,
    pub start: int,
    pub end: int,
    pub text: Seq<u8>,
}

/// Space, tab, line feed and carriage return separate tokens.
pub open spec fn is_whitespace(b: u8) -> bool {
    b == 0x20 || b == 0x09 || b == 0x0A || b == 0x0D
}

/// The first offset at or after `pos` that holds no white space.
pub open spec fn skip_whitespace(src: Seq<u8>, pos: int) -> int
    decreases src.len() - pos,
{
    if 0 <= pos < src.len() && is_whitespace(src[pos]) {
        skip_whitespace(src, pos + 1)
    } else {
        pos
    }
}

/// The bytes that a number literal may hold after its first: digits, signs,
/// the decimal point and the exponent mark. A number is passed through as
/// text and is not read for its value.
pub open spec fn is_number_byte(b: u8) -> bool {
    (0x30 <= b <= 0x39) || b == 0x2B || b == 0x2D || b == 0x2E || b == 0x45 || b == 0x65
}

/// Where the run of number bytes that holds `pos` ends.
pub open spec fn number_end(src: Seq<u8>, pos: int) -> int
    decreases src.len() - pos,
{
    if 0 <= pos < src.len() && is_number_byte(src[pos]) {
        number_end(src, pos + 1)
    } else {
        pos
    }
}

/// The value of a hexadecimal digit.
pub open spec fn hex_digit(b: u8) -> Option<u32> {
    if 0x30 <= b <= 0x39 {
        Some((b - 0x30) as u32)
    } else if 0x41 <= b <= 0x46 {
        Some((b - 0x41 + 10) as u32)
    } else if 0x61 <= b <= 0x66 {
        Some((b - 0x61 + 10) as u32)
    } else {
        None
    }
}

/// The number that the four hexadecimal digits at `pos` write.
pub open spec fn hex4(src: Seq<u8>, pos: int) -> Option<u32> {
    if 0 <= pos && pos + 4 <= src.len() && hex_digit(src[pos]) is Some && hex_digit(
        src[pos + 1],
    ) is Some && hex_digit(src[pos + 2]) is Some && hex_digit(src[pos + 3]) is Some {
        Some(
            (((hex_digit(src[pos])->0 * 16 + hex_digit(src[pos + 1])->0) * 16 + hex_digit(
                src[pos + 2],
            )->0) * 16 + hex_digit(src[pos + 3])->0) as u32,
        )
    } else {
        None
    }
}

pub open spec fn is_high_surrogate(unit: u32) -> bool {
    0xD800 <= unit <= 0xDBFF
}

pub open spec fn is_low_surrogate(unit: u32) -> bool {
    0xDC00 <= unit <= 0xDFFF
}

/// The scalar that a pair of surrogates stands for.
pub open spec fn pair_scalar(high: u32, low: u32) -> u32 {
    (0x10000 + (high - 0xD800) * 0x400 + (low - 0xDC00)) as u32
}

/// What the escape sequence that begins with the backslash at `pos` stands
/// for, and how many bytes it takes up; `None` where there is no escape of
/// JSON at `pos`.
#[verifier::opaque]
pub open spec fn escape_at(src: Seq<u8>, pos: int) -> Option<(Seq<u8>, int)> {
    if pos + 1 >= src.len() {
        None
    } else {
        let c = src[pos + 1];
        if c == 0x22 || c == 0x5C || c == 0x2F {
            Some((seq![c], 2))
        } else if c == 0x62 {
            Some((seq![0x08u8], 2))
        } else if c == 0x66 {
            Some((seq![0x0Cu8], 2))
        } else if c == 0x6E {
            Some((seq![0x0Au8], 2))
        } else if c == 0x72 {
            Some((seq![0x0Du8], 2))
        } else if c == 0x74 {
            Some((seq![0x09u8], 2))
        } else if c == 0x75 {
            match hex4(src, pos + 2) {
                None => None,
                Some(unit) => if is_high_surrogate(unit) {
                    if pos + 7 < src.len() && src[pos + 6] == 0x5C && src[pos + 7] == 0x75 {
                        match hex4(src, pos + 8) {
                            None => None,
                            Some(low) => if is_low_surrogate(low) {
                                Some((encode_scalar(pair_scalar(unit, low)), 12))
                            } else {
                                None
                            },
                        }
                    } else {
                        None
                    }
                } else if is_low_surrogate(unit) {
                    None
                } else {
                    Some((encode_scalar(unit), 6))
                },
            }
        } else {
            None
        }
    }
}

/// Reads a string literal on from `pos`, a place after its opening quote,
/// which stands at `start`. `acc` holds the text read so far. Gives the
/// whole text and the offset after the closing quote.
pub open spec fn string_content(src: Seq<u8>, pos: int, start: int, acc: Seq<u8>) -> Result<
    (Seq<u8>, int),
    LexError,
>
    decreases src.len() - pos,
{
    if pos < 0 || pos >= src.len() {
        Err(lex_error(LexErrorKind::UnterminatedString, start))
    } else if src[pos] == QUOTE {
        Ok((acc, pos + 1))
    } else if src[pos] == BACKSLASH {
        match escape_at(src, pos) {
            None => Err(lex_error(LexErrorKind::InvalidEscape, pos)),
            Some((bytes, n)) => if 0 < n && pos + n <= src.len() {
                string_content(src, pos + n, start, acc + bytes)
            } else {
                Err(lex_error(LexErrorKind::InvalidEscape, pos))
            },
        }
    } else {
        string_content(src, pos + 1, start, acc.push(src[pos]))
    }
}

pub open spec fn is_true_at(src: Seq<u8>, p: int) -> bool {
    p + 4 <= src.len() && src[p] == 0x74 && src[p + 1] == 0x72 && src[p + 2] == 0x75 && src[p + 3]
        == 0x65
}

pub open spec fn is_false_at(src: Seq<u8>, p: int) -> bool {
    p + 5 <= src.len() && src[p] == 0x66 && src[p + 1] == 0x61 && src[p + 2] == 0x6C && src[p + 3]
        == 0x73 && src[p + 4] == 0x65
}

pub open spec fn is_null_at(src: Seq<u8>, p: int) -> bool {
    p + 4 <= src.len() && src[p] == 0x6E && src[p + 1] == 0x75 && src[p + 2] == 0x6C && src[p + 3]
        == 0x6C
}

/// The kind of the one-byte token that `b` is, if it is one.
pub open spec fn punctuation(b: u8) -> Option<TokenKind> {
    if b == CURLY_OPEN {
        Some(TokenKind::CurlyOpen)
    } else if b == CURLY_CLOSE {
        Some(TokenKind::CurlyClose)
    } else if b == SQUARE_OPEN {
        Some(TokenKind::SquareOpen)
    } else if b == SQUARE_CLOSE {
        Some(TokenKind::SquareClose)
    } else if b == COMMA {
        Some(TokenKind::Comma)
    } else if b == COLON {
        Some(TokenKind::Colon)
    } else {
        None
    }
}

/// A token of `kind` whose text is the bytes `start..end` as they are.
pub open spec fn plain(src: Seq<u8>, kind: TokenKind, start: int, end: int) -> Lexeme {
    Lexeme { kind, start, end, text: src.subrange(start, end) }
}

/// The first token at or after `pos`: white space is passed over, and the
/// end of the input is a token of its own. A string literal must hold an
/// escape of JSON after each backslash and be well-formed UTF-8, as it is
/// written and with its escapes replaced.
#[verifier::opaque]
pub open spec fn token_at(src: Seq<u8>, pos: int) -> Result<Lexeme, LexError> {
    let p = skip_whitespace(src, pos);
    if p < 0 || p >= src.len() {
        Ok(Lexeme { kind: TokenKind::EndOfInput, start: p, end: p, text: Seq::empty() })
    } else if punctuation(src[p]) is Some {
        Ok(plain(src, punctuation(src[p])->0, p, p + 1))
    } else if src[p] == QUOTE {
        match string_content(src, p + 1, p, Seq::empty()) {
            Err(e) => Err(e),
            Ok((text, end)) => if valid_utf8(src.subrange(p + 1, end - 1)) && valid_utf8(text) {
                Ok(Lexeme { kind: TokenKind::StringLiteral, start: p, end, text })
            } else {
                Err(lex_error(LexErrorKind::InvalidUtf8, p))
            },
        }
    } else if src[p] == MINUS || (0x30 <= src[p] <= 0x39) {
        Ok(plain(src, TokenKind::Number, p, number_end(src, p + 1)))
    } else if is_true_at(src, p) {
        Ok(plain(src, TokenKind::Boolean, p, p + 4))
    } else if is_false_at(src, p) {
        Ok(plain(src, TokenKind::Boolean, p, p + 5))
    } else if is_null_at(src, p) {
        Ok(plain(src, TokenKind::Null, p, p + 4))
    } else {
        Err(lex_error(LexErrorKind::UnexpectedByte, p))
    }
}

/// True when a backslash stands among the bytes.
#[verifier::opaque]
pub open spec fn has_backslash(s: Seq<u8>) -> bool {
    exists|i: int| 0 <= i < s.len() && s[i] == BACKSLASH
}

/// A token of the input. `unescaped` holds the text of a string literal
/// that has escapes in it; the text of every other token can be read off
/// the input.
#[derive(Debug)]
pub struct Token {
    pub kind: TokenKind,
    pub start: usize,
    pub end: usize,
    pub unescaped: Option<Vec<u8>>,
}

impl Token {
    /// The text of the token, `src` being the input that it was read from.
    pub open spec fn text(&self, src: Seq<u8>) -> Seq<u8> {
        match self.unescaped {
            Some(v) => v@,
            None => if self.kind == TokenKind::StringLiteral {
                src.subrange(self.start + 1, self.end - 1)
            } else if self.kind == TokenKind::EndOfInput {
                Seq::empty()
            } else {
                src.subrange(self.start as int, self.end as int)
            },
        }
    }

    pub open spec fn lexeme(&self, src: Seq<u8>) -> Lexeme {
        Lexeme {
            kind: self.kind,
            start: self.start as int,
            end: self.end as int,
            text: self.text(src),
        }
    }

    /// What a token that was read from `src` is known to hold.
    pub open spec fn well_formed(&self, src: Seq<u8>) -> bool {
        &&& self.start <= self.end <= src.len()
        &&& self.kind == TokenKind::StringLiteral ==> self.start + 2 <= self.end
        &&& self.kind == TokenKind::StringLiteral ==> (self.unescaped is Some <==> has_backslash(
            src.subrange(self.start + 1, self.end - 1),
        ))
        &&& self.kind != TokenKind::StringLiteral ==> self.unescaped is None
        &&& self.kind == TokenKind::EndOfInput <==> self.start == self.end
        &&& self.kind != TokenKind::EndOfInput ==> src[self.start as int] < 0x80 && src[self.end
            - 1] < 0x80
    }

    /// The text of the token as bytes.
    pub fn bytes<'a>(&'a self, src: &'a [u8]) -> (r: &'a [u8])
        requires
            self.well_formed(src@),
        ensures
            r@ == self.text(src@),
    {
        match &self.unescaped {
            Some(v) => v.as_slice(),
            None => {
                if self.kind == TokenKind::StringLiteral {
                    slice_subrange(src, self.start + 1, self.end - 1)
                } else {
                    let r = slice_subrange(src, self.start, self.end);
                    assert(self.kind == TokenKind::EndOfInput ==> r@ =~= Seq::<u8>::empty());
                    r
                }
            },
        }
    }
}

pub proof fn lemma_skip_whitespace(src: Seq<u8>, pos: int)
    requires
        0 <= pos <= src.len(),
    ensures
        pos <= skip_whitespace(src, pos) <= src.len(),
        skip_whitespace(src, pos) < src.len() ==> !is_whitespace(
            src[skip_whitespace(src, pos)],
        ),
        forall|i: int| pos <= i < skip_whitespace(src, pos) ==> is_whitespace(#[trigger] src[i]),
    decreases src.len() - pos,
{
    if pos < src.len() && is_whitespace(src[pos]) {
        lemma_skip_whitespace(src, pos + 1);
    }
}

pub proof fn lemma_number_end(src: Seq<u8>, pos: int)
    requires
        0 <= pos <= src.len(),
    ensures
        pos <= number_end(src, pos) <= src.len(),
        forall|i: int| pos <= i < number_end(src, pos) ==> is_number_byte(#[trigger] src[i]),
    decreases src.len() - pos,
{
    if pos < src.len() && is_number_byte(src[pos]) {
        lemma_number_end(src, pos + 1);
    }
}

pub proof fn lemma_string_content(src: Seq<u8>, pos: int, start: int, acc: Seq<u8>)
    requires
        0 <= pos <= src.len(),
    ensures
        string_content(src, pos, start, acc) matches Ok((_, end)) ==> pos < end <= src.len()
            && src[end - 1] == QUOTE,
    decreases src.len() - pos,
{
    if pos < src.len() && src[pos] != QUOTE {
        if src[pos] == BACKSLASH {
            match escape_at(src, pos) {
                None => {},
                Some((bytes, n)) => {
                    if 0 < n && pos + n <= src.len() {
                        lemma_string_content(src, pos + n, start, acc + bytes);
                    }
                },
            }
        } else {
            lemma_string_content(src, pos + 1, start, acc.push(src[pos]));
        }
    }
}

/// Every token lies at or after the place where it was looked for, inside
/// the input; every token but the end of the input holds a byte, and
/// begins and ends with a byte below 0x80.
pub proof fn lemma_token_at(src: Seq<u8>, pos: int)
    requires
        0 <= pos <= src.len(),
    ensures
        token_at(src, pos) matches Ok(t) ==> {
            &&& pos <= t.start <= t.end <= src.len()
            &&& t.start == skip_whitespace(src, pos)
            &&& t.kind == TokenKind::EndOfInput <==> t.start == t.end
            &&& t.kind == TokenKind::EndOfInput <==> t.start == src.len()
            &&& t.kind != TokenKind::EndOfInput ==> src[t.start] < 0x80 && src[t.end - 1] < 0x80
            &&& t.kind == TokenKind::StringLiteral ==> t.start + 2 <= t.end && valid_utf8(t.text)
            &&& t.kind == TokenKind::CurlyOpen || t.kind == TokenKind::SquareOpen ==> t.end
                == t.start + 1
            &&& t.kind == TokenKind::CurlyClose ==> t.end == t.start + 1 && src[t.start]
                == CURLY_CLOSE
            &&& t.kind == TokenKind::SquareClose ==> t.end == t.start + 1 && src[t.start]
                == SQUARE_CLOSE
        },
{
    reveal(token_at);
    lemma_skip_whitespace(src, pos);
    let p = skip_whitespace(src, pos);
    if p < src.len() {
        lemma_string_content(src, p + 1, p, Seq::empty());
        lemma_number_end(src, p + 1);
    }
}

/// What lies between two offsets of a text that holds only bytes below
/// 0x80 there is well-formed.
proof fn lemma_plain_span(src: Seq<u8>, from: int, to: int)
    requires
        0 <= from <= to <= src.len(),
        forall|i: int| from <= i < to ==> #[trigger] src[i] < 0x80,
    ensures
        valid_utf8(src.subrange(from, to)),
{
    let part = src.subrange(from, to);
    assert forall|i: int| 0 <= i < part.len() implies #[trigger] part[i] < 0x80 by {
        assert(part[i] == src[from + i]);
    }
    crate::bytes::lemma_ascii_is_utf8(part);
}

/// A token and the white space before it are well-formed UTF-8, and so is
/// the text of the token.
pub proof fn lemma_token_is_text(src: Seq<u8>, pos: int)
    requires
        0 <= pos <= src.len(),
    ensures
        token_at(src, pos) matches Ok(t) ==> {
            &&& valid_utf8(src.subrange(pos, t.start))
            &&& valid_utf8(src.subrange(t.start, t.end))
            &&& valid_utf8(src.subrange(pos, t.end))
            &&& valid_utf8(t.text)
        },
{
    reveal(token_at);
    lemma_skip_whitespace(src, pos);
    let p = skip_whitespace(src, pos);
    assert forall|i: int| pos <= i < p implies #[trigger] src[i] < 0x80 by {
        assert(is_whitespace(src[i]));
    }
    lemma_plain_span(src, pos, p);
    match token_at(src, pos) {
        Err(_) => {},
        Ok(t) => {
            if p < src.len() {
                lemma_string_content(src, p + 1, p, Seq::empty());
                lemma_number_end(src, p + 1);
                if src[p] == QUOTE && punctuation(src[p]) is None {
                    let raw = src.subrange(p + 1, t.end - 1);
                    let quote = seq![QUOTE];
                    crate::bytes::lemma_ascii_is_utf8(quote);
                    valid_utf8_concat(quote, raw);
                    valid_utf8_concat(quote + raw, quote);
                    assert(quote + raw + quote =~= src.subrange(p, t.end));
                } else {
                    assert forall|i: int| p <= i < t.end implies #[trigger] src[i] < 0x80 by {
                        if i > p && t.kind == TokenKind::Number {
                            assert(is_number_byte(src[i]));
                        }
                    }
                    lemma_plain_span(src, p, t.end);
                }
            } else {
                assert(src.subrange(p, p) =~= Seq::<u8>::empty());
            }
            valid_utf8_concat(src.subrange(pos, p), src.subrange(p, t.end));
            assert(src.subrange(pos, p) + src.subrange(p, t.end) =~= src.subrange(pos, t.end));
        },
    }
}

fn is_whitespace_byte(b: u8) -> (r: bool)
    ensures
        r == is_whitespace(b),
{
    b == 0x20 || b == 0x09 || b == 0x0A || b == 0x0D
}

fn is_number_part(b: u8) -> (r: bool)
    ensures
        r == is_number_byte(b),
{
    (0x30 <= b && b <= 0x39) || b == 0x2B || b == 0x2D || b == 0x2E || b == 0x45 || b == 0x65
}

pub(crate) fn skip_blank(src: &[u8], pos: usize) -> (r: usize)
    requires
        pos <= src@.len(),
    ensures
        r == skip_whitespace(src@, pos as int),
        pos <= r <= src@.len(),
{
    let mut i: usize = pos;
    while i < src.len() && is_whitespace_byte(src[i])
        invariant
            pos <= i <= src@.len(),
            skip_whitespace(src@, pos as int) == skip_whitespace(src@, i as int),
        decreases src@.len() - i,
    {
        i += 1;
    }
    i
}

fn scan_number(src: &[u8], pos: usize) -> (r: usize)
    requires
        pos <= src@.len(),
    ensures
        r == number_end(src@, pos as int),
        pos <= r <= src@.len(),
{
    let mut i: usize = pos;
    while i < src.len() && is_number_part(src[i])
        invariant
            pos <= i <= src@.len(),
            number_end(src@, pos as int) == number_end(src@, i as int),
        decreases src@.len() - i,
    {
        i += 1;
    }
    i
}

fn hex_value(b: u8) -> (r: Option<u32>)
    ensures
        r == hex_digit(b),
        r matches Some(v) ==> v < 16,
{
    if 0x30 <= b && b <= 0x39 {
        Some((b - 0x30) as u32)
    } else if 0x41 <= b && b <= 0x46 {
        Some((b - 0x41 + 10) as u32)
    } else if 0x61 <= b && b <= 0x66 {
        Some((b - 0x61 + 10) as u32)
    } else {
        None
    }
}

fn read_hex4(src: &[u8], pos: usize) -> (r: Option<u32>)
    requires
        pos <= src@.len(),
    ensures
        r == hex4(src@, pos as int),
        r matches Some(v) ==> v <= 0xFFFF && pos + 4 <= src@.len(),
{
    if src.len() - pos < 4 {
        return None;
    }
    let a = hex_value(src[pos]);
    let b = hex_value(src[pos + 1]);
    let c = hex_value(src[pos + 2]);
    let d = hex_value(src[pos + 3]);
    match (a, b, c, d) {
        (Some(a), Some(b), Some(c), Some(d)) => Some(((a * 16 + b) * 16 + c) * 16 + d),
        _ => None,
    }
}

/// Appends the UTF-8 encoding of `scalar`.
fn push_scalar(buf: &mut Vec<u8>, scalar: u32)
    requires
        is_scalar(scalar),
    ensures
        final(buf)@ == old(buf)@ + encode_scalar(scalar),
{
    if scalar <= 0x7F {
        assert((scalar & 0x7F) < 256) by (bit_vector);
        buf.push((scalar & 0x7F) as u8);
    } else if scalar <= 0x7FF {
        assert(((scalar >> 6) & 0x1F) < 256 && (scalar & 0x3F) < 256) by (bit_vector);
        buf.push(0xC0 | ((scalar >> 6) & 0x1F) as u8);
        buf.push(0x80 | (scalar & 0x3F) as u8);
    } else if scalar <= 0xFFFF {
        assert(((scalar >> 12) & 0x0F) < 256 && ((scalar >> 6) & 0x3F) < 256 && (scalar & 0x3F)
            < 256) by (bit_vector);
        buf.push(0xE0 | ((scalar >> 12) & 0x0F) as u8);
        buf.push(0x80 | ((scalar >> 6) & 0x3F) as u8);
        buf.push(0x80 | (scalar & 0x3F) as u8);
    } else {
        assert(((scalar >> 18) & 0x7) < 256 && ((scalar >> 12) & 0x3F) < 256 && ((scalar >> 6)
            & 0x3F) < 256 && (scalar & 0x3F) < 256) by (bit_vector);
        buf.push(0xF0 | ((scalar >> 18) & 0x7) as u8);
        buf.push(0x80 | ((scalar >> 12) & 0x3F) as u8);
        buf.push(0x80 | ((scalar >> 6) & 0x3F) as u8);
        buf.push(0x80 | (scalar & 0x3F) as u8);
    }
    assert(buf@ =~= old(buf)@ + encode_scalar(scalar));
}

/// Reads the escape sequence whose backslash stands at `pos`, appends what
/// it stands for, and gives the number of bytes that the escape takes up.
fn read_escape(src: &[u8], pos: usize, buf: &mut Vec<u8>) -> (r: Option<usize>)
    requires
        pos < src@.len(),
    ensures
        match escape_at(src@, pos as int) {
            Some((bytes, n)) => r == Some(n as usize) && 0 < n && pos + n <= src@.len() && final(buf)@ == old(buf)@ + bytes,
            None => r is None && final(buf)@ == old(buf)@,
        },
{
    reveal(escape_at);
    if src.len() - pos < 2 {
        return None;
    }
    let c = src[pos + 1];
    let plain: Option<u8> = if c == 0x22 || c == 0x5C || c == 0x2F {
        Some(c)
    } else if c == 0x62 {
        Some(0x08)
    } else if c == 0x66 {
        Some(0x0C)
    } else if c == 0x6E {
        Some(0x0A)
    } else if c == 0x72 {
        Some(0x0D)
    } else if c == 0x74 {
        Some(0x09)
    } else {
        None
    };
    match plain {
        Some(b) => {
            buf.push(b);
            assert(buf@ =~= old(buf)@ + seq![b]);
            return Some(2);
        },
        None => {},
    }
    if c != 0x75 {
        return None;
    }
    match read_hex4(src, pos + 2) {
        None => None,
        Some(unit) => {
            if 0xD800 <= unit && unit <= 0xDBFF {
                if src.len() - pos > 7 && src[pos + 6] == 0x5C && src[pos + 7] == 0x75 {
                    match read_hex4(src, pos + 8) {
                        None => None,
                        Some(low) => {
                            if 0xDC00 <= low && low <= 0xDFFF {
                                let scalar: u32 = 0x10000 + (unit - 0xD800) * 0x400 + (low
                                    - 0xDC00);
                                push_scalar(buf, scalar);
                                Some(12)
                            } else {
                                None
                            }
                        },
                    }
                } else {
                    None
                }
            } else if 0xDC00 <= unit && unit <= 0xDFFF {
                None
            } else {
                push_scalar(buf, unit);
                Some(6)
            }
        },
    }
}

proof fn lemma_backslash_grows(src: Seq<u8>, from: int, mid: int, to: int)
    requires
        0 <= from <= mid <= to <= src.len(),
        has_backslash(src.subrange(from, mid)) || exists|j: int| mid <= j < to && src[j] == BACKSLASH,
    ensures
        has_backslash(src.subrange(from, to)),
{
    reveal(has_backslash);
    if has_backslash(src.subrange(from, mid)) {
        let shorter = src.subrange(from, mid);
        let j = choose|j: int| 0 <= j < shorter.len() && shorter[j] == BACKSLASH;
        assert(src.subrange(from, to)[j] == BACKSLASH);
    } else {
        let j = choose|j: int| mid <= j < to && src[j] == BACKSLASH;
        assert(src.subrange(from, to)[j - from] == BACKSLASH);
    }
}

proof fn lemma_backslash_none(src: Seq<u8>, from: int, to: int)
    requires
        0 <= from <= to < src.len(),
        !has_backslash(src.subrange(from, to)),
        src[to] != BACKSLASH,
    ensures
        !has_backslash(src.subrange(from, to + 1)),
{
    reveal(has_backslash);
    if has_backslash(src.subrange(from, to + 1)) {
        let longer = src.subrange(from, to + 1);
        let j = choose|j: int| 0 <= j < longer.len() && longer[j] == BACKSLASH;
        if j < to - from {
            assert(src.subrange(from, to)[j] == BACKSLASH);
        }
    }
}

/// Reads the string literal whose opening quote stands at `start`: gives
/// the offset after its closing quote and, where the literal has escapes,
/// its text with the escapes replaced.
fn scan_string(src: &[u8], start: usize) -> (r: Result<(usize, Option<Vec<u8>>), LexError>)
    requires
        start < src@.len(),
    ensures
        match string_content(src@, start + 1, start as int, Seq::empty()) {
            Ok((text, end)) => {
                &&& r matches Ok((e, unescaped))
                &&& e == end
                &&& start + 2 <= end <= src@.len()
                &&& src@[end - 1] == QUOTE
                &&& match unescaped {
                    Some(v) => v@ == text && has_backslash(src@.subrange(start + 1, end - 1)),
                    None => text == src@.subrange(start + 1, end - 1) && !has_backslash(
                        src@.subrange(start + 1, end - 1),
                    ),
                }
            },
            Err(err) => r matches Err(e) && e == err,
        },
{
    let len = src.len();
    let mut i: usize = start + 1;
    let mut decoded: Vec<u8> = Vec::new();
    let mut escaped = false;
    let ghost mut acc = Seq::<u8>::empty();
    proof {
        reveal(has_backslash);
        assert(src@.subrange(start + 1, i as int) =~= Seq::<u8>::empty());
    }
    loop
        invariant
            start < i <= src@.len(),
            len == src@.len(),
            string_content(src@, start + 1, start as int, Seq::empty()) == string_content(
                src@,
                i as int,
                start as int,
                acc,
            ),
            escaped ==> decoded@ == acc && has_backslash(src@.subrange(start + 1, i as int)),
            !escaped ==> acc == src@.subrange(start + 1, i as int) && !has_backslash(
                src@.subrange(start + 1, i as int),
            ),
        decreases src@.len() - i,
    {
        if i >= len {
            return Err(LexError { kind: LexErrorKind::UnterminatedString, position: start });
        }
        let b = src[i];
        if b == QUOTE {
            return Ok((i + 1, if escaped { Some(decoded) } else { None }));
        }
        if b == BACKSLASH {
            if !escaped {
                decoded = slice_to_vec(slice_subrange(src, start + 1, i));
                escaped = true;
            }
            match read_escape(src, i, &mut decoded) {
                None => {
                    return Err(LexError { kind: LexErrorKind::InvalidEscape, position: i });
                },
                Some(n) => {
                    proof {
                        let found = escape_at(src@, i as int).unwrap();
                        acc = acc + found.0;
                        lemma_backslash_grows(src@, start + 1, i as int, i + n);
                    }
                    i = i + n;
                },
            }
        } else {
            if escaped {
                decoded.push(b);
            }
            proof {
                acc = acc.push(b);
                if escaped {
                    lemma_backslash_grows(src@, start + 1, i as int, i + 1);
                } else {
                    lemma_backslash_none(src@, start + 1, i as int);
                    assert(src@.subrange(start + 1, i + 1) =~= src@.subrange(start + 1, i as int).push(b));
                }
            }
            i = i + 1;
        }
    }
}

fn punctuation_kind(b: u8) -> (r: Option<TokenKind>)
    ensures
        r == punctuation(b),
{
    if b == CURLY_OPEN {
        Some(TokenKind::CurlyOpen)
    } else if b == CURLY_CLOSE {
        Some(TokenKind::CurlyClose)
    } else if b == SQUARE_OPEN {
        Some(TokenKind::SquareOpen)
    } else if b == SQUARE_CLOSE {
        Some(TokenKind::SquareClose)
    } else if b == COMMA {
        Some(TokenKind::Comma)
    } else if b == COLON {
        Some(TokenKind::Colon)
    } else {
        None
    }
}

fn word_true(src: &[u8], p: usize) -> (r: bool)
    requires
        p < src@.len(),
    ensures
        r == is_true_at(src@, p as int),
{
    src.len() - p >= 4 && src[p] == 0x74 && src[p + 1] == 0x72 && src[p + 2] == 0x75 && src[p + 3]
        == 0x65
}

fn word_false(src: &[u8], p: usize) -> (r: bool)
    requires
        p < src@.len(),
    ensures
        r == is_false_at(src@, p as int),
{
    src.len() - p >= 5 && src[p] == 0x66 && src[p + 1] == 0x61 && src[p + 2] == 0x6C && src[p + 3]
        == 0x73 && src[p + 4] == 0x65
}

fn word_null(src: &[u8], p: usize) -> (r: bool)
    requires
        p < src@.len(),
    ensures
        r == is_null_at(src@, p as int),
{
    src.len() - p >= 4 && src[p] == 0x6E && src[p + 1] == 0x75 && src[p + 2] == 0x6C && src[p + 3]
        == 0x6C
}

/// Reads the first token at or after `pos`.
pub fn next_token(src: &[u8], pos: usize) -> (r: Result<Token, LexError>)
    requires
        pos <= src@.len(),
    ensures
        match token_at(src@, pos as int) {
            Ok(lexeme) => {
                &&& r matches Ok(t)
                &&& t.kind == lexeme.kind
                &&& t.start == lexeme.start
                &&& t.end == lexeme.end
                &&& t.text(src@) == lexeme.text
                &&& t.well_formed(src@)
                &&& pos <= t.start
            },
            Err(err) => r matches Err(e) && e == err,
        },
{
    reveal(token_at);
    let p = skip_blank(src, pos);
    if p >= src.len() {
        return Ok(Token { kind: TokenKind::EndOfInput, start: p, end: p, unescaped: None });
    }
    let b = src[p];
    match punctuation_kind(b) {
        Some(kind) => {
            return Ok(Token { kind, start: p, end: p + 1, unescaped: None });
        },
        None => {},
    }
    if b == QUOTE {
        match scan_string(src, p) {
            Err(e) => Err(e),
            Ok((end, unescaped)) => {
                let written = crate::arena::from_utf8(slice_subrange(src, p + 1, end - 1)).is_some();
                let well_formed = written && match &unescaped {
                    Some(v) => crate::arena::from_utf8(v.as_slice()).is_some(),
                    None => true,
                };
                if well_formed {
                    Ok(Token { kind: TokenKind::StringLiteral, start: p, end, unescaped })
                } else {
                    Err(LexError { kind: LexErrorKind::InvalidUtf8, position: p })
                }
            },
        }
    } else if b == MINUS || (0x30 <= b && b <= 0x39) {
        let end = scan_number(src, p + 1);
        proof {
            lemma_number_end(src@, p + 1);
        }
        Ok(Token { kind: TokenKind::Number, start: p, end, unescaped: None })
    } else if word_true(src, p) {
        Ok(Token { kind: TokenKind::Boolean, start: p, end: p + 4, unescaped: None })
    } else if word_false(src, p) {
        Ok(Token { kind: TokenKind::Boolean, start: p, end: p + 5, unescaped: None })
    } else if word_null(src, p) {
        Ok(Token { kind: TokenKind::Null, start: p, end: p + 4, unescaped: None })
    } else {
        Err(LexError { kind: LexErrorKind::UnexpectedByte, position: p })
    }
}

/// A reader of tokens: the input and the place that it has reached.
pub struct Lexer<'a> {
    pub input: &'a [u8],
    pub position: usize,
}

impl<'a> Lexer<'a> {
    /// A reader at the beginning of `input`.
    pub fn new(input: &'a [u8]) -> (r: Self)
        ensures
            r.input == input,
            r.position == 0,
    {
        Lexer { input, position: 0 }
    }

    /// Reads the next token and moves behind it. After an error the reader
    /// stays where it was.
    pub fn next_token(&mut self) -> (r: Result<Token, LexError>)
        requires
            old(self).position <= old(self).input@.len(),
        ensures
            final(self).input == old(self).input,
            final(self).position <= final(self).input@.len(),
            match token_at(old(self).input@, old(self).position as int) {
                Ok(lexeme) => {
                    &&& r matches Ok(t)
                    &&& t.kind == lexeme.kind
                    &&& t.start == lexeme.start
                    &&& t.end == lexeme.end
                    &&& t.text(old(self).input@) == lexeme.text
                    &&& t.well_formed(old(self).input@)
                    &&& final(self).position == lexeme.end
                },
                Err(err) => r matches Err(e) && e == err && final(self).position == old(self).position,
            },
    {
        match next_token(self.input, self.position) {
            Ok(t) => {
                self.position = t.end;
                Ok(t)
            },
            Err(e) => Err(e),
        }
    }
}

} // verus!
