//! Limbo lexer: converts source text into a stream of tokens.

use vstd::prelude::*;
use vstd::string::StrSliceExecFns;
use vstd::string::StringExecFns;
use vstd::string::StringSliceAdditionalSpecFns;
use vstd::utf8::{decode_utf8, is_scalar, valid_utf8};
use crate::text::{char_debug_text, push_char, push_debug_char, push_decimal, spec_decimal};
use crate::token::{keyword_kind, keyword_of_bytes, Span, Token, TokenKind};

verus! {

/// Compilation error with source location.
#[derive(Clone, Debug)]
pub struct LexError {
    pub file: String,
    pub span: Span,
    pub message: String,
}

/// The text of an error: `file:line:col: message`.
pub open spec fn located_text(file: Seq<char>, span: Span, message: Seq<char>) -> Seq<char> {
    file + seq![':'] + spec_decimal(span.line as nat) + seq![':'] + spec_decimal(span.col as nat)
        + seq![':', ' '] + message
}

/// Builds `file:line:col: message`.
pub fn located_string(file: &String, span: Span, message: &String) -> (r: String)
    ensures
        r@ == located_text(file@, span, message@),
{
    let mut s = file.clone();
    push_char(&mut s, ':');
    push_decimal(&mut s, span.line as u64);
    push_char(&mut s, ':');
    push_decimal(&mut s, span.col as u64);
    push_char(&mut s, ':');
    push_char(&mut s, ' ');
    s.append(message.as_str());
    assert(s@ =~= located_text(file@, span, message@));
    s
}

impl LexError {
    /// The error as it is displayed: `file:line:col: message`.
    pub fn to_string(&self) -> (r: String)
        ensures
            r@ == located_text(self.file@, self.span, self.message@),
    {
        located_string(&self.file, self.span, &self.message)
    }
}

// ── Byte classes ───────────────────────────────────────────────

/// The byte at `p`, or 0 past either end.
pub open spec fn byte_at(s: Seq<u8>, p: int) -> u8 {
    if 0 <= p < s.len() {
        s[p]
    } else {
        0
    }
}

pub open spec fn is_ws(b: u8) -> bool {
    b == 32 || b == 9 || b == 10 || b == 12 || b == 13
}

pub open spec fn is_digit(b: u8) -> bool {
    48 <= b <= 57
}

pub open spec fn is_alpha(b: u8) -> bool {
    (65 <= b <= 90) || (97 <= b <= 122)
}

pub open spec fn is_hex_digit(b: u8) -> bool {
    is_digit(b) || (65 <= b <= 70) || (97 <= b <= 102)
}

/// Is this byte part of a scalar outside ASCII? Such a byte belongs to an
/// identifier, since every non-ASCII scalar counts as a letter.
pub open spec fn spec_is_ident_byte(b: u8) -> bool {
    b >= 0x80
}

/// A byte that may continue an identifier.
pub open spec fn is_ident_char(b: u8) -> bool {
    is_alpha(b) || is_digit(b) || b == 95 || spec_is_ident_byte(b)
}

/// A byte that may start an identifier.
pub open spec fn is_ident_start(b: u8) -> bool {
    is_alpha(b) || b == 95 || spec_is_ident_byte(b)
}

fn byte_is_ws(b: u8) -> (r: bool)
    ensures
        r == is_ws(b),
{
    b == 32 || b == 9 || b == 10 || b == 12 || b == 13
}

fn byte_is_digit(b: u8) -> (r: bool)
    ensures
        r == is_digit(b),
{
    48 <= b && b <= 57
}

fn byte_is_alpha(b: u8) -> (r: bool)
    ensures
        r == is_alpha(b),
{
    (65 <= b && b <= 90) || (97 <= b && b <= 122)
}

fn byte_is_hex_digit(b: u8) -> (r: bool)
    ensures
        r == is_hex_digit(b),
{
    byte_is_digit(b) || (65 <= b && b <= 70) || (97 <= b && b <= 102)
}

/// Is this byte part of a scalar outside ASCII?
pub fn is_ident_byte(b: u8) -> (r: bool)
    ensures
        r == spec_is_ident_byte(b),
{
    b >= 0x80
}

fn byte_is_ident_char(b: u8) -> (r: bool)
    ensures
        r == is_ident_char(b),
{
    byte_is_alpha(b) || byte_is_digit(b) || b == 95 || is_ident_byte(b)
}

/// Number of bytes in the UTF-8 scalar introduced by `lead`.
pub open spec fn spec_utf8_len(lead: u8) -> nat {
    if lead <= 0x7F {
        1
    } else if 0xC0 <= lead <= 0xDF {
        2
    } else if 0xE0 <= lead <= 0xEF {
        3
    } else if 0xF0 <= lead <= 0xF7 {
        4
    } else {
        1
    }
}

/// Number of bytes in the UTF-8 scalar introduced by `lead`.
pub fn utf8_len(lead: u8) -> (r: usize)
    ensures
        r == spec_utf8_len(lead),
{
    if lead <= 0x7F {
        1
    } else if 0xC0 <= lead && lead <= 0xDF {
        2
    } else if 0xE0 <= lead && lead <= 0xEF {
        3
    } else if 0xF0 <= lead && lead <= 0xF7 {
        4
    } else {
        1
    }
}

// ── Positions ──────────────────────────────────────────────────

/// Number of newlines among the first `p` bytes.
pub open spec fn count_nl(s: Seq<u8>, p: int) -> nat
    decreases p,
{
    if p <= 0 {
        0
    } else {
        count_nl(s, p - 1) + if s[p - 1] == 10 {
            1nat
        } else {
            0nat
        }
    }
}

/// Position just after the last newline before `p` (0 if none).
pub open spec fn line_start(s: Seq<u8>, p: int) -> int
    decreases p,
{
    if p <= 0 {
        0
    } else if s[p - 1] == 10 {
        p
    } else {
        line_start(s, p - 1)
    }
}

/// The line and column of byte position `p`, both counted from 1; every
/// byte counts as one column.
pub open spec fn span_at(s: Seq<u8>, p: int) -> Span {
    Span { line: (1 + count_nl(s, p)) as u32, col: (1 + p - line_start(s, p)) as u32 }
}

proof fn lemma_position_bounds(s: Seq<u8>, p: int)
    requires
        0 <= p <= s.len(),
    ensures
        count_nl(s, p) <= p,
        0 <= line_start(s, p) <= p,
    decreases p,
{
    if p > 0 {
        lemma_position_bounds(s, p - 1);
    }
}

/// The first position at or after `p` that is neither whitespace nor inside
/// a `#` comment.
pub open spec fn skip_blank(s: Seq<u8>, p: int) -> int
    decreases s.len() - p, 1int,
{
    if p < 0 || p >= s.len() {
        p
    } else if is_ws(s[p]) {
        skip_blank(s, p + 1)
    } else if s[p] == 35 {
        proof {
            lemma_line_end(s, p + 1);
        }
        skip_blank(s, line_end(s, p + 1))
    } else {
        p
    }
}

/// The position of the first newline at or after `p` (or the end).
pub open spec fn line_end(s: Seq<u8>, p: int) -> int
    decreases s.len() - p,
{
    if p < 0 || p >= s.len() || s[p] == 10 {
        p
    } else {
        line_end(s, p + 1)
    }
}

pub proof fn lemma_line_end(s: Seq<u8>, p: int)
    requires
        0 <= p <= s.len(),
    ensures
        p <= line_end(s, p) <= s.len(),
        line_end(s, p) < s.len() ==> s[line_end(s, p)] == 10,
        forall|q: int| p <= q < line_end(s, p) ==> s[q] != 10,
    decreases s.len() - p,
{
    if p < s.len() && s[p] != 10 {
        lemma_line_end(s, p + 1);
    }
}

proof fn lemma_skip_blank(s: Seq<u8>, p: int)
    requires
        0 <= p <= s.len(),
    ensures
        p <= skip_blank(s, p) <= s.len(),
        skip_blank(s, p) < s.len() ==> !is_ws(s[skip_blank(s, p)]) && s[skip_blank(s, p)] != 35,
    decreases s.len() - p, 1int,
{
    if p < s.len() {
        if is_ws(s[p]) {
            lemma_skip_blank(s, p + 1);
        } else if s[p] == 35 {
            lemma_line_end(s, p + 1);
            lemma_skip_blank(s, line_end(s, p + 1));
        }
    }
}

// ── Numbers ────────────────────────────────────────────────────

/// Why a digit string is not an integer.
#[derive(Clone, Copy, Debug, PartialEq, Eq, Structural)]
pub enum IntError {
    Empty,
    InvalidDigit,
    Overflow,
}

/// The message for an integer that does not parse.
pub open spec fn int_error_text(e: IntError) -> Seq<char> {
    match e {
        IntError::Empty => "cannot parse integer from empty string"@,
        IntError::InvalidDigit => "invalid digit found in string"@,
        IntError::Overflow => "number too large to fit in target type"@,
    }
}

fn int_error_message(e: IntError) -> (r: String)
    ensures
        r@ == int_error_text(e),
{
    match e {
        IntError::Empty => String::from_str("cannot parse integer from empty string"),
        IntError::InvalidDigit => String::from_str("invalid digit found in string"),
        IntError::Overflow => String::from_str("number too large to fit in target type"),
    }
}

/// The value of a digit in any radix up to 36 (36 for a byte that is no digit).
pub open spec fn digit_value(b: u8) -> int {
    if is_digit(b) {
        b - 48
    } else if 97 <= b <= 122 {
        b - 97 + 10
    } else if 65 <= b <= 90 {
        b - 65 + 10
    } else {
        36
    }
}

/// Reads the first `n` digits of `d` left to right in `radix`, as the
/// standard integer parser does: a digit outside the radix is reported
/// before an overflow at the same digit, and the value may not exceed `max`.
pub open spec fn fold_digits(d: Seq<u8>, radix: int, max: int, n: int) -> Result<int, IntError>
    decreases n,
{
    if n <= 0 {
        Ok(0)
    } else {
        match fold_digits(d, radix, max, n - 1) {
            Err(e) => Err(e),
            Ok(v) => if digit_value(d[n - 1]) >= radix {
                Err(IntError::InvalidDigit)
            } else if v * radix > max {
                Err(IntError::Overflow)
            } else if v * radix + digit_value(d[n - 1]) > max {
                Err(IntError::Overflow)
            } else {
                Ok(v * radix + digit_value(d[n - 1]))
            },
        }
    }
}

/// The value of the unsigned digit string `d` in `radix`, at most `max`.
pub open spec fn parse_digits(d: Seq<u8>, radix: int, max: int) -> Result<int, IntError> {
    if d.len() == 0 {
        Err(IntError::Empty)
    } else {
        fold_digits(d, radix, max, d.len() as int)
    }
}

proof fn lemma_fold_digits_bounds(d: Seq<u8>, radix: int, max: int, n: int)
    requires
        0 <= n <= d.len(),
        max >= 0,
    ensures
        fold_digits(d, radix, max, n) matches Ok(v) ==> 0 <= v <= max,
    decreases n,
{
    if n > 0 {
        lemma_fold_digits_bounds(d, radix, max, n - 1);
    }
}

proof fn lemma_fold_digits_err(d: Seq<u8>, radix: int, max: int, k: int, n: int)
    requires
        0 <= k <= n,
        fold_digits(d, radix, max, k) is Err,
    ensures
        fold_digits(d, radix, max, n) == fold_digits(d, radix, max, k),
    decreases n - k,
{
    if k < n {
        lemma_fold_digits_err(d, radix, max, k, n - 1);
    }
}

fn digit_of(b: u8) -> (r: u64)
    ensures
        r == digit_value(b),
{
    if 48 <= b && b <= 57 {
        (b - 48) as u64
    } else if 97 <= b && b <= 122 {
        (b - 97 + 10) as u64
    } else if 65 <= b && b <= 90 {
        (b - 65 + 10) as u64
    } else {
        36
    }
}

/// Parses `s[start..end]` as an unsigned integer in `radix`, at most `max`.
pub fn parse_uint(s: &[u8], start: usize, end: usize, radix: u64, max: u64) -> (r: Result<u64, IntError>)
    requires
        start <= end <= s@.len(),
        2 <= radix <= 36,
    ensures
        r matches Ok(v) ==> parse_digits(s@.subrange(start as int, end as int), radix as int, max as int) == Ok::<int, IntError>(v as int),
        r matches Err(e) ==> parse_digits(s@.subrange(start as int, end as int), radix as int, max as int) == Err::<int, IntError>(e),
{
    let ghost d = s@.subrange(start as int, end as int);
    if start == end {
        return Err(IntError::Empty);
    }
    let mut v: u64 = 0;
    let mut i: usize = start;
    while i < end
        invariant
            start <= i <= end <= s@.len(),
            d == s@.subrange(start as int, end as int),
            2 <= radix <= 36,
            fold_digits(d, radix as int, max as int, i - start) == Ok::<int, IntError>(v as int),
        decreases end - i,
    {
        let dv = digit_of(s[i]);
        proof {
            assert(d[i - start] == s@[i as int]);
            lemma_fold_digits_bounds(d, radix as int, max as int, (i - start) as int);
        }
        let ghost k = (i - start + 1) as int;
        if dv >= radix {
            proof {
                lemma_fold_digits_err(d, radix as int, max as int, k, d.len() as int);
            }
            return Err(IntError::InvalidDigit);
        }
        let m = v.checked_mul(radix);
        match m {
            None => {
                proof {
                    lemma_fold_digits_err(d, radix as int, max as int, k, d.len() as int);
                }
                return Err(IntError::Overflow);
            },
            Some(m) => {
                if m > max {
                    proof {
                        lemma_fold_digits_err(d, radix as int, max as int, k, d.len() as int);
                    }
                    return Err(IntError::Overflow);
                }
                if dv > max - m {
                    proof {
                        lemma_fold_digits_err(d, radix as int, max as int, k, d.len() as int);
                    }
                    return Err(IntError::Overflow);
                }
                v = m + dv;
            },
        }
        i = i + 1;
    }
    proof {
        assert(i - start == d.len());
    }
    Ok(v)
}

/// The characters of the ASCII bytes `s[start..end]`.
pub open spec fn ascii_chars(s: Seq<u8>, start: int, end: int) -> Seq<char> {
    Seq::new((end - start) as nat, |i: int| s[start + i] as char)
}

fn ascii_string(s: &[u8], start: usize, end: usize) -> (r: String)
    requires
        start <= end <= s@.len(),
    ensures
        r@ == ascii_chars(s@, start as int, end as int),
{
    let mut out = String::new();
    let mut i = start;
    while i < end
        invariant
            start <= i <= end <= s@.len(),
            out@ == ascii_chars(s@, start as int, i as int),
        decreases end - i,
    {
        push_char(&mut out, s[i] as char);
        i = i + 1;
        assert(out@ =~= ascii_chars(s@, start as int, i as int));
    }
    out
}

// ── Outside helpers ────────────────────────────────────────────

/// `std::str::from_utf8` on `s[start..end]`, copied into a `String`: it
/// succeeds exactly on valid UTF-8, and the string holds the decoded scalars.
#[verifier::external_body]
fn utf8_string(s: &[u8], start: usize, end: usize) -> (r: Option<String>)
    requires
        start <= end <= s@.len(),
    ensures
        r is Some <==> valid_utf8(s@.subrange(start as int, end as int)),
        r matches Some(t) ==> t@ == decode_utf8(s@.subrange(start as int, end as int)),
{
    std::str::from_utf8(&s[start..end]).ok().map(|t| t.to_string())
}

/// `char::from_u32`: the character with this scalar value, if there is one.
#[verifier::external_body]
fn char_from_u32(v: u32) -> (r: Option<char>)
    ensures
        r is Some <==> is_scalar(v),
        r matches Some(c) ==> c as u32 == v && c == v as char,
{
    char::from_u32(v)
}


// ── Literal scanning ───────────────────────────────────────────

/// The end of the run of bytes from `p` that satisfy `f`.
pub open spec fn run_end(s: Seq<u8>, p: int, f: spec_fn(u8) -> bool) -> int
    decreases s.len() - p,
{
    if 0 <= p < s.len() && f(s[p]) {
        run_end(s, p + 1, f)
    } else {
        p
    }
}

pub proof fn lemma_run_end(s: Seq<u8>, p: int, f: spec_fn(u8) -> bool)
    requires
        0 <= p <= s.len(),
    ensures
        p <= run_end(s, p, f) <= s.len(),
        run_end(s, p, f) < s.len() ==> !f(s[run_end(s, p, f)]),
        forall|q: int| p <= q < run_end(s, p, f) ==> f(s[q]),
    decreases s.len() - p,
{
    if p < s.len() && f(s[p]) {
        lemma_run_end(s, p + 1, f);
    }
}

pub open spec fn digit_class() -> spec_fn(u8) -> bool {
    |b: u8| is_digit(b)
}

pub open spec fn hex_class() -> spec_fn(u8) -> bool {
    |b: u8| is_hex_digit(b)
}

pub open spec fn radix_digit_class() -> spec_fn(u8) -> bool {
    |b: u8| is_alpha(b) || is_digit(b) || b == 95
}

pub open spec fn ident_class() -> spec_fn(u8) -> bool {
    |b: u8| is_ident_char(b)
}

/// What a numeric literal scans to.
pub enum NumScan {
    Int(i64),
    Real(Seq<char>),
    Error(Seq<char>),
}

pub open spec fn int_scan(r: Result<int, IntError>) -> NumScan {
    match r {
        Ok(v) => NumScan::Int(v as i64),
        Err(e) => NumScan::Error(int_error_text(e)),
    }
}

/// The message for a radix outside 2..=36.
pub open spec fn radix_error_text(radix: int) -> Seq<char> {
    "radix must be between 2 and 36, found "@ + spec_decimal(radix as nat)
}

pub open spec fn i64_max() -> int {
    0x7fff_ffff_ffff_ffff
}

/// The end of an optional exponent starting at `q`, and whether it has the
/// digits it needs: `[eE][+-]?[0-9]*`, where the digits may not be empty.
pub open spec fn exponent_end(s: Seq<u8>, q: int) -> (int, bool) {
    if byte_at(s, q) == 101 || byte_at(s, q) == 69 {
        let q2 = if byte_at(s, q + 1) == 43 || byte_at(s, q + 1) == 45 {
            q + 2
        } else {
            q + 1
        };
        let q3 = run_end(s, q2, digit_class());
        (q3, q3 > q2)
    } else {
        (q, true)
    }
}

/// A real literal that starts with a dot at `p`: `\.[0-9]+` and an optional
/// exponent. Returns what it scans to and where it ends.
pub open spec fn scan_dot_number(s: Seq<u8>, p: int) -> (NumScan, int) {
    let f = run_end(s, p + 1, digit_class());
    let (e, ok) = exponent_end(s, f);
    if ok {
        (NumScan::Real(ascii_chars(s, p, e)), e)
    } else {
        (NumScan::Error("invalid float literal"@), e)
    }
}

/// A numeric literal that starts with a digit at `p`: `0x` hex, `NNr` radix,
/// a real (`digits.digits` and/or an exponent) or a decimal integer.
pub open spec fn scan_number(s: Seq<u8>, p: int) -> (NumScan, int) {
    if byte_at(s, p) == 48 && (byte_at(s, p + 1) == 120 || byte_at(s, p + 1) == 88) {
        let e = run_end(s, p + 2, hex_class());
        (int_scan(parse_digits(s.subrange(p + 2, e), 16, i64_max())), e)
    } else {
        let d = run_end(s, p, digit_class());
        if byte_at(s, d) == 114 || byte_at(s, d) == 82 {
            match parse_digits(s.subrange(p, d), 10, 0xffff_ffff) {
                Err(err) => (NumScan::Error(int_error_text(err)), d),
                Ok(radix) => if radix < 2 || radix > 36 {
                    (NumScan::Error(radix_error_text(radix)), d)
                } else {
                    let e = run_end(s, d + 1, radix_digit_class());
                    (int_scan(parse_digits(s.subrange(d + 1, e), radix, i64_max())), e)
                },
            }
        } else {
            let f = if byte_at(s, d) == 46 {
                run_end(s, d + 1, digit_class())
            } else {
                d
            };
            let (e, ok) = exponent_end(s, f);
            if byte_at(s, d) == 46 || e > f {
                if ok {
                    (NumScan::Real(ascii_chars(s, p, e)), e)
                } else {
                    (NumScan::Error("invalid float literal"@), e)
                }
            } else {
                (int_scan(parse_digits(s.subrange(p, d), 10, i64_max())), d)
            }
        }
    }
}

/// The operator or punctuation token that the bytes `b0 b1 b2` start with,
/// taking the longest match, and its length.
pub open spec fn operator_token(b0: u8, b1: u8, b2: u8) -> Option<(TokenKind, int)> {
    if b0 == 43 {
        if b1 == 43 { Some((TokenKind::Inc, 2)) }
        else if b1 == 61 { Some((TokenKind::PlusEq, 2)) }
        else { Some((TokenKind::Plus, 1)) }
    } else if b0 == 45 {
        if b1 == 45 { Some((TokenKind::Dec, 2)) }
        else if b1 == 61 { Some((TokenKind::MinusEq, 2)) }
        else if b1 == 62 { Some((TokenKind::Arrow, 2)) }
        else { Some((TokenKind::Minus, 1)) }
    } else if b0 == 42 {
        if b1 == 42 { Some((TokenKind::Power, 2)) }
        else if b1 == 61 { Some((TokenKind::StarEq, 2)) }
        else { Some((TokenKind::Star, 1)) }
    } else if b0 == 47 {
        if b1 == 61 { Some((TokenKind::SlashEq, 2)) } else { Some((TokenKind::Slash, 1)) }
    } else if b0 == 37 {
        if b1 == 61 { Some((TokenKind::PercentEq, 2)) } else { Some((TokenKind::Percent, 1)) }
    } else if b0 == 38 {
        if b1 == 38 { Some((TokenKind::AndAnd, 2)) }
        else if b1 == 61 { Some((TokenKind::AmpEq, 2)) }
        else { Some((TokenKind::Amp, 1)) }
    } else if b0 == 124 {
        if b1 == 124 { Some((TokenKind::OrOr, 2)) }
        else if b1 == 61 { Some((TokenKind::PipeEq, 2)) }
        else { Some((TokenKind::Pipe, 1)) }
    } else if b0 == 94 {
        if b1 == 61 { Some((TokenKind::CaretEq, 2)) } else { Some((TokenKind::Caret, 1)) }
    } else if b0 == 126 {
        Some((TokenKind::Tilde, 1))
    } else if b0 == 33 {
        if b1 == 61 { Some((TokenKind::Neq, 2)) } else { Some((TokenKind::Bang, 1)) }
    } else if b0 == 60 {
        if b1 == 60 {
            if b2 == 61 { Some((TokenKind::LshiftEq, 3)) } else { Some((TokenKind::Lshift, 2)) }
        } else if b1 == 61 {
            Some((TokenKind::Leq, 2))
        } else if b1 == 45 {
            if b2 == 61 { Some((TokenKind::ChanSend, 3)) } else { Some((TokenKind::ChanRecv, 2)) }
        } else {
            Some((TokenKind::Lt, 1))
        }
    } else if b0 == 62 {
        if b1 == 62 {
            if b2 == 61 { Some((TokenKind::RshiftEq, 3)) } else { Some((TokenKind::Rshift, 2)) }
        } else if b1 == 61 {
            Some((TokenKind::Geq, 2))
        } else {
            Some((TokenKind::Gt, 1))
        }
    } else if b0 == 61 {
        if b1 == 61 { Some((TokenKind::Eq, 2)) }
        else if b1 == 62 { Some((TokenKind::FatArrow, 2)) }
        else { Some((TokenKind::Assign, 1)) }
    } else if b0 == 58 {
        if b1 == 61 { Some((TokenKind::ColonEq, 2)) }
        else if b1 == 58 { Some((TokenKind::ColonColon, 2)) }
        else { Some((TokenKind::Colon, 1)) }
    } else if b0 == 40 { Some((TokenKind::LParen, 1)) }
    else if b0 == 41 { Some((TokenKind::RParen, 1)) }
    else if b0 == 91 { Some((TokenKind::LBracket, 1)) }
    else if b0 == 93 { Some((TokenKind::RBracket, 1)) }
    else if b0 == 123 { Some((TokenKind::LBrace, 1)) }
    else if b0 == 125 { Some((TokenKind::RBrace, 1)) }
    else if b0 == 44 { Some((TokenKind::Comma, 1)) }
    else if b0 == 46 { Some((TokenKind::Dot, 1)) }
    else if b0 == 59 { Some((TokenKind::Semicolon, 1)) }
    else { None }
}

/// The value of an escape sequence whose letter is `esc`, other than `\u`.
pub open spec fn escape_table(esc: u8) -> u32 {
    if esc == 110 { 0x0A }
    else if esc == 116 { 0x09 }
    else if esc == 114 { 0x0D }
    else if esc == 97 { 0x07 }
    else if esc == 98 { 0x08 }
    else if esc == 102 { 0x0C }
    else if esc == 118 { 0x0B }
    else if esc == 48 { 0x00 }
    else { esc as u32 }
}

/// The value of the `n` hexadecimal digits at `s[p..p+n]`.
pub open spec fn hex_value(s: Seq<u8>, p: int, n: int) -> int
    decreases n,
{
    if n <= 0 {
        0
    } else {
        hex_value(s, p, n - 1) * 16 + digit_value(s[p + n - 1])
    }
}

proof fn lemma_hex_value_bound(s: Seq<u8>, p: int, n: int)
    requires
        0 <= n <= 4,
        all_hex(s, p, n),
    ensures
        0 <= hex_value(s, p, n) < 65536,
        n <= 3 ==> hex_value(s, p, n) < 4096,
        n <= 2 ==> hex_value(s, p, n) < 256,
        n <= 1 ==> hex_value(s, p, n) < 16,
    decreases n,
{
    if n > 0 {
        lemma_hex_value_bound(s, p, n - 1);
        assert(is_hex_digit(s[p + n - 1]));
    }
}

/// Whether the `n` bytes at `s[p..]` exist and are all hexadecimal digits.
pub open spec fn all_hex(s: Seq<u8>, p: int, n: int) -> bool {
    p + n <= s.len() && forall|j: int| p <= j < p + n ==> is_hex_digit(s[j])
}

/// Where reading `n` hexadecimal digits at `p` stops when one of them is
/// not a digit: past the offending byte, or at the end of the source.
pub open spec fn hex_stop(s: Seq<u8>, p: int, n: nat) -> int
    decreases n,
{
    if n == 0 {
        p
    } else if 0 <= p < s.len() && is_hex_digit(s[p]) {
        hex_stop(s, p + 1, (n - 1) as nat)
    } else if 0 <= p < s.len() {
        p + 1
    } else {
        p
    }
}

proof fn lemma_hex_stop_skip(s: Seq<u8>, p: int, n: nat, i: nat)
    requires
        0 <= p,
        i <= n,
        all_hex(s, p, i as int),
    ensures
        hex_stop(s, p, n) == hex_stop(s, p + i, (n - i) as nat),
    decreases i,
{
    if i > 0 {
        assert(is_hex_digit(s[p]));
        assert(all_hex(s, p + 1, (i - 1) as int));
        lemma_hex_stop_skip(s, p + 1, (n - 1) as nat, (i - 1) as nat);
    }
}

/// The character that one step of UTF-8 decoding reads at `p`, and the
/// number of bytes it covers: the scalar that the lead byte announces when
/// its bytes are valid UTF-8, else the lead byte itself as a character.
pub open spec fn utf8_step(s: Seq<u8>, p: int) -> (char, int) {
    let end = if p + spec_utf8_len(s[p]) <= s.len() {
        p + spec_utf8_len(s[p])
    } else {
        s.len() as int
    };
    let chunk = s.subrange(p, end);
    if valid_utf8(chunk) && decode_utf8(chunk).len() > 0 {
        (decode_utf8(chunk)[0], end - p)
    } else {
        (s[p] as char, 1)
    }
}

/// The scalar with value `v` as a string: itself if it is a Unicode scalar
/// value, nothing otherwise.
pub open spec fn scalar_chars(v: u32) -> Seq<char> {
    if is_scalar(v) {
        seq![v as char]
    } else {
        Seq::empty()
    }
}

/// Where the escape sequence after a backslash at `q` continues: past the
/// escaped byte, if there is one.
pub open spec fn after_escape(s: Seq<u8>, q: int) -> int {
    if q + 1 < s.len() {
        q + 2
    } else {
        q + 1
    }
}

/// One piece of a string literal's body at `q`: the characters it stands
/// for and where the next piece starts. A backslash escapes the next byte
/// (by `escape_table`, or `\u` and four hex digits for any scalar); any
/// other byte starts one UTF-8 character. `None` for a `\u` without four
/// hex digits.
pub open spec fn string_piece(s: Seq<u8>, q: int) -> Option<(Seq<char>, int)> {
    if s[q] == 92 {
        let esc = byte_at(s, q + 1);
        let a = after_escape(s, q);
        if esc == 117 {
            if all_hex(s, a, 4) {
                Some((scalar_chars(hex_value(s, a, 4) as u32), a + 4))
            } else {
                None
            }
        } else {
            Some((scalar_chars(escape_table(esc)), a))
        }
    } else {
        Some((seq![utf8_step(s, q).0], q + utf8_step(s, q).1))
    }
}

/// The text of a string literal whose body continues at `q`, after the
/// characters `acc` read so far, and where the literal ends; or the message
/// of what is wrong with it and where reading stopped.
pub open spec fn string_lit(s: Seq<u8>, q: int, acc: Seq<char>) -> (Result<Seq<char>, Seq<char>>, int)
    decreases s.len() - q,
{
    if q < 0 || q >= s.len() {
        (Err("unterminated string literal"@), q)
    } else if s[q] == 34 {
        (Ok(acc), q + 1)
    } else {
        match string_piece(s, q) {
            None => (Err("invalid hex escape"@), hex_stop(s, after_escape(s, q), 4)),
            Some((cs, q2)) => if q2 > q {
                string_lit(s, q2, acc + cs)
            } else {
                (Err("unterminated string literal"@), q)
            },
        }
    }
}

/// The value of a character literal whose body starts at `q`, and where
/// the literal ends; or the message of what is wrong with it and where
/// reading stopped.
pub open spec fn char_lit(s: Seq<u8>, q: int) -> (Result<int, Seq<char>>, int) {
    let body: Result<(int, int), (Seq<char>, int)> = if byte_at(s, q) == 92 {
        let esc = byte_at(s, q + 1);
        let a = after_escape(s, q);
        if esc == 117 {
            if all_hex(s, a, 4) {
                Ok((hex_value(s, a, 4), a + 4))
            } else {
                Err(("invalid hex escape"@, hex_stop(s, a, 4)))
            }
        } else {
            Ok((escape_table(esc) as int, a))
        }
    } else if q >= s.len() {
        Err(("missing closing ' in character literal"@, q))
    } else {
        Ok((utf8_step(s, q).0 as int, q + utf8_step(s, q).1))
    };
    match body {
        Err((m, e)) => (Err(m), e),
        Ok((v, e)) => if byte_at(s, e) == 39 {
            (Ok(v), e + 1)
        } else {
            (Err("missing closing ' in character literal"@), e)
        },
    }
}

/// What a numeric literal's result is, given what it scans to: the token
/// carries `span`, and an error is reported at `err_span`.
pub open spec fn number_result(scan: NumScan, span: Span, err_span: Span, file: String, r: Result<Token, LexError>) -> bool {
    match scan {
        NumScan::Int(v) => r matches Ok(tok) && tok.span == span && tok.kind == TokenKind::IntLit(v),
        NumScan::Real(t) => r matches Ok(tok) && tok.span == span && (tok.kind matches TokenKind::RealLit(x) && x@ == t),
        NumScan::Error(m) => r matches Err(e) && e.message@ == m && e.span == err_span && e.file == file,
    }
}

/// What lexing an identifier at `p` gives: the identifier runs to `end`; a
/// keyword spelled by its bytes becomes that keyword, any other word an
/// identifier holding the decoded text.
pub open spec fn ident_result(s: Seq<u8>, p: int, end: int, span: Span, file: String, r: Result<Token, LexError>) -> bool {
    let word = s.subrange(p, end);
    &&& end == run_end(s, p, ident_class())
    &&& (r is Ok <==> valid_utf8(word))
    &&& (r matches Ok(tok) ==> tok.span == span && match keyword_kind(word) {
        Some(k) => tok.kind == k,
        None => (tok.kind matches TokenKind::Ident(t) && t@ == decode_utf8(word)),
    })
    &&& (r matches Err(e) ==> e.message@ == "invalid UTF-8 in identifier"@ && e.file == file
        && e.span == span_at(s, end))
}

/// The message for a character the lexer does not know.
pub open spec fn unexpected_char_text(b: u8) -> Seq<char> {
    "unexpected character: "@ + char_debug_text(b as char)
}

/// What lexing an operator at `p` gives, and where it ends.
pub open spec fn operator_result(s: Seq<u8>, p: int, end: int, span: Span, file: String, r: Result<Token, LexError>) -> bool {
    match operator_token(byte_at(s, p), byte_at(s, p + 1), byte_at(s, p + 2)) {
        Some((k, n)) => end == p + n && (r matches Ok(tok) && tok.span == span && tok.kind == k),
        None => end == p + 1 && (r matches Err(e) && e.message@ == unexpected_char_text(s[p])
            && e.span == span && e.file == file),
    }
}

/// What lexing a string literal at `p` gives: its text and where it ends,
/// or the error.
pub open spec fn string_result(s: Seq<u8>, p: int, end: int, span: Span, file: String, r: Result<Token, LexError>) -> bool {
    let lit = string_lit(s, p + 1, Seq::empty());
    match lit.0 {
        Ok(t) => end == lit.1 && (r matches Ok(tok) && tok.span == span
            && (tok.kind matches TokenKind::StringLit(v) && v@ == t)),
        Err(m) => r matches Err(e) && e.message@ == m && e.file == file && e.span == span_at(s, lit.1),
    }
}

/// What lexing a character literal at `p` gives: its value and where it
/// ends, or the error.
pub open spec fn char_result(s: Seq<u8>, p: int, end: int, span: Span, file: String, r: Result<Token, LexError>) -> bool {
    let lit = char_lit(s, p + 1);
    match lit.0 {
        Ok(v) => end == lit.1 && (r matches Ok(tok) && tok.span == span && tok.kind == TokenKind::CharLit(v as i32)),
        Err(m) => r matches Err(e) && e.message@ == m && e.file == file && e.span == span_at(s, lit.1),
    }
}

/// What the next token is when the blanks before it end at `p` and the
/// token ends at `end`. Past the last byte it is `Eof`; otherwise the first
/// byte decides: a dot before a digit starts a real, a letter, `_` or a
/// non-ASCII byte an identifier or keyword, a digit a number, `"` a string,
/// `'` a character, and anything else an operator.
pub open spec fn next_token_result(s: Seq<u8>, p: int, end: int, file: String, r: Result<Token, LexError>) -> bool {
    let span = span_at(s, p);
    if p >= s.len() {
        end == p && r == Ok::<Token, LexError>(Token { kind: TokenKind::Eof, span })
    } else {
        let b = s[p];
        &&& (r matches Ok(tok) ==> p < end && !(tok.kind is Eof) && tok.span == span)
        &&& (r matches Err(e) ==> e.file == file)
        &&& if b == 46 && is_digit(byte_at(s, p + 1)) {
            end == scan_dot_number(s, p).1 && number_result(scan_dot_number(s, p).0, span, span_at(s, end), file, r)
        } else if is_ident_start(b) {
            ident_result(s, p, end, span, file, r)
        } else if is_digit(b) {
            end == scan_number(s, p).1 && number_result(scan_number(s, p).0, span, span_at(s, end), file, r)
        } else if b == 34 {
            string_result(s, p, end, span, file, r)
        } else if b == 39 {
            char_result(s, p, end, span, file, r)
        } else {
            operator_result(s, p, end, span, file, r)
        }
    }
}

/// Lexing at `p` gives `r` and ends at `end` (see `next_token_result`).
#[verifier::opaque]
pub open spec fn token_at(s: Seq<u8>, p: int, end: int, file: String, r: Result<Token, LexError>) -> bool {
    next_token_result(s, p, end, file, r)
}

/// `tokens` are what lexing `s` from `p` gives: token `i` is the next
/// token after the blanks that follow where token `i - 1` ends (`p` for the
/// first), and it ends at `ends[i]`.
pub open spec fn lexed_from(s: Seq<u8>, p: int, file: String, tokens: Seq<Token>, ends: Seq<int>) -> bool
    decreases tokens.len(),
{
    &&& ends.len() == tokens.len()
    &&& tokens.len() > 0 ==> {
        &&& lexed_from(s, p, file, tokens.drop_last(), ends.drop_last())
        &&& token_at(s, skip_blank(s, resume_at(p, ends.drop_last())), ends.last(), file, Ok(tokens.last()))
    }
}

/// Where lexing resumes after tokens that end at `ends`, having started at
/// `p`.
pub open spec fn resume_at(p: int, ends: Seq<int>) -> int {
    if ends.len() == 0 {
        p
    } else {
        ends.last()
    }
}

/// One more token lexed where the previous ones stop extends the lexing.
proof fn lemma_lexed_push(s: Seq<u8>, p: int, file: String, tokens: Seq<Token>, ends: Seq<int>, tok: Token, end: int)
    requires
        lexed_from(s, p, file, tokens, ends),
        token_at(s, skip_blank(s, resume_at(p, ends)), end, file, Ok(tok)),
    ensures
        lexed_from(s, p, file, tokens.push(tok), ends.push(end)),
{
    assert(tokens.push(tok).drop_last() =~= tokens);
    assert(ends.push(end).drop_last() =~= ends);
}


/// One position comes before another: an earlier line, or the same line and
/// an earlier column.
pub open spec fn span_before(a: Span, b: Span) -> bool {
    a.line < b.line || (a.line == b.line && a.col < b.col)
}

/// A token list as `tokenize` returns it: it ends with the only `Eof`, and
/// the tokens stand in the order of their places in the source.
pub open spec fn tokens_well_ordered(tokens: Seq<Token>) -> bool {
    &&& tokens.len() >= 1
    &&& tokens.last().kind is Eof
    &&& forall|i: int| 0 <= i < tokens.len() - 1 ==> !(#[trigger] tokens[i].kind is Eof)
    &&& forall|i: int, j: int| 0 <= i < j < tokens.len() ==> span_before(#[trigger] tokens[i].span, #[trigger] tokens[j].span)
}

/// A later position has a later span.
pub proof fn lemma_span_before(s: Seq<u8>, p: int, q: int)
    requires
        0 <= p < q <= s.len(),
        s.len() < u32::MAX,
    ensures
        span_before(span_at(s, p), span_at(s, q)),
    decreases q - p,
{
    lemma_position_bounds(s, p);
    lemma_position_bounds(s, q);
    lemma_position_bounds(s, q - 1);
    if q - 1 > p {
        lemma_span_before(s, p, q - 1);
        lemma_count_nl_mono(s, p, q - 1);
    }
}

proof fn lemma_count_nl_mono(s: Seq<u8>, p: int, q: int)
    requires
        0 <= p <= q <= s.len(),
    ensures
        count_nl(s, p) <= count_nl(s, q),
        count_nl(s, p) == count_nl(s, q) ==> line_start(s, q) == line_start(s, p),
    decreases q - p,
{
    if q > p {
        lemma_count_nl_mono(s, p, q - 1);
    }
}

/// A strictly increasing sequence of numbers in `0..n` has at most `n`
/// elements.
proof fn lemma_increasing_len(s: Seq<int>, n: int)
    requires
        n >= 0,
        forall|i: int| 0 <= i < s.len() ==> 0 <= #[trigger] s[i] < n,
        forall|i: int, j: int| 0 <= i < j < s.len() ==> s[i] < s[j],
    ensures
        s.len() <= n,
    decreases s.len(),
{
    if s.len() > 0 {
        let m = s.last();
        let p = s.drop_last();
        assert(0 <= s[s.len() - 1] < n);
        assert forall|i: int| 0 <= i < p.len() implies 0 <= #[trigger] p[i] < m by {
            assert(p[i] == s[i]);
        }
        assert forall|i: int, j: int| 0 <= i < j < p.len() implies p[i] < p[j] by {
            assert(p[i] == s[i] && p[j] == s[j]);
        }
        lemma_increasing_len(p, m);
    }
}

proof fn lemma_spans_ordered(s: Seq<u8>, starts: Seq<int>)
    requires
        s.len() < u32::MAX,
        forall|i: int| 0 <= i < starts.len() ==> 0 <= #[trigger] starts[i] <= s.len(),
        forall|i: int, j: int| 0 <= i < j < starts.len() ==> starts[i] < starts[j],
    ensures
        forall|i: int, j: int| 0 <= i < j < starts.len() ==> span_before(span_at(s, #[trigger] starts[i]), span_at(s, #[trigger] starts[j])),
{
    assert forall|i: int, j: int| 0 <= i < j < starts.len() implies span_before(span_at(s, #[trigger] starts[i]), span_at(s, #[trigger] starts[j])) by {
        lemma_span_before(s, starts[i], starts[j]);
    }
}

// ── The lexer ──────────────────────────────────────────────────

/// Lexer state.
pub struct Lexer<'src> {
    src: &'src [u8],
    pos: usize,
    line: u32,
    col: u32,
    file: String,
}

impl<'src> Lexer<'src> {
    /// The source bytes being read.
    pub closed spec fn source(&self) -> Seq<u8> {
        self.src@
    }

    /// The position of the next byte to read.
    pub closed spec fn position(&self) -> int {
        self.pos as int
    }

    /// The file name used in errors, as held.
    pub closed spec fn file_value(&self) -> String {
        self.file
    }

    /// The file name used in errors.
    pub closed spec fn file_name(&self) -> Seq<char> {
        self.file@
    }

    /// The cursor lies in the source, and the line and column are those of
    /// the cursor.
    pub closed spec fn wf(&self) -> bool {
        &&& self.pos <= self.src@.len()
        &&& self.src@.len() < u32::MAX
        &&& self.line == span_at(self.src@, self.pos as int).line
        &&& self.col == span_at(self.src@, self.pos as int).col
    }

    pub fn new(src: &'src str, file: &str) -> (r: Self)
        requires
            src.spec_bytes().len() < u32::MAX,
        ensures
            r.wf(),
            r.source() == src.spec_bytes(),
            r.position() == 0,
            r.file_name() == file@,
    {
        let r = Lexer { src: src.as_bytes(), pos: 0, line: 1, col: 1, file: String::from_str(file) };
        assert(count_nl(r.src@, 0) == 0);
        r
    }

    fn span(&self) -> (r: Span)
        requires
            self.wf(),
        ensures
            r == span_at(self.src@, self.pos as int),
    {
        Span { line: self.line, col: self.col }
    }

    fn peek(&self) -> (r: u8)
        ensures
            r == byte_at(self.src@, self.pos as int),
    {
        if self.pos < self.src.len() {
            self.src[self.pos]
        } else {
            0
        }
    }

    fn peek2(&self) -> (r: u8)
        requires
            self.wf(),
        ensures
            r == byte_at(self.src@, self.pos + 1),
    {
        if self.pos + 1 < self.src.len() {
            self.src[self.pos + 1]
        } else {
            0
        }
    }

    fn advance(&mut self) -> (r: u8)
        requires
            old(self).wf(),
        ensures
            final(self).wf(),
            final(self).src == old(self).src,
            final(self).file == old(self).file,
            r == byte_at(old(self).src@, old(self).pos as int),
            old(self).pos < old(self).src@.len() ==> final(self).pos == old(self).pos + 1,
            old(self).pos >= old(self).src@.len() ==> final(self).pos == old(self).pos,
    {
        if self.pos < self.src.len() {
            let ch = self.src[self.pos];
            proof {
                lemma_position_bounds(self.src@, self.pos as int);
                lemma_position_bounds(self.src@, self.pos + 1);
                assert(count_nl(self.src@, self.pos + 1) == count_nl(self.src@, self.pos as int) + if ch == 10 { 1nat } else { 0nat });
            }
            self.pos = self.pos + 1;
            if ch == 10 {
                self.line = self.line + 1;
                self.col = 1;
            } else {
                self.col = self.col + 1;
            }
            ch
        } else {
            0
        }
    }

    fn skip_whitespace_and_comments(&mut self)
        requires
            old(self).wf(),
        ensures
            final(self).wf(),
            final(self).src == old(self).src,
            final(self).file == old(self).file,
            final(self).pos == skip_blank(old(self).src@, old(self).pos as int),
    {
        let ghost target = skip_blank(self.src@, self.pos as int);
        loop
            invariant
                self.wf(),
                self.src == old(self).src,
                self.file == old(self).file,
                skip_blank(self.src@, self.pos as int) == target,
            ensures
                self.wf(),
                self.src == old(self).src,
                self.file == old(self).file,
                self.pos == target,
            decreases self.src@.len() - self.pos,
        {
            let ghost it_start = self.pos;
            while self.pos < self.src.len() && byte_is_ws(self.peek())
                invariant
                    it_start <= self.pos,
                    self.wf(),
                    self.src == old(self).src,
                    self.file == old(self).file,
                    skip_blank(self.src@, self.pos as int) == target,
                decreases self.src@.len() - self.pos,
            {
                self.advance();
            }
            if self.peek() == 35 {
                let ghost start = self.pos as int;
                proof {
                    lemma_line_end(self.src@, start + 1);
                }
                while self.pos < self.src.len() && self.peek() != 10
                    invariant
                        self.wf(),
                        self.src == old(self).src,
                        self.file == old(self).file,
                        it_start <= start <= self.pos,
                        self.pos == start ==> start < self.src@.len() && self.src@[start] == 35,
                        self.pos <= line_end(self.src@, start + 1),
                        skip_blank(self.src@, start) == target,
                        skip_blank(self.src@, start) == skip_blank(self.src@, line_end(self.src@, start + 1)),
                        line_end(self.src@, start + 1) <= self.src@.len(),
                        forall|q: int| start + 1 <= q < line_end(self.src@, start + 1) ==> self.src@[q] != 10,
                        line_end(self.src@, start + 1) < self.src@.len() ==> self.src@[line_end(self.src@, start + 1)] == 10,
                    decreases self.src@.len() - self.pos,
                {
                    self.advance();
                }
                continue;
            }
            assert(skip_blank(self.src@, self.pos as int) == self.pos);
            break;
        }
    }

    fn err(&self, msg: String) -> (r: LexError)
        requires
            self.wf(),
        ensures
            r.file == self.file,
            r.span == span_at(self.src@, self.pos as int),
            r.message == msg,
    {
        self.err_at(self.span(), msg)
    }

    /// Error reported at a place the lexer has already moved past, such as the
    /// first character of the token being read.
    fn err_at(&self, span: Span, msg: String) -> (r: LexError)
        ensures
            r.file == self.file,
            r.span == span,
            r.message == msg,
    {
        LexError { file: self.file.clone(), span, message: msg }
    }

    /// `self` continues `old`: same source and file, well formed, and the
    /// cursor has not moved back.
    pub closed spec fn continues(&self, old: Lexer<'src>) -> bool {
        &&& self.wf()
        &&& self.src == old.src
        &&& self.file == old.file
        &&& old.pos <= self.pos
    }

    /// Decode exactly one UTF-8 scalar at the current position and advance
    /// past its bytes. Bytes that do not start a valid scalar are consumed
    /// one at a time and returned as-is.
    fn next_utf8_char(&mut self) -> (c: char)
        requires
            old(self).wf(),
            old(self).pos < old(self).src@.len(),
        ensures
            final(self).continues(*old(self)),
            c == utf8_step(old(self).src@, old(self).pos as int).0,
            final(self).pos == old(self).pos + utf8_step(old(self).src@, old(self).pos as int).1,
    {
        let start = self.pos;
        let lead = self.peek();
        let w = utf8_len(lead);
        let end = if w <= self.src.len() - start {
            start + w
        } else {
            self.src.len()
        };
        let decoded = utf8_string(self.src, start, end);
        match decoded {
            Some(t) => {
                if t.as_str().unicode_len() > 0 {
                    let c = t.as_str().get_char(0);
                    let mut k = start;
                    while k < end
                        invariant
                            self.wf(),
                            self.src == old(self).src,
                            self.file == old(self).file,
                            self.pos == k,
                            start <= k <= end <= self.src@.len(),
                        decreases end - k,
                    {
                        self.advance();
                        k = k + 1;
                    }
                    return c;
                }
            },
            None => {},
        }
        self.advance();
        lead as char
    }

    /// Reads the hexadecimal digits of a `\u` escape.
    fn lex_hex_escape(&mut self, digits: usize) -> (r: Result<u32, LexError>)
        requires
            old(self).wf(),
            digits == 4,
        ensures
            final(self).continues(*old(self)),
            r matches Ok(v) ==> all_hex(old(self).src@, old(self).pos as int, 4)
                && v == hex_value(old(self).src@, old(self).pos as int, 4)
                && final(self).pos == old(self).pos + 4,
            r matches Err(e) ==> !all_hex(old(self).src@, old(self).pos as int, 4)
                && e.message@ == "invalid hex escape"@ && e.file == old(self).file
                && e.span == span_at(old(self).src@, hex_stop(old(self).src@, old(self).pos as int, 4)),
    {
        let ghost p0 = self.pos as int;
        let mut val: u32 = 0;
        let mut i: usize = 0;
        while i < digits
            invariant
                self.wf(),
                self.src == old(self).src,
                self.file == old(self).file,
                digits == 4,
                p0 == old(self).pos,
                i <= 4,
                self.pos == p0 + i,
                all_hex(self.src@, p0, i as int),
                val == hex_value(self.src@, p0, i as int),
                i == 0 ==> val == 0,
                i <= 1 ==> val < 16,
                i <= 2 ==> val < 256,
                i <= 3 ==> val < 4096,
                val < 65536,
            decreases digits - i,
        {
            let ghost before = self.pos as int;
            let d = self.advance();
            if !byte_is_hex_digit(d) {
                proof {
                    if all_hex(self.src@, p0, 4) {
                        assert(is_hex_digit(self.src@[p0 + i]));
                    }
                    lemma_hex_stop_skip(self.src@, p0, 4, i as nat);
                    assert(hex_stop(self.src@, before, (4 - i) as nat) == self.pos as int);
                }
                return Err(self.err(String::from_str("invalid hex escape")));
            }
            let n = digit_of(d) as u32;
            val = val * 16 + n;
            i = i + 1;
            assert(all_hex(self.src@, p0, i as int));
        }
        Ok(val)
    }

    /// Value of the escape sequence that follows a backslash. A sequence the
    /// table does not name keeps the escaped byte.
    fn escape_value(&mut self, esc: u8) -> (r: Result<u32, LexError>)
        requires
            old(self).wf(),
        ensures
            final(self).continues(*old(self)),
            esc != 117 ==> r == Ok::<u32, LexError>(escape_table(esc)) && final(self).pos == old(self).pos,
            esc == 117 && r is Ok ==> r == Ok::<u32, LexError>(hex_value(old(self).src@, old(self).pos as int, 4) as u32)
                && all_hex(old(self).src@, old(self).pos as int, 4) && final(self).pos == old(self).pos + 4,
            r matches Err(e) ==> esc == 117 && e.message@ == "invalid hex escape"@ && e.file == old(self).file
                && !all_hex(old(self).src@, old(self).pos as int, 4)
                && e.span == span_at(old(self).src@, hex_stop(old(self).src@, old(self).pos as int, 4)),
    {
        if esc == 110 {
            Ok(0x0A)
        } else if esc == 116 {
            Ok(0x09)
        } else if esc == 114 {
            Ok(0x0D)
        } else if esc == 97 {
            Ok(0x07)
        } else if esc == 98 {
            Ok(0x08)
        } else if esc == 102 {
            Ok(0x0C)
        } else if esc == 118 {
            Ok(0x0B)
        } else if esc == 48 {
            Ok(0x00)
        } else if esc == 117 {
            self.lex_hex_escape(4)
        } else {
            Ok(esc as u32)
        }
    }

    fn lex_string(&mut self, span: Span) -> (r: Result<Token, LexError>)
        requires
            old(self).wf(),
            byte_at(old(self).src@, old(self).pos as int) == 34,
        ensures
            final(self).continues(*old(self)),
            r matches Ok(tok) ==> tok.span == span && tok.kind is StringLit
                && old(self).pos < final(self).pos
                && byte_at(final(self).src@, final(self).pos - 1) == 34,
            r matches Err(e) ==> e.file == old(self).file
                && (e.message@ == "unterminated string literal"@ || e.message@ == "invalid hex escape"@),
            ({
                let lit = string_lit(old(self).src@, old(self).pos + 1, Seq::empty());
                &&& r matches Ok(tok) ==> (lit.0 matches Ok(t) && tok.kind matches TokenKind::StringLit(v) && v@ == t)
                    && final(self).pos == lit.1
                &&& r matches Err(e) ==> lit.0 matches Err(m) && e.message@ == m
                    && e.span == span_at(old(self).src@, lit.1)
            }),
    {
        self.advance();
        let mut s = String::new();
        let ghost whole = string_lit(self.src@, self.pos as int, Seq::empty());
        loop
            invariant
                self.continues(*old(self)),
                old(self).pos < self.pos,
                whole == string_lit(old(self).src@, old(self).pos + 1, Seq::empty()),
                whole == string_lit(self.src@, self.pos as int, s@),
            decreases self.src@.len() - self.pos,
        {
            if self.pos >= self.src.len() {
                return Err(self.err(String::from_str("unterminated string literal")));
            }
            let ch = self.peek();
            if ch == 34 {
                self.advance();
                return Ok(Token { kind: TokenKind::StringLit(s), span });
            }
            let ghost q = self.pos as int;
            let ghost acc = s@;
            if ch == 92 {
                self.advance();
                let esc = self.advance();
                let val = self.escape_value(esc)?;
                match char_from_u32(val) {
                    Some(c) => {
                        push_char(&mut s, c);
                        proof {
                            assert(c == val as char);
                        }
                    },
                    None => {},
                }
                proof {
                    if esc == 117 {
                        lemma_hex_value_bound(self.src@, after_escape(self.src@, q), 4);
                    }
                    let piece = string_piece(self.src@, q);
                    assert(piece matches Some((cs, q2)) && q2 == self.pos && q2 > q && s@ == acc + cs);
                }
            } else {
                let c = self.next_utf8_char();
                push_char(&mut s, c);
                proof {
                    let piece = string_piece(self.src@, q);
                    assert(piece matches Some((cs, q2)) && q2 == self.pos && q2 > q && s@ == acc + cs);
                }
            }
        }
    }

    fn lex_char(&mut self, span: Span) -> (r: Result<Token, LexError>)
        requires
            old(self).wf(),
            byte_at(old(self).src@, old(self).pos as int) == 39,
        ensures
            final(self).continues(*old(self)),
            r matches Ok(tok) ==> tok.span == span && tok.kind is CharLit
                && old(self).pos < final(self).pos
                && byte_at(final(self).src@, final(self).pos - 1) == 39,
            r matches Err(e) ==> e.file == old(self).file
                && (e.message@ == "missing closing ' in character literal"@ || e.message@ == "invalid hex escape"@),
            ({
                let lit = char_lit(old(self).src@, old(self).pos + 1);
                &&& r matches Ok(tok) ==> (lit.0 matches Ok(v) && tok.kind == TokenKind::CharLit(v as i32))
                    && final(self).pos == lit.1
                &&& r matches Err(e) ==> lit.0 matches Err(m) && e.message@ == m
                    && e.span == span_at(old(self).src@, lit.1)
            }),
    {
        self.advance();
        let val: i32 = if self.peek() == 92 {
            self.advance();
            let esc = self.advance();
            let v = self.escape_value(esc)?;
            proof {
                if esc == 117 {
                    lemma_hex_value_bound(old(self).src@, (old(self).pos + 3) as int, 4);
                }
            }
            v as i32
        } else {
            if self.pos >= self.src.len() {
                return Err(self.err(String::from_str("missing closing ' in character literal")));
            }
            let c = self.next_utf8_char();
            proof {
                vstd::utf8::char_is_scalar(c);
            }
            c as u32 as i32
        };
        if self.peek() != 39 {
            return Err(self.err(String::from_str("missing closing ' in character literal")));
        }
        self.advance();
        Ok(Token { kind: TokenKind::CharLit(val), span })
    }

    fn skip_digits(&mut self)
        requires
            old(self).wf(),
        ensures
            final(self).continues(*old(self)),
            final(self).pos == run_end(old(self).src@, old(self).pos as int, digit_class()),
    {
        let ghost target = run_end(self.src@, self.pos as int, digit_class());
        while self.pos < self.src.len() && byte_is_digit(self.peek())
            invariant
                self.continues(*old(self)),
                run_end(self.src@, self.pos as int, digit_class()) == target,
            decreases self.src@.len() - self.pos,
        {
            self.advance();
        }
    }

    fn skip_hex_digits(&mut self)
        requires
            old(self).wf(),
        ensures
            final(self).continues(*old(self)),
            final(self).pos == run_end(old(self).src@, old(self).pos as int, hex_class()),
    {
        let ghost target = run_end(self.src@, self.pos as int, hex_class());
        while self.pos < self.src.len() && byte_is_hex_digit(self.peek())
            invariant
                self.continues(*old(self)),
                run_end(self.src@, self.pos as int, hex_class()) == target,
            decreases self.src@.len() - self.pos,
        {
            self.advance();
        }
    }

    fn skip_radix_digits(&mut self)
        requires
            old(self).wf(),
        ensures
            final(self).continues(*old(self)),
            final(self).pos == run_end(old(self).src@, old(self).pos as int, radix_digit_class()),
    {
        let ghost target = run_end(self.src@, self.pos as int, radix_digit_class());
        while self.pos < self.src.len() && (byte_is_alpha(self.peek()) || byte_is_digit(self.peek()) || self.peek() == 95)
            invariant
                self.continues(*old(self)),
                run_end(self.src@, self.pos as int, radix_digit_class()) == target,
            decreases self.src@.len() - self.pos,
        {
            self.advance();
        }
    }

    fn skip_ident_chars(&mut self)
        requires
            old(self).wf(),
        ensures
            final(self).continues(*old(self)),
            final(self).pos == run_end(old(self).src@, old(self).pos as int, ident_class()),
    {
        let ghost target = run_end(self.src@, self.pos as int, ident_class());
        while self.pos < self.src.len() && byte_is_ident_char(self.peek())
            invariant
                self.continues(*old(self)),
                run_end(self.src@, self.pos as int, ident_class()) == target,
            decreases self.src@.len() - self.pos,
        {
            self.advance();
        }
    }

    #[verifier::rlimit(40)]
    fn lex_ident(&mut self, span: Span) -> (r: Result<Token, LexError>)
        requires
            old(self).wf(),
            old(self).pos < old(self).src@.len(),
            is_ident_start(old(self).src@[old(self).pos as int]),
        ensures
            final(self).continues(*old(self)),
            old(self).pos < final(self).pos,
            ident_result(old(self).src@, old(self).pos as int, final(self).pos as int, span, old(self).file, r),
    {
        let start = self.pos;
        self.skip_ident_chars();
        proof {
            lemma_run_end(self.src@, start as int, ident_class());
            assert(is_ident_char(self.src@[start as int]));
        }
        let word = utf8_string(self.src, start, self.pos);
        match word {
            None => Err(self.err(String::from_str("invalid UTF-8 in identifier"))),
            Some(w) => {
                let kind = match keyword_of_bytes(&self.src[start..self.pos]) {
                    Some(k) => k,
                    None => TokenKind::Ident(w),
                };
                Ok(Token { kind, span })
            },
        }
    }

    fn lex_dot_number(&mut self, span: Span) -> (r: Result<Token, LexError>)
        requires
            old(self).wf(),
            old(self).pos < old(self).src@.len(),
            old(self).src@[old(self).pos as int] == 46,
        ensures
            final(self).continues(*old(self)),
            old(self).pos < final(self).pos,
            final(self).pos == scan_dot_number(old(self).src@, old(self).pos as int).1,
            number_result(scan_dot_number(old(self).src@, old(self).pos as int).0, span,
                span_at(old(self).src@, final(self).pos as int), old(self).file, r),
    {
        let start = self.pos;
        self.advance();
        self.skip_digits();
        let ok = self.lex_exponent();
        if !ok {
            return Err(self.err(String::from_str("invalid float literal")));
        }
        let text = ascii_string(self.src, start, self.pos);
        Ok(Token { kind: TokenKind::RealLit(text), span })
    }

    /// Reads an optional exponent and reports whether it has its digits.
    fn lex_exponent(&mut self) -> (ok: bool)
        requires
            old(self).wf(),
        ensures
            final(self).continues(*old(self)),
            (final(self).pos as int, ok) == exponent_end(old(self).src@, old(self).pos as int),
    {
        let e = self.peek();
        if e == 101 || e == 69 {
            self.advance();
            let sign = self.peek();
            if sign == 43 || sign == 45 {
                self.advance();
            }
            let q2 = self.pos;
            self.skip_digits();
            self.pos > q2
        } else {
            true
        }
    }

    fn lex_number(&mut self, span: Span) -> (r: Result<Token, LexError>)
        requires
            old(self).wf(),
            old(self).pos < old(self).src@.len(),
            is_digit(old(self).src@[old(self).pos as int]),
        ensures
            final(self).continues(*old(self)),
            old(self).pos < final(self).pos,
            final(self).pos == scan_number(old(self).src@, old(self).pos as int).1,
            number_result(scan_number(old(self).src@, old(self).pos as int).0, span,
                span_at(old(self).src@, final(self).pos as int), old(self).file, r),
    {
        let start = self.pos;
        if self.peek() == 48 && (self.peek2() == 120 || self.peek2() == 88) {
            self.advance();
            self.advance();
            self.skip_hex_digits();
            return match parse_uint(self.src, start + 2, self.pos, 16, 0x7fff_ffff_ffff_ffff) {
                Ok(v) => Ok(Token { kind: TokenKind::IntLit(v as i64), span }),
                Err(e) => Err(self.err(int_error_message(e))),
            };
        }
        self.skip_digits();
        let d = self.pos;
        proof {
            lemma_run_end(self.src@, start as int, digit_class());
            assert(digit_class()(self.src@[start as int]));
        }
        if self.peek() == 114 || self.peek() == 82 {
            match parse_uint(self.src, start, d, 10, 0xffff_ffff) {
                Err(e) => {
                    return Err(self.err(int_error_message(e)));
                },
                Ok(radix) => {
                    if radix < 2 || radix > 36 {
                        let mut m = String::from_str("radix must be between 2 and 36, found ");
                        push_decimal(&mut m, radix);
                        return Err(self.err(m));
                    }
                    self.advance();
                    let digits_start = self.pos;
                    self.skip_radix_digits();
                    return match parse_uint(self.src, digits_start, self.pos, radix, 0x7fff_ffff_ffff_ffff) {
                        Ok(v) => Ok(Token { kind: TokenKind::IntLit(v as i64), span }),
                        Err(e) => Err(self.err(int_error_message(e))),
                    };
                },
            }
        }
        let mut is_float = false;
        if self.peek() == 46 {
            is_float = true;
            self.advance();
            self.skip_digits();
        }
        let f = self.pos;
        let ok = self.lex_exponent();
        if self.pos > f {
            is_float = true;
        }
        if is_float {
            if !ok {
                return Err(self.err(String::from_str("invalid float literal")));
            }
            let text = ascii_string(self.src, start, self.pos);
            Ok(Token { kind: TokenKind::RealLit(text), span })
        } else {
            match parse_uint(self.src, start, d, 10, 0x7fff_ffff_ffff_ffff) {
                Ok(v) => Ok(Token { kind: TokenKind::IntLit(v as i64), span }),
                Err(e) => Err(self.err(int_error_message(e))),
            }
        }
    }

    fn lex_operator(&mut self, span: Span) -> (r: Result<Token, LexError>)
        requires
            old(self).wf(),
            old(self).pos < old(self).src@.len(),
        ensures
            final(self).continues(*old(self)),
            old(self).pos < final(self).pos,
            operator_result(old(self).src@, old(self).pos as int, final(self).pos as int, span, old(self).file, r),
    {
        let ch = self.advance();
        let kind = if ch == 43 {
            if self.peek() == 43 {
                self.advance();
                TokenKind::Inc
            } else if self.peek() == 61 {
                self.advance();
                TokenKind::PlusEq
            } else {
                TokenKind::Plus
            }
        } else if ch == 45 {
            if self.peek() == 45 {
                self.advance();
                TokenKind::Dec
            } else if self.peek() == 61 {
                self.advance();
                TokenKind::MinusEq
            } else if self.peek() == 62 {
                self.advance();
                TokenKind::Arrow
            } else {
                TokenKind::Minus
            }
        } else if ch == 42 {
            if self.peek() == 42 {
                self.advance();
                TokenKind::Power
            } else if self.peek() == 61 {
                self.advance();
                TokenKind::StarEq
            } else {
                TokenKind::Star
            }
        } else if ch == 47 {
            if self.peek() == 61 {
                self.advance();
                TokenKind::SlashEq
            } else {
                TokenKind::Slash
            }
        } else if ch == 37 {
            if self.peek() == 61 {
                self.advance();
                TokenKind::PercentEq
            } else {
                TokenKind::Percent
            }
        } else if ch == 38 {
            if self.peek() == 38 {
                self.advance();
                TokenKind::AndAnd
            } else if self.peek() == 61 {
                self.advance();
                TokenKind::AmpEq
            } else {
                TokenKind::Amp
            }
        } else if ch == 124 {
            if self.peek() == 124 {
                self.advance();
                TokenKind::OrOr
            } else if self.peek() == 61 {
                self.advance();
                TokenKind::PipeEq
            } else {
                TokenKind::Pipe
            }
        } else if ch == 94 {
            if self.peek() == 61 {
                self.advance();
                TokenKind::CaretEq
            } else {
                TokenKind::Caret
            }
        } else if ch == 126 {
            TokenKind::Tilde
        } else if ch == 33 {
            if self.peek() == 61 {
                self.advance();
                TokenKind::Neq
            } else {
                TokenKind::Bang
            }
        } else if ch == 60 {
            if self.peek() == 60 {
                self.advance();
                if self.peek() == 61 {
                    self.advance();
                    TokenKind::LshiftEq
                } else {
                    TokenKind::Lshift
                }
            } else if self.peek() == 61 {
                self.advance();
                TokenKind::Leq
            } else if self.peek() == 45 {
                self.advance();
                if self.peek() == 61 {
                    self.advance();
                    TokenKind::ChanSend
                } else {
                    TokenKind::ChanRecv
                }
            } else {
                TokenKind::Lt
            }
        } else if ch == 62 {
            if self.peek() == 62 {
                self.advance();
                if self.peek() == 61 {
                    self.advance();
                    TokenKind::RshiftEq
                } else {
                    TokenKind::Rshift
                }
            } else if self.peek() == 61 {
                self.advance();
                TokenKind::Geq
            } else {
                TokenKind::Gt
            }
        } else if ch == 61 {
            if self.peek() == 61 {
                self.advance();
                TokenKind::Eq
            } else if self.peek() == 62 {
                self.advance();
                TokenKind::FatArrow
            } else {
                TokenKind::Assign
            }
        } else if ch == 58 {
            if self.peek() == 61 {
                self.advance();
                TokenKind::ColonEq
            } else if self.peek() == 58 {
                self.advance();
                TokenKind::ColonColon
            } else {
                TokenKind::Colon
            }
        } else if ch == 40 {
            TokenKind::LParen
        } else if ch == 41 {
            TokenKind::RParen
        } else if ch == 91 {
            TokenKind::LBracket
        } else if ch == 93 {
            TokenKind::RBracket
        } else if ch == 123 {
            TokenKind::LBrace
        } else if ch == 125 {
            TokenKind::RBrace
        } else if ch == 44 {
            TokenKind::Comma
        } else if ch == 46 {
            TokenKind::Dot
        } else if ch == 59 {
            TokenKind::Semicolon
        } else {
            // Reported at the character itself, which `advance` has already
            // stepped over.
            let mut m = String::from_str("unexpected character: ");
            push_debug_char(&mut m, ch as char);
            return Err(self.err_at(span, m));
        };
        Ok(Token { kind, span })
    }

    #[verifier::rlimit(40)]
    fn next_token(&mut self) -> (r: Result<Token, LexError>)
        requires
            old(self).wf(),
        ensures
            final(self).continues(*old(self)),
            next_token_result(old(self).src@, skip_blank(old(self).src@, old(self).pos as int),
                final(self).pos as int, old(self).file, r),
    {
        self.skip_whitespace_and_comments();
        proof {
            lemma_skip_blank(self.src@, old(self).pos as int);
        }
        if self.pos >= self.src.len() {
            return Ok(Token { kind: TokenKind::Eof, span: self.span() });
        }
        let span = self.span();
        let ch = self.peek();
        if ch == 46 && byte_is_digit(self.peek2()) {
            return self.lex_dot_number(span);
        }
        if byte_is_alpha(ch) || ch == 95 || is_ident_byte(ch) {
            return self.lex_ident(span);
        }
        if byte_is_digit(ch) {
            return self.lex_number(span);
        }
        if ch == 34 {
            return self.lex_string(span);
        }
        if ch == 39 {
            return self.lex_char(span);
        }
        self.lex_operator(span)
    }

    /// Tokenize the entire source into a vector of tokens.
    pub fn tokenize(&mut self) -> (r: Result<Vec<Token>, LexError>)
        requires
            old(self).wf(),
        ensures
            final(self).continues(*old(self)),
            r matches Ok(tokens) ==> tokens_well_ordered(tokens@),
            r matches Ok(tokens) ==> tokens@.len() <= old(self).source().len() + 1,
            r matches Ok(tokens) ==> exists|ends: Seq<int>| #[trigger] lexed_from(old(self).source(), old(self).position(),
                old(self).file_value(), tokens@, ends),
            r matches Err(e) ==> e.file@ == old(self).file_name(),
            r matches Err(e) ==> exists|tokens: Seq<Token>, ends: Seq<int>, end: int| #[trigger] lexed_from(old(self).source(),
                old(self).position(), old(self).file_value(), tokens, ends) && #[trigger] token_at(old(self).source(),
                skip_blank(old(self).source(), resume_at(old(self).position(), ends)), end, old(self).file_value(), Err(e)),
    {
        let mut tokens: Vec<Token> = Vec::new();
        let ghost mut starts: Seq<int> = seq![];
        let ghost mut ends: Seq<int> = seq![];
        loop
            invariant
                self.continues(*old(self)),
                tokens@.len() == starts.len(),
                forall|i: int| 0 <= i < tokens@.len() ==> !(tokens@[i].kind is Eof),
                forall|i: int| 0 <= i < starts.len() ==> 0 <= #[trigger] starts[i] < self.pos && starts[i] < self.src@.len(),
                forall|i: int, j: int| 0 <= i < j < starts.len() ==> starts[i] < starts[j],
                forall|i: int| 0 <= i < tokens@.len() ==> #[trigger] tokens@[i].span == span_at(self.src@, starts[i]),
                lexed_from(self.src@, old(self).pos as int, self.file, tokens@, ends),
                self.pos == resume_at(old(self).pos as int, ends),
            decreases self.src@.len() - self.pos,
        {
            let ghost before = self.pos as int;
            let res = self.next_token();
            let tok = match res {
                Ok(t) => t,
                Err(e) => {
                    proof {
                        assert(lexed_from(old(self).src@, old(self).pos as int, old(self).file, tokens@, ends));
                        assert(token_at(self.src@, skip_blank(self.src@, before), self.pos as int, self.file, Err(e))) by {
                            reveal(token_at);
                        }
                        assert(lexed_from(old(self).source(), old(self).position(), old(self).file_value(), tokens@, ends)
                            && token_at(old(self).source(), skip_blank(old(self).source(), resume_at(old(self).position(), ends)),
                            self.pos as int, old(self).file_value(), Err(e)));
                    }
                    return Err(e);
                },
            };
            proof {
                assert(token_at(self.src@, skip_blank(self.src@, before), self.pos as int, self.file, Ok(tok))) by {
                    reveal(token_at);
                }
                lemma_lexed_push(self.src@, old(self).pos as int, self.file, tokens@, ends, tok, self.pos as int);
                ends = ends.push(self.pos as int);
            }
            proof {
                lemma_skip_blank(self.src@, before);
            }
            let is_eof = match tok.kind {
                TokenKind::Eof => true,
                _ => false,
            };
            let ghost start = skip_blank(self.src@, before);
            let ghost toks_before = tokens@;
            tokens.push(tok);
            assert(tokens@ == toks_before.push(tok));
            proof {
                starts = starts.push(start);
            }
            if is_eof {
                proof {
                    assert(lexed_from(old(self).source(), old(self).position(), old(self).file_value(), tokens@, ends));
                    lemma_spans_ordered(self.src@, starts);
                    lemma_increasing_len(starts, self.src@.len() + 1int);
                    let t = tokens@;
                    assert(t.last().kind is Eof);
                    assert forall|i: int| 0 <= i < t.len() - 1 implies !(#[trigger] t[i].kind is Eof) by {
                        assert(!(t.drop_last()[i].kind is Eof));
                    }
                    assert forall|i: int, j: int| 0 <= i < j < t.len() implies span_before(#[trigger] t[i].span, #[trigger] t[j].span) by {
                        assert(t[i].span == span_at(self.src@, starts[i]));
                        assert(t[j].span == span_at(self.src@, starts[j]));
                    }
                }
                return Ok(tokens);
            }
        }
    }
}

} // verus!
