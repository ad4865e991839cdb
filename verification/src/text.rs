//! Text helpers used to build diagnostics: decimal numbers and the quoted
//! form that `Debug` gives strings and characters.

use vstd::prelude::*;
use vstd::string::StringExecFns;

verus! {

/// Appends one character to a string (`String::push`).
#[verifier::external_body]
pub(crate) fn push_char(s: &mut String, c: char)
    ensures
        final(s)@ == old(s)@.push(c),
{
    s.push(c);
}

/// The character for a digit value below 10.
pub open spec fn digit_char(d: int) -> char {
    (48 + d) as char
}

/// Decimal digits of `n`, without leading zeros.
pub open spec fn spec_decimal(n: nat) -> Seq<char>
    decreases n,
{
    if n < 10 {
        seq![digit_char(n as int)]
    } else {
        spec_decimal(n / 10).push(digit_char((n % 10) as int))
    }
}

/// The text `Display` gives a signed integer.
pub open spec fn i64_text(v: i64) -> Seq<char> {
    if v < 0 {
        seq!['-'] + spec_decimal((-(v as int)) as nat)
    } else {
        spec_decimal(v as nat)
    }
}

fn digit(d: u64) -> (c: char)
    requires
        d < 10,
    ensures
        c == digit_char(d as int),
{
    ((48 + d) as u8) as char
}

/// Appends the decimal digits of `n`.
pub fn push_decimal(s: &mut String, n: u64)
    ensures
        final(s)@ == old(s)@ + spec_decimal(n as nat),
    decreases n,
{
    if n >= 10 {
        push_decimal(s, n / 10);
        push_char(s, digit(n % 10));
    } else {
        push_char(s, digit(n));
    }
    proof {
        if n >= 10 {
            assert(old(s)@ + spec_decimal((n / 10) as nat) + seq![digit_char((n % 10) as int)]
                =~= old(s)@ + spec_decimal((n / 10) as nat).push(digit_char((n % 10) as int)));
        }
        assert(old(s)@ + spec_decimal(n as nat) =~= final(s)@);
    }
}

/// The decimal text of a signed integer.
pub fn i64_decimal(v: i64) -> (r: String)
    ensures
        r@ == i64_text(v),
{
    let mut s = String::new();
    if v < 0 {
        push_char(&mut s, '-');
        let m: u64 = if v == i64::MIN {
            0x8000_0000_0000_0000u64
        } else {
            (-v) as u64
        };
        push_decimal(&mut s, m);
        assert(s@ =~= seq!['-'] + spec_decimal((-(v as int)) as nat));
    } else {
        push_decimal(&mut s, v as u64);
        assert(s@ =~= spec_decimal(v as nat));
    }
    s
}

/// The text `Debug` gives a string: the string in double quotes, with the
/// characters that need it escaped.
pub uninterp spec fn str_debug_text(s: Seq<char>) -> Seq<char>;

/// The text `Debug` gives a character: the character in single quotes,
/// escaped where it needs it.
pub uninterp spec fn char_debug_text(c: char) -> Seq<char>;

/// `format!("{:?}", s)`: the `Debug` text of a string slice. Its escaping
/// follows std's Unicode tables, which no clause here restates; the result
/// depends on `s` alone.
#[verifier::external_body]
fn debug_str(s: &str) -> (r: String)
    ensures
        r@ == str_debug_text(s@),
{
    format!("{:?}", s)
}

/// `format!("{:?}", c)`: the `Debug` text of a character. As for strings,
/// the escaping is std's and the result depends on `c` alone.
#[verifier::external_body]
fn debug_char(c: char) -> (r: String)
    ensures
        r@ == char_debug_text(c),
{
    format!("{:?}", c)
}

/// Appends the quoted `Debug` form of a string.
pub fn push_debug_str(out: &mut String, t: &String)
    ensures
        final(out)@ == old(out)@ + str_debug_text(t@),
{
    let d = debug_str(t.as_str());
    out.append(d.as_str());
}

/// Appends the quoted `Debug` form of a character.
pub fn push_debug_char(out: &mut String, c: char)
    ensures
        final(out)@ == old(out)@ + char_debug_text(c),
{
    let d = debug_char(c);
    out.append(d.as_str());
}

} // verus!
