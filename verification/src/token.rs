//! Limbo language tokens.

use vstd::prelude::*;
use vstd::string::StringSliceAdditionalSpecFns;
use vstd::string::StrSliceExecFns;
use vstd::string::StringExecFns;
use crate::text::{i64_decimal, i64_text, push_debug_str, str_debug_text};

verus! {

/// Source location for error reporting.
#[derive(Clone, Copy, Debug, PartialEq, Eq, Structural)]
pub struct Span {
    pub line: u32,
    pub col: u32,
}

impl Default for Span {
    fn default() -> (s: Span)
        ensures
            s.line == 0,
            s.col == 0,
    {
        Span { line: 0, col: 0 }
    }
}

/// A token with its source location.
#[derive(Clone, Debug)]
pub struct Token {
    pub kind: TokenKind,
    pub span: Span,
}

/// All Limbo token types. A real literal keeps the text it was written with;
/// its numeric value is read from that text by the consumer.
#[derive(Clone, Debug, PartialEq)]
pub enum TokenKind {
    IntLit(i64),
    RealLit(String),
    StringLit(String),
    CharLit(i32),
    Ident(String),
    Adt,
    Alt,
    Array,
    Big,
    Break,
    Byte,
    Case,
    Chan,
    Con,
    Continue,
    Cyclic,
    Do,
    Else,
    Exception,
    Exit,
    Fn,
    For,
    Hd,
    If,
    Implement,
    Import,
    Include,
    Int,
    Len,
    List,
    Load,
    Module,
    Nil,
    Of,
    Or,
    Pick,
    Real,
    Ref,
    Return,
    Self_,
    Spawn,
    String_,
    Tagof,
    Tl,
    To,
    Type,
    While,
    Raise,
    Iota,
    Plus,
    Minus,
    Star,
    Slash,
    Percent,
    Power,
    Amp,
    Pipe,
    Caret,
    Tilde,
    Bang,
    Lshift,
    Rshift,
    Eq,
    Neq,
    Lt,
    Gt,
    Leq,
    Geq,
    AndAnd,
    OrOr,
    ColonColon,
    Arrow,
    ChanRecv,
    ChanSend,
    Assign,
    ColonEq,
    PlusEq,
    MinusEq,
    StarEq,
    SlashEq,
    PercentEq,
    AmpEq,
    PipeEq,
    CaretEq,
    LshiftEq,
    RshiftEq,
    Inc,
    Dec,
    LParen,
    RParen,
    LBracket,
    RBracket,
    LBrace,
    RBrace,
    Comma,
    Dot,
    Semicolon,
    Colon,
    FatArrow,
    Eof,
}

/// The variant of a token kind, as a number: two kinds have the same tag
/// exactly when they are the same variant.
pub open spec fn kind_tag(k: TokenKind) -> u8 {
    match k {
        TokenKind::IntLit(_) => 0u8,
        TokenKind::RealLit(_) => 1u8,
        TokenKind::StringLit(_) => 2u8,
        TokenKind::CharLit(_) => 3u8,
        TokenKind::Ident(_) => 4u8,
        TokenKind::Adt => 5u8,
        TokenKind::Alt => 6u8,
        TokenKind::Array => 7u8,
        TokenKind::Big => 8u8,
        TokenKind::Break => 9u8,
        TokenKind::Byte => 10u8,
        TokenKind::Case => 11u8,
        TokenKind::Chan => 12u8,
        TokenKind::Con => 13u8,
        TokenKind::Continue => 14u8,
        TokenKind::Cyclic => 15u8,
        TokenKind::Do => 16u8,
        TokenKind::Else => 17u8,
        TokenKind::Exception => 18u8,
        TokenKind::Exit => 19u8,
        TokenKind::Fn => 20u8,
        TokenKind::For => 21u8,
        TokenKind::Hd => 22u8,
        TokenKind::If => 23u8,
        TokenKind::Implement => 24u8,
        TokenKind::Import => 25u8,
        TokenKind::Include => 26u8,
        TokenKind::Int => 27u8,
        TokenKind::Len => 28u8,
        TokenKind::List => 29u8,
        TokenKind::Load => 30u8,
        TokenKind::Module => 31u8,
        TokenKind::Nil => 32u8,
        TokenKind::Of => 33u8,
        TokenKind::Or => 34u8,
        TokenKind::Pick => 35u8,
        TokenKind::Real => 36u8,
        TokenKind::Ref => 37u8,
        TokenKind::Return => 38u8,
        TokenKind::Self_ => 39u8,
        TokenKind::Spawn => 40u8,
        TokenKind::String_ => 41u8,
        TokenKind::Tagof => 42u8,
        TokenKind::Tl => 43u8,
        TokenKind::To => 44u8,
        TokenKind::Type => 45u8,
        TokenKind::While => 46u8,
        TokenKind::Raise => 47u8,
        TokenKind::Iota => 48u8,
        TokenKind::Plus => 49u8,
        TokenKind::Minus => 50u8,
        TokenKind::Star => 51u8,
        TokenKind::Slash => 52u8,
        TokenKind::Percent => 53u8,
        TokenKind::Power => 54u8,
        TokenKind::Amp => 55u8,
        TokenKind::Pipe => 56u8,
        TokenKind::Caret => 57u8,
        TokenKind::Tilde => 58u8,
        TokenKind::Bang => 59u8,
        TokenKind::Lshift => 60u8,
        TokenKind::Rshift => 61u8,
        TokenKind::Eq => 62u8,
        TokenKind::Neq => 63u8,
        TokenKind::Lt => 64u8,
        TokenKind::Gt => 65u8,
        TokenKind::Leq => 66u8,
        TokenKind::Geq => 67u8,
        TokenKind::AndAnd => 68u8,
        TokenKind::OrOr => 69u8,
        TokenKind::ColonColon => 70u8,
        TokenKind::Arrow => 71u8,
        TokenKind::ChanRecv => 72u8,
        TokenKind::ChanSend => 73u8,
        TokenKind::Assign => 74u8,
        TokenKind::ColonEq => 75u8,
        TokenKind::PlusEq => 76u8,
        TokenKind::MinusEq => 77u8,
        TokenKind::StarEq => 78u8,
        TokenKind::SlashEq => 79u8,
        TokenKind::PercentEq => 80u8,
        TokenKind::AmpEq => 81u8,
        TokenKind::PipeEq => 82u8,
        TokenKind::CaretEq => 83u8,
        TokenKind::LshiftEq => 84u8,
        TokenKind::RshiftEq => 85u8,
        TokenKind::Inc => 86u8,
        TokenKind::Dec => 87u8,
        TokenKind::LParen => 88u8,
        TokenKind::RParen => 89u8,
        TokenKind::LBracket => 90u8,
        TokenKind::RBracket => 91u8,
        TokenKind::LBrace => 92u8,
        TokenKind::RBrace => 93u8,
        TokenKind::Comma => 94u8,
        TokenKind::Dot => 95u8,
        TokenKind::Semicolon => 96u8,
        TokenKind::Colon => 97u8,
        TokenKind::FatArrow => 98u8,
        TokenKind::Eof => 99u8,
    }
}

/// The keyword that the bytes `w` spell, if any.
pub open spec fn keyword_kind(w: Seq<u8>) -> Option<TokenKind> {
    if w == "adt".spec_bytes() {
        Some(TokenKind::Adt)
    } else if w == "alt".spec_bytes() {
        Some(TokenKind::Alt)
    } else if w == "array".spec_bytes() {
        Some(TokenKind::Array)
    } else if w == "big".spec_bytes() {
        Some(TokenKind::Big)
    } else if w == "break".spec_bytes() {
        Some(TokenKind::Break)
    } else if w == "byte".spec_bytes() {
        Some(TokenKind::Byte)
    } else if w == "case".spec_bytes() {
        Some(TokenKind::Case)
    } else if w == "chan".spec_bytes() {
        Some(TokenKind::Chan)
    } else if w == "con".spec_bytes() {
        Some(TokenKind::Con)
    } else if w == "continue".spec_bytes() {
        Some(TokenKind::Continue)
    } else if w == "cyclic".spec_bytes() {
        Some(TokenKind::Cyclic)
    } else if w == "do".spec_bytes() {
        Some(TokenKind::Do)
    } else if w == "else".spec_bytes() {
        Some(TokenKind::Else)
    } else if w == "exception".spec_bytes() {
        Some(TokenKind::Exception)
    } else if w == "exit".spec_bytes() {
        Some(TokenKind::Exit)
    } else if w == "fn".spec_bytes() {
        Some(TokenKind::Fn)
    } else if w == "for".spec_bytes() {
        Some(TokenKind::For)
    } else if w == "hd".spec_bytes() {
        Some(TokenKind::Hd)
    } else if w == "if".spec_bytes() {
        Some(TokenKind::If)
    } else if w == "implement".spec_bytes() {
        Some(TokenKind::Implement)
    } else if w == "import".spec_bytes() {
        Some(TokenKind::Import)
    } else if w == "include".spec_bytes() {
        Some(TokenKind::Include)
    } else if w == "int".spec_bytes() {
        Some(TokenKind::Int)
    } else if w == "iota".spec_bytes() {
        Some(TokenKind::Iota)
    } else if w == "len".spec_bytes() {
        Some(TokenKind::Len)
    } else if w == "list".spec_bytes() {
        Some(TokenKind::List)
    } else if w == "load".spec_bytes() {
        Some(TokenKind::Load)
    } else if w == "module".spec_bytes() {
        Some(TokenKind::Module)
    } else if w == "nil".spec_bytes() {
        Some(TokenKind::Nil)
    } else if w == "of".spec_bytes() {
        Some(TokenKind::Of)
    } else if w == "or".spec_bytes() {
        Some(TokenKind::Or)
    } else if w == "pick".spec_bytes() {
        Some(TokenKind::Pick)
    } else if w == "raise".spec_bytes() {
        Some(TokenKind::Raise)
    } else if w == "real".spec_bytes() {
        Some(TokenKind::Real)
    } else if w == "ref".spec_bytes() {
        Some(TokenKind::Ref)
    } else if w == "return".spec_bytes() {
        Some(TokenKind::Return)
    } else if w == "self".spec_bytes() {
        Some(TokenKind::Self_)
    } else if w == "spawn".spec_bytes() {
        Some(TokenKind::Spawn)
    } else if w == "string".spec_bytes() {
        Some(TokenKind::String_)
    } else if w == "tagof".spec_bytes() {
        Some(TokenKind::Tagof)
    } else if w == "tl".spec_bytes() {
        Some(TokenKind::Tl)
    } else if w == "to".spec_bytes() {
        Some(TokenKind::To)
    } else if w == "type".spec_bytes() {
        Some(TokenKind::Type)
    } else if w == "while".spec_bytes() {
        Some(TokenKind::While)
    } else {
        None
    }
}

/// The name of a variant, as `Debug` prints it.
pub open spec fn variant_name(k: TokenKind) -> Seq<char> {
    match k {
        TokenKind::IntLit(_) => "IntLit"@,
        TokenKind::RealLit(_) => "RealLit"@,
        TokenKind::StringLit(_) => "StringLit"@,
        TokenKind::CharLit(_) => "CharLit"@,
        TokenKind::Ident(_) => "Ident"@,
        TokenKind::Adt => "Adt"@,
        TokenKind::Alt => "Alt"@,
        TokenKind::Array => "Array"@,
        TokenKind::Big => "Big"@,
        TokenKind::Break => "Break"@,
        TokenKind::Byte => "Byte"@,
        TokenKind::Case => "Case"@,
        TokenKind::Chan => "Chan"@,
        TokenKind::Con => "Con"@,
        TokenKind::Continue => "Continue"@,
        TokenKind::Cyclic => "Cyclic"@,
        TokenKind::Do => "Do"@,
        TokenKind::Else => "Else"@,
        TokenKind::Exception => "Exception"@,
        TokenKind::Exit => "Exit"@,
        TokenKind::Fn => "Fn"@,
        TokenKind::For => "For"@,
        TokenKind::Hd => "Hd"@,
        TokenKind::If => "If"@,
        TokenKind::Implement => "Implement"@,
        TokenKind::Import => "Import"@,
        TokenKind::Include => "Include"@,
        TokenKind::Int => "Int"@,
        TokenKind::Len => "Len"@,
        TokenKind::List => "List"@,
        TokenKind::Load => "Load"@,
        TokenKind::Module => "Module"@,
        TokenKind::Nil => "Nil"@,
        TokenKind::Of => "Of"@,
        TokenKind::Or => "Or"@,
        TokenKind::Pick => "Pick"@,
        TokenKind::Real => "Real"@,
        TokenKind::Ref => "Ref"@,
        TokenKind::Return => "Return"@,
        TokenKind::Self_ => "Self_"@,
        TokenKind::Spawn => "Spawn"@,
        TokenKind::String_ => "String_"@,
        TokenKind::Tagof => "Tagof"@,
        TokenKind::Tl => "Tl"@,
        TokenKind::To => "To"@,
        TokenKind::Type => "Type"@,
        TokenKind::While => "While"@,
        TokenKind::Raise => "Raise"@,
        TokenKind::Iota => "Iota"@,
        TokenKind::Plus => "Plus"@,
        TokenKind::Minus => "Minus"@,
        TokenKind::Star => "Star"@,
        TokenKind::Slash => "Slash"@,
        TokenKind::Percent => "Percent"@,
        TokenKind::Power => "Power"@,
        TokenKind::Amp => "Amp"@,
        TokenKind::Pipe => "Pipe"@,
        TokenKind::Caret => "Caret"@,
        TokenKind::Tilde => "Tilde"@,
        TokenKind::Bang => "Bang"@,
        TokenKind::Lshift => "Lshift"@,
        TokenKind::Rshift => "Rshift"@,
        TokenKind::Eq => "Eq"@,
        TokenKind::Neq => "Neq"@,
        TokenKind::Lt => "Lt"@,
        TokenKind::Gt => "Gt"@,
        TokenKind::Leq => "Leq"@,
        TokenKind::Geq => "Geq"@,
        TokenKind::AndAnd => "AndAnd"@,
        TokenKind::OrOr => "OrOr"@,
        TokenKind::ColonColon => "ColonColon"@,
        TokenKind::Arrow => "Arrow"@,
        TokenKind::ChanRecv => "ChanRecv"@,
        TokenKind::ChanSend => "ChanSend"@,
        TokenKind::Assign => "Assign"@,
        TokenKind::ColonEq => "ColonEq"@,
        TokenKind::PlusEq => "PlusEq"@,
        TokenKind::MinusEq => "MinusEq"@,
        TokenKind::StarEq => "StarEq"@,
        TokenKind::SlashEq => "SlashEq"@,
        TokenKind::PercentEq => "PercentEq"@,
        TokenKind::AmpEq => "AmpEq"@,
        TokenKind::PipeEq => "PipeEq"@,
        TokenKind::CaretEq => "CaretEq"@,
        TokenKind::LshiftEq => "LshiftEq"@,
        TokenKind::RshiftEq => "RshiftEq"@,
        TokenKind::Inc => "Inc"@,
        TokenKind::Dec => "Dec"@,
        TokenKind::LParen => "LParen"@,
        TokenKind::RParen => "RParen"@,
        TokenKind::LBracket => "LBracket"@,
        TokenKind::RBracket => "RBracket"@,
        TokenKind::LBrace => "LBrace"@,
        TokenKind::RBrace => "RBrace"@,
        TokenKind::Comma => "Comma"@,
        TokenKind::Dot => "Dot"@,
        TokenKind::Semicolon => "Semicolon"@,
        TokenKind::Colon => "Colon"@,
        TokenKind::FatArrow => "FatArrow"@,
        TokenKind::Eof => "Eof"@,
    }
}

/// The text `Debug` gives a token kind.
pub open spec fn kind_debug_text(k: TokenKind) -> Seq<char> {
    match k {
        TokenKind::IntLit(v) => "IntLit("@ + i64_text(v) + ")"@,
        TokenKind::RealLit(s) => "RealLit("@ + s@ + ")"@,
        TokenKind::StringLit(s) => "StringLit("@ + str_debug_text(s@) + ")"@,
        TokenKind::CharLit(v) => "CharLit("@ + i64_text(v as i64) + ")"@,
        TokenKind::Ident(s) => "Ident("@ + str_debug_text(s@) + ")"@,
        _ => variant_name(k),
    }
}

/// Whether the bytes of `w` are exactly those of the literal `lit`.
pub(crate) fn bytes_match(w: &[u8], lit: &str) -> (r: bool)
    ensures
        r == (w@ == lit.spec_bytes()),
{
    let b = lit.as_bytes();
    if w.len() != b.len() {
        return false;
    }
    let mut i: usize = 0;
    while i < w.len()
        invariant
            w@.len() == b@.len(),
            b@ == lit.spec_bytes(),
            i <= w@.len(),
            forall|j: int| 0 <= j < i ==> w@[j] == b@[j],
        decreases w@.len() - i,
    {
        if w[i] != b[i] {
            return false;
        }
        i = i + 1;
    }
    assert(w@ =~= b@);
    true
}

/// Look up the keyword spelled by the bytes `w`.
pub fn keyword_of_bytes(w: &[u8]) -> (r: Option<TokenKind>)
    ensures
        r == keyword_kind(w@),
{
    if bytes_match(w, "adt") {
        Some(TokenKind::Adt)
    } else if bytes_match(w, "alt") {
        Some(TokenKind::Alt)
    } else if bytes_match(w, "array") {
        Some(TokenKind::Array)
    } else if bytes_match(w, "big") {
        Some(TokenKind::Big)
    } else if bytes_match(w, "break") {
        Some(TokenKind::Break)
    } else if bytes_match(w, "byte") {
        Some(TokenKind::Byte)
    } else if bytes_match(w, "case") {
        Some(TokenKind::Case)
    } else if bytes_match(w, "chan") {
        Some(TokenKind::Chan)
    } else if bytes_match(w, "con") {
        Some(TokenKind::Con)
    } else if bytes_match(w, "continue") {
        Some(TokenKind::Continue)
    } else if bytes_match(w, "cyclic") {
        Some(TokenKind::Cyclic)
    } else if bytes_match(w, "do") {
        Some(TokenKind::Do)
    } else if bytes_match(w, "else") {
        Some(TokenKind::Else)
    } else if bytes_match(w, "exception") {
        Some(TokenKind::Exception)
    } else if bytes_match(w, "exit") {
        Some(TokenKind::Exit)
    } else if bytes_match(w, "fn") {
        Some(TokenKind::Fn)
    } else if bytes_match(w, "for") {
        Some(TokenKind::For)
    } else if bytes_match(w, "hd") {
        Some(TokenKind::Hd)
    } else if bytes_match(w, "if") {
        Some(TokenKind::If)
    } else if bytes_match(w, "implement") {
        Some(TokenKind::Implement)
    } else if bytes_match(w, "import") {
        Some(TokenKind::Import)
    } else if bytes_match(w, "include") {
        Some(TokenKind::Include)
    } else if bytes_match(w, "int") {
        Some(TokenKind::Int)
    } else if bytes_match(w, "iota") {
        Some(TokenKind::Iota)
    } else if bytes_match(w, "len") {
        Some(TokenKind::Len)
    } else if bytes_match(w, "list") {
        Some(TokenKind::List)
    } else if bytes_match(w, "load") {
        Some(TokenKind::Load)
    } else if bytes_match(w, "module") {
        Some(TokenKind::Module)
    } else if bytes_match(w, "nil") {
        Some(TokenKind::Nil)
    } else if bytes_match(w, "of") {
        Some(TokenKind::Of)
    } else if bytes_match(w, "or") {
        Some(TokenKind::Or)
    } else if bytes_match(w, "pick") {
        Some(TokenKind::Pick)
    } else if bytes_match(w, "raise") {
        Some(TokenKind::Raise)
    } else if bytes_match(w, "real") {
        Some(TokenKind::Real)
    } else if bytes_match(w, "ref") {
        Some(TokenKind::Ref)
    } else if bytes_match(w, "return") {
        Some(TokenKind::Return)
    } else if bytes_match(w, "self") {
        Some(TokenKind::Self_)
    } else if bytes_match(w, "spawn") {
        Some(TokenKind::Spawn)
    } else if bytes_match(w, "string") {
        Some(TokenKind::String_)
    } else if bytes_match(w, "tagof") {
        Some(TokenKind::Tagof)
    } else if bytes_match(w, "tl") {
        Some(TokenKind::Tl)
    } else if bytes_match(w, "to") {
        Some(TokenKind::To)
    } else if bytes_match(w, "type") {
        Some(TokenKind::Type)
    } else if bytes_match(w, "while") {
        Some(TokenKind::While)
    } else {
        None
    }
}

impl TokenKind {
    /// Look up a keyword from an identifier string.
    pub fn keyword(s: &str) -> (r: Option<TokenKind>)
        ensures
            r == keyword_kind(s.spec_bytes()),
    {
        keyword_of_bytes(s.as_bytes())
    }

    /// The variant of this kind as a number (see `kind_tag`).
    pub fn tag(&self) -> (r: u8)
        ensures
            r == kind_tag(*self),
    {
        match self {
            TokenKind::IntLit(_) => 0,
            TokenKind::RealLit(_) => 1,
            TokenKind::StringLit(_) => 2,
            TokenKind::CharLit(_) => 3,
            TokenKind::Ident(_) => 4,
            TokenKind::Adt => 5,
            TokenKind::Alt => 6,
            TokenKind::Array => 7,
            TokenKind::Big => 8,
            TokenKind::Break => 9,
            TokenKind::Byte => 10,
            TokenKind::Case => 11,
            TokenKind::Chan => 12,
            TokenKind::Con => 13,
            TokenKind::Continue => 14,
            TokenKind::Cyclic => 15,
            TokenKind::Do => 16,
            TokenKind::Else => 17,
            TokenKind::Exception => 18,
            TokenKind::Exit => 19,
            TokenKind::Fn => 20,
            TokenKind::For => 21,
            TokenKind::Hd => 22,
            TokenKind::If => 23,
            TokenKind::Implement => 24,
            TokenKind::Import => 25,
            TokenKind::Include => 26,
            TokenKind::Int => 27,
            TokenKind::Len => 28,
            TokenKind::List => 29,
            TokenKind::Load => 30,
            TokenKind::Module => 31,
            TokenKind::Nil => 32,
            TokenKind::Of => 33,
            TokenKind::Or => 34,
            TokenKind::Pick => 35,
            TokenKind::Real => 36,
            TokenKind::Ref => 37,
            TokenKind::Return => 38,
            TokenKind::Self_ => 39,
            TokenKind::Spawn => 40,
            TokenKind::String_ => 41,
            TokenKind::Tagof => 42,
            TokenKind::Tl => 43,
            TokenKind::To => 44,
            TokenKind::Type => 45,
            TokenKind::While => 46,
            TokenKind::Raise => 47,
            TokenKind::Iota => 48,
            TokenKind::Plus => 49,
            TokenKind::Minus => 50,
            TokenKind::Star => 51,
            TokenKind::Slash => 52,
            TokenKind::Percent => 53,
            TokenKind::Power => 54,
            TokenKind::Amp => 55,
            TokenKind::Pipe => 56,
            TokenKind::Caret => 57,
            TokenKind::Tilde => 58,
            TokenKind::Bang => 59,
            TokenKind::Lshift => 60,
            TokenKind::Rshift => 61,
            TokenKind::Eq => 62,
            TokenKind::Neq => 63,
            TokenKind::Lt => 64,
            TokenKind::Gt => 65,
            TokenKind::Leq => 66,
            TokenKind::Geq => 67,
            TokenKind::AndAnd => 68,
            TokenKind::OrOr => 69,
            TokenKind::ColonColon => 70,
            TokenKind::Arrow => 71,
            TokenKind::ChanRecv => 72,
            TokenKind::ChanSend => 73,
            TokenKind::Assign => 74,
            TokenKind::ColonEq => 75,
            TokenKind::PlusEq => 76,
            TokenKind::MinusEq => 77,
            TokenKind::StarEq => 78,
            TokenKind::SlashEq => 79,
            TokenKind::PercentEq => 80,
            TokenKind::AmpEq => 81,
            TokenKind::PipeEq => 82,
            TokenKind::CaretEq => 83,
            TokenKind::LshiftEq => 84,
            TokenKind::RshiftEq => 85,
            TokenKind::Inc => 86,
            TokenKind::Dec => 87,
            TokenKind::LParen => 88,
            TokenKind::RParen => 89,
            TokenKind::LBracket => 90,
            TokenKind::RBracket => 91,
            TokenKind::LBrace => 92,
            TokenKind::RBrace => 93,
            TokenKind::Comma => 94,
            TokenKind::Dot => 95,
            TokenKind::Semicolon => 96,
            TokenKind::Colon => 97,
            TokenKind::FatArrow => 98,
            TokenKind::Eof => 99,
        }
    }

    /// The text `Debug` prints for this kind, used in diagnostics.
    pub fn debug_text(&self) -> (r: String)
        ensures
            r@ == kind_debug_text(*self),
    {
        match self {
            TokenKind::IntLit(v) => {
                let mut s = String::from_str("IntLit(");
                let t = i64_decimal(*v);
                s.append(t.as_str());
                s.append(")");
                s
            },
            TokenKind::RealLit(t) => {
                let mut s = String::from_str("RealLit(");
                s.append(t.as_str());
                s.append(")");
                s
            },
            TokenKind::StringLit(t) => {
                let mut s = String::from_str("StringLit(");
                push_debug_str(&mut s, t);
                s.append(")");
                s
            },
            TokenKind::CharLit(v) => {
                let mut s = String::from_str("CharLit(");
                let t = i64_decimal(*v as i64);
                s.append(t.as_str());
                s.append(")");
                s
            },
            TokenKind::Ident(t) => {
                let mut s = String::from_str("Ident(");
                push_debug_str(&mut s, t);
                s.append(")");
                s
            },
            TokenKind::Adt => String::from_str("Adt"),
            TokenKind::Alt => String::from_str("Alt"),
            TokenKind::Array => String::from_str("Array"),
            TokenKind::Big => String::from_str("Big"),
            TokenKind::Break => String::from_str("Break"),
            TokenKind::Byte => String::from_str("Byte"),
            TokenKind::Case => String::from_str("Case"),
            TokenKind::Chan => String::from_str("Chan"),
            TokenKind::Con => String::from_str("Con"),
            TokenKind::Continue => String::from_str("Continue"),
            TokenKind::Cyclic => String::from_str("Cyclic"),
            TokenKind::Do => String::from_str("Do"),
            TokenKind::Else => String::from_str("Else"),
            TokenKind::Exception => String::from_str("Exception"),
            TokenKind::Exit => String::from_str("Exit"),
            TokenKind::Fn => String::from_str("Fn"),
            TokenKind::For => String::from_str("For"),
            TokenKind::Hd => String::from_str("Hd"),
            TokenKind::If => String::from_str("If"),
            TokenKind::Implement => String::from_str("Implement"),
            TokenKind::Import => String::from_str("Import"),
            TokenKind::Include => String::from_str("Include"),
            TokenKind::Int => String::from_str("Int"),
            TokenKind::Len => String::from_str("Len"),
            TokenKind::List => String::from_str("List"),
            TokenKind::Load => String::from_str("Load"),
            TokenKind::Module => String::from_str("Module"),
            TokenKind::Nil => String::from_str("Nil"),
            TokenKind::Of => String::from_str("Of"),
            TokenKind::Or => String::from_str("Or"),
            TokenKind::Pick => String::from_str("Pick"),
            TokenKind::Real => String::from_str("Real"),
            TokenKind::Ref => String::from_str("Ref"),
            TokenKind::Return => String::from_str("Return"),
            TokenKind::Self_ => String::from_str("Self_"),
            TokenKind::Spawn => String::from_str("Spawn"),
            TokenKind::String_ => String::from_str("String_"),
            TokenKind::Tagof => String::from_str("Tagof"),
            TokenKind::Tl => String::from_str("Tl"),
            TokenKind::To => String::from_str("To"),
            TokenKind::Type => String::from_str("Type"),
            TokenKind::While => String::from_str("While"),
            TokenKind::Raise => String::from_str("Raise"),
            TokenKind::Iota => String::from_str("Iota"),
            TokenKind::Plus => String::from_str("Plus"),
            TokenKind::Minus => String::from_str("Minus"),
            TokenKind::Star => String::from_str("Star"),
            TokenKind::Slash => String::from_str("Slash"),
            TokenKind::Percent => String::from_str("Percent"),
            TokenKind::Power => String::from_str("Power"),
            TokenKind::Amp => String::from_str("Amp"),
            TokenKind::Pipe => String::from_str("Pipe"),
            TokenKind::Caret => String::from_str("Caret"),
            TokenKind::Tilde => String::from_str("Tilde"),
            TokenKind::Bang => String::from_str("Bang"),
            TokenKind::Lshift => String::from_str("Lshift"),
            TokenKind::Rshift => String::from_str("Rshift"),
            TokenKind::Eq => String::from_str("Eq"),
            TokenKind::Neq => String::from_str("Neq"),
            TokenKind::Lt => String::from_str("Lt"),
            TokenKind::Gt => String::from_str("Gt"),
            TokenKind::Leq => String::from_str("Leq"),
            TokenKind::Geq => String::from_str("Geq"),
            TokenKind::AndAnd => String::from_str("AndAnd"),
            TokenKind::OrOr => String::from_str("OrOr"),
            TokenKind::ColonColon => String::from_str("ColonColon"),
            TokenKind::Arrow => String::from_str("Arrow"),
            TokenKind::ChanRecv => String::from_str("ChanRecv"),
            TokenKind::ChanSend => String::from_str("ChanSend"),
            TokenKind::Assign => String::from_str("Assign"),
            TokenKind::ColonEq => String::from_str("ColonEq"),
            TokenKind::PlusEq => String::from_str("PlusEq"),
            TokenKind::MinusEq => String::from_str("MinusEq"),
            TokenKind::StarEq => String::from_str("StarEq"),
            TokenKind::SlashEq => String::from_str("SlashEq"),
            TokenKind::PercentEq => String::from_str("PercentEq"),
            TokenKind::AmpEq => String::from_str("AmpEq"),
            TokenKind::PipeEq => String::from_str("PipeEq"),
            TokenKind::CaretEq => String::from_str("CaretEq"),
            TokenKind::LshiftEq => String::from_str("LshiftEq"),
            TokenKind::RshiftEq => String::from_str("RshiftEq"),
            TokenKind::Inc => String::from_str("Inc"),
            TokenKind::Dec => String::from_str("Dec"),
            TokenKind::LParen => String::from_str("LParen"),
            TokenKind::RParen => String::from_str("RParen"),
            TokenKind::LBracket => String::from_str("LBracket"),
            TokenKind::RBracket => String::from_str("RBracket"),
            TokenKind::LBrace => String::from_str("LBrace"),
            TokenKind::RBrace => String::from_str("RBrace"),
            TokenKind::Comma => String::from_str("Comma"),
            TokenKind::Dot => String::from_str("Dot"),
            TokenKind::Semicolon => String::from_str("Semicolon"),
            TokenKind::Colon => String::from_str("Colon"),
            TokenKind::FatArrow => String::from_str("FatArrow"),
            TokenKind::Eof => String::from_str("Eof"),
        }
    }

    /// A copy of this kind that is equal to it.
    pub fn copy(&self) -> (r: TokenKind)
        ensures
            r == *self,
    {
        match self {
            TokenKind::IntLit(v) => TokenKind::IntLit(*v),
            TokenKind::RealLit(t) => TokenKind::RealLit(t.clone()),
            TokenKind::StringLit(t) => TokenKind::StringLit(t.clone()),
            TokenKind::CharLit(v) => TokenKind::CharLit(*v),
            TokenKind::Ident(t) => TokenKind::Ident(t.clone()),
            TokenKind::Adt => TokenKind::Adt,
            TokenKind::Alt => TokenKind::Alt,
            TokenKind::Array => TokenKind::Array,
            TokenKind::Big => TokenKind::Big,
            TokenKind::Break => TokenKind::Break,
            TokenKind::Byte => TokenKind::Byte,
            TokenKind::Case => TokenKind::Case,
            TokenKind::Chan => TokenKind::Chan,
            TokenKind::Con => TokenKind::Con,
            TokenKind::Continue => TokenKind::Continue,
            TokenKind::Cyclic => TokenKind::Cyclic,
            TokenKind::Do => TokenKind::Do,
            TokenKind::Else => TokenKind::Else,
            TokenKind::Exception => TokenKind::Exception,
            TokenKind::Exit => TokenKind::Exit,
            TokenKind::Fn => TokenKind::Fn,
            TokenKind::For => TokenKind::For,
            TokenKind::Hd => TokenKind::Hd,
            TokenKind::If => TokenKind::If,
            TokenKind::Implement => TokenKind::Implement,
            TokenKind::Import => TokenKind::Import,
            TokenKind::Include => TokenKind::Include,
            TokenKind::Int => TokenKind::Int,
            TokenKind::Len => TokenKind::Len,
            TokenKind::List => TokenKind::List,
            TokenKind::Load => TokenKind::Load,
            TokenKind::Module => TokenKind::Module,
            TokenKind::Nil => TokenKind::Nil,
            TokenKind::Of => TokenKind::Of,
            TokenKind::Or => TokenKind::Or,
            TokenKind::Pick => TokenKind::Pick,
            TokenKind::Real => TokenKind::Real,
            TokenKind::Ref => TokenKind::Ref,
            TokenKind::Return => TokenKind::Return,
            TokenKind::Self_ => TokenKind::Self_,
            TokenKind::Spawn => TokenKind::Spawn,
            TokenKind::String_ => TokenKind::String_,
            TokenKind::Tagof => TokenKind::Tagof,
            TokenKind::Tl => TokenKind::Tl,
            TokenKind::To => TokenKind::To,
            TokenKind::Type => TokenKind::Type,
            TokenKind::While => TokenKind::While,
            TokenKind::Raise => TokenKind::Raise,
            TokenKind::Iota => TokenKind::Iota,
            TokenKind::Plus => TokenKind::Plus,
            TokenKind::Minus => TokenKind::Minus,
            TokenKind::Star => TokenKind::Star,
            TokenKind::Slash => TokenKind::Slash,
            TokenKind::Percent => TokenKind::Percent,
            TokenKind::Power => TokenKind::Power,
            TokenKind::Amp => TokenKind::Amp,
            TokenKind::Pipe => TokenKind::Pipe,
            TokenKind::Caret => TokenKind::Caret,
            TokenKind::Tilde => TokenKind::Tilde,
            TokenKind::Bang => TokenKind::Bang,
            TokenKind::Lshift => TokenKind::Lshift,
            TokenKind::Rshift => TokenKind::Rshift,
            TokenKind::Eq => TokenKind::Eq,
            TokenKind::Neq => TokenKind::Neq,
            TokenKind::Lt => TokenKind::Lt,
            TokenKind::Gt => TokenKind::Gt,
            TokenKind::Leq => TokenKind::Leq,
            TokenKind::Geq => TokenKind::Geq,
            TokenKind::AndAnd => TokenKind::AndAnd,
            TokenKind::OrOr => TokenKind::OrOr,
            TokenKind::ColonColon => TokenKind::ColonColon,
            TokenKind::Arrow => TokenKind::Arrow,
            TokenKind::ChanRecv => TokenKind::ChanRecv,
            TokenKind::ChanSend => TokenKind::ChanSend,
            TokenKind::Assign => TokenKind::Assign,
            TokenKind::ColonEq => TokenKind::ColonEq,
            TokenKind::PlusEq => TokenKind::PlusEq,
            TokenKind::MinusEq => TokenKind::MinusEq,
            TokenKind::StarEq => TokenKind::StarEq,
            TokenKind::SlashEq => TokenKind::SlashEq,
            TokenKind::PercentEq => TokenKind::PercentEq,
            TokenKind::AmpEq => TokenKind::AmpEq,
            TokenKind::PipeEq => TokenKind::PipeEq,
            TokenKind::CaretEq => TokenKind::CaretEq,
            TokenKind::LshiftEq => TokenKind::LshiftEq,
            TokenKind::RshiftEq => TokenKind::RshiftEq,
            TokenKind::Inc => TokenKind::Inc,
            TokenKind::Dec => TokenKind::Dec,
            TokenKind::LParen => TokenKind::LParen,
            TokenKind::RParen => TokenKind::RParen,
            TokenKind::LBracket => TokenKind::LBracket,
            TokenKind::RBracket => TokenKind::RBracket,
            TokenKind::LBrace => TokenKind::LBrace,
            TokenKind::RBrace => TokenKind::RBrace,
            TokenKind::Comma => TokenKind::Comma,
            TokenKind::Dot => TokenKind::Dot,
            TokenKind::Semicolon => TokenKind::Semicolon,
            TokenKind::Colon => TokenKind::Colon,
            TokenKind::FatArrow => TokenKind::FatArrow,
            TokenKind::Eof => TokenKind::Eof,
        }
    }
}

} // verus!
