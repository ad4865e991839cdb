//! Recursive descent parser for Limbo.
//!
//! Produces an AST from a token stream. Uses Pratt parsing (operator
//! precedence climbing) for expressions.

use vstd::prelude::*;
use vstd::string::StringExecFns;
use crate::ast::{
    copy_adt_members, copy_expr, copy_module_members, copy_opt_expr,
    copy_opt_pick_cases, copy_opt_type, copy_params, copy_type, is_adt_member_copy, is_expr_copy,
    is_module_member_copy, is_opt_expr_copy, is_opt_pick_cases_copy, is_opt_type_copy, is_type_copy, AdtDecl, AdtMember, AltArm, AltDest, AltGuard, AltStmt, ArrayElem,
    ArrayIndex, BasicType, BinOp, Block, CaseArm, CasePattern, CaseStmt, ConstDecl, Decl, DoStmt,
    ExceptionDecl, Expr, ForStmt, FuncDecl, FuncSig, IfStmt, ImportDecl, Include, ModuleDecl,
    ModuleMember, Param, PickArm, PickCase, PickStmt, QualName, SourceFile, Stmt, Type,
    TypeAliasDecl, UnaryOp, VarDecl, WhileStmt,
};
use crate::lexer::{located_string, located_text, tokens_well_ordered};
use crate::token::{kind_debug_text, kind_tag, Span, Token, TokenKind};

verus! {

/// Parser error with source location.
#[derive(Clone, Debug)]
pub struct ParseError {
    pub file: String,
    pub span: Span,
    pub message: String,
}

impl ParseError {
    /// The error as it is displayed: `file:line:col: message`.
    pub fn to_string(&self) -> (r: String)
        ensures
            r@ == located_text(self.file@, self.span, self.message@),
    {
        located_string(&self.file, self.span, &self.message)
    }
}

/// The tag of the token kind at `i`.
pub open spec fn tag_of(tokens: Seq<Token>, i: int) -> u8 {
    kind_tag(tokens[i].kind)
}

/// Nothing at `pos` continues an expression parsed at binding power
/// `min_bp`: no postfix operator, and no infix, assignment, send or cons
/// operator that binds at least as tightly as `min_bp`.
pub open spec fn expr_stops(tokens: Seq<Token>, pos: int, min_bp: u8) -> bool {
    let k = tokens[pos].kind;
    let next_assign = pos + 1 < tokens.len() && tokens[pos + 1].kind is Assign;
    &&& !(k is LParen || k is Dot || k is Arrow || k is LBracket || k is Inc || k is Dec)
    &&& (infix_power(k) matches Some((l, _, _)) ==> l < min_bp)
    &&& (assign_power(k) is Some ==> 1 < min_bp)
    &&& ((k is ChanSend || (k is ChanRecv && next_assign)) ==> 1 < min_bp)
    &&& (k is ColonColon ==> CONS_BP < min_bp)
}

/// The tokens a parser reads: `ts`, and an `Eof` at the default place after
/// them where they do not already end with one.
pub open spec fn with_final_eof(ts: Seq<Token>) -> Seq<Token> {
    if ts.len() > 0 && ts.last().kind is Eof {
        ts
    } else {
        ts.push(Token { kind: TokenKind::Eof, span: Span { line: 0, col: 0 } })
    }
}

/// `sp` is the place of a token at or after `from`.
pub open spec fn at_token(tokens: Seq<Token>, from: int, sp: Span) -> bool {
    exists|i: int| from <= i < tokens.len() && #[trigger] tokens[i].span == sp
}

/// A token list the parser can read: it ends with `Eof`, and it is not so
/// long that counting over it could overflow.
pub open spec fn parsable(tokens: Seq<Token>) -> bool {
    &&& 1 <= tokens.len() <= u32::MAX
    &&& tokens.last().kind is Eof
}

/// What the lexer returns the parser accepts: the tokens of a source
/// shorter than `u32::MAX` bytes end with `Eof` and are few enough to count.
pub proof fn lemma_tokens_parsable(tokens: Seq<Token>, source_len: int)
    requires
        tokens_well_ordered(tokens),
        tokens.len() <= source_len + 1,
        source_len < u32::MAX,
    ensures
        parsable(tokens),
{
}

/// Binding power of `::`: below `|` (9) and above `&&` (5). Used as both the
/// left and the right binding power, which makes the operator right-associative.
pub const CONS_BP: u8 = 7;

/// Binding power of the operand of a prefix operator, and of the operand of a
/// cast. Every prefix operator binds tighter than `**`, so `-a ** b` is
/// `(-a) ** b`.
pub const UNARY_BP: u8 = 27;

/// The left and right binding power and the operator of an infix token.
/// Loosest first: `||`, `&&`, `::`, `|`, `^`, `&`, equality, relational,
/// shifts, additive, multiplicative, `**` (right-associative).
pub open spec fn infix_power(k: TokenKind) -> Option<(u8, u8, BinOp)> {
    match k {
        TokenKind::OrOr => Some((3, 4, BinOp::LogOr)),
        TokenKind::AndAnd => Some((5, 6, BinOp::LogAnd)),
        TokenKind::Pipe => Some((9, 10, BinOp::Or)),
        TokenKind::Caret => Some((11, 12, BinOp::Xor)),
        TokenKind::Amp => Some((13, 14, BinOp::And)),
        TokenKind::Eq => Some((15, 16, BinOp::Eq)),
        TokenKind::Neq => Some((15, 16, BinOp::Neq)),
        TokenKind::Lt => Some((17, 18, BinOp::Lt)),
        TokenKind::Gt => Some((17, 18, BinOp::Gt)),
        TokenKind::Leq => Some((17, 18, BinOp::Leq)),
        TokenKind::Geq => Some((17, 18, BinOp::Geq)),
        TokenKind::Lshift => Some((19, 20, BinOp::Lshift)),
        TokenKind::Rshift => Some((19, 20, BinOp::Rshift)),
        TokenKind::Plus => Some((21, 22, BinOp::Add)),
        TokenKind::Minus => Some((21, 22, BinOp::Sub)),
        TokenKind::Star => Some((23, 24, BinOp::Mul)),
        TokenKind::Slash => Some((23, 24, BinOp::Div)),
        TokenKind::Percent => Some((23, 24, BinOp::Mod)),
        TokenKind::Power => Some((26, 25, BinOp::Power)),
        _ => None,
    }
}

/// How an assignment operator assigns.
pub enum AssignKind {
    Simple,
    Compound(BinOp),
    Decl,
}

/// The kind of an assignment token (all bind with right power 1).
pub open spec fn assign_power(k: TokenKind) -> Option<AssignKind> {
    match k {
        TokenKind::Assign => Some(AssignKind::Simple),
        TokenKind::ColonEq => Some(AssignKind::Decl),
        TokenKind::PlusEq => Some(AssignKind::Compound(BinOp::Add)),
        TokenKind::MinusEq => Some(AssignKind::Compound(BinOp::Sub)),
        TokenKind::StarEq => Some(AssignKind::Compound(BinOp::Mul)),
        TokenKind::SlashEq => Some(AssignKind::Compound(BinOp::Div)),
        TokenKind::PercentEq => Some(AssignKind::Compound(BinOp::Mod)),
        TokenKind::AmpEq => Some(AssignKind::Compound(BinOp::And)),
        TokenKind::PipeEq => Some(AssignKind::Compound(BinOp::Or)),
        TokenKind::CaretEq => Some(AssignKind::Compound(BinOp::Xor)),
        TokenKind::LshiftEq => Some(AssignKind::Compound(BinOp::Lshift)),
        TokenKind::RshiftEq => Some(AssignKind::Compound(BinOp::Rshift)),
        _ => None,
    }
}

/// A statement that a label can name.
pub open spec fn label_target(k: TokenKind) -> bool {
    k is For || k is While || k is Do || k is Case || k is Alt || k is Pick || k is LBrace
}

/// What follows an identifier whose next token is at `i`: a qualified name
/// (`.ident`) and a bracketed type parameter list are stepped over
/// (`in_brackets` while inside one); then `(` starts a function, `:` or `,`
/// a declaration, `=` an assignment and `:=` a declaring assignment, and
/// anything else, or the end of the tokens, reads as a declaration.
pub open spec fn after_ident(t: Seq<Token>, i: int, in_brackets: bool) -> LookAhead
    decreases t.len() - i,
{
    if i < 0 || i >= t.len() {
        LookAhead::ColonDecl
    } else if in_brackets {
        if t[i].kind is RBracket {
            after_ident(t, i + 1, false)
        } else {
            after_ident(t, i + 1, true)
        }
    } else {
        match t[i].kind {
            TokenKind::Dot => if i + 1 < t.len() && t[i + 1].kind is Ident {
                after_ident(t, i + 2, false)
            } else {
                after_ident(t, i + 1, false)
            },
            TokenKind::LParen => LookAhead::FuncDef,
            TokenKind::LBracket => after_ident(t, i + 1, true),
            TokenKind::Colon => LookAhead::ColonDecl,
            TokenKind::Comma => LookAhead::ColonDecl,
            TokenKind::Assign => LookAhead::Assign,
            TokenKind::ColonEq => LookAhead::DeclAssign,
            _ => LookAhead::ColonDecl,
        }
    }
}

/// From `i`, `or ident` pairs (the identifier may be missing) lead to `=>`.
pub open spec fn pick_tag_from(t: Seq<Token>, i: int) -> bool
    decreases t.len() - i,
{
    if i < 0 || i >= t.len() {
        false
    } else {
        match t[i].kind {
            TokenKind::Or => if i + 1 < t.len() && t[i + 1].kind is Ident {
                pick_tag_from(t, i + 2)
            } else {
                pick_tag_from(t, i + 1)
            },
            TokenKind::FatArrow => true,
            _ => false,
        }
    }
}

/// From `i`, does a new parameter group start: names (or `nil`) separated
/// by commas that reach a `:` do not start one; anything else does.
pub open spec fn param_type_next_from(t: Seq<Token>, i: int) -> bool
    decreases t.len() - i,
{
    if i < 0 || i >= t.len() {
        true
    } else if t[i].kind is Ident || t[i].kind is Nil {
        if i + 1 < t.len() && t[i + 1].kind is Comma {
            param_type_next_from(t, i + 2)
        } else {
            !(i + 1 < t.len() && t[i + 1].kind is Colon)
        }
    } else {
        true
    }
}

/// From `i`, strings, identifiers, `*` and `or` lead to `=>`.
pub open spec fn exception_pattern_from(t: Seq<Token>, i: int) -> bool
    decreases t.len() - i,
{
    if i < 0 || i >= t.len() {
        false
    } else {
        match t[i].kind {
            TokenKind::FatArrow => true,
            TokenKind::Or => exception_pattern_from(t, i + 1),
            TokenKind::StringLit(_) => exception_pattern_from(t, i + 1),
            TokenKind::Ident(_) => exception_pattern_from(t, i + 1),
            TokenKind::Star => exception_pattern_from(t, i + 1),
            _ => false,
        }
    }
}

/// A token that can start the type of a local declaration after its `:`.
pub open spec fn local_type_start(k: TokenKind) -> bool {
    k is Int || k is Byte || k is Big || k is Real || k is String_ || k is Array || k is List || k is Chan
        || k is Ref || k is Fn || k is LParen || k is Cyclic || k is Import || k is Con || k is Type
        || k is Self_ || k is Ident
}

/// From `i`, `, ident` pairs (the identifier may be missing) lead to a `:`
/// that a type follows.
pub open spec fn local_decl_from(t: Seq<Token>, i: int) -> bool
    decreases t.len() - i,
{
    if i < 0 || i >= t.len() {
        false
    } else {
        match t[i].kind {
            TokenKind::Comma => if i + 1 < t.len() && t[i + 1].kind is Ident {
                local_decl_from(t, i + 2)
            } else {
                local_decl_from(t, i + 1)
            },
            TokenKind::Colon => i + 1 < t.len() && local_type_start(t[i + 1].kind),
            _ => false,
        }
    }
}

/// A keyword that starts a statement which a `case` pattern cannot hold.
pub open spec fn case_stmt_keyword(k: TokenKind) -> bool {
    k is If || k is For || k is While || k is Do || k is Case || k is Return || k is Break || k is Continue
        || k is Exit || k is Spawn || k is Raise || k is Alt || k is Pick
}

/// Scanning from `i` to `limit` at bracket depth `depth`: a `=>` at depth
/// 0 is found before a closing bracket, `;` or statement keyword at depth
/// 0 ends the search.
pub open spec fn case_scan(t: Seq<Token>, i: int, limit: int, depth: int) -> bool
    decreases limit - i,
{
    if i < 0 || i >= limit || i >= t.len() {
        false
    } else {
        let k = t[i].kind;
        if k is FatArrow {
            depth == 0 || case_scan(t, i + 1, limit, depth)
        } else if k is LParen || k is LBracket || k is LBrace {
            case_scan(t, i + 1, limit, depth + 1)
        } else if k is RParen || k is RBracket || k is RBrace {
            depth > 0 && case_scan(t, i + 1, limit, depth - 1)
        } else if k is Semicolon || case_stmt_keyword(k) {
            depth != 0 && case_scan(t, i + 1, limit, depth)
        } else {
            case_scan(t, i + 1, limit, depth)
        }
    }
}

/// How far a look-ahead of at most `n` tokens from `pos` reaches.
pub open spec fn look_limit(len: int, pos: int, n: int) -> int {
    if len - pos > n {
        pos + n
    } else {
        len
    }
}

/// Scanning from `i` to `limit`: `=>` comes before `;`, `{` or `}`.
pub open spec fn alt_scan(t: Seq<Token>, i: int, limit: int) -> bool
    decreases limit - i,
{
    if i < 0 || i >= limit || i >= t.len() {
        false
    } else {
        let k = t[i].kind;
        if k is FatArrow {
            true
        } else if k is Semicolon || k is LBrace || k is RBrace {
            false
        } else {
            alt_scan(t, i + 1, limit)
        }
    }
}

/// The first index from `i` on that holds `]` or `Eof`, or the end.
pub open spec fn bracket_stop(t: Seq<Token>, i: int) -> int
    decreases t.len() - i,
{
    if i < 0 || i >= t.len() {
        i
    } else if t[i].kind is RBracket || t[i].kind is Eof {
        i
    } else {
        bracket_stop(t, i + 1)
    }
}

/// Where stepping over a type parameter list at `i` leaves the cursor:
/// past the first `]` after a `[`, or at `Eof`; where `i` holds no `[`, at
/// `i`.
pub open spec fn past_type_params(t: Seq<Token>, i: int) -> int {
    if 0 <= i < t.len() && t[i].kind is LBracket {
        let k = bracket_stop(t, i + 1);
        if 0 <= k < t.len() && t[k].kind is RBracket {
            k + 1
        } else {
            k
        }
    } else {
        i
    }
}

/// The first index from `i` on that holds `}` or `Eof`, or the end.
pub open spec fn brace_stop(t: Seq<Token>, i: int) -> int
    decreases t.len() - i,
{
    if i < 0 || i >= t.len() {
        i
    } else if t[i].kind is RBrace || t[i].kind is Eof {
        i
    } else {
        brace_stop(t, i + 1)
    }
}

/// Where skipping to a closing brace from `i` leaves the cursor: past the
/// first `}`, or at `Eof`.
pub open spec fn past_close_brace(t: Seq<Token>, i: int) -> int {
    let k = brace_stop(t, i);
    if 0 <= k < t.len() && t[k].kind is RBrace {
        k + 1
    } else {
        k
    }
}

/// A token that closes a list of expressions.
pub open spec fn list_closer(k: TokenKind) -> bool {
    k is RParen || k is RBracket || k is RBrace
}

/// A trigger for the quantifier in `top_items`: it holds of every position
/// that is not negative and says nothing else.
pub open spec fn trigger_end(m: int) -> bool {
    0 <= m
}

/// The names after `implement` from `start`: identifiers separated by
/// commas and ended by `;`.
pub open spec fn implement_at(t: Seq<Token>, start: int, names: Seq<String>) -> bool {
    &&& names.len() >= 1
    &&& 0 <= start
    &&& start + 2 * names.len() <= t.len()
    &&& forall|j: int| 0 <= j < names.len() ==> {
        &&& t[start + 2 * j].kind == TokenKind::Ident(#[trigger] names[j])
        &&& if j + 1 < names.len() {
            t[start + 2 * j + 1].kind is Comma
        } else {
            t[start + 2 * j + 1].kind is Semicolon
        }
    }
}

/// A top-level declaration item from `q` that ends just before `end` gives
/// `ds`: a function with its body's statements, a declaration group, or a
/// variable set by `=` or `:=`.
#[verifier::opaque]
pub open spec fn top_decl_rel(t: Seq<Token>, q: int, ds: Seq<Decl>, end: int) -> bool {
    0 <= q && q + 1 < t.len() && (t[q].kind matches TokenKind::Ident(name) && match after_ident(t, q + 1, false) {
        LookAhead::FuncDef => ds.len() == 1 && (ds[0] matches Decl::Func(f) && f.span == t[q].span && f.sig.name
            == f.name.name && exists|m: int| #[trigger] trigger_end(m) && q < m < t.len() && t[m].kind is LBrace
            && f.body.span == t[m].span && block_rel(t, m + 1, f.body.stmts@, end)),
        LookAhead::ColonDecl => exists|names: Seq<String>| #[trigger] names_at(t, q, names) && declares(
            ds,
            names,
            t[q + 2 * names.len()].kind,
            t[q].span,
        ) && colon_decl_body(t, q + 2 * names.len(), ds, end),
        LookAhead::Assign => ds.len() == 1 && (ds[0] matches Decl::Var(v) && v.names@ == seq![name] && v.ty is None
            && v.span == t[q].span && t[q + 1].kind is Assign && q + 2 < end && t[end - 1].kind is Semicolon && (
        v.init matches Some(x) && expr_rel(t, q + 2, 0, x, end - 1))),
        LookAhead::DeclAssign => ds.len() == 1 && (ds[0] matches Decl::Var(v) && v.names@ == seq![name] && v.ty is None
            && v.span == t[q].span && t[q + 1].kind is ColonEq && q + 2 < end && t[end - 1].kind is Semicolon && (
        v.init matches Some(x) && expr_rel(t, q + 2, 0, x, end - 1))),
    })
}

/// The top-level items from `q` to `Eof`: `include "path";` items give
/// `incs`, in order, and the other items are declaration items whose
/// declarations, one after another, make `ds`.
pub open spec fn top_items(t: Seq<Token>, q: int, incs: Seq<Include>, ds: Seq<Decl>) -> bool
    decreases t.len() - q,
{
    if q < 0 || q >= t.len() {
        false
    } else if t[q].kind is Eof {
        incs.len() == 0 && ds.len() == 0
    } else if t[q].kind is Include {
        q + 2 < t.len() && (t[q + 1].kind matches TokenKind::StringLit(path) && t[q + 2].kind is Semicolon
            && incs.len() > 0 && incs[0] == Include { path, span: t[q].span } && top_items(
            t,
            q + 3,
            incs.drop_first(),
            ds,
        ))
    } else {
        exists|k: int, m: int| #![trigger trigger_end(k), trigger_end(m)] 1 <= k <= ds.len() && q < m <= t.len()
            && top_decl_rel(t, q, ds.take(k), m) && top_items(t, m, incs, ds.skip(k))
    }
}

/// A declaration item followed by more items makes the items from its
/// start.
proof fn lemma_decl_item(t: Seq<Token>, q: int, m: int, dd: Seq<Decl>, incs: Seq<Include>, rest: Seq<Decl>)
    requires
        top_decl_rel(t, q, dd, m),
        dd.len() >= 1,
        q < m <= t.len(),
        top_items(t, m, incs, rest),
    ensures
        top_items(t, q, incs, dd + rest),
{
    reveal(top_decl_rel);
    let all = dd + rest;
    let k = dd.len() as int;
    assert(all.take(k) =~= dd);
    assert(all.skip(k) =~= rest);
    assert(trigger_end(k) && trigger_end(m));
}

/// Names read one by one, each after a comma, and a `;` after the last
/// make an `implement` line.
proof fn lemma_implement_at(t: Seq<Token>, p0: int, names: Seq<String>, semi: int)
    requires
        names.len() >= 1,
        0 <= p0,
        semi == p0 + 2 * names.len(),
        semi < t.len(),
        t[semi].kind is Semicolon,
        forall|j: int| 0 <= j < names.len() ==> t[p0 + 1 + 2 * j].kind == TokenKind::Ident(#[trigger] names[j])
            && (j + 1 < names.len() ==> t[p0 + 2 + 2 * j].kind is Comma),
    ensures
        implement_at(t, p0 + 1, names),
{
    assert forall|j: int| 0 <= j < names.len() implies {
        &&& t[p0 + 1 + 2 * j].kind == TokenKind::Ident(#[trigger] names[j])
        &&& if j + 1 < names.len() {
            t[p0 + 1 + 2 * j + 1].kind is Comma
        } else {
            t[p0 + 1 + 2 * j + 1].kind is Semicolon
        }
    } by {
        assert(t[p0 + 1 + 2 * j].kind == TokenKind::Ident(names[j]));
    }
}

/// A basic type's keyword.
pub open spec fn basic_type_kind(k: TokenKind) -> bool {
    k is Int || k is Byte || k is Big || k is Real || k is String_
}

/// From `p`: `name: T` with `T` a basic type, and then neither `=` nor the
/// `;` that has to end the declaration.
pub open spec fn semi_missing_var(t: Seq<Token>, p: int) -> bool {
    0 <= p && p + 3 < t.len() && t[p].kind is Ident && t[p + 1].kind is Colon && basic_type_kind(t[p + 2].kind)
        && !(t[p + 3].kind is Assign) && !(t[p + 3].kind is Semicolon)
}

/// `e` reports that the token at `q` stands where a `;` is needed.
pub open spec fn missing_semi_error(t: Seq<Token>, q: int, e: ParseError) -> bool {
    e.span == t[q].span && e.message@ == "expected "@ + kind_debug_text(TokenKind::Semicolon) + ", got "@
        + kind_debug_text(t[q].kind)
}

/// From `q` to the end only `include "path";` items follow.
pub open spec fn includes_only(t: Seq<Token>, q: int) -> bool
    decreases t.len() - q,
{
    if q < 0 || q >= t.len() {
        false
    } else if t[q].kind is Eof {
        true
    } else {
        t[q].kind is Include && q + 2 < t.len() && t[q + 1].kind is StringLit && t[q + 2].kind is Semicolon
            && includes_only(t, q + 3)
    }
}

/// A file from `p` that holds no declarations: an optional `implement` of
/// one name, then includes only.
pub open spec fn header_only_file(t: Seq<Token>, p: int) -> bool {
    if 0 <= p < t.len() && t[p].kind is Implement {
        p + 2 < t.len() && t[p + 1].kind is Ident && t[p + 2].kind is Semicolon && includes_only(t, p + 3)
    } else {
        includes_only(t, p)
    }
}

/// A source file from `p`: an optional `implement` line naming `names`,
/// then the top-level items, `incs` the includes among them and `ds` the
/// declarations of the others.
pub open spec fn file_items(t: Seq<Token>, p: int, names: Seq<String>, incs: Seq<Include>, ds: Seq<Decl>) -> bool {
    if 0 <= p < t.len() && t[p].kind is Implement {
        implement_at(t, p + 1, names) && top_items(t, p + 1 + 2 * names.len(), incs, ds)
    } else {
        names.len() == 0 && top_items(t, p, incs, ds)
    }
}

/// What a parsed file holds against its tokens from `p`: its `implement`
/// names, its includes, and its declarations, each read from its item, in
/// order.
pub open spec fn file_shape(t: Seq<Token>, p: int, f: SourceFile) -> bool {
    file_items(t, p, f.implement@, f.includes@, f.decls@)
}

/// Whether a local declaration starts at `p`: an identifier, not a label
/// or `name: ;`, then `, name` pairs up to a `:` that a type follows.
pub open spec fn local_decl_start(t: Seq<Token>, p: int) -> bool {
    t[p].kind is Ident && !(p + 2 < t.len() && t[p + 1].kind is Colon && (label_target(t[p + 2].kind)
        || t[p + 2].kind is Semicolon)) && local_decl_from(t, p + 1)
}

/// What the local declaration `names: ...` whose keyword or type starts at
/// `q` gives, ending just before `end`: an import of a module; nothing for
/// `con` and `type`; otherwise a variable of a type and an optional
/// initializer.
pub open spec fn local_decl_result(t: Seq<Token>, q: int, names: Seq<String>, st: Stmt, end: int) -> bool {
    &&& t[end - 1].kind is Semicolon
    &&& match t[q].kind {
        TokenKind::Import => st matches Stmt::Import(imp) && imp.names@ == names && t[q + 1].kind == TokenKind::Ident(
            imp.module,
        ) && end == q + 3,
        TokenKind::Con | TokenKind::Type => st is Empty,
        _ => st matches Stmt::VarDecl(v) && v.names@ == names && (v.ty matches Some(ty) && type_shape(t[q].kind, ty))
            && (v.init matches Some(x) ==> exists|a: int| q < a && t[a].kind is Assign && #[trigger] expr_rel(
            t,
            a + 1,
            0,
            x,
            end - 1,
        )),
    }
}

/// A token that opens a statement of its own kind.
pub open spec fn stmt_keyword(k: TokenKind) -> bool {
    k is LBrace || k is If || k is For || k is While || k is Do || k is Return || k is Break || k is Continue
        || k is Exit || k is Spawn || k is Raise || k is Case || k is Pick || k is Alt || k is Semicolon
        || k is Exception
}

/// The statements of a block from `q` on, up to the `}` that ends it;
/// `end` is just past the `}`.
pub open spec fn block_rel(t: Seq<Token>, q: int, stmts: Seq<Stmt>, end: int) -> bool
    decreases t.len() - q, 2int,
{
    if q < 0 || q >= t.len() {
        false
    } else if t[q].kind is RBrace {
        stmts.len() == 0 && end == q + 1
    } else if t[q].kind is Eof {
        false
    } else {
        stmts.len() > 0 && exists|m: int| #[trigger] trigger_end(m) && q < m <= t.len() && stmt_more(t, q, stmts[0], m)
            && block_rel(t, m, stmts.drop_first(), end)
    }
}

/// An `if`, `while`, `do` or `for` statement at `p` that ends just before
/// `end`: its conditions and clauses are the expressions between its
/// parentheses, and its branches and body are the statements that follow.
pub open spec fn compound_rel(t: Seq<Token>, p: int, st: Stmt, end: int) -> bool
    decreases t.len() - p, 0int,
{
    if p < 0 || p + 1 >= t.len() {
        false
    } else {
        let sp = t[p].span;
        match t[p].kind {
            TokenKind::If => t[p + 1].kind is LParen && (st matches Stmt::If(IfStmt { cond, then: th, else_: el, span: s })
                && s == sp && exists|m: int| #[trigger] trigger_end(m) && p + 2 < m < t.len() && expr_rel(t, p + 2, 0, cond, m)
                && t[m].kind is RParen && exists|m2: int| #[trigger] trigger_end(m2) && m + 1 < m2 <= t.len() && stmt_more(
                t,
                m + 1,
                *th,
                m2,
            ) && if m2 < t.len() && t[m2].kind is Else {
                el matches Some(e) && m2 + 1 < end && stmt_more(t, m2 + 1, *e, end)
            } else {
                el is None && end == m2
            }),
            TokenKind::While => t[p + 1].kind is LParen && (st matches Stmt::While(w) && w.span == sp && exists|m: int|
                #[trigger] trigger_end(m) && p + 2 < m < t.len() && expr_rel(t, p + 2, 0, w.cond, m) && t[m].kind is RParen
                && m + 1 < end && stmt_more(t, m + 1, *w.body, end)),
            TokenKind::Do => st matches Stmt::Do(d) && d.span == sp && exists|m: int| #[trigger] trigger_end(m) && p + 1 < m
                && m + 1 < t.len() && stmt_more(t, p + 1, *d.body, m) && t[m].kind is While && t[m + 1].kind is LParen
                && exists|m2: int| #[trigger] trigger_end(m2) && m + 2 < m2 && m2 + 1 < t.len() && expr_rel(
                t,
                m + 2,
                0,
                d.cond,
                m2,
            ) && t[m2].kind is RParen && t[m2 + 1].kind is Semicolon && end == m2 + 2,
            TokenKind::For => t[p + 1].kind is LParen && (st matches Stmt::For(f) && f.span == sp && exists|a: int|
                #[trigger] trigger_end(a) && p + 2 <= a < t.len() && (if t[p + 2].kind is Semicolon {
                f.init is None && a == p + 2
            } else {
                f.init matches Some(s) && (*s matches Stmt::Expr(e) && p + 2 < a && expr_rel(t, p + 2, 0, e, a))
            }) && t[a].kind is Semicolon && exists|b: int| #[trigger] trigger_end(b) && a + 1 <= b < t.len() && (if t[a
                + 1].kind is Semicolon {
                f.cond is None && b == a + 1
            } else {
                f.cond matches Some(e) && a + 1 < b && expr_rel(t, a + 1, 0, e, b)
            }) && t[b].kind is Semicolon && exists|c: int| #[trigger] trigger_end(c) && b + 1 <= c < t.len() && (if t[b
                + 1].kind is RParen {
                f.post is None && c == b + 1
            } else {
                f.post matches Some(s) && (*s matches Stmt::Expr(e) && b + 1 < c && expr_rel(t, b + 1, 0, e, c))
            }) && t[c].kind is RParen && c + 1 < end && stmt_more(t, c + 1, *f.body, end)),
            _ => false,
        }
    }
}

/// What a statement at `p` that ends just before `end` holds, beyond its
/// kind: the expressions of `return`, `raise` and `spawn`, the labels of
/// `break` and `continue`, and, for a statement that no keyword opens, a
/// label with its statement, a local declaration, a local include, or an
/// expression statement.
pub open spec fn stmt_more(t: Seq<Token>, p: int, st: Stmt, end: int) -> bool
    decreases t.len() - p, 1int,
{
    let k = t[p].kind;
    let sp = t[p].span;
    if p < 0 || p >= t.len() {
        false
    } else if k is If || k is While || k is Do || k is For {
        compound_rel(t, p, st, end)
    } else if k is Case {
        st matches Stmt::Case(c) && c.span == sp && exists|m: int| #[trigger] trigger_end(m) && p < m && m + 1 < t.len() && expr_rel(
            t,
            p + 1,
            0,
            c.expr,
            m,
        ) && t[m].kind is LBrace && case_arms_rel(t, m + 1, c.arms@, end)
    } else if k is Pick {
        p + 2 < t.len() && (st matches Stmt::Pick(ps) && ps.span == sp && t[p + 1].kind == TokenKind::Ident(ps.name)
            && t[p + 2].kind is ColonEq && exists|m: int| #[trigger] trigger_end(m) && p + 3 < m && m + 1 < t.len()
            && expr_rel(t, p + 3, 0, ps.expr, m) && t[m].kind is LBrace && pick_arms_rel(t, m + 1, ps.arms@, end))
    } else if k is Alt {
        p + 2 < t.len() && (st matches Stmt::Alt(a) && a.span == sp && alt_arms_rel(t, p + 2, a.arms@, end))
    } else if k is LBrace {
        st matches Stmt::Block(b) && b.span == sp && exists|m: int| #[trigger] trigger_end(m) && p < m <= end
            && block_rel(t, p + 1, b.stmts@, m) && (end == m || (m < t.len() && t[m].kind is Exception))
    } else if k is Return || k is Raise {
        &&& t[end - 1].kind is Semicolon
        &&& match st {
            Stmt::Return(x, s) => s == sp && (x is None <==> t[p + 1].kind is Semicolon) && (x matches Some(e)
                ==> expr_rel(t, p + 1, 0, e, end - 1)),
            Stmt::Raise(x, s) => s == sp && (x is None <==> t[p + 1].kind is Semicolon) && (x matches Some(e)
                ==> expr_rel(t, p + 1, 0, e, end - 1)),
            _ => false,
        }
    } else if k is Spawn {
        t[end - 1].kind is Semicolon && (st matches Stmt::Spawn(e, s) && s == sp && expr_rel(t, p + 1, 0, e, end - 1))
    } else if k is Break || k is Continue {
        match st {
            Stmt::Break(l, s) => s == sp && match l {
                Some(n) => t[p + 1].kind == TokenKind::Ident(n),
                None => !(t[p + 1].kind is Ident),
            },
            Stmt::Continue(l, s) => s == sp && match l {
                Some(n) => t[p + 1].kind == TokenKind::Ident(n),
                None => !(t[p + 1].kind is Ident),
            },
            _ => false,
        }
    } else if stmt_keyword(k) {
        true
    } else if k is Ident && p + 2 < t.len() && t[p + 1].kind is Colon && label_target(t[p + 2].kind) {
        st matches Stmt::Label(l, inner) && k == TokenKind::Ident(l) && stmt_shape(t[p + 2].kind, *inner) && stmt_more(
            t,
            p + 2,
            *inner,
            end,
        )
    } else if local_decl_start(t, p) {
        exists|names: Seq<String>| #[trigger] names_at(t, p, names) && local_decl_result(t, p + 2 * names.len(), names, st, end)
    } else if k is Include {
        st is Empty
    } else {
        t[end - 1].kind is Semicolon && (st matches Stmt::Expr(e) && expr_rel(t, p, 0, e, end - 1))
    }
}

/// The guard that the expression `e` of an `alt` arm stands for: a send,
/// or a receive with where its value goes.
pub open spec fn alt_guard_of(e: Expr) -> AltGuard {
    match e {
        Expr::DeclAssign(names, rhs, _) => match *rhs {
            Expr::Recv(chan, _) => AltGuard::Recv(Some(AltDest::Decl(names)), *chan),
            _ => AltGuard::Wildcard,
        },
        Expr::TupleDeclAssign(names, rhs, _) => match *rhs {
            Expr::Recv(chan, _) => AltGuard::Recv(Some(AltDest::TupleDecl(names)), *chan),
            _ => AltGuard::Wildcard,
        },
        Expr::Assign(lhs, rhs, _) => match *rhs {
            Expr::Recv(chan, _) => AltGuard::Recv(Some(AltDest::Assign(*lhs)), *chan),
            _ => AltGuard::Wildcard,
        },
        Expr::Send(chan, val, _) => AltGuard::Send(*chan, *val),
        Expr::Recv(chan, _) => AltGuard::Recv(None, *chan),
        _ => AltGuard::Wildcard,
    }
}

/// The guards of an `alt` arm from `q`: expressions joined by `or`, one
/// guard each and in order, ended by `=>` at `end`.
pub open spec fn alt_guards_from(t: Seq<Token>, q: int, gs: Seq<AltGuard>, end: int) -> bool
    decreases t.len() - q,
{
    if q < 0 || q >= t.len() {
        false
    } else {
        gs.len() >= 1 && exists|e: Expr, m: int| #[trigger] trigger_expr_end(e, m) && q < m < t.len()
            && expr_rel(t, q, 0, e, m) && alt_guard_form(e) && gs[0] == alt_guard_of(e) && if t[m].kind is Or {
            alt_guards_from(t, m + 1, gs.drop_first(), end)
        } else {
            gs.len() == 1 && end == m && t[m].kind is FatArrow
        }
    }
}

/// Where the guards of another `alt` arm start, as the parser looks ahead.
pub open spec fn alt_arm_start(t: Seq<Token>, q: int) -> bool {
    (t[q].kind is Star && q + 1 < t.len() && (t[q + 1].kind is FatArrow || t[q + 1].kind is Or)) || alt_scan(
        t,
        q,
        look_limit(t.len() as int, q, 30),
    )
}

/// The body of an `alt` arm from `q`: the statements up to the `}` of the
/// `alt`, the end of the tokens or the guards of the next arm, at `end`.
pub open spec fn alt_body_rel(t: Seq<Token>, q: int, stmts: Seq<Stmt>, end: int) -> bool
    decreases t.len() - q, 2int,
{
    if q < 0 || q >= t.len() {
        false
    } else if t[q].kind is RBrace || t[q].kind is Eof || alt_arm_start(t, q) {
        stmts.len() == 0 && end == q
    } else {
        stmts.len() > 0 && exists|m: int| #[trigger] trigger_end(m) && q < m <= t.len() && stmt_more(t, q, stmts[0], m)
            && alt_body_rel(t, m, stmts.drop_first(), end)
    }
}

/// An `alt` arm from `q` that ends at `end`: `*` or its or-joined guards,
/// each kept in order, then `=>` and its body.
pub open spec fn alt_arm_rel(t: Seq<Token>, q: int, arm: AltArm, end: int) -> bool
    decreases t.len() - q, 3int,
{
    if q < 0 || q + 1 >= t.len() {
        false
    } else if t[q].kind is Star && (t[q + 1].kind is FatArrow || t[q + 1].kind is Or) {
        arm.guards@ == seq![AltGuard::Wildcard] && t[q + 1].kind is FatArrow && alt_body_rel(t, q + 2, arm.body@, end)
    } else {
        exists|a: int| #[trigger] trigger_end(a) && q < a && a + 1 < t.len() && alt_guards_from(t, q, arm.guards@, a)
            && t[a].kind is FatArrow && alt_body_rel(t, a + 1, arm.body@, end)
    }
}

/// The arms of an `alt` from `q`, in order, up to its `}`; `end` is just
/// past the `}`.
pub open spec fn alt_arms_rel(t: Seq<Token>, q: int, arms: Seq<AltArm>, end: int) -> bool
    decreases t.len() - q, 4int,
{
    if q < 0 || q >= t.len() {
        false
    } else if t[q].kind is RBrace {
        arms.len() == 0 && end == q + 1
    } else if t[q].kind is Eof {
        false
    } else {
        arms.len() > 0 && exists|m: int| #[trigger] trigger_end(m) && q < m <= t.len() && alt_arm_rel(t, q, arms[0], m)
            && alt_arms_rel(t, m, arms.drop_first(), end)
    }
}

/// Where a `case` arm's body stops, as the parser looks ahead: the `}` of
/// the `case`, the end of the tokens, or the patterns of the next arm.
pub open spec fn case_stop(t: Seq<Token>, q: int) -> bool {
    let k = t[q].kind;
    ||| k is RBrace
    ||| k is Eof
    ||| (k is Star && q + 1 < t.len() && (t[q + 1].kind is FatArrow || t[q + 1].kind is Or))
    ||| (!(k is LBrace || k is Semicolon || case_stmt_keyword(k)) && ((q + 1 < t.len() && t[q + 1].kind is FatArrow)
        || case_scan(t, q, look_limit(t.len() as int, q, 60), 0)))
}

/// The body of a `case` arm from `q`, ending at `end`: statements read one
/// after another up to where the body stops. Where a statement does not
/// read, the tokens from it on are passed over up to a place where the body
/// stops.
pub open spec fn case_body_rel(t: Seq<Token>, q: int, stmts: Seq<Stmt>, end: int) -> bool
    decreases t.len() - q, 2int,
{
    if q < 0 || q >= t.len() {
        false
    } else if case_stop(t, q) {
        stmts.len() == 0 && end == q
    } else {
        ||| (stmts.len() == 0 && q < end < t.len() && case_stop(t, end))
        ||| (stmts.len() > 0 && exists|m: int| #[trigger] trigger_end(m) && q < m <= t.len() && stmt_more(
            t,
            q,
            stmts[0],
            m,
        ) && case_body_rel(t, m, stmts.drop_first(), end))
    }
}

/// A `case` arm from `q` that ends at `end`: its patterns up to `=>`, and
/// its body.
pub open spec fn case_arm_rel(t: Seq<Token>, q: int, arm: CaseArm, end: int) -> bool
    decreases t.len() - q, 3int,
{
    exists|a: int| #[trigger] trigger_end(a) && q < a && a + 1 < t.len() && case_patterns_from(t, q, arm.patterns@, a)
        && t[a].kind is FatArrow && case_body_rel(t, a + 1, arm.body@, end)
}

/// The arms of a `case` from `q`, in order, up to its `}`; `end` is just
/// past the `}`.
pub open spec fn case_arms_rel(t: Seq<Token>, q: int, arms: Seq<CaseArm>, end: int) -> bool
    decreases t.len() - q, 4int,
{
    if q < 0 || q >= t.len() {
        false
    } else if t[q].kind is RBrace {
        arms.len() == 0 && end == q + 1
    } else if t[q].kind is Eof {
        false
    } else {
        arms.len() > 0 && exists|m: int| #[trigger] trigger_end(m) && q < m <= t.len() && case_arm_rel(t, q, arms[0], m)
            && case_arms_rel(t, m, arms.drop_first(), end)
    }
}

/// The tags after the first of a `pick` arm, from `x`: `or tag` pairs,
/// then `a`, where they end.
pub open spec fn pick_tags_after(t: Seq<Token>, x: int, tags: Seq<String>, a: int) -> bool
    decreases t.len() - x,
{
    if 0 <= x && x + 1 < t.len() && t[x].kind is Or {
        tags.len() > 0 && t[x + 1].kind == TokenKind::Ident(tags[0]) && pick_tags_after(t, x + 2, tags.drop_first(), a)
    } else {
        tags.len() == 0 && a == x
    }
}

/// Where a `pick` arm's body stops: the `}` of the `pick`, the end of the
/// tokens, or the tags of the next arm.
pub open spec fn pick_stop(t: Seq<Token>, q: int) -> bool {
    ||| t[q].kind is RBrace
    ||| t[q].kind is Eof
    ||| (t[q].kind is Ident && pick_tag_from(t, q + 1))
    ||| (t[q].kind is Star && q + 1 < t.len() && (t[q + 1].kind is FatArrow || t[q + 1].kind is Or))
}

/// The body of a `pick` arm from `q`, up to where it stops at `end`.
pub open spec fn pick_body_rel(t: Seq<Token>, q: int, stmts: Seq<Stmt>, end: int) -> bool
    decreases t.len() - q, 2int,
{
    if q < 0 || q >= t.len() {
        false
    } else if pick_stop(t, q) {
        stmts.len() == 0 && end == q
    } else {
        stmts.len() > 0 && exists|m: int| #[trigger] trigger_end(m) && q < m <= t.len() && stmt_more(t, q, stmts[0], m)
            && pick_body_rel(t, m, stmts.drop_first(), end)
    }
}

/// A `pick` arm from `q` that ends at `end`: `*` or its or-joined tags,
/// then `=>` and its body.
pub open spec fn pick_arm_rel(t: Seq<Token>, q: int, arm: PickArm, end: int) -> bool
    decreases t.len() - q, 3int,
{
    if q < 0 || q + 1 >= t.len() {
        false
    } else if t[q].kind is Star && (t[q + 1].kind is FatArrow || t[q + 1].kind is Or) {
        arm.tags@.len() == 1 && arm.tags@[0]@ == "*"@ && t[q + 1].kind is FatArrow && pick_body_rel(
            t,
            q + 2,
            arm.body@,
            end,
        )
    } else {
        arm.tags@.len() > 0 && t[q].kind == TokenKind::Ident(arm.tags@[0]) && exists|a: int| #[trigger] trigger_end(a)
            && q < a && a + 1 < t.len() && pick_tags_after(t, q + 1, arm.tags@.drop_first(), a) && t[a].kind is FatArrow
            && pick_body_rel(t, a + 1, arm.body@, end)
    }
}

/// The arms of a `pick` from `q`, in order, up to its `}`; `end` is just
/// past the `}`.
pub open spec fn pick_arms_rel(t: Seq<Token>, q: int, arms: Seq<PickArm>, end: int) -> bool
    decreases t.len() - q, 4int,
{
    if q < 0 || q >= t.len() {
        false
    } else if t[q].kind is RBrace {
        arms.len() == 0 && end == q + 1
    } else if t[q].kind is Eof {
        false
    } else {
        arms.len() > 0 && exists|m: int| #[trigger] trigger_end(m) && q < m <= t.len() && pick_arm_rel(t, q, arms[0], m)
            && pick_arms_rel(t, m, arms.drop_first(), end)
    }
}

/// The patterns of a `case` arm from `q`: `*`, an expression, or a range
/// `lo to hi`, joined by `or`, one pattern each and in order, ending at
/// `end`.
pub open spec fn case_patterns_from(t: Seq<Token>, q: int, ps: Seq<CasePattern>, end: int) -> bool
    decreases t.len() - q, 1int,
{
    if q < 0 || q >= t.len() {
        false
    } else if t[q].kind is Star && q + 1 < t.len() && (t[q + 1].kind is FatArrow || t[q + 1].kind is Or) {
        ps.len() >= 1 && ps[0] == CasePattern::Wildcard && case_patterns_after(t, q + 1, ps, end)
    } else {
        ps.len() >= 1 && exists|e: Expr, m: int| #[trigger] trigger_expr_end(e, m) && q < m < t.len() && expr_rel(t, q, 0, e, m)
            && if t[m].kind is To {
            exists|e2: Expr, m2: int| #[trigger] trigger_expr_end(e2, m2) && m + 1 < m2 < t.len() && expr_rel(t, m + 1, 0, e2, m2)
                && ps[0] == CasePattern::Range(e, e2) && case_patterns_after(t, m2, ps, end)
        } else {
            ps[0] == CasePattern::Expr(e) && case_patterns_after(t, m, ps, end)
        }
    }
}

/// `ps` are the patterns of a `case` arm: read from some token and
/// followed by `=>`.
pub open spec fn case_arm_ok(t: Seq<Token>, ps: Seq<CasePattern>) -> bool {
    exists|q: int, end: int| #[trigger] case_patterns_from(t, q, ps, end) && t[end].kind is FatArrow
}

/// After the first of `ps`, at `x`: `or` and the rest, or the end.
pub open spec fn case_patterns_after(t: Seq<Token>, x: int, ps: Seq<CasePattern>, end: int) -> bool
    decreases t.len() - x, 0int,
{
    if 0 <= x < t.len() && t[x].kind is Or {
        case_patterns_from(t, x + 1, ps.drop_first(), end)
    } else {
        ps.len() == 1 && end == x
    }
}

/// The word `raises`, which the parser recognizes by name.
pub open spec fn spec_is_raises(n: Seq<char>) -> bool {
    n == "raises"@
}

fn is_raises_word(n: &String) -> (r: bool)
    ensures
        r == spec_is_raises(n@),
{
    let w = String::from_str("raises");
    *n == w
}

/// The outer form of a type parsed from a token of kind `k`.
pub open spec fn type_shape(k: TokenKind, t: Type) -> bool {
    match k {
        TokenKind::Int => t == Type::Basic(BasicType::Int),
        TokenKind::Byte => t == Type::Basic(BasicType::Byte),
        TokenKind::Big => t == Type::Basic(BasicType::Big),
        TokenKind::Real => t == Type::Basic(BasicType::Real),
        TokenKind::String_ => t == Type::Basic(BasicType::String),
        TokenKind::Array => t is Array,
        TokenKind::List => t is List,
        TokenKind::Chan => t is Chan,
        TokenKind::Ref => t is Ref,
        TokenKind::Fn => t is Func,
        TokenKind::Ident(name) => (t matches Type::Named(q) && (q.qualifier == Some(name) || (q.qualifier is None && q.name == name))),
        _ => true,
    }
}

// ── The type grammar ───────────────────────────────────────────

/// Reading a type from `p` gives `ty` and stops at `end`. A function type is
/// stated by its variant only.
pub open spec fn type_rel(t: Seq<Token>, p: int, ty: Type, end: int) -> bool
    decreases t.len() - p, 1int,
{
    if p < 0 || p >= t.len() {
        false
    } else {
        match t[p].kind {
            TokenKind::Int => ty == Type::Basic(BasicType::Int) && end == p + 1,
            TokenKind::Byte => ty == Type::Basic(BasicType::Byte) && end == p + 1,
            TokenKind::Big => ty == Type::Basic(BasicType::Big) && end == p + 1,
            TokenKind::Real => ty == Type::Basic(BasicType::Real) && end == p + 1,
            TokenKind::String_ => ty == Type::Basic(BasicType::String) && end == p + 1,
            TokenKind::Array => p + 1 < t.len() && t[p + 1].kind is Of && (ty matches Type::Array(x) && type_rel(
                t,
                p + 2,
                *x,
                end,
            )),
            TokenKind::List => p + 1 < t.len() && t[p + 1].kind is Of && (ty matches Type::List(x) && type_rel(
                t,
                p + 2,
                *x,
                end,
            )),
            TokenKind::Chan => p + 1 < t.len() && t[p + 1].kind is Of && (ty matches Type::Chan(x) && type_rel(
                t,
                p + 2,
                *x,
                end,
            )),
            TokenKind::Ref => ty matches Type::Ref(x) && type_rel(t, p + 1, *x, end),
            TokenKind::Self_ => type_rel(t, p + 1, ty, end),
            TokenKind::Fn => ty is Func && p < end <= t.len(),
            TokenKind::LParen => exists|first: Type, m: int| #[trigger] trigger_type_end(first, m) && p + 1 < m < t.len()
                && type_rel(t, p + 1, first, m) && if t[m].kind is Comma {
                ty matches Type::Tuple(v) && v@.len() >= 2 && v@[0] == first && type_tail(t, m, v@.drop_first(), end)
            } else {
                t[m].kind is RParen && ty == first && end == m + 1
            },
            TokenKind::Ident(name) => {
                let a = past_type_params(t, p + 1);
                if 0 <= a < t.len() && (t[a].kind is Arrow || t[a].kind is Dot) {
                    a + 1 < t.len() && (t[a + 1].kind matches TokenKind::Ident(member) && ty == Type::Named(
                        QualName { qualifier: Some(name), name: member },
                    ) && end == past_type_params(t, a + 2))
                } else {
                    ty == Type::Named(QualName { qualifier: None, name }) && end == a
                }
            },
            _ => false,
        }
    }
}

/// The types after the first of a list, from the token at `q`: more types
/// after commas, then `)`.
pub open spec fn type_tail(t: Seq<Token>, q: int, vs: Seq<Type>, end: int) -> bool
    decreases t.len() - q, 0int,
{
    if q < 0 || q >= t.len() {
        false
    } else if t[q].kind is Comma {
        vs.len() > 0 && exists|m: int| #[trigger] trigger_type_end(vs[0], m) && q + 1 < m <= t.len() && type_rel(
            t,
            q + 1,
            vs[0],
            m,
        ) && type_tail(t, m, vs.drop_first(), end)
    } else {
        t[q].kind is RParen && vs.len() == 0 && end == q + 1
    }
}

/// A trigger for the quantifiers of the type grammar: it holds of every type
/// and position that is not negative and says nothing else.
pub open spec fn trigger_type_end(ty: Type, m: int) -> bool {
    0 <= m
}

/// The outer form of an expression whose first token is `k` at `span`.
pub open spec fn prefix_shape(k: TokenKind, span: Span, e: Expr) -> bool {
    match k {
        TokenKind::IntLit(v) => e == Expr::IntLit(v, span),
        TokenKind::RealLit(t) => e == Expr::RealLit(t, span),
        TokenKind::StringLit(t) => e == Expr::StringLit(t, span),
        TokenKind::CharLit(v) => e == Expr::CharLit(v, span),
        TokenKind::Nil => e == Expr::Nil(span),
        TokenKind::Ident(n) => e == Expr::Ident(n, span),
        TokenKind::Iota => (e matches Expr::Ident(n, s) && n@ == "iota"@ && s == span),
        TokenKind::Inc => e is PostInc,
        TokenKind::Dec => e is PostDec,
        TokenKind::Minus => (e matches Expr::Unary(op, _, _) && op == UnaryOp::Neg),
        TokenKind::Bang => (e matches Expr::Unary(op, _, _) && op == UnaryOp::Not),
        TokenKind::Tilde => (e matches Expr::Unary(op, _, _) && op == UnaryOp::BitNot),
        TokenKind::Ref => (e matches Expr::Unary(op, _, _) && op == UnaryOp::Ref),
        TokenKind::Hd => e is Hd,
        TokenKind::Tl => e is Tl,
        TokenKind::Len => e is Len,
        TokenKind::Tagof => e is Tagof,
        TokenKind::ChanRecv => e is Recv,
        TokenKind::Chan => e is ChanAlloc,
        TokenKind::List => e is ListLit,
        TokenKind::Load => e is Load,
        TokenKind::LBrace => e == Expr::Nil(span),
        _ => true,
    }
}

// ── The expression grammar ─────────────────────────────────────
//
// `expr_rel(t, p, bp, e, end)`: reading an expression at binding power
// `bp` from token `p` can give `e` and stop at `end`. An operand is read by
// `prefix_rel`, and `climb_rel` applies postfix, infix, assignment, send and
// cons operators to it, in the order of their binding powers, for as long as
// one binds at least as tightly as `bp`. Casts, allocations and array, list
// and channel constructors are stated by their variant and span only.

/// A token that is a whole operand by itself: a literal, `nil`, a name
/// or `iota`.
pub open spec fn atom_kind(k: TokenKind) -> bool {
    k is IntLit || k is RealLit || k is StringLit || k is CharLit || k is Nil || k is Ident || k is Iota
}

/// From `p`: an operand, an infix operator that binds at `bp`, and a second
/// operand after which the expression ends both for the operator and at
/// `bp`.
pub open spec fn atom_binary(t: Seq<Token>, p: int, bp: u8) -> bool {
    &&& 0 <= p && p + 3 < t.len()
    &&& atom_kind(t[p].kind)
    &&& infix_power(t[p + 1].kind) matches Some((l, r, _)) && l >= bp && expr_stops(t, p + 3, r)
    &&& atom_kind(t[p + 2].kind)
    &&& expr_stops(t, p + 3, bp)
}

/// `e` applies the operator at `p + 1` to the operands at `p` and `p + 2`.
pub open spec fn atom_binary_shape(t: Seq<Token>, p: int, e: Expr) -> bool {
    &&& e matches Expr::Binary(x, op, y, s)
    &&& prefix_shape(t[p].kind, t[p].span, *x)
    &&& prefix_shape(t[p + 2].kind, t[p + 2].span, *y)
    &&& s == t[p].span
    &&& infix_power(t[p + 1].kind) matches Some((_, _, o)) && o == op
}

/// A prefix operator whose operand is read at the unary binding power.
pub open spec fn unary_kind(k: TokenKind) -> bool {
    k is Inc || k is Dec || k is Plus || k is Minus || k is Bang || k is Tilde || k is Ref || k is Hd || k is Tl
        || k is Len || k is Tagof || k is ChanRecv
}

/// The basic type that a type keyword names.
pub open spec fn kind_basic_type(k: TokenKind) -> Type {
    match k {
        TokenKind::Int => Type::Basic(BasicType::Int),
        TokenKind::Byte => Type::Basic(BasicType::Byte),
        TokenKind::Big => Type::Basic(BasicType::Big),
        TokenKind::Real => Type::Basic(BasicType::Real),
        _ => Type::Basic(BasicType::String),
    }
}

/// A token before which a type keyword stands as a value, not a cast.
pub open spec fn cast_stop(k: TokenKind) -> bool {
    k is RBracket || k is Comma || k is RParen || k is FatArrow || k is Semicolon || k is RBrace
}

/// A token that can start an expression.
pub open spec fn expr_start(k: TokenKind) -> bool {
    k is IntLit || k is RealLit || k is StringLit || k is CharLit || k is Nil || k is Ident || k is Iota
        || k is Inc || k is Dec || k is Plus || k is Star || k is Minus || k is Bang || k is Tilde || k is Hd
        || k is Tl || k is Len || k is Tagof || k is Ref || k is ChanRecv || k is Array || k is Chan || k is List
        || k is Load || k is LParen || k is Int || k is Byte || k is Big || k is Real || k is String_
        || k is LBrace
}

/// A trigger for the quantifiers of the grammar below: it holds of every
/// expression and position that is not negative and says nothing else.
pub open spec fn trigger_expr_end(x: Expr, m: int) -> bool {
    0 <= m
}

/// `x` is what `a := rhs` declares: one name for an identifier, one per
/// element (an identifier or `nil`) for a tuple.
pub open spec fn decl_target(lhs: Expr, rhs: Expr, sp: Span, x: Expr) -> bool {
    match lhs {
        Expr::Ident(n, _) => x matches Expr::DeclAssign(ns, r, s) && ns@.len() == 1 && ns@[0] == n && *r == rhs
            && s == sp,
        Expr::Tuple(es, _) => x matches Expr::TupleDeclAssign(ns, r, s) && *r == rhs && s == sp
            && ns@.len() == es@.len() && forall|i: int| 0 <= i < es@.len() ==> match #[trigger] es@[i] {
                Expr::Ident(n, _) => ns@[i] == n,
                Expr::Nil(_) => ns@[i]@ == "nil"@,
                _ => false,
            },
        _ => false,
    }
}

/// Reading an expression at binding power `bp` from `p` gives `e` and
/// stops at `end`.
pub open spec fn expr_rel(t: Seq<Token>, p: int, bp: u8, e: Expr, end: int) -> bool
    decreases t.len() - p, 2int,
{
    if p < 0 || p >= t.len() {
        false
    } else {
        exists|lhs: Expr, m: int| #[trigger] trigger_expr_end(lhs, m) && p < m <= t.len() && prefix_rel(t, p, lhs, m)
            && climb_rel(t, m, bp, t[p].span, lhs, e, end)
    }
}

/// The tail of a tuple after an element, from the token at `q`: more
/// elements after commas (a trailing comma allowed) and the closing `)`.
pub open spec fn tuple_tail(t: Seq<Token>, q: int, es: Seq<Expr>, end: int) -> bool
    decreases t.len() - q, 0int,
{
    if q < 0 || q >= t.len() {
        false
    } else if t[q].kind is Comma {
        if q + 1 < t.len() && t[q + 1].kind is RParen {
            es.len() == 0 && end == q + 2
        } else {
            es.len() > 0 && exists|m: int| #[trigger] trigger_expr_end(es[0], m) && q + 1 < m <= t.len() && expr_rel(t, q + 1, 0, es[0], m)
                && tuple_tail(t, m, es.drop_first(), end)
        }
    } else {
        t[q].kind is RParen && es.len() == 0 && end == q + 1
    }
}

/// The upper bound of a slice, read from `c` just after its `:`: none where
/// `]` follows at once, else an expression; `m` is just past the `]`.
pub open spec fn slice_hi_rel(t: Seq<Token>, c: int, hi: Option<Box<Expr>>, m: int) -> bool
    decreases t.len() - c, 8int,
{
    if c < 0 || c >= t.len() {
        false
    } else if t[c].kind is RBracket {
        hi is None && m == c + 1
    } else {
        hi matches Some(h) && c < m - 1 && m - 1 < t.len() && expr_rel(t, c, 0, *h, m - 1) && t[m - 1].kind is RBracket
    }
}

/// Applying `[...]` at `q` to `lhs` gives `x` and stops at `m`, just past
/// the `]`: an index, or a slice with an optional lower and upper bound.
pub open spec fn bracket_rel(t: Seq<Token>, q: int, lhs: Expr, sp: Span, x: Expr, m: int) -> bool
    decreases t.len() - q - 1, 9int,
{
    if q < 0 || q + 1 >= t.len() {
        false
    } else if t[q + 1].kind is Colon {
        x matches Expr::Slice(l, lo, hi, s) && *l == lhs && s == sp && lo is None && slice_hi_rel(t, q + 2, hi, m)
    } else {
        exists|i: Expr, c: int| #[trigger] trigger_expr_end(i, c) && q + 1 < c < t.len() && expr_rel(t, q + 1, 0, i, c)
            && if t[c].kind is Colon {
            x matches Expr::Slice(l, lo, hi, s) && *l == lhs && s == sp && lo == Some(Box::new(i))
                && slice_hi_rel(t, c + 1, hi, m)
        } else {
            t[c].kind is RBracket && m == c + 1 && x == Expr::Index(Box::new(lhs), Box::new(i), sp)
        }
    }
}

/// Reading an initialiser from `p` gives `e` and stops at `end`: an
/// expression, and where qualifiers follow it (`or x`, `to x`), the
/// expression after `=>`.
pub open spec fn init_rel(t: Seq<Token>, p: int, e: Expr, end: int) -> bool
    decreases t.len() - p, 5int,
{
    if p < 0 || p >= t.len() {
        false
    } else {
        exists|first: Expr, m: int| #[trigger] trigger_expr_end(first, m) && p < m <= t.len()
            && expr_rel(t, p, 0, first, m) && qualifiers_rel(t, m, first, e, end)
    }
}

/// The qualifiers after the expression `first` of an initialiser, from `q`.
pub open spec fn qualifiers_rel(t: Seq<Token>, q: int, first: Expr, e: Expr, end: int) -> bool
    decreases t.len() - q, 4int,
{
    if q < 0 || q >= t.len() {
        false
    } else if t[q].kind is FatArrow {
        expr_rel(t, q + 1, 0, e, end)
    } else if t[q].kind is Or || t[q].kind is To {
        exists|x: Expr, m: int| #[trigger] trigger_expr_end(x, m) && q + 1 < m <= t.len() && expr_rel(t, q + 1, 0, x, m)
            && qualifiers_rel(t, m, first, e, end)
    } else {
        e == first && end == q
    }
}

/// Reading a list of initialisers from `q` gives `es` and stops at `end`,
/// before the token that closes the list.
pub open spec fn list_rel(t: Seq<Token>, q: int, es: Seq<Expr>, end: int) -> bool
    decreases t.len() - q, 7int,
{
    if q < 0 || q >= t.len() {
        false
    } else if list_closer(t[q].kind) {
        es.len() == 0 && end == q
    } else {
        es.len() > 0 && exists|m: int| #[trigger] trigger_expr_end(es[0], m) && q < m <= t.len() && init_rel(t, q, es[0], m)
            && list_tail_rel(t, m, es.drop_first(), end)
    }
}

/// The rest of a list of initialisers after an element, from `q`: more
/// elements after commas, a trailing comma allowed.
pub open spec fn list_tail_rel(t: Seq<Token>, q: int, es: Seq<Expr>, end: int) -> bool
    decreases t.len() - q, 6int,
{
    if q < 0 || q >= t.len() {
        false
    } else if t[q].kind is Comma {
        if q + 1 < t.len() && list_closer(t[q + 1].kind) {
            es.len() == 0 && end == q + 1
        } else {
            es.len() > 0 && exists|m: int| #[trigger] trigger_expr_end(es[0], m) && q + 1 < m <= t.len()
                && init_rel(t, q + 1, es[0], m) && list_tail_rel(t, m, es.drop_first(), end)
        }
    } else {
        es.len() == 0 && end == q
    }
}

/// Reading an operand that starts with a type keyword from `p` gives `e`
/// and stops at `end`: a cast, or a type standing as a value; a channel
/// allocation; a list literal; or an array cast, allocation or literal, the
/// last two stated by their variant.
#[verifier::opaque]
pub open spec fn typed_prefix_rel(t: Seq<Token>, p: int, e: Expr, end: int) -> bool
    decreases t.len() - p, 0int,
{
    if p < 0 || p >= t.len() {
        false
    } else {
        let k = t[p].kind;
        let sp = t[p].span;
        match k {
            TokenKind::Int | TokenKind::Byte | TokenKind::Big | TokenKind::Real | TokenKind::String_ => p + 1 < t.len()
                && if cast_stop(t[p + 1].kind) {
                end == p + 1 && (e matches Expr::Ident(n, s) && s == sp && n@ == basic_type_text(kind_basic_type(k)))
            } else {
                e matches Expr::Cast(ty, x, s) && s == sp && *ty == kind_basic_type(k) && expr_rel(t, p + 1, UNARY_BP, *x, end)
            },
            TokenKind::Chan => p + 1 < t.len() && (e matches Expr::ChanAlloc(ty, s) && s == sp && if t[p + 1].kind is LBracket {
                exists|z: Expr, m: int| #[trigger] trigger_expr_end(z, m) && p + 2 < m && m + 2 < t.len() && expr_rel(t, p + 2, 0, z, m)
                    && t[m].kind is RBracket && t[m + 1].kind is Of && type_rel(t, m + 2, *ty, end)
            } else {
                t[p + 1].kind is Of && type_rel(t, p + 2, *ty, end)
            }),
            TokenKind::List => p + 2 < t.len() && t[p + 1].kind is Of && t[p + 2].kind is LBrace && (e matches Expr::ListLit(
                es,
                s,
            ) && s == sp && p + 3 < end && t[end - 1].kind is RBrace && list_rel(t, p + 3, es@, end - 1)),
            TokenKind::Array => p + 1 < t.len() && if t[p + 1].kind is Of {
                e matches Expr::Cast(ty, x, s) && s == sp && (*ty matches Type::Array(el) && exists|m: int| #[trigger] trigger_end(m)
                    && p + 2 < m <= t.len() && type_rel(t, p + 2, *el, m) && expr_rel(t, m, UNARY_BP, *x, end))
            } else {
                p < end <= t.len() && (e is ArrayLit || e is ArrayAlloc) && prefix_shape(k, sp, e)
            },
            _ => false,
        }
    }
}

/// Reading an operand from `p` gives `e` and stops at `end`.
pub open spec fn prefix_rel(t: Seq<Token>, p: int, e: Expr, end: int) -> bool
    decreases t.len() - p, 1int,
{
    if p < 0 || p >= t.len() {
        false
    } else {
        let k = t[p].kind;
        let sp = t[p].span;
        let unary = exists|x: Expr| #[trigger] trigger_expr_end(x, end) && expr_rel(t, p + 1, UNARY_BP, x, end) && match k {
            TokenKind::Inc => e == Expr::PostInc(Box::new(x), sp),
            TokenKind::Dec => e == Expr::PostDec(Box::new(x), sp),
            TokenKind::Minus => e == Expr::Unary(UnaryOp::Neg, Box::new(x), sp),
            TokenKind::Bang => e == Expr::Unary(UnaryOp::Not, Box::new(x), sp),
            TokenKind::Tilde => e == Expr::Unary(UnaryOp::BitNot, Box::new(x), sp),
            TokenKind::Ref => e == Expr::Unary(UnaryOp::Ref, Box::new(x), sp),
            TokenKind::Star => e == Expr::Unary(UnaryOp::Ref, Box::new(x), sp),
            TokenKind::Hd => e == Expr::Hd(Box::new(x), sp),
            TokenKind::Tl => e == Expr::Tl(Box::new(x), sp),
            TokenKind::Len => e == Expr::Len(Box::new(x), sp),
            TokenKind::Tagof => e == Expr::Tagof(Box::new(x), sp),
            TokenKind::ChanRecv => e == Expr::Recv(Box::new(x), sp),
            TokenKind::Plus => e == x,
            _ => false,
        };
        match k {
            TokenKind::IntLit(_) | TokenKind::RealLit(_) | TokenKind::StringLit(_) | TokenKind::CharLit(_)
            | TokenKind::Nil | TokenKind::Ident(_) | TokenKind::Iota => prefix_shape(k, sp, e) && end == p + 1,
            TokenKind::Star => if p + 1 < t.len() && t[p + 1].kind is FatArrow {
                (e matches Expr::Ident(n, s) && n@ == "*"@ && s == sp) && end == p + 1
            } else {
                unary
            },
            TokenKind::Inc | TokenKind::Dec | TokenKind::Minus | TokenKind::Bang | TokenKind::Tilde
            | TokenKind::Ref | TokenKind::Hd | TokenKind::Tl | TokenKind::Len | TokenKind::Tagof
            | TokenKind::ChanRecv | TokenKind::Plus => unary,
            TokenKind::Load => p + 1 < t.len() && (t[p + 1].kind matches TokenKind::Ident(n) && exists|x: Expr|
                #[trigger] trigger_expr_end(x, end) && expr_rel(t, p + 2, 2, x, end) && (e matches Expr::Load(ty, path, s)
                && *ty == Type::Named(QualName { qualifier: None, name: n }) && *path == x && s == sp)),
            TokenKind::LParen => exists|first: Expr, m: int| #[trigger] trigger_expr_end(first, m) && p + 1 < m <= t.len()
                && expr_rel(t, p + 1, 0, first, m) && if t[m].kind is Comma {
                e matches Expr::Tuple(v, s) && s == sp && v@.len() >= 1 && v@[0] == first
                    && tuple_tail(t, m, v@.drop_first(), end)
            } else {
                t[m].kind is RParen && e == first && end == m + 1
            },
            TokenKind::Int | TokenKind::Byte | TokenKind::Big | TokenKind::Real | TokenKind::String_ | TokenKind::Chan
            | TokenKind::List | TokenKind::Array => typed_prefix_rel(t, p, e, end),
            TokenKind::LBrace => p < end <= t.len() && prefix_shape(k, sp, e),
            _ => false,
        }
    }
}

/// The operand `lhs` of an expression that started at span `sp`, with the
/// operators from `q` on applied while they bind at least as tightly as
/// `bp`, gives `e` and stops at `end`.
pub open spec fn climb_rel(t: Seq<Token>, q: int, bp: u8, sp: Span, lhs: Expr, e: Expr, end: int) -> bool
    decreases t.len() - q, 3int,
{
    if q < 0 || q >= t.len() {
        false
    } else {
        let k = t[q].kind;
        let stop = e == lhs && end == q;
        if k is LParen {
            exists|x: Expr, m: int| #[trigger] trigger_expr_end(x, m) && q < m <= t.len() && t[m - 1].kind is RParen
                && (x matches Expr::Call(f, args, s) && *f == lhs && s == sp && list_rel(t, q + 1, args@, m - 1))
                && climb_rel(t, m, bp, sp, x, e, end)
        } else if k is Dot || k is Arrow {
            q + 1 < t.len() && (t[q + 1].kind matches TokenKind::Ident(n) && climb_rel(
                t,
                q + 2,
                bp,
                sp,
                if k is Dot {
                    Expr::Dot(Box::new(lhs), n, sp)
                } else {
                    Expr::ModQual(Box::new(lhs), n, sp)
                },
                e,
                end,
            ))
        } else if k is LBracket {
            exists|x: Expr, m: int| #[trigger] trigger_expr_end(x, m) && q + 1 < m <= t.len() && bracket_rel(t, q, lhs, sp, x, m)
                && climb_rel(t, m, bp, sp, x, e, end)
        } else if k is Inc {
            climb_rel(t, q + 1, bp, sp, Expr::PostInc(Box::new(lhs), sp), e, end)
        } else if k is Dec {
            climb_rel(t, q + 1, bp, sp, Expr::PostDec(Box::new(lhs), sp), e, end)
        } else if infix_power(k) is Some {
            let (l, r, op) = infix_power(k)->Some_0;
            if l < bp {
                stop
            } else {
                exists|rhs: Expr, m: int| #[trigger] trigger_expr_end(rhs, m) && q + 1 < m <= t.len() && expr_rel(t, q + 1, r, rhs, m)
                    && climb_rel(t, m, bp, sp, Expr::Binary(Box::new(lhs), op, Box::new(rhs), sp), e, end)
            }
        } else if assign_power(k) is Some {
            if 1 < bp {
                stop
            } else {
                exists|rhs: Expr, m: int| #[trigger] trigger_expr_end(rhs, m) && q + 1 < m <= t.len()
                    && expr_rel(t, q + 1, 1, rhs, m) && match assign_power(k)->Some_0 {
                    AssignKind::Simple => climb_rel(t, m, bp, sp, Expr::Assign(Box::new(lhs), Box::new(rhs), sp), e, end),
                    AssignKind::Compound(op) => climb_rel(
                        t,
                        m,
                        bp,
                        sp,
                        Expr::CompoundAssign(Box::new(lhs), op, Box::new(rhs), sp),
                        e,
                        end,
                    ),
                    AssignKind::Decl => exists|x: Expr| #[trigger] decl_target(lhs, rhs, sp, x) && climb_rel(
                        t,
                        m,
                        bp,
                        sp,
                        x,
                        e,
                        end,
                    ),
                }
            }
        } else if k is ChanSend || (k is ChanRecv && q + 1 < t.len() && t[q + 1].kind is Assign) {
            if 1 < bp {
                stop
            } else {
                let start = if k is ChanRecv {
                    q + 2
                } else {
                    q + 1
                };
                exists|rhs: Expr, m: int| #[trigger] trigger_expr_end(rhs, m) && start < m <= t.len() && expr_rel(t, start, 1, rhs, m)
                    && climb_rel(t, m, bp, sp, Expr::Send(Box::new(lhs), Box::new(rhs), sp), e, end)
            }
        } else if k is ColonColon {
            if CONS_BP < bp {
                stop
            } else {
                exists|rhs: Expr, m: int| #[trigger] trigger_expr_end(rhs, m) && q + 1 < m <= t.len() && expr_rel(t, q + 1, CONS_BP, rhs, m)
                    && climb_rel(t, m, bp, sp, Expr::Cons(Box::new(lhs), Box::new(rhs), sp), e, end)
            }
        } else {
            stop
        }
    }
}

/// The `Debug` text of a basic type, which is how a type name standing as
/// an expression is recorded.
pub open spec fn basic_type_text(t: Type) -> Seq<char> {
    match t {
        Type::Basic(BasicType::Int) => "Basic(Int)"@,
        Type::Basic(BasicType::Byte) => "Basic(Byte)"@,
        Type::Basic(BasicType::Big) => "Basic(Big)"@,
        Type::Basic(BasicType::Real) => "Basic(Real)"@,
        Type::Basic(BasicType::String) => "Basic(String)"@,
        _ => Seq::empty(),
    }
}

fn basic_type_debug_text(t: &Type) -> (r: String)
    ensures
        r@ == basic_type_text(*t),
{
    match t {
        Type::Basic(BasicType::Int) => String::from_str("Basic(Int)"),
        Type::Basic(BasicType::Byte) => String::from_str("Basic(Byte)"),
        Type::Basic(BasicType::Big) => String::from_str("Basic(Big)"),
        Type::Basic(BasicType::Real) => String::from_str("Basic(Real)"),
        Type::Basic(BasicType::String) => String::from_str("Basic(String)"),
        _ => String::new(),
    }
}

/// The outer form of a statement whose first token is `k`.
pub open spec fn stmt_shape(k: TokenKind, st: Stmt) -> bool {
    match k {
        TokenKind::LBrace => st is Block,
        TokenKind::If => st is If,
        TokenKind::For => st is For,
        TokenKind::While => st is While,
        TokenKind::Do => st is Do,
        TokenKind::Return => st is Return,
        TokenKind::Break => st is Break,
        TokenKind::Continue => st is Continue,
        TokenKind::Exit => st is Exit,
        TokenKind::Spawn => st is Spawn,
        TokenKind::Raise => st is Raise,
        TokenKind::Case => st is Case,
        TokenKind::Pick => st is Pick,
        TokenKind::Alt => st is Alt,
        TokenKind::Semicolon => st is Empty,
        TokenKind::Exception => st is Empty,
        _ => true,
    }
}

/// An `alt` guard is a send that binds nothing, or a receive that is bound
/// by `:=`, by a tuple `:=`, by `=`, or not at all.
pub open spec fn alt_guard_form(e: Expr) -> bool {
    match e {
        Expr::DeclAssign(_, rhs, _) => *rhs is Recv,
        Expr::TupleDeclAssign(_, rhs, _) => *rhs is Recv,
        Expr::Assign(_, rhs, _) => *rhs is Recv,
        Expr::Send(_, _, _) => true,
        Expr::Recv(_, _) => true,
        _ => false,
    }
}

/// The names a top-level declaration introduces.
pub open spec fn decl_names(d: Decl) -> Seq<String> {
    match d {
        Decl::Var(v) => v.names@,
        Decl::Const(c) => seq![c.name],
        Decl::TypeAlias(t) => seq![t.name],
        Decl::Module(m) => seq![m.name],
        Decl::Adt(a) => seq![a.name],
        Decl::Func(f) => seq![f.name.name],
        Decl::Import(i) => i.names@,
        Decl::Exception(e) => seq![e.name],
    }
}

/// Where a top-level declaration starts.
pub open spec fn decl_span(d: Decl) -> Span {
    match d {
        Decl::Var(v) => v.span,
        Decl::Const(c) => c.span,
        Decl::TypeAlias(t) => t.span,
        Decl::Module(m) => m.span,
        Decl::Adt(a) => a.span,
        Decl::Func(f) => f.span,
        Decl::Import(i) => i.span,
        Decl::Exception(e) => e.span,
    }
}

/// Which kind of declaration `d` is.
pub open spec fn decl_tag(d: Decl) -> int {
    match d {
        Decl::Var(_) => 0,
        Decl::Const(_) => 1,
        Decl::TypeAlias(_) => 2,
        Decl::Module(_) => 3,
        Decl::Adt(_) => 4,
        Decl::Func(_) => 5,
        Decl::Import(_) => 6,
        Decl::Exception(_) => 7,
    }
}

/// The kind of declaration that the keyword after the `:` of a
/// declaration introduces; any other token starts a variable's type.
pub open spec fn keyword_decl_tag(k: TokenKind) -> int {
    match k {
        TokenKind::Con => 1,
        TokenKind::Type => 2,
        TokenKind::Module => 3,
        TokenKind::Adt => 4,
        TokenKind::Import => 6,
        TokenKind::Exception => 7,
        _ => 0,
    }
}

/// Declarations of these kinds are made once per name of `a, b: ...`;
/// a variable or an import is one declaration of all its names.
pub open spec fn one_per_name(tag: int) -> bool {
    tag == 1 || tag == 2 || tag == 3 || tag == 4 || tag == 7
}

/// `names` stand at `start` in `tokens` as `a, b, c :`.
pub open spec fn names_at(tokens: Seq<Token>, start: int, names: Seq<String>) -> bool {
    &&& names.len() >= 1
    &&& 0 <= start
    &&& start + 2 * names.len() <= tokens.len()
    &&& forall|j: int| 0 <= j < names.len() ==> {
        &&& tokens[start + 2 * j].kind == TokenKind::Ident(#[trigger] names[j])
        &&& if j + 1 < names.len() {
            tokens[start + 2 * j + 1].kind is Comma
        } else {
            tokens[start + 2 * j + 1].kind is Colon
        }
    }
}

/// A declaration body from `q`, after `names:`, that always reads: a
/// constant that is a single operand, an import of a module, or an
/// exception without a type, each ended by `;`.
pub open spec fn plain_decl_tail(t: Seq<Token>, q: int) -> bool {
    0 <= q && q + 2 < t.len() && ((t[q].kind is Con && atom_kind(t[q + 1].kind) && t[q + 2].kind is Semicolon)
        || (t[q].kind is Import && t[q + 1].kind is Ident && t[q + 2].kind is Semicolon) || (t[q].kind is Exception
        && t[q + 1].kind is Semicolon))
}

/// The names before a `:` are fixed by the tokens.
proof fn lemma_names_at_unique(t: Seq<Token>, start: int, a: Seq<String>, b: Seq<String>)
    requires
        names_at(t, start, a),
        names_at(t, start, b),
    ensures
        a == b,
{
    if a.len() != b.len() {
        let l = if a.len() < b.len() { a.len() as int } else { b.len() as int };
        assert(t[start + 2 * (l - 1)].kind == TokenKind::Ident(a[l - 1]));
        assert(t[start + 2 * (l - 1)].kind == TokenKind::Ident(b[l - 1]));
    }
    assert forall|j: int| 0 <= j < a.len() implies a[j] == b[j] by {
        assert(t[start + 2 * j].kind == TokenKind::Ident(a[j]));
        assert(t[start + 2 * j].kind == TokenKind::Ident(b[j]));
    }
    assert(a =~= b);
}

/// `ds` is what the declaration `names: kw ...` at `span` declares.
pub open spec fn declares(ds: Seq<Decl>, names: Seq<String>, kw: TokenKind, span: Span) -> bool {
    &&& forall|i: int| 0 <= i < ds.len() ==> decl_span(#[trigger] ds[i]) == span
        && decl_tag(ds[i]) == keyword_decl_tag(kw)
    &&& if one_per_name(keyword_decl_tag(kw)) {
        &&& ds.len() == names.len()
        &&& forall|i: int| 0 <= i < ds.len() ==> decl_names(#[trigger] ds[i]) == seq![names[i]]
    } else {
        &&& ds.len() == 1
        &&& decl_names(ds[0]) == names
    }
}

/// The names a module member introduces.
pub open spec fn member_names(m: ModuleMember) -> Seq<String> {
    match m {
        ModuleMember::Const(c) => seq![c.name],
        ModuleMember::TypeAlias(t) => seq![t.name],
        ModuleMember::Var(v) => v.names@,
        ModuleMember::Func(f) => seq![f.name],
        ModuleMember::Adt(a) => seq![a.name],
        ModuleMember::Exception(e) => seq![e.name],
    }
}

/// The names an ADT member introduces.
pub open spec fn adt_member_names(m: AdtMember) -> Seq<String> {
    match m {
        AdtMember::Field(v) => v.names@,
        AdtMember::Const(c) => seq![c.name],
        AdtMember::Func(f) => seq![f.name],
    }
}

/// The place a module member records: where its declaration begins, or for
/// a function where its signature does.
pub open spec fn member_span(m: ModuleMember) -> Span {
    match m {
        ModuleMember::Const(c) => c.span,
        ModuleMember::TypeAlias(t) => t.span,
        ModuleMember::Var(v) => v.span,
        ModuleMember::Func(f) => f.span,
        ModuleMember::Adt(a) => a.span,
        ModuleMember::Exception(e) => e.span,
    }
}

/// The place an ADT member records.
pub open spec fn adt_member_span(m: AdtMember) -> Span {
    match m {
        AdtMember::Field(v) => v.span,
        AdtMember::Const(c) => c.span,
        AdtMember::Func(f) => f.span,
    }
}

/// `r` is `m` under another name: same kind, place, and for a constant the
/// same value, for an alias the same type.
pub open spec fn member_body_copy(m: ModuleMember, r: ModuleMember) -> bool {
    &&& member_span(r) == member_span(m)
    &&& match m {
        ModuleMember::Const(c) => r matches ModuleMember::Const(d) && is_opt_type_copy(c.ty, d.ty)
            && is_expr_copy(c.value, d.value),
        ModuleMember::TypeAlias(a) => r matches ModuleMember::TypeAlias(b) && is_type_copy(a.ty, b.ty),
        ModuleMember::Var(_) => r is Var,
        ModuleMember::Func(_) => r is Func,
        ModuleMember::Adt(_) => r is Adt,
        ModuleMember::Exception(_) => r is Exception,
    }
}

/// `r` is the ADT member `m` under another name: same kind and place, and
/// for a constant the same value.
pub open spec fn adt_member_body_copy(m: AdtMember, r: AdtMember) -> bool {
    &&& adt_member_span(r) == adt_member_span(m)
    &&& match m {
        AdtMember::Const(c) => r matches AdtMember::Const(d) && is_opt_type_copy(c.ty, d.ty)
            && is_expr_copy(c.value, d.value),
        AdtMember::Field(_) => r is Field,
        AdtMember::Func(_) => r is Func,
    }
}

/// The members of one declaration of a module interface, `ns: kw ...;`
/// from `p` to just past its `;` at `m`: one member per name, each placed
/// at `p`, where the names begin (a function at its `fn`). A constant's
/// value is the expression after `con`, an alias's type the type after
/// `type`, and a variable's type the type after the colon.
pub open spec fn module_group_body(t: Seq<Token>, p: int, ns: Seq<String>, gs: Seq<ModuleMember>, m: int) -> bool {
    let k = p + 2 * ns.len();
    &&& p < k < m <= t.len()
    &&& t[m - 1].kind is Semicolon
    &&& match t[k].kind {
        TokenKind::Con => gs.len() == ns.len() && exists|v: Expr| #[trigger] expr_rel(t, k + 1, 0, v, m - 1)
            && forall|i: int| 0 <= i < gs.len() ==> (#[trigger] gs[i] matches ModuleMember::Const(c) && c.name == ns[i]
            && c.ty is None && is_expr_copy(v, c.value) && c.span == t[p].span),
        TokenKind::Type => gs.len() == ns.len() && exists|ty: Type| #[trigger] type_rel(t, k + 1, ty, m - 1)
            && forall|i: int| 0 <= i < gs.len() ==> (#[trigger] gs[i] matches ModuleMember::TypeAlias(a) && a.name
            == ns[i] && is_type_copy(ty, a.ty) && a.span == t[p].span),
        TokenKind::Fn => gs.len() == ns.len() && forall|i: int| 0 <= i < gs.len() ==> (#[trigger] gs[i] matches ModuleMember::Func(f)
            && f.name == ns[i] && f.span == t[k].span),
        TokenKind::Adt => gs.len() == ns.len() && forall|i: int| 0 <= i < gs.len() ==> (#[trigger] gs[i] matches ModuleMember::Adt(a)
            && a.name == ns[i] && a.span == t[p].span),
        _ => gs.len() == 1 && (gs[0] matches ModuleMember::Var(v) && v.names@ == ns && v.init is None && v.span
            == t[p].span && (v.ty matches Some(ty) && type_rel(t, k, ty, m - 1))),
    }
}

/// One declaration of a module interface from `p` to `m`.
pub open spec fn module_group(t: Seq<Token>, p: int, gs: Seq<ModuleMember>, m: int) -> bool {
    exists|ns: Seq<String>| #[trigger] names_at(t, p, ns) && module_group_body(t, p, ns, gs, m)
}

/// The declarations from `bs[0]` up to the last of `bs` make `ms`: the
/// `j`th declaration runs from `bs[j]` to `bs[j + 1]` and makes the members
/// from `cs[j]` up to `cs[j + 1]`, by `group`.
pub open spec fn groups_ok<T>(bs: Seq<int>, cs: Seq<int>, ms: Seq<T>, group: spec_fn(int, Seq<T>, int) -> bool) -> bool {
    &&& bs.len() >= 1
    &&& cs.len() == bs.len()
    &&& cs[0] == 0
    &&& cs.last() == ms.len()
    &&& forall|a: int, b: int| 0 <= a < b < bs.len() ==> #[trigger] bs[a] < #[trigger] bs[b]
    &&& forall|a: int, b: int| 0 <= a < b < cs.len() ==> #[trigger] cs[a] <= #[trigger] cs[b]
    &&& forall|j: int| 0 <= j < bs.len() - 1 ==> group(#[trigger] bs[j], ms.subrange(cs[j], cs[j + 1]), bs[j + 1])
}

/// `module_group` over the tokens `t`.
pub open spec fn module_group_fn(t: Seq<Token>) -> spec_fn(int, Seq<ModuleMember>, int) -> bool {
    |p: int, gs: Seq<ModuleMember>, e: int| module_group(t, p, gs, e)
}

/// `adt_group` over the tokens `t`.
pub open spec fn adt_group_fn(t: Seq<Token>) -> spec_fn(int, Seq<AdtMember>, int) -> bool {
    |p: int, gs: Seq<AdtMember>, e: int| adt_group(t, p, gs, e)
}

/// No declarations make no members.
proof fn lemma_groups_empty<T>(q: int, group: spec_fn(int, Seq<T>, int) -> bool)
    ensures
        groups_ok(seq![q], seq![0int], Seq::<T>::empty(), group),
{
}

/// One more declaration adds its members at the end.
proof fn lemma_groups_push<T>(bs: Seq<int>, cs: Seq<int>, ms: Seq<T>, group: spec_fn(int, Seq<T>, int) -> bool, m: int, gs: Seq<T>)
    requires
        groups_ok(bs, cs, ms, group),
        bs.last() < m,
        group(bs.last(), gs, m),
    ensures
        groups_ok(bs.push(m), cs.push((ms.len() + gs.len()) as int), ms + gs, group),
{
    let bs2 = bs.push(m);
    let cs2 = cs.push((ms.len() + gs.len()) as int);
    let ms2 = ms + gs;
    assert forall|a: int, b: int| 0 <= a < b < bs2.len() implies #[trigger] bs2[a] < #[trigger] bs2[b] by {
        if b == bs2.len() - 1 && a < bs.len() - 1 {
            assert(bs[a] < bs[bs.len() - 1]);
        }
    }
    assert forall|a: int, b: int| 0 <= a < b < cs2.len() implies #[trigger] cs2[a] <= #[trigger] cs2[b] by {
        if b == cs2.len() - 1 && a < cs.len() - 1 {
            assert(cs[a] <= cs[cs.len() - 1]);
        }
    }
    assert forall|j: int| 0 <= j < bs2.len() - 1 implies group(#[trigger] bs2[j], ms2.subrange(cs2[j], cs2[j + 1]), bs2[j + 1]) by {
        if j < bs.len() - 1 {
            assert(bs2[j] == bs[j]);
            assert(cs[j] <= cs[j + 1] && cs[j + 1] <= cs[cs.len() - 1]);
            assert(ms2.subrange(cs2[j], cs2[j + 1]) =~= ms.subrange(cs[j], cs[j + 1]));
            assert(group(bs[j], ms.subrange(cs[j], cs[j + 1]), bs[j + 1]));
        } else {
            assert(ms2.subrange(cs2[j], cs2[j + 1]) =~= gs);
        }
    }
}

/// Some declaration makes the `i`th member.
proof fn lemma_group_of<T>(bs: Seq<int>, cs: Seq<int>, ms: Seq<T>, group: spec_fn(int, Seq<T>, int) -> bool, i: int, n: int) -> (j: int)
    requires
        groups_ok(bs, cs, ms, group),
        0 <= i < cs[n],
        0 <= n < cs.len(),
    ensures
        0 <= j < n,
        cs[j] <= i < cs[j + 1],
    decreases n,
{
    if n == 0 {
        assert(false);
        0
    } else if cs[n - 1] <= i {
        n - 1
    } else {
        lemma_group_of(bs, cs, ms, group, i, n - 1)
    }
}

/// The declaration that makes the `i`th member.
pub open spec fn group_index(cs: Seq<int>, i: int) -> int {
    choose|j: int| 0 <= j < cs.len() - 1 && #[trigger] cs[j] <= i < cs[j + 1]
}

/// The declarations of a module interface from `q` up to `m` make `ms`,
/// one after another.
pub open spec fn module_members_rel(t: Seq<Token>, q: int, ms: Seq<ModuleMember>, m: int) -> bool {
    exists|bs: Seq<int>, cs: Seq<int>| #[trigger] groups_ok(bs, cs, ms, module_group_fn(t)) && bs[0] == q && bs.last() == m
}

/// The members of one declaration of an ADT, `ns: kw ...;` from `p` to just
/// past its `;` at `m`, each placed at `p` (a function at its `fn`). A
/// constant's value is the expression after `con`, and a field's type the
/// type after the colon and an optional `cyclic`.
pub open spec fn adt_group_body(t: Seq<Token>, p: int, ns: Seq<String>, gs: Seq<AdtMember>, m: int) -> bool {
    let k = p + 2 * ns.len();
    &&& p < k < m <= t.len()
    &&& t[m - 1].kind is Semicolon
    &&& match t[k].kind {
        TokenKind::Con => gs.len() == ns.len() && exists|v: Expr| #[trigger] expr_rel(t, k + 1, 0, v, m - 1)
            && forall|i: int| 0 <= i < gs.len() ==> (#[trigger] gs[i] matches AdtMember::Const(c) && c.name == ns[i]
            && c.ty is None && is_expr_copy(v, c.value) && c.span == t[p].span),
        TokenKind::Fn => gs.len() == ns.len() && forall|i: int| 0 <= i < gs.len() ==> (#[trigger] gs[i] matches AdtMember::Func(f)
            && f.name == ns[i] && f.span == t[k].span),
        _ => gs.len() == 1 && (gs[0] matches AdtMember::Field(v) && v.names@ == ns && v.init is None && v.span
            == t[p].span && (v.ty matches Some(ty) && if t[k].kind is Cyclic {
            type_rel(t, k + 1, ty, m - 1)
        } else {
            type_rel(t, k, ty, m - 1)
        })),
    }
}

/// One step of an ADT body from `p` to `m`: a declaration, or a `pick`
/// block that adds no members.
pub open spec fn adt_group(t: Seq<Token>, p: int, gs: Seq<AdtMember>, m: int) -> bool {
    ||| (t[p].kind is Pick && p + 1 < m && t[p + 1].kind is LBrace && t[m - 1].kind is RBrace && gs.len() == 0)
    ||| exists|ns: Seq<String>| #[trigger] names_at(t, p, ns) && adt_group_body(t, p, ns, gs, m)
}

/// The declarations of an ADT body from `q` up to `m` make `ms`, one after
/// another.
pub open spec fn adt_members_rel(t: Seq<Token>, q: int, ms: Seq<AdtMember>, m: int) -> bool {
    exists|bs: Seq<int>, cs: Seq<int>| #[trigger] groups_ok(bs, cs, ms, adt_group_fn(t)) && bs[0] == q && bs.last() == m
}

/// `group_index` picks a declaration that makes the `i`th member.
proof fn lemma_group_index<T>(bs: Seq<int>, cs: Seq<int>, ms: Seq<T>, group: spec_fn(int, Seq<T>, int) -> bool, i: int)
    requires
        groups_ok(bs, cs, ms, group),
        0 <= i < ms.len(),
    ensures
        0 <= group_index(cs, i) < cs.len() - 1,
        cs[group_index(cs, i)] <= i < cs[group_index(cs, i) + 1],
        group(bs[group_index(cs, i)], ms.subrange(cs[group_index(cs, i)], cs[group_index(cs, i) + 1]), bs[group_index(cs, i) + 1]),
        bs[0] <= bs[group_index(cs, i)] < bs.last(),
{
    let j0 = lemma_group_of(bs, cs, ms, group, i, cs.len() - 1);
    assert(0 <= j0 < cs.len() - 1 && cs[j0] <= i < cs[j0 + 1]);
    let j = group_index(cs, i);
    assert(group(bs[j], ms.subrange(cs[j], cs[j + 1]), bs[j + 1]));
    if j > 0 {
        assert(bs[0] < bs[j]);
    }
    assert(bs[j] < bs[bs.len() - 1]);
}

/// Members made by later declarations come later.
proof fn lemma_group_index_mono<T>(bs: Seq<int>, cs: Seq<int>, ms: Seq<T>, group: spec_fn(int, Seq<T>, int) -> bool, i: int, i2: int)
    requires
        groups_ok(bs, cs, ms, group),
        0 <= i < i2 < ms.len(),
    ensures
        bs[group_index(cs, i)] <= bs[group_index(cs, i2)],
{
    lemma_group_index(bs, cs, ms, group, i);
    lemma_group_index(bs, cs, ms, group, i2);
    let j = group_index(cs, i);
    let j2 = group_index(cs, i2);
    if j2 < j {
        assert(cs[j2 + 1] <= cs[j]) by {
            if j2 + 1 < j {
                assert(cs[j2 + 1] <= cs[j]);
            }
        }
        assert(false);
    }
    if j < j2 {
        assert(bs[j] < bs[j2]);
    }
}

/// The `i`th member of the declarations `bs`, `cs` of a module interface
/// is placed where its declaration begins, its name is among the names
/// that open that declaration, and a constant's value is the expression
/// between its `con` and its `;`.
pub proof fn lemma_module_member_at(t: Seq<Token>, bs: Seq<int>, cs: Seq<int>, ms: Seq<ModuleMember>, i: int)
    requires
        groups_ok(bs, cs, ms, module_group_fn(t)),
        0 <= i < ms.len(),
    ensures
        bs[0] <= bs[group_index(cs, i)] < bs.last(),
        t[bs[group_index(cs, i)]].kind is Ident,
        !(ms[i] is Func) ==> member_span(ms[i]) == t[bs[group_index(cs, i)]].span,
        ms[i] is Const ==> exists|a: int, e: int, v: Expr| #![trigger expr_rel(t, a, 0, v, e)] bs[group_index(cs, i)] < a < e
            < bs.last() && t[a - 1].kind is Con && t[e].kind is Semicolon && expr_rel(t, a, 0, v, e) && is_expr_copy(
            v,
            ms[i]->Const_0.value,
        ),
        exists|ns: Seq<String>| #[trigger] names_at(t, bs[group_index(cs, i)], ns) && ns.contains(member_names(ms[i])[0]),
{
    let g = module_group_fn(t);
    let m = bs.last();
    lemma_group_index(bs, cs, ms, g, i);
    let j = group_index(cs, i);
    let p = bs[j];
    let e = bs[j + 1];
    let gs = ms.subrange(cs[j], cs[j + 1]);
    assert(module_group(t, p, gs, e));
    let ns = choose|ns: Seq<String>| #[trigger] names_at(t, p, ns) && module_group_body(t, p, ns, gs, e);
    assert(t[p + 2 * 0].kind == TokenKind::Ident(ns[0]));
    let o = i - cs[j];
    assert(gs[o] == ms[i]);
    assert(e <= m) by {
        if j + 1 < bs.len() - 1 {
            assert(bs[j + 1] < bs[bs.len() - 1]);
        }
    }
    if ms[i] is Const {
        let kw = p + 2 * ns.len();
        assert(t[kw].kind is Con);
        let v = choose|v: Expr| #[trigger] expr_rel(t, kw + 1, 0, v, e - 1) && forall|x: int| 0 <= x < gs.len()
            ==> (#[trigger] gs[x] matches ModuleMember::Const(c) && c.name == ns[x] && c.ty is None
            && is_expr_copy(v, c.value) && c.span == t[p].span);
        assert(gs[o] matches ModuleMember::Const(c) && is_expr_copy(v, c.value));
        assert(expr_rel(t, kw + 1, 0, v, e - 1));
    }
    assert(ns.contains(member_names(ms[i])[0])) by {
        if gs.len() == ns.len() {
            assert(member_names(gs[o])[0] == ns[o]);
        } else {
            assert(member_names(gs[o])[0] == ns[0]);
        }
    }
}

/// Where the declaration of each member of a module interface begins: the
/// members of one declaration share its start, later declarations start
/// later, each start is where the declaration's names begin, and every
/// member but a function is placed at the start of its own declaration. A
/// constant's value is the whole expression between its `con` and its `;`.
pub proof fn lemma_module_member_starts(t: Seq<Token>, q: int, ms: Seq<ModuleMember>, m: int) -> (starts: Seq<int>)
    requires
        module_members_rel(t, q, ms, m),
    ensures
        starts.len() == ms.len(),
        forall|i: int| 0 <= i < ms.len() ==> q <= #[trigger] starts[i] < m && t[starts[i]].kind is Ident,
        forall|i: int| 0 <= i < ms.len() && !(ms[i] is Func) ==> member_span(#[trigger] ms[i]) == t[starts[i]].span,
        forall|i: int, j: int| 0 <= i < j < ms.len() ==> #[trigger] starts[i] <= #[trigger] starts[j],
        forall|i: int| 0 <= i < ms.len() && #[trigger] ms[i] is Const ==> exists|a: int, e: int, v: Expr|
            #![trigger expr_rel(t, a, 0, v, e)] starts[i] < a < e < m && t[a - 1].kind is Con && t[e].kind is Semicolon
            && expr_rel(t, a, 0, v, e) && is_expr_copy(v, ms[i]->Const_0.value),
{
    let g = module_group_fn(t);
    let (bs, cs) = choose|bs: Seq<int>, cs: Seq<int>| #[trigger] groups_ok(bs, cs, ms, g) && bs[0] == q && bs.last() == m;
    let starts = Seq::new(ms.len(), |i: int| bs[group_index(cs, i)]);
    assert forall|i: int| 0 <= i < ms.len() implies {
        &&& q <= #[trigger] starts[i] < m
        &&& t[starts[i]].kind is Ident
        &&& !(ms[i] is Func) ==> member_span(ms[i]) == t[starts[i]].span
        &&& ms[i] is Const ==> exists|a: int, e: int, v: Expr| #![trigger expr_rel(t, a, 0, v, e)] starts[i] < a < e < m
            && t[a - 1].kind is Con && t[e].kind is Semicolon && expr_rel(t, a, 0, v, e) && is_expr_copy(v, ms[i]->Const_0.value)
    } by {
        lemma_module_member_at(t, bs, cs, ms, i);
    }
    assert forall|i: int, i2: int| 0 <= i < i2 < ms.len() implies #[trigger] starts[i] <= #[trigger] starts[i2] by {
        lemma_group_index_mono(bs, cs, ms, g, i, i2);
    }
    starts
}

/// The `i`th member of the declarations `bs`, `cs` of a ADT
/// is placed where its declaration begins, its name is among the names
/// that open that declaration, and a constant's value is the expression
/// between its `con` and its `;`.
pub proof fn lemma_adt_member_at(t: Seq<Token>, bs: Seq<int>, cs: Seq<int>, ms: Seq<AdtMember>, i: int)
    requires
        groups_ok(bs, cs, ms, adt_group_fn(t)),
        0 <= i < ms.len(),
    ensures
        bs[0] <= bs[group_index(cs, i)] < bs.last(),
        t[bs[group_index(cs, i)]].kind is Ident,
        !(ms[i] is Func) ==> adt_member_span(ms[i]) == t[bs[group_index(cs, i)]].span,
        ms[i] is Const ==> exists|a: int, e: int, v: Expr| #![trigger expr_rel(t, a, 0, v, e)] bs[group_index(cs, i)] < a < e
            < bs.last() && t[a - 1].kind is Con && t[e].kind is Semicolon && expr_rel(t, a, 0, v, e) && is_expr_copy(
            v,
            ms[i]->Const_0.value,
        ),
        exists|ns: Seq<String>| #[trigger] names_at(t, bs[group_index(cs, i)], ns) && ns.contains(adt_member_names(ms[i])[0]),
{
    let g = adt_group_fn(t);
    let m = bs.last();
    lemma_group_index(bs, cs, ms, g, i);
    let j = group_index(cs, i);
    let p = bs[j];
    let e = bs[j + 1];
    let gs = ms.subrange(cs[j], cs[j + 1]);
    assert(adt_group(t, p, gs, e));
    let o = i - cs[j];
    assert(gs.len() > 0);
    let ns = choose|ns: Seq<String>| #[trigger] names_at(t, p, ns) && adt_group_body(t, p, ns, gs, e);
    assert(t[p + 2 * 0].kind == TokenKind::Ident(ns[0]));
    assert(gs[o] == ms[i]);
    assert(e <= m) by {
        if j + 1 < bs.len() - 1 {
            assert(bs[j + 1] < bs[bs.len() - 1]);
        }
    }
    if ms[i] is Const {
        let kw = p + 2 * ns.len();
        assert(t[kw].kind is Con);
        let v = choose|v: Expr| #[trigger] expr_rel(t, kw + 1, 0, v, e - 1) && forall|x: int| 0 <= x < gs.len()
            ==> (#[trigger] gs[x] matches AdtMember::Const(c) && c.name == ns[x] && c.ty is None
            && is_expr_copy(v, c.value) && c.span == t[p].span);
        assert(gs[o] matches AdtMember::Const(c) && is_expr_copy(v, c.value));
        assert(expr_rel(t, kw + 1, 0, v, e - 1));
    }
    assert(ns.contains(adt_member_names(ms[i])[0])) by {
        if gs.len() == ns.len() {
            assert(adt_member_names(gs[o])[0] == ns[o]);
        } else {
            assert(adt_member_names(gs[o])[0] == ns[0]);
        }
    }
}

/// Where the declaration of each member of an ADT begins: the members of
/// one declaration share its start, later declarations start later, each
/// start is where the declaration's names begin, and every member but a
/// function is placed there. A constant's value is the whole expression
/// between its `con` and its `;`.
pub proof fn lemma_adt_member_starts(t: Seq<Token>, q: int, ms: Seq<AdtMember>, m: int) -> (starts: Seq<int>)
    requires
        adt_members_rel(t, q, ms, m),
    ensures
        starts.len() == ms.len(),
        forall|i: int| 0 <= i < ms.len() ==> q <= #[trigger] starts[i] < m && t[starts[i]].kind is Ident,
        forall|i: int| 0 <= i < ms.len() && !(ms[i] is Func) ==> adt_member_span(#[trigger] ms[i]) == t[starts[i]].span,
        forall|i: int, j: int| 0 <= i < j < ms.len() ==> #[trigger] starts[i] <= #[trigger] starts[j],
        forall|i: int| 0 <= i < ms.len() && #[trigger] ms[i] is Const ==> exists|a: int, e: int, v: Expr|
            #![trigger expr_rel(t, a, 0, v, e)] starts[i] < a < e < m && t[a - 1].kind is Con && t[e].kind is Semicolon
            && expr_rel(t, a, 0, v, e) && is_expr_copy(v, ms[i]->Const_0.value),
{
    let g = adt_group_fn(t);
    let (bs, cs) = choose|bs: Seq<int>, cs: Seq<int>| #[trigger] groups_ok(bs, cs, ms, g) && bs[0] == q && bs.last() == m;
    let starts = Seq::new(ms.len(), |i: int| bs[group_index(cs, i)]);
    assert forall|i: int| 0 <= i < ms.len() implies {
        &&& q <= #[trigger] starts[i] < m
        &&& t[starts[i]].kind is Ident
        &&& !(ms[i] is Func) ==> adt_member_span(ms[i]) == t[starts[i]].span
        &&& ms[i] is Const ==> exists|a: int, e: int, v: Expr| #![trigger expr_rel(t, a, 0, v, e)] starts[i] < a < e < m
            && t[a - 1].kind is Con && t[e].kind is Semicolon && expr_rel(t, a, 0, v, e) && is_expr_copy(v, ms[i]->Const_0.value)
    } by {
        lemma_adt_member_at(t, bs, cs, ms, i);
    }
    assert forall|i: int, i2: int| 0 <= i < i2 < ms.len() implies #[trigger] starts[i] <= #[trigger] starts[i2] by {
        lemma_group_index_mono(bs, cs, ms, g, i, i2);
    }
    starts
}

/// Where the names that open a declaration at `p`, `a, b, c :`, end: just
/// past the colon; -1 where no such names stand at `p`.
pub open spec fn names_end(t: Seq<Token>, p: int) -> int
    decreases t.len() - p,
{
    if 0 <= p && p + 1 < t.len() && t[p].kind is Ident {
        if t[p + 1].kind is Colon {
            p + 2
        } else if t[p + 1].kind is Comma {
            names_end(t, p + 2)
        } else {
            -1
        }
    } else {
        -1
    }
}

/// The names at `p` end where `names_end` says.
proof fn lemma_names_end(t: Seq<Token>, p: int, ns: Seq<String>)
    requires
        names_at(t, p, ns),
    ensures
        names_end(t, p) == p + 2 * ns.len(),
    decreases ns.len(),
{
    assert(t[p + 2 * 0].kind == TokenKind::Ident(ns[0]));
    if ns.len() > 1 {
        let rest = ns.drop_first();
        assert forall|j: int| 0 <= j < rest.len() implies {
            &&& t[p + 2 + 2 * j].kind == TokenKind::Ident(#[trigger] rest[j])
            &&& if j + 1 < rest.len() {
                t[p + 2 + 2 * j + 1].kind is Comma
            } else {
                t[p + 2 + 2 * j + 1].kind is Colon
            }
        } by {
            assert(rest[j] == ns[j + 1]);
            assert(t[p + 2 * (j + 1)].kind == TokenKind::Ident(ns[j + 1]));
        }
        assert(names_at(t, p + 2, rest));
        lemma_names_end(t, p + 2, rest);
    }
}

/// Where `names_end` finds names, names stand at `p`.
proof fn lemma_names_end_names(t: Seq<Token>, p: int) -> (ns: Seq<String>)
    requires
        names_end(t, p) >= 0,
    ensures
        names_at(t, p, ns),
    decreases t.len() - p,
{
    let n = t[p].kind->Ident_0;
    if t[p + 1].kind is Colon {
        let ns = seq![n];
        assert(t[p + 2 * 0].kind == TokenKind::Ident(ns[0]));
        ns
    } else {
        let rest = lemma_names_end_names(t, p + 2);
        let ns = seq![n] + rest;
        assert forall|j: int| 0 <= j < ns.len() implies {
            &&& t[p + 2 * j].kind == TokenKind::Ident(#[trigger] ns[j])
            &&& if j + 1 < ns.len() {
                t[p + 2 * j + 1].kind is Comma
            } else {
                t[p + 2 * j + 1].kind is Colon
            }
        } by {
            if j > 0 {
                assert(ns[j] == rest[j - 1]);
                assert(t[p + 2 + 2 * (j - 1)].kind == TokenKind::Ident(rest[j - 1]));
            }
        }
        ns
    }
}

/// From `p` to a `}`: declarations that each read `names: con x;` or
/// `names: con x op y;` with operands `x` and `y`, or `names: T;` with `T` a
/// basic type.
pub open spec fn plain_members(t: Seq<Token>, p: int) -> bool
    decreases t.len() - p,
{
    if p < 0 || p >= t.len() {
        false
    } else if t[p].kind is RBrace {
        true
    } else {
        let k = names_end(t, p);
        &&& p < k
        &&& k + 1 < t.len()
        &&& {
            ||| (t[k].kind is Con && atom_kind(t[k + 1].kind) && k + 2 < t.len() && t[k + 2].kind is Semicolon
                && plain_members(t, k + 3))
            ||| (t[k].kind is Con && atom_binary(t, k + 1, 0) && t[k + 4].kind is Semicolon && plain_members(t, k + 5))
            ||| (basic_type_kind(t[k].kind) && t[k + 1].kind is Semicolon && plain_members(t, k + 2))
        }
    }
}

/// `r` holds what `d` holds besides its names and span: copies of its
/// types, value, initializer and members, and the same imported module.
pub open spec fn decl_body_copy(d: Decl, r: Decl) -> bool {
    match d {
        Decl::Var(v) => r matches Decl::Var(w) && is_opt_type_copy(v.ty, w.ty) && is_opt_expr_copy(v.init, w.init),
        Decl::Const(c) => r matches Decl::Const(c2) && is_opt_type_copy(c.ty, c2.ty) && is_expr_copy(c.value, c2.value),
        Decl::TypeAlias(a) => r matches Decl::TypeAlias(b) && is_type_copy(a.ty, b.ty),
        Decl::Module(m) => r matches Decl::Module(n) && m.members@.len() == n.members@.len()
            && forall|i: int| 0 <= i < m.members@.len() ==> is_module_member_copy(#[trigger] m.members@[i], n.members@[i]),
        Decl::Adt(a) => r matches Decl::Adt(b) && is_opt_pick_cases_copy(a.pick, b.pick)
            && a.members@.len() == b.members@.len()
            && forall|i: int| 0 <= i < a.members@.len() ==> is_adt_member_copy(#[trigger] a.members@[i], b.members@[i]),
        Decl::Import(i) => r matches Decl::Import(j) && j.module == i.module,
        Decl::Exception(e) => r matches Decl::Exception(f) && is_opt_type_copy(e.ty, f.ty),
        Decl::Func(_) => true,
    }
}

/// What the part of `names: kw ...` after the keyword at `q` gives, the
/// declaration ending just before `end`: a constant's value, an import's
/// module, an exception's type, an alias's type, and a variable's type and
/// initializer. Module and ADT bodies are stated by their kind only.
pub open spec fn colon_decl_body(t: Seq<Token>, q: int, ds: Seq<Decl>, end: int) -> bool {
    &&& t[end - 1].kind is Semicolon
    &&& match t[q].kind {
        TokenKind::Con => exists|v: Expr| #[trigger] expr_rel(t, q + 1, 0, v, end - 1)
            && forall|i: int| 0 <= i < ds.len() ==> (#[trigger] ds[i] matches Decl::Const(c) && c.ty is None
            && is_expr_copy(v, c.value)),
        TokenKind::Import => ds.len() == 1 && (ds[0] matches Decl::Import(imp) && t[q + 1].kind == TokenKind::Ident(
            imp.module,
        ) && end == q + 3),
        TokenKind::Exception => if t[q + 1].kind is LParen {
            exists|ty: Type| #[trigger] type_rel(t, q + 1, ty, end - 1) && forall|i: int| 0 <= i < ds.len()
                ==> (#[trigger] ds[i] matches Decl::Exception(x) && is_opt_type_copy(Some(ty), x.ty))
        } else {
            end == q + 2 && forall|i: int| 0 <= i < ds.len() ==> (#[trigger] ds[i] matches Decl::Exception(x)
                && x.ty is None)
        },
        TokenKind::Type => exists|ty: Type| #[trigger] type_rel(t, q + 1, ty, end - 1) && forall|i: int|
            0 <= i < ds.len() ==> (#[trigger] ds[i] matches Decl::TypeAlias(a) && is_type_copy(ty, a.ty)),
        TokenKind::Module => t[q + 1].kind is LBrace && t[end - 2].kind is RBrace && exists|ms: Seq<ModuleMember>|
            #[trigger] module_members_rel(t, q + 2, ms, end - 2) && forall|i: int| 0 <= i < ds.len()
            ==> (#[trigger] ds[i] matches Decl::Module(md) && md.members@.len() == ms.len() && forall|j: int|
            0 <= j < ms.len() ==> is_module_member_copy(#[trigger] ms[j], md.members@[j])),
        TokenKind::Adt => t[end - 2].kind is RBrace && exists|lb: int, ms: Seq<AdtMember>| #![trigger adt_members_rel(t, lb + 1, ms, end - 2)]
            q < lb && t[lb].kind is LBrace && adt_members_rel(t, lb + 1, ms, end - 2) && forall|i: int| 0 <= i < ds.len()
            ==> (#[trigger] ds[i] matches Decl::Adt(ad) && ad.members@.len() == ms.len() && forall|j: int|
            0 <= j < ms.len() ==> is_adt_member_copy(#[trigger] ms[j], ad.members@[j])),
        _ => ds.len() == 1 && (ds[0] matches Decl::Var(v) && (v.ty matches Some(ty) && exists|a: int|
            #[trigger] type_rel(t, q, ty, a) && q < a < end && match v.init {
            Some(x) => t[a].kind is Assign && expr_rel(t, a + 1, 0, x, end - 1),
            None => a == end - 1,
        })),
    }
}

/// A copy of the declaration `d` under the single name `name`.
fn renamed_decl(d: &Decl, name: String) -> (r: Decl)
    requires
        !(*d is Func),
    ensures
        decl_names(r) == seq![name],
        decl_span(r) == decl_span(*d),
        decl_tag(r) == decl_tag(*d),
        decl_body_copy(*d, r),
{
    match d {
        Decl::Var(v) => Decl::Var(VarDecl {
            names: vec![name],
            ty: copy_opt_type(&v.ty),
            init: copy_opt_expr(&v.init),
            span: v.span,
        }),
        Decl::Const(c) => Decl::Const(ConstDecl { name, ty: copy_opt_type(&c.ty), value: copy_expr(&c.value), span: c.span }),
        Decl::TypeAlias(t) => Decl::TypeAlias(TypeAliasDecl { name, ty: copy_type(&t.ty), span: t.span }),
        Decl::Module(m) => Decl::Module(ModuleDecl { name, members: copy_module_members(&m.members), span: m.span }),
        Decl::Adt(a) => Decl::Adt(AdtDecl {
            name,
            members: copy_adt_members(&a.members),
            pick: copy_opt_pick_cases(&a.pick),
            span: a.span,
        }),
        Decl::Import(i) => Decl::Import(ImportDecl { names: vec![name], module: i.module.clone(), span: i.span }),
        Decl::Exception(e) => Decl::Exception(ExceptionDecl { name, ty: copy_opt_type(&e.ty), span: e.span }),
        Decl::Func(_) => unreached(),
    }
}

/// One copy of `template` per name, in the order of `names`.
fn spread_decl(names: &Vec<String>, template: &Decl) -> (r: Vec<Decl>)
    requires
        !(*template is Func),
    ensures
        r@.len() == names@.len(),
        forall|i: int| 0 <= i < r@.len() ==> decl_names(#[trigger] r@[i]) == seq![names@[i]]
            && decl_span(r@[i]) == decl_span(*template) && decl_tag(r@[i]) == decl_tag(*template),
        forall|i: int| 0 <= i < r@.len() ==> decl_body_copy(*template, #[trigger] r@[i]),
{
    let mut out: Vec<Decl> = Vec::new();
    let mut i: usize = 0;
    while i < names.len()
        invariant
            !(*template is Func),
            i <= names@.len(),
            out@.len() == i,
            forall|j: int| 0 <= j < i ==> decl_names(#[trigger] out@[j]) == seq![names@[j]]
                && decl_span(out@[j]) == decl_span(*template) && decl_tag(out@[j]) == decl_tag(*template),
            forall|j: int| 0 <= j < i ==> decl_body_copy(*template, #[trigger] out@[j]),
        decreases names.len() - i,
    {
        out.push(renamed_decl(template, names[i].clone()));
        i = i + 1;
    }
    out
}

/// A copy of the module member `m` under the single name `name`.
fn renamed_member(m: &ModuleMember, name: String) -> (r: ModuleMember)
    ensures
        member_names(r) == seq![name],
        member_body_copy(*m, r),
{
    match m {
        ModuleMember::Const(c) => ModuleMember::Const(ConstDecl { name, ty: copy_opt_type(&c.ty), value: copy_expr(&c.value), span: c.span }),
        ModuleMember::TypeAlias(t) => ModuleMember::TypeAlias(TypeAliasDecl { name, ty: copy_type(&t.ty), span: t.span }),
        ModuleMember::Var(v) => ModuleMember::Var(VarDecl {
            names: vec![name],
            ty: copy_opt_type(&v.ty),
            init: copy_opt_expr(&v.init),
            span: v.span,
        }),
        ModuleMember::Func(f) => ModuleMember::Func(FuncSig {
            name,
            params: copy_params(&f.params),
            ret: copy_opt_type(&f.ret),
            span: f.span,
        }),
        ModuleMember::Adt(a) => ModuleMember::Adt(AdtDecl {
            name,
            members: copy_adt_members(&a.members),
            pick: copy_opt_pick_cases(&a.pick),
            span: a.span,
        }),
        ModuleMember::Exception(e) => ModuleMember::Exception(ExceptionDecl { name, ty: copy_opt_type(&e.ty), span: e.span }),
    }
}

/// Append one copy of `template` per name to `members`.
fn spread_member(members: &mut Vec<ModuleMember>, names: &Vec<String>, template: &ModuleMember)
    ensures
        final(members)@.len() == old(members)@.len() + names@.len(),
        forall|i: int| 0 <= i < old(members)@.len() ==> #[trigger] final(members)@[i] == old(members)@[i],
        forall|i: int| 0 <= i < names@.len() ==>
            member_names(#[trigger] final(members)@[old(members)@.len() + i]) == seq![names@[i]],
        forall|i: int| 0 <= i < names@.len() ==>
            member_body_copy(*template, #[trigger] final(members)@[old(members)@.len() + i]),
{
    let ghost start = members@.len();
    let mut i: usize = 0;
    while i < names.len()
        invariant
            start == old(members)@.len(),
            i <= names@.len(),
            members@.len() == start + i,
            forall|j: int| 0 <= j < start ==> #[trigger] members@[j] == old(members)@[j],
            forall|j: int| 0 <= j < i ==> member_names(#[trigger] members@[start + j]) == seq![names@[j]],
            forall|j: int| 0 <= j < i ==> member_body_copy(*template, #[trigger] members@[start + j]),
        decreases names.len() - i,
    {
        members.push(renamed_member(template, names[i].clone()));
        i = i + 1;
    }
}

/// A copy of the ADT member `m` under the single name `name`.
fn renamed_adt_member(m: &AdtMember, name: String) -> (r: AdtMember)
    ensures
        adt_member_names(r) == seq![name],
        adt_member_body_copy(*m, r),
{
    match m {
        AdtMember::Field(v) => AdtMember::Field(VarDecl {
            names: vec![name],
            ty: copy_opt_type(&v.ty),
            init: copy_opt_expr(&v.init),
            span: v.span,
        }),
        AdtMember::Const(c) => AdtMember::Const(ConstDecl { name, ty: copy_opt_type(&c.ty), value: copy_expr(&c.value), span: c.span }),
        AdtMember::Func(f) => AdtMember::Func(FuncSig {
            name,
            params: copy_params(&f.params),
            ret: copy_opt_type(&f.ret),
            span: f.span,
        }),
    }
}

/// Append one copy of `template` per name to `members`.
fn spread_adt_member(members: &mut Vec<AdtMember>, names: &Vec<String>, template: &AdtMember)
    ensures
        final(members)@.len() == old(members)@.len() + names@.len(),
        forall|i: int| 0 <= i < old(members)@.len() ==> #[trigger] final(members)@[i] == old(members)@[i],
        forall|i: int| 0 <= i < names@.len() ==>
            adt_member_names(#[trigger] final(members)@[old(members)@.len() + i]) == seq![names@[i]],
        forall|i: int| 0 <= i < names@.len() ==>
            adt_member_body_copy(*template, #[trigger] final(members)@[old(members)@.len() + i]),
{
    let ghost start = members@.len();
    let mut i: usize = 0;
    while i < names.len()
        invariant
            start == old(members)@.len(),
            i <= names@.len(),
            members@.len() == start + i,
            forall|j: int| 0 <= j < start ==> #[trigger] members@[j] == old(members)@[j],
            forall|j: int| 0 <= j < i ==> adt_member_names(#[trigger] members@[start + j]) == seq![names@[j]],
            forall|j: int| 0 <= j < i ==> adt_member_body_copy(*template, #[trigger] members@[start + j]),
        decreases names.len() - i,
    {
        members.push(renamed_adt_member(template, names[i].clone()));
        i = i + 1;
    }
}

/// What follows an identifier at the top level.
pub enum LookAhead {
    FuncDef,
    ColonDecl,
    Assign,
    DeclAssign,
}

/// First name of a `a, b, c: ...` declaration group.
pub fn first_name(names: &Vec<String>) -> (r: String)
    ensures
        names@.len() > 0 ==> r == names@[0],
        names@.len() == 0 ==> r@ == Seq::<char>::empty(),
{
    if names.len() > 0 {
        names[0].clone()
    } else {
        String::new()
    }
}

/// Parser state.
pub struct Parser {
    tokens: Vec<Token>,
    pos: usize,
    file: String,
}

impl Parser {
    /// The tokens being parsed.
    pub closed spec fn token_seq(&self) -> Seq<Token> {
        self.tokens@
    }

    /// The index of the current token.
    pub closed spec fn cursor(&self) -> int {
        self.pos as int
    }

    /// The file name used in errors.
    pub closed spec fn file_name(&self) -> Seq<char> {
        self.file@
    }

    pub closed spec fn wf(&self) -> bool {
        &&& parsable(self.tokens@)
        &&& self.pos < self.tokens@.len()
    }

    /// `self` continues `old`: same tokens and file, well formed, and the
    /// cursor has not moved back.
    pub closed spec fn continues(&self, old: Parser) -> bool {
        &&& self.wf()
        &&& self.tokens == old.tokens
        &&& self.file == old.file
        &&& old.pos <= self.pos
    }

    /// Tokens left to read, the measure that every parsing step reduces.
    pub closed spec fn remaining(&self) -> int {
        self.tokens@.len() - self.pos
    }

    /// The tag of the current token.
    pub closed spec fn cur_tag(&self) -> u8 {
        tag_of(self.tokens@, self.pos as int)
    }

    /// The current token's kind.
    pub closed spec fn cur_kind(&self) -> TokenKind {
        self.tokens@[self.pos as int].kind
    }

    /// The current token's place.
    pub closed spec fn cur_span(&self) -> Span {
        self.tokens@[self.pos as int].span
    }

    /// A parser at the first of `tokens`. Past the end of a list that does
    /// not end with `Eof` the parser reads an `Eof` at the default place.
    pub fn new(tokens: Vec<Token>, file: &str) -> (r: Self)
        requires
            tokens@.len() < u32::MAX,
        ensures
            r.wf(),
            r.token_seq() == with_final_eof(tokens@),
            r.cursor() == 0,
            r.file_name() == file@,
    {
        let mut tokens = tokens;
        let n = tokens.len();
        let ends = n > 0 && match tokens[n - 1].kind {
            TokenKind::Eof => true,
            _ => false,
        };
        if !ends {
            tokens.push(Token { kind: TokenKind::Eof, span: Span { line: 0, col: 0 } });
        }
        Parser { tokens, pos: 0, file: String::from_str(file) }
    }

    // ── Helpers ─────────────────────────────────────────────────

    fn span(&self) -> (r: Span)
        requires
            self.wf(),
        ensures
            r == self.tokens@[self.pos as int].span,
    {
        self.tokens[self.pos].span
    }

    fn peek(&self) -> (r: &TokenKind)
        requires
            self.wf(),
        ensures
            *r == self.tokens@[self.pos as int].kind,
    {
        &self.tokens[self.pos].kind
    }

    fn at(&self, kind: &TokenKind) -> (r: bool)
        requires
            self.wf(),
        ensures
            r == (tag_of(self.tokens@, self.pos as int) == kind_tag(*kind)),
    {
        self.tokens[self.pos].kind.tag() == kind.tag()
    }

    /// Is the token `n` places ahead of the cursor of this kind? Past the
    /// end it reads as `Eof`.
    fn at_offset(&self, n: usize, kind: &TokenKind) -> (r: bool)
        requires
            self.wf(),
            n <= 2,
        ensures
            self.pos + n < self.tokens@.len() ==> r == (tag_of(self.tokens@, self.pos + n) == kind_tag(*kind)),
            self.pos + n >= self.tokens@.len() ==> r == (kind_tag(TokenKind::Eof) == kind_tag(*kind)),
    {
        if n < self.tokens.len() - self.pos {
            self.tokens[self.pos + n].kind.tag() == kind.tag()
        } else {
            kind.tag() == TokenKind::Eof.tag()
        }
    }

    fn advance(&mut self)
        requires
            old(self).wf(),
        ensures
            final(self).continues(*old(self)),
            old(self).pos + 1 < old(self).tokens@.len() ==> final(self).pos == old(self).pos + 1,
            old(self).pos + 1 >= old(self).tokens@.len() ==> final(self).pos == old(self).pos,
            !(old(self).tokens@[old(self).pos as int].kind is Eof) ==> final(self).pos == old(self).pos + 1,
    {
        if self.pos < self.tokens.len() - 1 {
            self.pos = self.pos + 1;
        }
    }

    fn err(&self, msg: String) -> (r: ParseError)
        requires
            self.wf(),
        ensures
            r.file == self.file,
            r.span == self.tokens@[self.pos as int].span,
            r.message == msg,
    {
        ParseError { file: self.file.clone(), span: self.span(), message: msg }
    }

    fn expect(&mut self, kind: &TokenKind) -> (r: Result<(), ParseError>)
        requires
            old(self).wf(),
            !(*kind is Eof),
        ensures
            final(self).continues(*old(self)),
            r is Ok <==> old(self).cur_tag() == kind_tag(*kind),
            r is Ok ==> final(self).pos == old(self).pos + 1,
            r is Err ==> final(self).pos == old(self).pos,
            r matches Err(e) ==> e.file == old(self).file && e.span == old(self).cur_span()
                && e.message@ == "expected "@ + kind_debug_text(*kind) + ", got "@ + kind_debug_text(old(self).cur_kind()),
            r matches Err(e) ==> at_token(old(self).tokens@, old(self).pos as int, e.span),
    {
        if self.at(kind) {
            proof {
                if self.tokens@[self.pos as int].kind is Eof {
                    assert(kind_tag(*kind) == kind_tag(TokenKind::Eof));
                }
            }
            self.advance();
            Ok(())
        } else {
            let mut m = String::from_str("expected ");
            let k = kind.debug_text();
            m.append(k.as_str());
            m.append(", got ");
            let g = self.peek().debug_text();
            m.append(g.as_str());
            Err(self.err(m))
        }
    }

    fn expect_ident(&mut self) -> (r: Result<String, ParseError>)
        requires
            old(self).wf(),
        ensures
            final(self).continues(*old(self)),
            r is Ok <==> old(self).cur_kind() is Ident,
            r matches Ok(n) ==> old(self).cur_kind() == TokenKind::Ident(n) && final(self).pos == old(self).pos + 1,
            r is Err ==> final(self).pos == old(self).pos,
            r matches Err(e) ==> e.file == old(self).file && e.span == old(self).cur_span()
                && e.message@ == "expected identifier, got "@ + kind_debug_text(old(self).cur_kind()),
            r matches Err(e) ==> at_token(old(self).tokens@, old(self).pos as int, e.span),
    {
        match self.peek() {
            TokenKind::Ident(name) => {
                let n = name.clone();
                self.advance();
                Ok(n)
            },
            _ => {
                let mut m = String::from_str("expected identifier, got ");
                let g = self.peek().debug_text();
                m.append(g.as_str());
                Err(self.err(m))
            },
        }
    }

    fn expect_semi(&mut self) -> (r: Result<(), ParseError>)
        requires
            old(self).wf(),
        ensures
            final(self).continues(*old(self)),
            r is Ok <==> old(self).cur_kind() is Semicolon,
            r is Ok ==> final(self).pos == old(self).pos + 1,
            r is Err ==> final(self).pos == old(self).pos,
            r matches Err(e) ==> e.file == old(self).file,
            r matches Err(e) ==> at_token(old(self).tokens@, old(self).pos as int, e.span),
            r matches Err(e) ==> missing_semi_error(old(self).tokens@, old(self).pos as int, e),
    {
        self.expect(&TokenKind::Semicolon)
    }

    /// Is the cursor on the wildcard arm of a `case`, `alt`, or `pick`? The
    /// wildcard is `'*'` followed by the `=>` that opens the arm, or by the
    /// `or` that joins it to another pattern. The token after the star is
    /// what decides, because a statement may start with one too.
    fn at_wildcard_arm(&self) -> (r: bool)
        requires
            self.wf(),
        ensures
            r == (self.cur_kind() is Star && self.pos + 1 < self.tokens@.len()
                && (self.tokens@[self.pos + 1].kind is FatArrow || self.tokens@[self.pos + 1].kind is Or)),
    {
        self.at(&TokenKind::Star) && (self.at_offset(1, &TokenKind::FatArrow) || self.at_offset(1, &TokenKind::Or))
    }

    /// Step over a `[T1, T2]` type parameter list. Polymorphic types are not
    /// represented, so the list is discarded.
    fn skip_type_params(&mut self)
        requires
            old(self).wf(),
        ensures
            final(self).continues(*old(self)),
            !(old(self).cur_kind() is LBracket) ==> final(self).pos == old(self).pos,
            old(self).cur_kind() is LBracket ==> final(self).pos > old(self).pos,
            final(self).pos == past_type_params(old(self).tokens@, old(self).pos as int),
    {
        if !self.at(&TokenKind::LBracket) {
            return;
        }
        self.advance();
        while !self.at(&TokenKind::RBracket) && !self.at(&TokenKind::Eof)
            invariant
                self.continues(*old(self)),
                self.pos > old(self).pos,
                old(self).cur_kind() is LBracket,
                bracket_stop(self.tokens@, self.pos as int) == bracket_stop(old(self).tokens@, old(self).pos + 1),
            decreases self.tokens@.len() - self.pos,
        {
            self.advance();
        }
        if self.at(&TokenKind::RBracket) {
            self.advance();
        }
    }

    /// Step over everything up to and including the next `}` (or to `Eof`).
    fn skip_to_close_brace(&mut self)
        requires
            old(self).wf(),
        ensures
            final(self).continues(*old(self)),
            final(self).pos == past_close_brace(old(self).tokens@, old(self).pos as int),
    {
        while !self.at(&TokenKind::RBrace) && !self.at(&TokenKind::Eof)
            invariant
                self.continues(*old(self)),
                brace_stop(self.tokens@, self.pos as int) == brace_stop(old(self).tokens@, old(self).pos as int),
            decreases self.tokens@.len() - self.pos,
        {
            self.advance();
        }
        if self.at(&TokenKind::RBrace) {
            self.advance();
        }
    }

    /// Step over the header of an ADT declaration: its type parameters and an
    /// optional `for { ... }` clause.
    fn skip_adt_header(&mut self) -> (r: Result<(), ParseError>)
        requires
            old(self).wf(),
        ensures
            final(self).continues(*old(self)),
            r matches Err(e) ==> e.file == old(self).file,
            r matches Err(e) ==> at_token(old(self).tokens@, old(self).pos as int, e.span),
            ({
                let t = old(self).tokens@;
                let p = past_type_params(t, old(self).pos as int);
                if t[p].kind is For {
                    &&& (r is Ok <==> t[p + 1].kind is LBrace)
                    &&& r is Ok ==> final(self).pos == past_close_brace(t, p + 2)
                    &&& r matches Err(e) ==> e.span == t[p + 1].span && e.message@ == "expected "@
                        + kind_debug_text(TokenKind::LBrace) + ", got "@ + kind_debug_text(t[p + 1].kind)
                } else {
                    r is Ok && final(self).pos == p
                }
            }),
    {
        self.skip_type_params();
        if self.at(&TokenKind::For) {
            self.advance();
            self.expect(&TokenKind::LBrace)?;
            self.skip_to_close_brace();
        }
        Ok(())
    }

    /// Determine what follows an identifier at the top level: skip a
    /// qualified name and type parameters, then `(` starts a function, `:`
    /// or `,` a declaration, `=` an assignment and `:=` a declaring
    /// assignment; anything else is read as a declaration.
    fn look_ahead_after_ident(&self) -> (r: LookAhead)
        requires
            self.wf(),
        ensures
            r == after_ident(self.tokens@, self.pos + 1, false),
    {
        let mut i = self.pos + 1;
        while i < self.tokens.len()
            invariant
                self.wf(),
                self.pos < i <= self.tokens@.len(),
                after_ident(self.tokens@, i as int, false) == after_ident(self.tokens@, self.pos + 1, false),
            decreases self.tokens@.len() - i,
        {
            match &self.tokens[i].kind {
                TokenKind::Dot => {
                    i = i + 1;
                    if i < self.tokens.len() {
                        if let TokenKind::Ident(_) = &self.tokens[i].kind {
                            i = i + 1;
                        }
                    }
                },
                TokenKind::LParen => {
                    return LookAhead::FuncDef;
                },
                TokenKind::LBracket => {
                    i = i + 1;
                    let ghost i0 = i;
                    while i < self.tokens.len() && !(self.tokens[i].kind.tag() == TokenKind::RBracket.tag())
                        invariant
                            self.wf(),
                            i0 <= i,
                            self.pos < i <= self.tokens@.len(),
                            after_ident(self.tokens@, i as int, true) == after_ident(self.tokens@, self.pos + 1, false),
                        decreases self.tokens@.len() - i,
                    {
                        i = i + 1;
                    }
                    if i < self.tokens.len() {
                        i = i + 1;
                    }
                },
                TokenKind::Colon => {
                    return LookAhead::ColonDecl;
                },
                TokenKind::Comma => {
                    return LookAhead::ColonDecl;
                },
                TokenKind::Assign => {
                    return LookAhead::Assign;
                },
                TokenKind::ColonEq => {
                    return LookAhead::DeclAssign;
                },
                _ => {
                    return LookAhead::ColonDecl;
                },
            }
        }
        LookAhead::ColonDecl
    }

    /// A field starts with an identifier followed by `,` or `:`.
    fn is_field_start(&self) -> (r: bool)
        requires
            self.wf(),
        ensures
            r == (self.cur_kind() is Ident && self.pos + 1 < self.tokens@.len()
                && (self.tokens@[self.pos + 1].kind is Comma || self.tokens@[self.pos + 1].kind is Colon)),
    {
        if let TokenKind::Ident(_) = self.peek() {
            let next = self.pos + 1;
            if next < self.tokens.len() {
                match &self.tokens[next].kind {
                    TokenKind::Comma | TokenKind::Colon => true,
                    _ => false,
                }
            } else {
                false
            }
        } else {
            false
        }
    }

    /// Does a pick tag start here: an identifier, then `or ident` pairs,
    /// then `=>`?
    fn is_pick_tag_start(&self) -> (r: bool)
        requires
            self.wf(),
        ensures
            r ==> self.cur_kind() is Ident,
            r == (self.cur_kind() is Ident && pick_tag_from(self.tokens@, self.pos + 1)),
    {
        if let TokenKind::Ident(_) = self.peek() {
            let mut i = self.pos + 1;
            while i < self.tokens.len()
                invariant
                    self.wf(),
                    self.pos < i <= self.tokens@.len(),
                    self.cur_kind() is Ident,
                    pick_tag_from(self.tokens@, i as int) == pick_tag_from(self.tokens@, self.pos + 1),
                decreases self.tokens@.len() - i,
            {
                match &self.tokens[i].kind {
                    TokenKind::Or => {
                        i = i + 1;
                        if i < self.tokens.len() {
                            if let TokenKind::Ident(_) = &self.tokens[i].kind {
                                i = i + 1;
                            }
                        }
                    },
                    TokenKind::FatArrow => {
                        return true;
                    },
                    _ => {
                        return false;
                    },
                }
            }
        }
        false
    }

    /// Check if the next comma starts a new parameter group. In Limbo,
    /// `a, b: int` groups a and b with int, while `a: int, b: string` are
    /// separate: after the comma, names and commas up to a colon share the
    /// type that follows it.
    fn is_param_type_next(&self) -> (r: bool)
        requires
            self.wf(),
        ensures
            r == param_type_next_from(self.tokens@, self.pos + 1),
    {
        let mut i = self.pos + 1;
        while i < self.tokens.len()
            invariant
                self.wf(),
                self.pos < i <= self.tokens@.len(),
                param_type_next_from(self.tokens@, i as int) == param_type_next_from(self.tokens@, self.pos + 1),
            decreases self.tokens@.len() - i,
        {
            match &self.tokens[i].kind {
                TokenKind::Ident(_) | TokenKind::Nil => {
                    i = i + 1;
                    if i < self.tokens.len() && self.tokens[i].kind.tag() == TokenKind::Comma.tag() {
                        i = i + 1;
                        continue;
                    }
                    if i < self.tokens.len() && self.tokens[i].kind.tag() == TokenKind::Colon.tag() {
                        return false;
                    }
                    return true;
                },
                _ => {
                    return true;
                },
            }
        }
        true
    }

    /// Check if the current position starts an exception pattern: a string,
    /// `*` (as a wildcard arm) or an identifier, eventually followed by `=>`.
    fn is_exception_pattern_start(&self) -> (r: bool)
        requires
            self.wf(),
        ensures
            r ==> self.cur_kind() is Star || self.cur_kind() is StringLit || self.cur_kind() is Ident,
            r == (if self.cur_kind() is Star {
                self.pos + 1 < self.tokens@.len() && (self.tokens@[self.pos + 1].kind is FatArrow
                    || self.tokens@[self.pos + 1].kind is Or)
            } else {
                (self.cur_kind() is StringLit || self.cur_kind() is Ident) && exception_pattern_from(
                    self.tokens@,
                    self.pos + 1,
                )
            }),
    {
        match self.peek() {
            TokenKind::Star => {
                return self.at_wildcard_arm();
            },
            TokenKind::StringLit(_) | TokenKind::Ident(_) => {},
            _ => {
                return false;
            },
        }
        let mut i = self.pos + 1;
        while i < self.tokens.len()
            invariant
                self.wf(),
                self.pos < i <= self.tokens@.len(),
                self.cur_kind() is StringLit || self.cur_kind() is Ident,
                exception_pattern_from(self.tokens@, i as int) == exception_pattern_from(self.tokens@, self.pos + 1),
            decreases self.tokens@.len() - i,
        {
            match &self.tokens[i].kind {
                TokenKind::FatArrow => {
                    return true;
                },
                TokenKind::Or | TokenKind::StringLit(_) | TokenKind::Ident(_) | TokenKind::Star => {
                    i = i + 1;
                },
                _ => {
                    return false;
                },
            }
        }
        false
    }

    /// Check if the current position is a label: an identifier, `:`, and a
    /// statement that can carry a label.
    fn is_label(&self) -> (r: bool)
        requires
            self.wf(),
        ensures
            r == (self.cur_kind() is Ident && self.pos + 2 < self.tokens@.len()
                && self.tokens@[self.pos + 1].kind is Colon
                && label_target(self.tokens@[self.pos + 2].kind)),
    {
        if let TokenKind::Ident(_) = self.peek() {
        } else {
            return false;
        }
        let i = self.pos + 1;
        if i >= self.tokens.len() || self.tokens[i].kind.tag() != TokenKind::Colon.tag() {
            return false;
        }
        if i + 1 >= self.tokens.len() {
            return false;
        }
        match &self.tokens[i + 1].kind {
            TokenKind::For | TokenKind::While | TokenKind::Do | TokenKind::Case | TokenKind::Alt
            | TokenKind::Pick | TokenKind::LBrace => true,
            _ => false,
        }
    }

    /// Check if the current position starts a local variable declaration:
    /// `name [, name]* : type [= expr] ;`, told apart from labels
    /// (`name: stmt`) and expressions (`name(args)`).
    fn is_local_var_decl(&self) -> (r: bool)
        requires
            self.wf(),
        ensures
            r ==> self.cur_kind() is Ident,
            r == (self.cur_kind() is Ident && !(self.pos + 2 < self.tokens@.len()
                && self.tokens@[self.pos + 1].kind is Colon && (label_target(self.tokens@[self.pos + 2].kind)
                || self.tokens@[self.pos + 2].kind is Semicolon)) && local_decl_from(self.tokens@, self.pos + 1)),
    {
        if let TokenKind::Ident(_) = self.peek() {
        } else {
            return false;
        }
        let mut i = self.pos + 1;
        if i < self.tokens.len() && self.tokens[i].kind.tag() == TokenKind::Colon.tag() && i + 1 < self.tokens.len() {
            match &self.tokens[i + 1].kind {
                TokenKind::For | TokenKind::While | TokenKind::Do | TokenKind::Case | TokenKind::Alt
                | TokenKind::Pick | TokenKind::LBrace | TokenKind::Semicolon => {
                    return false;
                },
                _ => {},
            }
        }
        while i < self.tokens.len()
            invariant
                self.wf(),
                self.pos < i <= self.tokens@.len(),
                self.cur_kind() is Ident,
                local_decl_from(self.tokens@, i as int) == local_decl_from(self.tokens@, self.pos + 1),
                !(self.pos + 2 < self.tokens@.len() && self.tokens@[self.pos + 1].kind is Colon
                    && (label_target(self.tokens@[self.pos + 2].kind) || self.tokens@[self.pos + 2].kind is Semicolon)),
            decreases self.tokens@.len() - i,
        {
            match &self.tokens[i].kind {
                TokenKind::Comma => {
                    i = i + 1;
                    if i < self.tokens.len() {
                        if let TokenKind::Ident(_) = &self.tokens[i].kind {
                            i = i + 1;
                        }
                    }
                },
                TokenKind::Colon => {
                    if i + 1 < self.tokens.len() {
                        return match &self.tokens[i + 1].kind {
                            TokenKind::Int | TokenKind::Byte | TokenKind::Big | TokenKind::Real
                            | TokenKind::String_ | TokenKind::Array | TokenKind::List | TokenKind::Chan
                            | TokenKind::Ref | TokenKind::Fn | TokenKind::LParen | TokenKind::Cyclic
                            | TokenKind::Import | TokenKind::Con | TokenKind::Type | TokenKind::Self_
                            | TokenKind::Ident(_) => true,
                            _ => false,
                        };
                    }
                    return false;
                },
                _ => {
                    return false;
                },
            }
        }
        false
    }

    /// Does a `case` pattern start here? A wildcard arm does; a statement
    /// keyword or block does not; otherwise look ahead (at most 60 tokens)
    /// for a `=>` at bracket depth 0 before anything that ends a statement.
    fn is_case_pattern_start(&self) -> (r: bool)
        requires
            self.wf(),
        ensures
            r ==> !(self.cur_kind() is LBrace) && !(self.cur_kind() is Semicolon),
            r == ((self.cur_kind() is Star && self.pos + 1 < self.tokens@.len()
                && (self.tokens@[self.pos + 1].kind is FatArrow || self.tokens@[self.pos + 1].kind is Or))
                || (!(self.cur_kind() is LBrace || self.cur_kind() is Semicolon || case_stmt_keyword(self.cur_kind()))
                && ((self.pos + 1 < self.tokens@.len() && self.tokens@[self.pos + 1].kind is FatArrow)
                || case_scan(self.tokens@, self.pos as int, look_limit(self.tokens@.len() as int, self.pos as int, 60), 0)))),
    {
        if self.at_wildcard_arm() {
            return true;
        }
        match self.peek() {
            TokenKind::LBrace | TokenKind::If | TokenKind::For | TokenKind::While | TokenKind::Do
            | TokenKind::Return | TokenKind::Break | TokenKind::Continue | TokenKind::Exit
            | TokenKind::Spawn | TokenKind::Raise | TokenKind::Alt | TokenKind::Pick | TokenKind::Case
            | TokenKind::Semicolon => {
                return false;
            },
            _ => {},
        }
        if self.pos + 1 < self.tokens.len() {
            if let TokenKind::FatArrow = &self.tokens[self.pos + 1].kind {
                return true;
            }
        }
        let mut depth: i64 = 0;
        let mut i = self.pos;
        let limit = if self.tokens.len() - self.pos > 60 {
            self.pos + 60
        } else {
            self.tokens.len()
        };
        while i < limit
            invariant
                self.wf(),
                self.pos <= i <= limit <= self.tokens@.len(),
                0 <= depth <= i - self.pos,
                i == self.pos ==> depth == 0,
                !(self.cur_kind() is LBrace) && !(self.cur_kind() is Semicolon),
                limit == look_limit(self.tokens@.len() as int, self.pos as int, 60),
                !(self.cur_kind() is Star && self.pos + 1 < self.tokens@.len()
                    && (self.tokens@[self.pos + 1].kind is FatArrow || self.tokens@[self.pos + 1].kind is Or)),
                !(self.cur_kind() is LBrace || self.cur_kind() is Semicolon || case_stmt_keyword(self.cur_kind())),
                !(self.pos + 1 < self.tokens@.len() && self.tokens@[self.pos + 1].kind is FatArrow),
                case_scan(self.tokens@, i as int, limit as int, depth as int) == case_scan(self.tokens@, self.pos as int, limit as int, 0),
            decreases limit - i,
        {
            match &self.tokens[i].kind {
                TokenKind::FatArrow => {
                    if depth == 0 {
                        return true;
                    }
                },
                TokenKind::LParen | TokenKind::LBracket | TokenKind::LBrace => {
                    depth = depth + 1;
                },
                TokenKind::RParen | TokenKind::RBracket => {
                    if depth == 0 {
                        return false;
                    }
                    depth = depth - 1;
                },
                TokenKind::RBrace => {
                    if depth < 1 {
                        return false;
                    }
                    depth = depth - 1;
                },
                TokenKind::Semicolon => {
                    if depth == 0 {
                        return false;
                    }
                },
                TokenKind::If | TokenKind::For | TokenKind::While | TokenKind::Do | TokenKind::Case
                | TokenKind::Return | TokenKind::Break | TokenKind::Continue | TokenKind::Exit
                | TokenKind::Spawn | TokenKind::Raise | TokenKind::Alt | TokenKind::Pick => {
                    if depth == 0 {
                        return false;
                    }
                },
                _ => {},
            }
            i = i + 1;
        }
        false
    }

    /// Does an `alt` guard start here? A wildcard arm does; otherwise look
    /// ahead (at most 30 tokens) for `=>` before `;`, `{` or `}`.
    fn is_alt_guard_start(&self) -> (r: bool)
        requires
            self.wf(),
        ensures
            r ==> !(self.cur_kind() is RBrace),
            r == ((self.cur_kind() is Star && self.pos + 1 < self.tokens@.len()
                && (self.tokens@[self.pos + 1].kind is FatArrow || self.tokens@[self.pos + 1].kind is Or))
                || alt_scan(self.tokens@, self.pos as int, look_limit(self.tokens@.len() as int, self.pos as int, 30))),
    {
        if self.at_wildcard_arm() {
            return true;
        }
        let mut i = self.pos;
        let limit = if self.tokens.len() - self.pos > 30 {
            self.pos + 30
        } else {
            self.tokens.len()
        };
        while i < limit
            invariant
                self.wf(),
                self.pos <= i <= limit <= self.tokens@.len(),
                i > self.pos ==> !(self.cur_kind() is RBrace),
                limit == look_limit(self.tokens@.len() as int, self.pos as int, 30),
                !(self.cur_kind() is Star && self.pos + 1 < self.tokens@.len()
                    && (self.tokens@[self.pos + 1].kind is FatArrow || self.tokens@[self.pos + 1].kind is Or)),
                alt_scan(self.tokens@, i as int, limit as int) == alt_scan(self.tokens@, self.pos as int, limit as int),
            decreases limit - i,
        {
            match &self.tokens[i].kind {
                TokenKind::FatArrow => {
                    return true;
                },
                TokenKind::Semicolon | TokenKind::LBrace | TokenKind::RBrace => {
                    return false;
                },
                _ => {
                    i = i + 1;
                },
            }
        }
        false
    }

    /// The binding powers and operator of the current token, if it is an
    /// infix operator.
    fn infix_binding_power(&self) -> (r: Option<(u8, u8, BinOp)>)
        requires
            self.wf(),
        ensures
            r == infix_power(self.cur_kind()),
    {
        match self.peek() {
            TokenKind::OrOr => Some((3, 4, BinOp::LogOr)),
            TokenKind::AndAnd => Some((5, 6, BinOp::LogAnd)),
            TokenKind::Pipe => Some((9, 10, BinOp::Or)),
            TokenKind::Caret => Some((11, 12, BinOp::Xor)),
            TokenKind::Amp => Some((13, 14, BinOp::And)),
            TokenKind::Eq => Some((15, 16, BinOp::Eq)),
            TokenKind::Neq => Some((15, 16, BinOp::Neq)),
            TokenKind::Lt => Some((17, 18, BinOp::Lt)),
            TokenKind::Gt => Some((17, 18, BinOp::Gt)),
            TokenKind::Leq => Some((17, 18, BinOp::Leq)),
            TokenKind::Geq => Some((17, 18, BinOp::Geq)),
            TokenKind::Lshift => Some((19, 20, BinOp::Lshift)),
            TokenKind::Rshift => Some((19, 20, BinOp::Rshift)),
            TokenKind::Plus => Some((21, 22, BinOp::Add)),
            TokenKind::Minus => Some((21, 22, BinOp::Sub)),
            TokenKind::Star => Some((23, 24, BinOp::Mul)),
            TokenKind::Slash => Some((23, 24, BinOp::Div)),
            TokenKind::Percent => Some((23, 24, BinOp::Mod)),
            TokenKind::Power => Some((26, 25, BinOp::Power)),
            _ => None,
        }
    }

    /// The kind of the current token, if it is an assignment operator.
    fn assign_binding_power(&self) -> (r: Option<AssignKind>)
        requires
            self.wf(),
        ensures
            r == assign_power(self.cur_kind()),
    {
        match self.peek() {
            TokenKind::Assign => Some(AssignKind::Simple),
            TokenKind::ColonEq => Some(AssignKind::Decl),
            TokenKind::PlusEq => Some(AssignKind::Compound(BinOp::Add)),
            TokenKind::MinusEq => Some(AssignKind::Compound(BinOp::Sub)),
            TokenKind::StarEq => Some(AssignKind::Compound(BinOp::Mul)),
            TokenKind::SlashEq => Some(AssignKind::Compound(BinOp::Div)),
            TokenKind::PercentEq => Some(AssignKind::Compound(BinOp::Mod)),
            TokenKind::AmpEq => Some(AssignKind::Compound(BinOp::And)),
            TokenKind::PipeEq => Some(AssignKind::Compound(BinOp::Or)),
            TokenKind::CaretEq => Some(AssignKind::Compound(BinOp::Xor)),
            TokenKind::LshiftEq => Some(AssignKind::Compound(BinOp::Lshift)),
            TokenKind::RshiftEq => Some(AssignKind::Compound(BinOp::Rshift)),
            _ => None,
        }
    }

    /// `self` continues `old` and has read at least one more token.
    pub closed spec fn progressed(&self, old: Parser) -> bool {
        &&& self.continues(old)
        &&& old.pos < self.pos
    }

    // ── Types ──────────────────────────────────────────────────

    fn parse_type(&mut self) -> (r: Result<Type, ParseError>)
        requires
            old(self).wf(),
        ensures
            final(self).continues(*old(self)),
            r is Ok ==> final(self).progressed(*old(self)),
            r matches Ok(t) ==> type_shape(old(self).cur_kind(), t),
            r matches Ok(ty) ==> type_rel(old(self).tokens@, old(self).pos as int, ty, final(self).pos as int),
            r matches Err(e) ==> e.file == old(self).file,
            r matches Err(e) ==> at_token(old(self).tokens@, old(self).pos as int, e.span),
            basic_type_kind(old(self).cur_kind()) ==> r is Ok && final(self).pos == old(self).pos + 1,
        decreases old(self).remaining(), 12nat,
    {
        let ghost t = self.tokens@;
        let ghost p = self.pos as int;
        match self.peek() {
            TokenKind::Int => {
                self.advance();
                Ok(Type::Basic(BasicType::Int))
            },
            TokenKind::Byte => {
                self.advance();
                Ok(Type::Basic(BasicType::Byte))
            },
            TokenKind::Big => {
                self.advance();
                Ok(Type::Basic(BasicType::Big))
            },
            TokenKind::Real => {
                self.advance();
                Ok(Type::Basic(BasicType::Real))
            },
            TokenKind::String_ => {
                self.advance();
                Ok(Type::Basic(BasicType::String))
            },
            TokenKind::Array => {
                self.advance();
                self.expect(&TokenKind::Of)?;
                let elem = self.parse_type()?;
                proof {
                    assert(t[p + 1].kind is Of);
                }
                Ok(Type::Array(Box::new(elem)))
            },
            TokenKind::List => {
                self.advance();
                self.expect(&TokenKind::Of)?;
                let elem = self.parse_type()?;
                proof {
                    assert(t[p + 1].kind is Of);
                }
                Ok(Type::List(Box::new(elem)))
            },
            TokenKind::Chan => {
                self.advance();
                self.expect(&TokenKind::Of)?;
                let elem = self.parse_type()?;
                proof {
                    assert(t[p + 1].kind is Of);
                }
                Ok(Type::Chan(Box::new(elem)))
            },
            TokenKind::Ref => {
                self.advance();
                let inner = self.parse_type()?;
                Ok(Type::Ref(Box::new(inner)))
            },
            // `fn` in a type position keeps the polymorphic parameter list
            // that the grammar allows there.
            TokenKind::Fn => {
                let sig = self.parse_func_sig(String::new())?;
                Ok(Type::Func(Box::new(sig)))
            },
            TokenKind::LParen => {
                self.advance();
                let first = self.parse_type()?;
                let ghost m0 = self.pos as int;
                let ghost gf = first;
                proof {
                    assert(trigger_type_end(gf, m0));
                }
                if self.at(&TokenKind::Comma) {
                    let mut types = Vec::new();
                    types.push(first);
                    proof {
                        assert forall|vs: Seq<Type>, end: int| #[trigger] type_tail(t, m0, vs, end) implies type_tail(
                            t,
                            m0,
                            types@.drop_first() + vs,
                            end,
                        ) by {
                            assert(types@.drop_first() + vs =~= vs);
                        }
                    }
                    loop
                        invariant
                            self.progressed(*old(self)),
                            old(self).cur_kind() is LParen,
                            t == self.tokens@,
                            p == old(self).pos,
                            types@.len() >= 1,
                            types@.len() == 1 ==> t[self.pos as int].kind is Comma,
                            types@[0] == gf,
                            forall|vs: Seq<Type>, end: int| #[trigger] type_tail(t, self.pos as int, vs, end) ==> type_tail(
                                t,
                                m0,
                                types@.drop_first() + vs,
                                end,
                            ),
                        ensures
                            self.progressed(*old(self)),
                            types@.len() >= 2,
                            types@[0] == gf,
                            t[self.pos as int].kind is RParen ==> type_tail(t, m0, types@.drop_first(), self.pos + 1),
                        decreases self.remaining(),
                    {
                        let ghost c = self.pos as int;
                        let ghost before = types@;
                        if !self.at(&TokenKind::Comma) {
                            proof {
                                if t[c].kind is RParen {
                                    assert(type_tail(t, c, Seq::<Type>::empty(), c + 1));
                                    assert(before.drop_first() + Seq::<Type>::empty() =~= before.drop_first());
                                }
                            }
                            break;
                        }
                        self.advance();
                        let x = self.parse_type()?;
                        let ghost gx = x;
                        types.push(x);
                        proof {
                            let m = self.pos as int;
                            assert forall|vs: Seq<Type>, end: int| #[trigger] type_tail(t, m, vs, end) implies type_tail(
                                t,
                                m0,
                                types@.drop_first() + vs,
                                end,
                            ) by {
                                let rest = seq![gx] + vs;
                                assert(rest[0] == gx);
                                assert(rest.drop_first() =~= vs);
                                assert(trigger_type_end(rest[0], m));
                                assert(type_tail(t, c, rest, end));
                                assert(before.drop_first() + rest =~= types@.drop_first() + vs);
                            }
                        }
                    }
                    let ghost rp = self.pos as int;
                    self.expect(&TokenKind::RParen)?;
                    proof {
                        assert(t[rp].kind is RParen);
                        let v = types@;
                        assert(v[0] == gf);
                    }
                    Ok(Type::Tuple(types))
                } else {
                    let ghost rp = self.pos as int;
                    self.expect(&TokenKind::RParen)?;
                    proof {
                        assert(t[rp].kind is RParen);
                    }
                    Ok(first)
                }
            },
            TokenKind::Ident(name) => {
                let name = name.clone();
                self.advance();
                self.skip_type_params();
                if self.at(&TokenKind::Arrow) || self.at(&TokenKind::Dot) {
                    self.advance();
                    let member = self.expect_ident()?;
                    self.skip_type_params();
                    Ok(Type::Named(QualName { qualifier: Some(name), name: member }))
                } else {
                    Ok(Type::Named(QualName { qualifier: None, name }))
                }
            },
            // `self` only marks a parameter as the receiver; the type that
            // follows is the parameter's own.
            TokenKind::Self_ => {
                self.advance();
                self.parse_type()
            },
            _ => {
                let mut m = String::from_str("expected type, got ");
                let g = self.peek().debug_text();
                m.append(g.as_str());
                Err(self.err(m))
            },
        }
    }

    /// Parse function signature: fn(params): rettype
    fn parse_func_sig(&mut self, name: String) -> (r: Result<FuncSig, ParseError>)
        requires
            old(self).wf(),
        ensures
            final(self).continues(*old(self)),
            r is Ok ==> final(self).progressed(*old(self)),
            r matches Ok(sig) ==> sig.name == name && sig.span == old(self).cur_span(),
            r matches Err(e) ==> e.file == old(self).file,
            r matches Err(e) ==> at_token(old(self).tokens@, old(self).pos as int, e.span),
        decreases old(self).remaining(), 11nat,
    {
        let span = self.span();
        if self.at(&TokenKind::Fn) {
            self.advance();
            self.skip_type_params();
        }
        self.expect(&TokenKind::LParen)?;
        let params = if self.at(&TokenKind::Star) {
            self.advance();
            Vec::new()
        } else {
            let p = self.parse_params()?;
            // Skip trailing varargs: , *
            if self.at(&TokenKind::Comma) {
                let saved = self.pos;
                self.advance();
                if self.at(&TokenKind::Star) {
                    self.advance();
                } else {
                    self.pos = saved;
                }
            }
            p
        };
        self.expect(&TokenKind::RParen)?;
        let ret = if self.at(&TokenKind::Colon) {
            self.advance();
            Some(self.parse_type()?)
        } else {
            None
        };
        // Skip optional 'raises (exceptions)' or 'raises ExcName' clause
        let is_raises = match self.peek() {
            TokenKind::Raise => true,
            TokenKind::Ident(n) => is_raises_word(n),
            _ => false,
        };
        if is_raises {
            self.advance();
            if self.at(&TokenKind::LParen) {
                self.advance();
                while !self.at(&TokenKind::RParen) && !self.at(&TokenKind::Eof)
                    invariant
                        self.progressed(*old(self)),
                    decreases self.remaining(),
                {
                    self.advance();
                }
                if self.at(&TokenKind::RParen) {
                    self.advance();
                }
            } else if let TokenKind::Ident(_) = self.peek() {
                self.advance();
            }
        }
        // Skip optional 'for { ... }' polymorphic clause
        if self.at(&TokenKind::For) {
            self.advance();
            if self.at(&TokenKind::LBrace) {
                self.advance();
                self.skip_to_close_brace();
            }
        }
        Ok(FuncSig { name, params, ret, span })
    }

    fn parse_params(&mut self) -> (r: Result<Vec<Param>, ParseError>)
        requires
            old(self).wf(),
        ensures
            final(self).continues(*old(self)),
            old(self).cur_kind() is RParen ==> (r matches Ok(v) && v@.len() == 0 && final(self).pos == old(self).pos),
            r matches Ok(v) ==> (v@.len() == 0 <==> (old(self).cur_kind() is RParen || old(self).cur_kind() is Star)),
            r is Ok && !(old(self).cur_kind() is RParen) ==> final(self).progressed(*old(self))
                && (final(self).cur_kind() is RParen || !(final(self).cur_kind() is Comma)
                || final(self).tokens@[final(self).pos - 1].kind is Star),
            r matches Ok(v) ==> forall|i: int| 0 <= i < v@.len() ==> (#[trigger] v@[i]).names@.len() >= 1
                && (v@[i].is_nil ==> v@[i].names@[0]@ == "nil"@),
            r matches Err(e) ==> e.file == old(self).file,
            r matches Err(e) ==> at_token(old(self).tokens@, old(self).pos as int, e.span),
        decreases old(self).remaining(), 10nat,
    {
        let mut params: Vec<Param> = Vec::new();
        if self.at(&TokenKind::RParen) {
            return Ok(params);
        }
        loop
            invariant_except_break
                params@.len() == 0 ==> self.pos == old(self).pos,
            invariant
                self.continues(*old(self)),
                !(old(self).cur_kind() is RParen),
                params@.len() > 0 ==> self.pos > old(self).pos,
                params@.len() > 0 ==> !(old(self).cur_kind() is Star),
                forall|i: int| 0 <= i < params@.len() ==> (#[trigger] params@[i]).names@.len() >= 1
                    && (params@[i].is_nil ==> params@[i].names@[0]@ == "nil"@),
            ensures
                self.continues(*old(self)),
                params@.len() == 0 <==> (old(self).cur_kind() is RParen || old(self).cur_kind() is Star),
                self.pos > old(self).pos,
                self.cur_kind() is RParen || !(self.cur_kind() is Comma) || self.tokens@[self.pos - 1].kind is Star,
                forall|i: int| 0 <= i < params@.len() ==> (#[trigger] params@[i]).names@.len() >= 1
                    && (params@[i].is_nil ==> params@[i].names@[0]@ == "nil"@),
            decreases self.remaining(),
        {
            // Check for varargs: *, in param list
            if self.at(&TokenKind::Star) {
                self.advance();
                break;
            }
            let ghost start = self.pos;
            let mut names: Vec<String> = Vec::new();
            let is_nil = self.at(&TokenKind::Nil);
            if is_nil {
                self.advance();
                names.push(String::from_str("nil"));
            } else {
                names.push(self.expect_ident()?);
            }
            while self.at(&TokenKind::Comma) && !self.is_param_type_next()
                invariant
                    self.continues(*old(self)),
                    self.pos > start,
                    start >= old(self).pos,
                    names@.len() >= 1,
                    is_nil ==> names@[0]@ == "nil"@,
                decreases self.remaining(),
            {
                self.advance();
                if self.at(&TokenKind::Nil) {
                    self.advance();
                    names.push(String::from_str("nil"));
                } else {
                    names.push(self.expect_ident()?);
                }
            }
            // The receiver of an ADT function member is spelled
            // `b: self ref Iobuf`: `self` marks the parameter.
            self.expect(&TokenKind::Colon)?;
            let is_self = self.at(&TokenKind::Self_);
            if is_self {
                self.advance();
            }
            let ty = self.parse_type()?;
            params.push(Param { names, ty, is_self, is_nil });
            if !self.at(&TokenKind::Comma) {
                break;
            }
            self.advance();
            if self.at(&TokenKind::RParen) {
                break;
            }
        }
        Ok(params)
    }

    // ── Expressions (Pratt parser) ─────────────────────────────

    fn parse_expr(&mut self) -> (r: Result<Expr, ParseError>)
        requires
            old(self).wf(),
        ensures
            final(self).continues(*old(self)),
            r is Ok ==> final(self).progressed(*old(self)),
            r matches Err(e) ==> e.file == old(self).file,
            r matches Err(e) ==> at_token(old(self).tokens@, old(self).pos as int, e.span),
            r is Ok ==> expr_stops(final(self).tokens@, final(self).pos as int, 0),
            r matches Ok(e) ==> expr_rel(old(self).tokens@, old(self).pos as int, 0, e, final(self).pos as int),
            ({
                let t = old(self).tokens@;
                let p = old(self).pos as int;
                atom_kind(t[p].kind) && p + 1 < t.len() && expr_stops(t, p + 1, 0)
            }) ==> (r matches Ok(e) && prefix_shape(old(self).cur_kind(), old(self).cur_span(), e)
                && final(self).pos == old(self).pos + 1),
            atom_binary(old(self).tokens@, old(self).pos as int, 0) ==> (r matches Ok(e) && atom_binary_shape(
                old(self).tokens@,
                old(self).pos as int,
                e,
            ) && final(self).pos == old(self).pos + 3),
        decreases old(self).remaining(), 15nat,
    {
        self.parse_expr_bp(0)
    }

    /// Pratt parser: parse expression with minimum binding power.
    #[verifier::rlimit(40)]
    fn parse_expr_bp(&mut self, min_bp: u8) -> (r: Result<Expr, ParseError>)
        requires
            old(self).wf(),
        ensures
            final(self).continues(*old(self)),
            r is Ok ==> final(self).progressed(*old(self)),
            r matches Err(e) ==> e.file == old(self).file,
            r matches Err(e) ==> at_token(old(self).tokens@, old(self).pos as int, e.span),
            r is Ok ==> expr_stops(final(self).tokens@, final(self).pos as int, min_bp),
            r matches Ok(e) ==> expr_rel(old(self).tokens@, old(self).pos as int, min_bp, e, final(self).pos as int),
            ({
                let t = old(self).tokens@;
                let p = old(self).pos as int;
                atom_kind(t[p].kind) && p + 1 < t.len() && expr_stops(t, p + 1, min_bp)
            }) ==> (r matches Ok(e) && prefix_shape(old(self).cur_kind(), old(self).cur_span(), e)
                && final(self).pos == old(self).pos + 1),
            atom_binary(old(self).tokens@, old(self).pos as int, min_bp) ==> (r matches Ok(e) && atom_binary_shape(
                old(self).tokens@,
                old(self).pos as int,
                e,
            ) && final(self).pos == old(self).pos + 3),
        decreases old(self).remaining(), 14nat,
    {
        let ghost t = self.tokens@;
        let ghost p0 = self.pos as int;
        let span = self.span();
        let mut lhs = self.parse_prefix()?;
        proof {
            let m = self.pos as int;
            let lhs0 = lhs;
            assert forall|e: Expr, end: int| climb_rel(t, m, min_bp, span, lhs0, e, end) implies expr_rel(t, p0, min_bp, e, end) by {
                assert(prefix_rel(t, p0, lhs0, m));
                assert(trigger_expr_end(lhs0, m));
            }
        }
        loop
            invariant
                self.progressed(*old(self)),
                t == self.tokens@,
                p0 == old(self).pos,
                span == t[p0].span,
                forall|e: Expr, end: int| climb_rel(t, self.pos as int, min_bp, span, lhs, e, end) ==> expr_rel(t, p0, min_bp, e, end),
                atom_kind(t[p0].kind) && p0 + 1 < t.len() && expr_stops(t, p0 + 1, min_bp) ==> self.pos == p0 + 1
                    && prefix_shape(t[p0].kind, span, lhs),
                atom_binary(t, p0, min_bp) ==> (self.pos == p0 + 1 && prefix_shape(t[p0].kind, span, lhs)) || (
                self.pos == p0 + 3 && atom_binary_shape(t, p0, lhs)),
            ensures
                self.progressed(*old(self)),
                expr_stops(self.tokens@, self.pos as int, min_bp),
                expr_rel(t, p0, min_bp, lhs, self.pos as int),
                atom_kind(t[p0].kind) && p0 + 1 < t.len() && expr_stops(t, p0 + 1, min_bp) ==> self.pos == p0 + 1
                    && prefix_shape(t[p0].kind, span, lhs),
                atom_binary(t, p0, min_bp) ==> self.pos == p0 + 3 && atom_binary_shape(t, p0, lhs),
            decreases self.remaining(),
        {
            let ghost q = self.pos as int;
            let ghost lhs0 = lhs;
            // Postfix operators
            match self.peek() {
                TokenKind::LParen => {
                    self.advance();
                    let args = self.parse_expr_list()?;
                    let ghost rp = self.pos as int;
                    self.expect(&TokenKind::RParen)?;
                    lhs = Expr::Call(Box::new(lhs), args, span);
                    proof {
                        let m = self.pos as int;
                        assert(t[rp].kind is RParen);
                        assert(m - 1 == rp);
                        let x = lhs;
                        assert forall|e: Expr, end: int| climb_rel(t, m, min_bp, span, x, e, end) implies expr_rel(t, p0, min_bp, e, end) by {
                            assert(trigger_expr_end(x, m));
                        assert(climb_rel(t, q, min_bp, span, lhs0, e, end));
                        }
                    }
                    continue;
                },
                TokenKind::Dot => {
                    self.advance();
                    let member = self.expect_ident()?;
                    lhs = Expr::Dot(Box::new(lhs), member, span);
                    proof {
                        let m = self.pos as int;
                        let x = lhs;
                        assert forall|e: Expr, end: int| climb_rel(t, m, min_bp, span, x, e, end) implies expr_rel(t, p0, min_bp, e, end) by {
                            assert(trigger_expr_end(x, m));
                        assert(climb_rel(t, q, min_bp, span, lhs0, e, end));
                        }
                    }
                    continue;
                },
                TokenKind::Arrow => {
                    self.advance();
                    let member = self.expect_ident()?;
                    lhs = Expr::ModQual(Box::new(lhs), member, span);
                    proof {
                        let m = self.pos as int;
                        let x = lhs;
                        assert forall|e: Expr, end: int| climb_rel(t, m, min_bp, span, x, e, end) implies expr_rel(t, p0, min_bp, e, end) by {
                            assert(trigger_expr_end(x, m));
                        assert(climb_rel(t, q, min_bp, span, lhs0, e, end));
                        }
                    }
                    continue;
                },
                TokenKind::LBracket => {
                    self.advance();
                    if self.at(&TokenKind::Colon) {
                        // [: hi]
                        self.advance();
                        let c = self.pos;
                        let hi = if self.at(&TokenKind::RBracket) {
                            None
                        } else {
                            Some(Box::new(self.parse_expr()?))
                        };
                        let ghost rb = self.pos as int;
                        self.expect(&TokenKind::RBracket)?;
                        proof {
                            assert(t[rb].kind is RBracket);
                            assert(slice_hi_rel(t, c as int, hi, self.pos as int));
                        }
                        lhs = Expr::Slice(Box::new(lhs), None, hi, span);
                        proof {
                            assert(bracket_rel(t, q, lhs0, span, lhs, self.pos as int));
                        }
                    } else {
                        let ghost ip = self.pos as int;
                        let idx = self.parse_expr()?;
                        let ghost ie = self.pos as int;
                        let ghost gi = idx;
                        proof {
                            assert(ip == q + 1);
                            assert(expr_rel(t, q + 1, 0, idx, ie));
                            assert(trigger_expr_end(gi, ie));
                        }
                        if self.at(&TokenKind::Colon) {
                            // [lo : hi]
                            self.advance();
                            let hi = if self.at(&TokenKind::RBracket) {
                                None
                            } else {
                                Some(Box::new(self.parse_expr()?))
                            };
                            let ghost rb = self.pos as int;
                            self.expect(&TokenKind::RBracket)?;
                            proof {
                                assert(t[rb].kind is RBracket);
                                assert(slice_hi_rel(t, ie + 1, hi, self.pos as int));
                            }
                            lhs = Expr::Slice(Box::new(lhs), Some(Box::new(idx)), hi, span);
                            proof {
                                assert(bracket_rel(t, q, lhs0, span, lhs, self.pos as int));
                            }
                        } else {
                            // [idx]
                            self.expect(&TokenKind::RBracket)?;
                            proof {
                                assert(t[ie].kind is RBracket);
                                assert(self.pos == ie + 1);
                            }
                            lhs = Expr::Index(Box::new(lhs), Box::new(idx), span);
                            proof {
                                assert(bracket_rel(t, q, lhs0, span, lhs, self.pos as int));
                            }
                        }
                    }
                    proof {
                        let m = self.pos as int;
                        let x = lhs;
                        assert forall|e: Expr, end: int| climb_rel(t, m, min_bp, span, x, e, end) implies expr_rel(t, p0, min_bp, e, end) by {
                            assert(trigger_expr_end(x, m));
                            assert(climb_rel(t, q, min_bp, span, lhs0, e, end));
                        }
                    }
                    continue;
                },
                TokenKind::Inc => {
                    self.advance();
                    lhs = Expr::PostInc(Box::new(lhs), span);
                    continue;
                },
                TokenKind::Dec => {
                    self.advance();
                    lhs = Expr::PostDec(Box::new(lhs), span);
                    continue;
                },
                _ => {},
            }

            // Infix operators
            if let Some((l_bp, r_bp, op)) = self.infix_binding_power() {
                if l_bp < min_bp {
                    proof {
                        assert(climb_rel(t, q, min_bp, span, lhs0, lhs0, q));
                    }
                    break;
                }
                self.advance();
                let rhs = self.parse_expr_bp(r_bp)?;
                lhs = Expr::Binary(Box::new(lhs), op, Box::new(rhs), span);
                proof {
                    let m = self.pos as int;
                    let x = lhs;
                    assert forall|e: Expr, end: int| climb_rel(t, m, min_bp, span, x, e, end) implies expr_rel(t, p0, min_bp, e, end) by {
                        assert(expr_rel(t, q + 1, r_bp, rhs, m));
                        assert(trigger_expr_end(rhs, m));
                        assert(climb_rel(t, q, min_bp, span, lhs0, e, end));
                    }
                }
                continue;
            }

            // Assignment operators
            if let Some(kind) = self.assign_binding_power() {
                if 1 < min_bp {
                    proof {
                        assert(climb_rel(t, q, min_bp, span, lhs0, lhs0, q));
                    }
                    break;
                }
                self.advance();
                let rhs = self.parse_expr_bp(1)?;
                let ghost rhs0 = rhs;
                match kind {
                    AssignKind::Simple => {
                        lhs = Expr::Assign(Box::new(lhs), Box::new(rhs), span);
                    },
                    AssignKind::Compound(op) => {
                        lhs = Expr::CompoundAssign(Box::new(lhs), op, Box::new(rhs), span);
                    },
                    AssignKind::Decl => {
                        // a := expr  or  (a, b) := expr
                        lhs = match lhs {
                            Expr::Ident(name, _) => {
                                let mut names = Vec::new();
                                names.push(name);
                                Expr::DeclAssign(names, Box::new(rhs), span)
                            },
                            Expr::Tuple(exprs, _) => {
                                let mut names: Vec<String> = Vec::new();
                                let mut k: usize = 0;
                                proof {
                                    assert(!(atom_kind(t[p0].kind) && p0 + 1 < t.len() && expr_stops(t, p0 + 1, min_bp)));
                                    assert(!atom_binary(t, p0, min_bp));
                                }
                                while k < exprs.len()
                                    invariant
                                        self.progressed(*old(self)),
                                        !(atom_kind(t[p0].kind) && p0 + 1 < t.len() && expr_stops(t, p0 + 1, min_bp)),
                                        !atom_binary(t, p0, min_bp),
                                        t == old(self).tokens@,
                                        p0 == old(self).pos,
                                        k <= exprs@.len(),
                                        names@.len() == k,
                                        forall|i: int| 0 <= i < k ==> match #[trigger] exprs@[i] {
                                            Expr::Ident(n, _) => names@[i] == n,
                                            Expr::Nil(_) => names@[i]@ == "nil"@,
                                            _ => false,
                                        },
                                    decreases exprs@.len() - k,
                                {
                                    match &exprs[k] {
                                        Expr::Ident(n, _) => names.push(n.clone()),
                                        Expr::Nil(_) => names.push(String::from_str("nil")),
                                        _ => {
                                            return Err(self.err(String::from_str("tuple := elements must be identifiers")));
                                        },
                                    }
                                    k = k + 1;
                                }
                                Expr::TupleDeclAssign(names, Box::new(rhs), span)
                            },
                            _ => {
                                return Err(self.err(String::from_str("left side of := must be identifier or tuple")));
                            },
                        };
                    },
                }
                proof {
                    let m = self.pos as int;
                    let x = lhs;
                    assert(expr_rel(t, q + 1, 1, rhs0, m));
                    assert forall|e: Expr, end: int| climb_rel(t, m, min_bp, span, x, e, end) implies expr_rel(t, p0, min_bp, e, end) by {
                        assert(trigger_expr_end(rhs0, m));
                        if assign_power(t[q].kind) matches Some(AssignKind::Decl) {
                            assert(decl_target(lhs0, rhs0, span, x));
                        }
                        assert(climb_rel(t, q, min_bp, span, lhs0, e, end));
                    }
                }
                continue;
            }

            // Channel send: `expr <-= expr`, also spelled with a space
            // between the arrow and the `=`.
            if self.at(&TokenKind::ChanSend) || (self.at(&TokenKind::ChanRecv) && self.at_offset(1, &TokenKind::Assign)) {
                if 1 < min_bp {
                    proof {
                        assert(climb_rel(t, q, min_bp, span, lhs0, lhs0, q));
                    }
                    break;
                }
                if self.at(&TokenKind::ChanRecv) {
                    self.advance();
                }
                self.advance();
                let ghost start = self.pos as int;
                let rhs = self.parse_expr_bp(1)?;
                lhs = Expr::Send(Box::new(lhs), Box::new(rhs), span);
                proof {
                    let m = self.pos as int;
                    let x = lhs;
                    assert(expr_rel(t, start, 1, rhs, m));
                    assert forall|e: Expr, end: int| climb_rel(t, m, min_bp, span, x, e, end) implies expr_rel(t, p0, min_bp, e, end) by {
                        assert(trigger_expr_end(rhs, m));
                        assert(climb_rel(t, q, min_bp, span, lhs0, e, end));
                    }
                }
                continue;
            }

            // Cons operator: binds tighter than `&&`, looser than `|`, and
            // is right-associative.
            if self.at(&TokenKind::ColonColon) {
                if CONS_BP < min_bp {
                    proof {
                        assert(climb_rel(t, q, min_bp, span, lhs0, lhs0, q));
                    }
                    break;
                }
                self.advance();
                let rhs = self.parse_expr_bp(CONS_BP)?;
                lhs = Expr::Cons(Box::new(lhs), Box::new(rhs), span);
                proof {
                    let m = self.pos as int;
                    let x = lhs;
                    assert forall|e: Expr, end: int| climb_rel(t, m, min_bp, span, x, e, end) implies expr_rel(t, p0, min_bp, e, end) by {
                        assert(expr_rel(t, q + 1, CONS_BP, rhs, m));
                        assert(trigger_expr_end(rhs, m));
                        assert(climb_rel(t, q, min_bp, span, lhs0, e, end));
                    }
                }
                continue;
            }
            proof {
                assert(climb_rel(t, q, min_bp, span, lhs0, lhs0, q));
            }
            break;
        }
        proof {
            assert(old(self).cur_kind() == t[p0].kind);
            assert(old(self).cur_span() == span);
        }
        Ok(lhs)
    }

    /// Parse prefix expressions (unary ops, atoms, array/chan/list constructors).
    #[verifier::rlimit(40)]
    fn parse_prefix(&mut self) -> (r: Result<Expr, ParseError>)
        requires
            old(self).wf(),
        ensures
            final(self).continues(*old(self)),
            r is Ok ==> final(self).progressed(*old(self)),
            r matches Ok(e) ==> prefix_shape(old(self).cur_kind(), old(self).cur_span(), e),
            r matches Ok(e) ==> prefix_rel(old(self).tokens@, old(self).pos as int, e, final(self).pos as int),
            atom_kind(old(self).cur_kind()) ==> r is Ok && final(self).pos == old(self).pos + 1,
            ({
                let t = old(self).tokens@;
                let p = old(self).pos as int;
                unary_kind(t[p].kind) && p + 2 < t.len() && atom_kind(t[p + 1].kind) && expr_stops(t, p + 2, UNARY_BP)
            }) ==> r is Ok && final(self).pos == old(self).pos + 2,
            !expr_start(old(self).cur_kind()) ==> (r matches Err(e) && e.span == old(self).cur_span()
                && e.message@ == "unexpected token in expression: "@ + kind_debug_text(old(self).cur_kind())),
            r matches Err(e) ==> e.file == old(self).file,
            r matches Err(e) ==> at_token(old(self).tokens@, old(self).pos as int, e.span),
        decreases old(self).remaining(), 13nat,
    {
        let span = self.span();
        match self.peek() {
            TokenKind::IntLit(v) => {
                let v = *v;
                self.advance();
                Ok(Expr::IntLit(v, span))
            },
            TokenKind::RealLit(v) => {
                let v = v.clone();
                self.advance();
                Ok(Expr::RealLit(v, span))
            },
            TokenKind::StringLit(s) => {
                let s = s.clone();
                self.advance();
                Ok(Expr::StringLit(s, span))
            },
            TokenKind::CharLit(v) => {
                let v = *v;
                self.advance();
                Ok(Expr::CharLit(v, span))
            },
            TokenKind::Nil => {
                self.advance();
                Ok(Expr::Nil(span))
            },
            TokenKind::Ident(name) => {
                let name = name.clone();
                self.advance();
                Ok(Expr::Ident(name, span))
            },
            TokenKind::Iota => {
                self.advance();
                Ok(Expr::Ident(String::from_str("iota"), span))
            },
            TokenKind::Inc => {
                // Pre-increment: ++x (the same as x++ in Limbo)
                self.advance();
                let expr = self.parse_expr_bp(UNARY_BP)?;
                proof {
                    assert(expr_rel(self.tokens@, old(self).pos + 1, UNARY_BP, expr, self.pos as int));
                    assert(trigger_expr_end(expr, self.pos as int));
                }
                Ok(Expr::PostInc(Box::new(expr), span))
            },
            TokenKind::Dec => {
                self.advance();
                let expr = self.parse_expr_bp(UNARY_BP)?;
                proof {
                    assert(expr_rel(self.tokens@, old(self).pos + 1, UNARY_BP, expr, self.pos as int));
                    assert(trigger_expr_end(expr, self.pos as int));
                }
                Ok(Expr::PostDec(Box::new(expr), span))
            },
            TokenKind::Plus => {
                self.advance();
                let expr = self.parse_expr_bp(UNARY_BP)?;
                proof {
                    assert(expr_rel(self.tokens@, old(self).pos + 1, UNARY_BP, expr, self.pos as int));
                    assert(trigger_expr_end(expr, self.pos as int));
                }
                Ok(expr)
            },
            TokenKind::Star => {
                // Dereference: *expr
                self.advance();
                // A wildcard in initializer context (followed by =>)
                if self.at(&TokenKind::FatArrow) {
                    return Ok(Expr::Ident(String::from_str("*"), span));
                }
                let expr = self.parse_expr_bp(UNARY_BP)?;
                proof {
                    assert(expr_rel(self.tokens@, old(self).pos + 1, UNARY_BP, expr, self.pos as int));
                    assert(trigger_expr_end(expr, self.pos as int));
                }
                Ok(Expr::Unary(UnaryOp::Ref, Box::new(expr), span))
            },
            TokenKind::Minus => {
                self.advance();
                let expr = self.parse_expr_bp(UNARY_BP)?;
                proof {
                    assert(expr_rel(self.tokens@, old(self).pos + 1, UNARY_BP, expr, self.pos as int));
                    assert(trigger_expr_end(expr, self.pos as int));
                }
                Ok(Expr::Unary(UnaryOp::Neg, Box::new(expr), span))
            },
            TokenKind::Bang => {
                self.advance();
                let expr = self.parse_expr_bp(UNARY_BP)?;
                proof {
                    assert(expr_rel(self.tokens@, old(self).pos + 1, UNARY_BP, expr, self.pos as int));
                    assert(trigger_expr_end(expr, self.pos as int));
                }
                Ok(Expr::Unary(UnaryOp::Not, Box::new(expr), span))
            },
            TokenKind::Tilde => {
                self.advance();
                let expr = self.parse_expr_bp(UNARY_BP)?;
                proof {
                    assert(expr_rel(self.tokens@, old(self).pos + 1, UNARY_BP, expr, self.pos as int));
                    assert(trigger_expr_end(expr, self.pos as int));
                }
                Ok(Expr::Unary(UnaryOp::BitNot, Box::new(expr), span))
            },
            TokenKind::Hd => {
                self.advance();
                let expr = self.parse_expr_bp(UNARY_BP)?;
                proof {
                    assert(expr_rel(self.tokens@, old(self).pos + 1, UNARY_BP, expr, self.pos as int));
                    assert(trigger_expr_end(expr, self.pos as int));
                }
                Ok(Expr::Hd(Box::new(expr), span))
            },
            TokenKind::Tl => {
                self.advance();
                let expr = self.parse_expr_bp(UNARY_BP)?;
                proof {
                    assert(expr_rel(self.tokens@, old(self).pos + 1, UNARY_BP, expr, self.pos as int));
                    assert(trigger_expr_end(expr, self.pos as int));
                }
                Ok(Expr::Tl(Box::new(expr), span))
            },
            TokenKind::Len => {
                self.advance();
                let expr = self.parse_expr_bp(UNARY_BP)?;
                proof {
                    assert(expr_rel(self.tokens@, old(self).pos + 1, UNARY_BP, expr, self.pos as int));
                    assert(trigger_expr_end(expr, self.pos as int));
                }
                Ok(Expr::Len(Box::new(expr), span))
            },
            TokenKind::Tagof => {
                self.advance();
                let expr = self.parse_expr_bp(UNARY_BP)?;
                proof {
                    assert(expr_rel(self.tokens@, old(self).pos + 1, UNARY_BP, expr, self.pos as int));
                    assert(trigger_expr_end(expr, self.pos as int));
                }
                Ok(Expr::Tagof(Box::new(expr), span))
            },
            TokenKind::Ref => {
                self.advance();
                let expr = self.parse_expr_bp(UNARY_BP)?;
                proof {
                    assert(expr_rel(self.tokens@, old(self).pos + 1, UNARY_BP, expr, self.pos as int));
                    assert(trigger_expr_end(expr, self.pos as int));
                }
                Ok(Expr::Unary(UnaryOp::Ref, Box::new(expr), span))
            },
            TokenKind::ChanRecv => {
                // <-chan (receive)
                self.advance();
                let expr = self.parse_expr_bp(UNARY_BP)?;
                proof {
                    assert(expr_rel(self.tokens@, old(self).pos + 1, UNARY_BP, expr, self.pos as int));
                    assert(trigger_expr_end(expr, self.pos as int));
                }
                Ok(Expr::Recv(Box::new(expr), span))
            },
            TokenKind::Array => {
                let ghost t = self.tokens@;
                let ghost p = self.pos as int;
                self.advance();
                if self.at(&TokenKind::LBracket) {
                    self.advance();
                    let r = if self.at(&TokenKind::RBracket) {
                        // array[] of { ... }
                        self.advance();
                        self.expect(&TokenKind::Of)?;
                        if self.at(&TokenKind::LBrace) {
                            self.advance();
                            let elems = self.parse_array_elem_list()?;
                            self.expect(&TokenKind::RBrace)?;
                            Expr::ArrayLit(None, elems, None, span)
                        } else {
                            let ty = self.parse_type()?;
                            Expr::ArrayAlloc(Box::new(Expr::IntLit(0, span)), Box::new(ty), span)
                        }
                    } else {
                        let size = self.parse_expr()?;
                        self.expect(&TokenKind::RBracket)?;
                        self.expect(&TokenKind::Of)?;
                        if self.at(&TokenKind::LBrace) {
                            self.advance();
                            let elems = self.parse_array_elem_list()?;
                            self.expect(&TokenKind::RBrace)?;
                            // The declared size is the array's length; the
                            // elements only say what goes where inside it.
                            Expr::ArrayLit(Some(Box::new(size)), elems, None, span)
                        } else {
                            let ty = self.parse_type()?;
                            Expr::ArrayAlloc(Box::new(size), Box::new(ty), span)
                        }
                    };
                    proof {
                        reveal(typed_prefix_rel);
                        assert(t[p + 1].kind is LBracket);
                        assert(typed_prefix_rel(t, p, r, self.pos as int));
                    }
                    Ok(r)
                } else {
                    self.expect(&TokenKind::Of)?;
                    let ghost m = self.pos as int;
                    let ty = self.parse_type()?;
                    let ghost m2 = self.pos as int;
                    // array of type monexp (cast)
                    let expr = self.parse_expr_bp(UNARY_BP)?;
                    let r = Expr::Cast(Box::new(Type::Array(Box::new(ty))), Box::new(expr), span);
                    proof {
                        reveal(typed_prefix_rel);
                        assert(t[p + 1].kind is Of);
                        assert(m == p + 2);
                        assert(trigger_end(m2));
                        assert(typed_prefix_rel(t, p, r, self.pos as int));
                    }
                    Ok(r)
                }
            },
            TokenKind::Chan => {
                let ghost t = self.tokens@;
                let ghost p = self.pos as int;
                self.advance();
                if self.at(&TokenKind::LBracket) {
                    self.advance();
                    let size = self.parse_expr()?;
                    let ghost m = self.pos as int;
                    self.expect(&TokenKind::RBracket)?;
                    self.expect(&TokenKind::Of)?;
                    let ty = self.parse_type()?;
                    let r = Expr::ChanAlloc(Box::new(ty), span);
                    proof {
                        reveal(typed_prefix_rel);
                        assert(t[p + 1].kind is LBracket);
                        assert(t[m].kind is RBracket);
                        assert(t[m + 1].kind is Of);
                        assert(trigger_expr_end(size, m));
                        assert(typed_prefix_rel(t, p, r, self.pos as int));
                    }
                    Ok(r)
                } else {
                    self.expect(&TokenKind::Of)?;
                    let ty = self.parse_type()?;
                    let r = Expr::ChanAlloc(Box::new(ty), span);
                    proof {
                        reveal(typed_prefix_rel);
                        assert(t[p + 1].kind is Of);
                        assert(typed_prefix_rel(t, p, r, self.pos as int));
                    }
                    Ok(r)
                }
            },
            TokenKind::List => {
                let ghost t = self.tokens@;
                let ghost p = self.pos as int;
                self.advance();
                self.expect(&TokenKind::Of)?;
                self.expect(&TokenKind::LBrace)?;
                let elems = self.parse_expr_list()?;
                let ghost m = self.pos as int;
                self.expect(&TokenKind::RBrace)?;
                let r = Expr::ListLit(elems, span);
                proof {
                    reveal(typed_prefix_rel);
                    assert(t[p + 1].kind is Of);
                    assert(t[p + 2].kind is LBrace);
                    assert(t[m].kind is RBrace);
                    assert(typed_prefix_rel(t, p, r, self.pos as int));
                }
                Ok(r)
            },
            TokenKind::Load => {
                self.advance();
                let module_name = self.expect_ident()?;
                let ty = Type::Named(QualName { qualifier: None, name: module_name });
                let path = self.parse_expr_bp(2)?;
                proof {
                    assert(expr_rel(self.tokens@, old(self).pos + 2, 2, path, self.pos as int));
                    assert(trigger_expr_end(path, self.pos as int));
                }
                Ok(Expr::Load(Box::new(ty), Box::new(path), span))
            },
            TokenKind::LParen => {
                self.advance();
                let first = self.parse_expr()?;
                let ghost t = self.tokens@;
                let ghost m = self.pos as int;
                proof {
                    assert(expr_rel(t, old(self).pos + 1, 0, first, m));
                    assert(trigger_expr_end(first, m));
                }
                if self.at(&TokenKind::Comma) {
                    // Tuple: (e1, e2, ...)
                    let mut exprs = Vec::new();
                    exprs.push(first);
                    proof {
                        assert forall|es: Seq<Expr>, end: int| tuple_tail(t, m, es, end) implies tuple_tail(t, m, exprs@.drop_first() + es, end) by {
                            assert(exprs@.drop_first() + es =~= es);
                        }
                    }
                    loop
                        invariant_except_break
                            forall|es: Seq<Expr>, end: int| tuple_tail(t, self.pos as int, es, end) ==> tuple_tail(t, m, exprs@.drop_first() + es, end),
                        invariant
                            self.progressed(*old(self)),
                            t == self.tokens@,
                            exprs@.len() >= 1,
                            exprs@[0] == first,
                            old(self).cur_kind() is LParen,
                        ensures
                            self.progressed(*old(self)),
                            exprs@.len() >= 1,
                            exprs@[0] == first,
                            t[self.pos as int].kind is RParen ==> tuple_tail(t, m, exprs@.drop_first(), self.pos + 1),
                        decreases self.remaining(),
                    {
                        if !self.at(&TokenKind::Comma) {
                            proof {
                                let z = self.pos as int;
                                if t[z].kind is RParen {
                                    assert(tuple_tail(t, z, Seq::<Expr>::empty(), z + 1));
                                    assert(exprs@.drop_first() + Seq::<Expr>::empty() =~= exprs@.drop_first());
                                    assert(tuple_tail(t, m, exprs@.drop_first() + Seq::<Expr>::empty(), z + 1));
                                }
                            }
                            break;
                        }
                        let ghost q = self.pos as int;
                        let ghost before = exprs@;
                        self.advance();
                        if self.at(&TokenKind::RParen) {
                            proof {
                                assert(t[q].kind is Comma);
                                assert(t[q + 1].kind is RParen);
                                assert(tuple_tail(t, q, Seq::<Expr>::empty(), q + 2));
                                assert(before.drop_first() + Seq::<Expr>::empty() =~= before.drop_first());
                                assert(tuple_tail(t, m, before.drop_first() + Seq::<Expr>::empty(), q + 2));
                            }
                            break;
                        }
                        let x = self.parse_expr()?;
                        let ghost m2 = self.pos as int;
                        exprs.push(x);
                        proof {
                            assert(expr_rel(t, q + 1, 0, x, m2));
                            assert(trigger_expr_end(x, m2));
                            assert forall|es: Seq<Expr>, end: int| tuple_tail(t, m2, es, end) implies tuple_tail(t, m, exprs@.drop_first() + es, end) by {
                                let es2 = seq![x] + es;
                                assert(es2.drop_first() =~= es);
                                assert(es2[0] == x);
                                assert(tuple_tail(t, q, es2, end));
                                assert(before.drop_first() + es2 =~= exprs@.drop_first() + es);
                            }
                        }
                    }
                    self.expect(&TokenKind::RParen)?;
                    let r = Expr::Tuple(exprs, span);
                    proof {
                        assert(exprs@.drop_first() + Seq::<Expr>::empty() =~= exprs@.drop_first());
                    }
                    Ok(r)
                } else {
                    // Parenthesized expression
                    self.expect(&TokenKind::RParen)?;
                    Ok(first)
                }
            },
            // Type cast: int expr, string expr, etc.
            TokenKind::Int | TokenKind::Byte | TokenKind::Big | TokenKind::Real | TokenKind::String_ => {
                let ghost t = self.tokens@;
                let ghost p = self.pos as int;
                let ty = self.parse_type()?;
                proof {
                    assert(ty == kind_basic_type(t[p].kind));
                }
                // Before ] , ) => ; } this is a type used as an expression,
                // not a cast
                match self.peek() {
                    TokenKind::RBracket | TokenKind::Comma | TokenKind::RParen | TokenKind::FatArrow
                    | TokenKind::Semicolon | TokenKind::RBrace => {
                        let r = Expr::Ident(basic_type_debug_text(&ty), span);
                        proof {
                            reveal(typed_prefix_rel);
                            assert(cast_stop(t[p + 1].kind));
                            assert(typed_prefix_rel(t, p, r, self.pos as int));
                        }
                        return Ok(r);
                    },
                    _ => {},
                }
                let expr = self.parse_expr_bp(UNARY_BP)?;
                let r = Expr::Cast(Box::new(ty), Box::new(expr), span);
                proof {
                    reveal(typed_prefix_rel);
                    assert(!cast_stop(t[p + 1].kind));
                    assert(typed_prefix_rel(t, p, r, self.pos as int));
                }
                Ok(r)
            },
            TokenKind::LBrace => {
                // Recovery: skip balanced braces in expression context
                self.advance();
                let mut depth: u64 = 1;
                while depth > 0 && !self.at(&TokenKind::Eof)
                    invariant
                        self.progressed(*old(self)),
                        depth <= self.pos,
                    decreases self.remaining(),
                {
                    if self.at(&TokenKind::LBrace) {
                        depth = depth + 1;
                    } else if self.at(&TokenKind::RBrace) {
                        depth = depth - 1;
                    }
                    self.advance();
                }
                Ok(Expr::Nil(span))
            },
            _ => {
                let mut m = String::from_str("unexpected token in expression: ");
                let g = self.peek().debug_text();
                m.append(g.as_str());
                Err(self.err(m))
            },
        }
    }

    /// Parse the element list of an array literal.
    fn parse_array_elem_list(&mut self) -> (r: Result<Vec<ArrayElem>, ParseError>)
        requires
            old(self).wf(),
        ensures
            final(self).continues(*old(self)),
            old(self).cur_kind() is RBrace ==> (r matches Ok(v) && v@.len() == 0 && final(self).pos == old(self).pos),
            r matches Ok(v) ==> (v@.len() == 0 <==> old(self).cur_kind() is RBrace),
            r is Ok && !(old(self).cur_kind() is RBrace) ==> final(self).progressed(*old(self)),
            r is Ok ==> !(final(self).cur_kind() is Comma),
            r matches Err(e) ==> e.file == old(self).file,
            r matches Err(e) ==> at_token(old(self).tokens@, old(self).pos as int, e.span),
        decreases old(self).remaining(), 17nat,
    {
        let mut elems: Vec<ArrayElem> = Vec::new();
        if self.at(&TokenKind::RBrace) {
            return Ok(elems);
        }
        elems.push(self.parse_array_elem()?);
        while self.at(&TokenKind::Comma)
            invariant
                self.progressed(*old(self)),
                elems@.len() > 0,
                !(old(self).cur_kind() is RBrace),
            ensures
                self.progressed(*old(self)),
                elems@.len() > 0,
                !(self.cur_kind() is Comma),
            decreases self.remaining(),
        {
            self.advance();
            if self.at(&TokenKind::RBrace) {
                break;
            }
            elems.push(self.parse_array_elem()?);
        }
        Ok(elems)
    }

    /// Parse one array-literal element: `expr`, `k => expr`, `k1 or k2 =>
    /// expr`, `lo to hi => expr`, or `* => expr`. The index selector is kept.
    fn parse_array_elem(&mut self) -> (r: Result<ArrayElem, ParseError>)
        requires
            old(self).wf(),
        ensures
            final(self).continues(*old(self)),
            r is Ok ==> final(self).progressed(*old(self)),
            r matches Err(e) ==> e.file == old(self).file,
            r matches Err(e) ==> at_token(old(self).tokens@, old(self).pos as int, e.span),
        decreases old(self).remaining(), 16nat,
    {
        if self.at(&TokenKind::Star) {
            self.advance();
            self.expect(&TokenKind::FatArrow)?;
            let value = self.parse_expr()?;
            return Ok(ArrayElem { index: Some(ArrayIndex::Wildcard), value });
        }
        let first = self.parse_expr()?;
        if !self.at(&TokenKind::To) && !self.at(&TokenKind::Or) && !self.at(&TokenKind::FatArrow) {
            return Ok(ArrayElem { index: None, value: first });
        }
        // A selector list: single indices and `lo to hi` ranges joined by `or`.
        let mut selectors: Vec<(Expr, Option<Expr>)> = Vec::new();
        let mut lo = first;
        loop
            invariant
                self.progressed(*old(self)),
            decreases self.remaining(),
        {
            let hi = if self.at(&TokenKind::To) {
                self.advance();
                Some(self.parse_expr()?)
            } else {
                None
            };
            selectors.push((lo, hi));
            if !self.at(&TokenKind::Or) {
                break;
            }
            self.advance();
            lo = self.parse_expr()?;
        }
        self.expect(&TokenKind::FatArrow)?;
        let value = self.parse_expr()?;
        Ok(ArrayElem { index: Some(ArrayIndex::Selectors(selectors)), value })
    }

    /// Parse an expression that may be a qualified initializer:
    /// `qual => expr`, `qual to qual => expr`, `qual or qual => expr`.
    fn parse_init_expr(&mut self) -> (r: Result<Expr, ParseError>)
        requires
            old(self).wf(),
        ensures
            final(self).continues(*old(self)),
            r is Ok ==> final(self).progressed(*old(self)),
            r matches Ok(e) ==> init_rel(old(self).tokens@, old(self).pos as int, e, final(self).pos as int),
            r matches Err(e) ==> e.file == old(self).file,
            r matches Err(e) ==> at_token(old(self).tokens@, old(self).pos as int, e.span),
        decreases old(self).remaining(), 16nat,
    {
        let ghost t = self.tokens@;
        let ghost p0 = self.pos as int;
        let expr = self.parse_expr()?;
        let ghost m0 = self.pos as int;
        proof {
            assert(trigger_expr_end(expr, m0));
        }
        if self.at(&TokenKind::FatArrow) || self.at(&TokenKind::To) || self.at(&TokenKind::Or) {
            // Skip all qualifier parts until we hit =>
            loop
                invariant
                    self.progressed(*old(self)),
                    t == self.tokens@,
                    p0 == old(self).pos,
                    p0 < m0 <= self.pos,
                    expr_rel(t, p0, 0, expr, m0),
                    forall|e: Expr, end: int| #[trigger] qualifiers_rel(t, self.pos as int, expr, e, end)
                        ==> qualifiers_rel(t, m0, expr, e, end),
                ensures
                    self.progressed(*old(self)),
                    qualifiers_rel(t, m0, expr, expr, self.pos as int),
                decreases self.remaining(),
            {
                let ghost q = self.pos as int;
                if self.at(&TokenKind::FatArrow) {
                    self.advance();
                    let last = self.parse_expr()?;
                    proof {
                        assert(qualifiers_rel(t, q, expr, last, self.pos as int));
                        assert(trigger_expr_end(expr, m0));
                    }
                    return Ok(last);
                } else if self.at(&TokenKind::Or) || self.at(&TokenKind::To) {
                    self.advance();
                    let x = self.parse_expr()?;
                    proof {
                        let m = self.pos as int;
                        assert forall|e: Expr, end: int| #[trigger] qualifiers_rel(t, m, expr, e, end)
                            implies qualifiers_rel(t, m0, expr, e, end) by {
                            assert(trigger_expr_end(x, m));
                            assert(qualifiers_rel(t, q, expr, e, end));
                        }
                    }
                } else {
                    proof {
                        assert(qualifiers_rel(t, q, expr, expr, q));
                    }
                    break;
                }
            }
        } else {
            proof {
                assert(qualifiers_rel(t, m0, expr, expr, m0));
            }
        }
        proof {
            assert(trigger_expr_end(expr, m0));
        }
        Ok(expr)
    }

    fn parse_expr_list(&mut self) -> (r: Result<Vec<Expr>, ParseError>)
        requires
            old(self).wf(),
        ensures
            final(self).continues(*old(self)),
            list_closer(old(self).cur_kind()) ==> (r matches Ok(v) && v@.len() == 0 && final(self).pos == old(self).pos),
            r matches Ok(v) ==> (v@.len() == 0 <==> list_closer(old(self).cur_kind())),
            r matches Ok(v) ==> list_rel(old(self).tokens@, old(self).pos as int, v@, final(self).pos as int),
            r is Ok && !list_closer(old(self).cur_kind()) ==> final(self).progressed(*old(self)),
            r is Ok ==> !(final(self).cur_kind() is Comma),
            r matches Err(e) ==> e.file == old(self).file,
            r matches Err(e) ==> at_token(old(self).tokens@, old(self).pos as int, e.span),
        decreases old(self).remaining(), 17nat,
    {
        let ghost t = self.tokens@;
        let ghost p0 = self.pos as int;
        let mut exprs: Vec<Expr> = Vec::new();
        if self.at(&TokenKind::RParen) || self.at(&TokenKind::RBracket) || self.at(&TokenKind::RBrace) {
            return Ok(exprs);
        }
        let first = self.parse_init_expr()?;
        let ghost g = first;
        exprs.push(first);
        proof {
            let m = self.pos as int;
            assert forall|es: Seq<Expr>, end: int| #[trigger] list_tail_rel(t, m, es, end)
                implies list_rel(t, p0, exprs@ + es, end) by {
                let all = exprs@ + es;
                assert(all[0] == g);
                assert(all.drop_first() =~= es);
                assert(trigger_expr_end(all[0], m));
            }
        }
        loop
            invariant
                self.progressed(*old(self)),
                exprs@.len() > 0,
                !list_closer(old(self).cur_kind()),
                t == self.tokens@,
                p0 == old(self).pos,
                forall|es: Seq<Expr>, end: int| #[trigger] list_tail_rel(t, self.pos as int, es, end)
                    ==> list_rel(t, p0, exprs@ + es, end),
            ensures
                self.progressed(*old(self)),
                exprs@.len() > 0,
                !(self.cur_kind() is Comma),
                list_rel(t, p0, exprs@, self.pos as int),
            decreases self.remaining(),
        {
            let ghost c = self.pos as int;
            let ghost before = exprs@;
            if !self.at(&TokenKind::Comma) {
                proof {
                    assert(list_tail_rel(t, c, Seq::<Expr>::empty(), c));
                    assert(before + Seq::<Expr>::empty() =~= before);
                }
                break;
            }
            self.advance();
            if self.at(&TokenKind::RParen) || self.at(&TokenKind::RBracket) || self.at(&TokenKind::RBrace) {
                proof {
                    assert(list_tail_rel(t, c, Seq::<Expr>::empty(), c + 1));
                    assert(before + Seq::<Expr>::empty() =~= before);
                }
                break;
            }
            let x = self.parse_init_expr()?;
            let ghost gx = x;
            exprs.push(x);
            proof {
                let m = self.pos as int;
                assert forall|es: Seq<Expr>, end: int| #[trigger] list_tail_rel(t, m, es, end)
                    implies list_rel(t, p0, exprs@ + es, end) by {
                    let rest = seq![gx] + es;
                    assert(rest[0] == gx);
                    assert(rest.drop_first() =~= es);
                    assert(trigger_expr_end(rest[0], m));
                    assert(list_tail_rel(t, c, rest, end));
                    assert(before + rest =~= exprs@ + es);
                }
            }
        }
        Ok(exprs)
    }

    // ── Statements ─────────────────────────────────────────────

    fn parse_block(&mut self) -> (r: Result<Block, ParseError>)
        requires
            old(self).wf(),
        ensures
            final(self).continues(*old(self)),
            r is Ok ==> final(self).progressed(*old(self)) && old(self).cur_kind() is LBrace,
            r matches Ok(b) ==> b.span == old(self).cur_span(),
            r matches Ok(b) ==> block_rel(old(self).tokens@, old(self).pos + 1, b.stmts@, final(self).pos as int),
            r matches Err(e) ==> e.file == old(self).file,
            r matches Err(e) ==> at_token(old(self).tokens@, old(self).pos as int, e.span),
        decreases old(self).remaining(), 19nat,
    {
        let ghost t = self.tokens@;
        let ghost p1 = self.pos + 1;
        let span = self.span();
        self.expect(&TokenKind::LBrace)?;
        let mut stmts: Vec<Stmt> = Vec::new();
        proof {
            assert forall|rest: Seq<Stmt>, end: int| #[trigger] block_rel(t, p1, rest, end) implies block_rel(
                t,
                p1,
                stmts@ + rest,
                end,
            ) by {
                assert(stmts@ + rest =~= rest);
            }
        }
        loop
            invariant
                self.progressed(*old(self)),
                t == self.tokens@,
                p1 == old(self).pos + 1,
                p1 <= self.pos,
                forall|rest: Seq<Stmt>, end: int| #[trigger] block_rel(t, self.pos as int, rest, end) ==> block_rel(
                    t,
                    p1,
                    stmts@ + rest,
                    end,
                ),
            ensures
                self.progressed(*old(self)),
                t == self.tokens@,
                self.cur_kind() is RBrace || self.cur_kind() is Eof,
                forall|rest: Seq<Stmt>, end: int| #[trigger] block_rel(t, self.pos as int, rest, end) ==> block_rel(
                    t,
                    p1,
                    stmts@ + rest,
                    end,
                ),
            decreases self.remaining(),
        {
            if self.at(&TokenKind::RBrace) || self.at(&TokenKind::Eof) {
                break;
            }
            let ghost q = self.pos as int;
            let ghost before = stmts@;
            let st = self.parse_stmt()?;
            let ghost g = st;
            stmts.push(st);
            proof {
                let m = self.pos as int;
                assert forall|rest: Seq<Stmt>, end: int| #[trigger] block_rel(t, m, rest, end) implies block_rel(
                    t,
                    p1,
                    stmts@ + rest,
                    end,
                ) by {
                    let r2 = seq![g] + rest;
                    assert(r2[0] == g);
                    assert(r2.drop_first() =~= rest);
                    assert(trigger_end(m));
                    assert(block_rel(t, q, r2, end));
                    assert(before + r2 =~= stmts@ + rest);
                }
            }
        }
        let ghost rb = self.pos as int;
        self.expect(&TokenKind::RBrace)?;
        proof {
            assert(t[rb].kind is RBrace);
            assert(block_rel(t, rb, Seq::<Stmt>::empty(), rb + 1));
            assert(stmts@ + Seq::<Stmt>::empty() =~= stmts@);
        }
        Ok(Block { stmts, span })
    }

    fn parse_stmt(&mut self) -> (r: Result<Stmt, ParseError>)
        requires
            old(self).wf(),
        ensures
            final(self).continues(*old(self)),
            r is Ok ==> final(self).progressed(*old(self)),
            r matches Ok(st) ==> stmt_shape(old(self).cur_kind(), st),
            r matches Ok(st) ==> stmt_more(old(self).tokens@, old(self).pos as int, st, final(self).pos as int),
            r matches Err(e) ==> e.file == old(self).file,
            r matches Err(e) ==> at_token(old(self).tokens@, old(self).pos as int, e.span),
            old(self).cur_kind() is Semicolon ==> r == Ok::<Stmt, ParseError>(Stmt::Empty),
            ({
                let t = old(self).tokens@;
                let p = old(self).pos as int;
                p + 1 < t.len() && t[p + 1].kind is Semicolon
            }) ==> ({
                let t = old(self).tokens@;
                let sp = old(self).cur_span();
                let two = final(self).pos == old(self).pos + 2;
                match t[old(self).pos as int].kind {
                    TokenKind::Exit => r == Ok::<Stmt, ParseError>(Stmt::Exit(sp)) && two,
                    TokenKind::Break => r == Ok::<Stmt, ParseError>(Stmt::Break(None, sp)) && two,
                    TokenKind::Continue => r == Ok::<Stmt, ParseError>(Stmt::Continue(None, sp)) && two,
                    TokenKind::Return => r == Ok::<Stmt, ParseError>(Stmt::Return(None, sp)) && two,
                    TokenKind::Raise => r == Ok::<Stmt, ParseError>(Stmt::Raise(None, sp)) && two,
                    TokenKind::Ident(n) => r == Ok::<Stmt, ParseError>(Stmt::Expr(Expr::Ident(n, sp))) && two,
                    _ => true,
                }
            }),
        decreases old(self).remaining(), 20nat,
    {
        let span = self.span();
        match self.peek() {
            TokenKind::LBrace => {
                let block = self.parse_block()?;
                let ghost m = self.pos as int;
                proof {
                    assert(trigger_end(m));
                }
                // An exception handler: { ... } exception [id] { ... }
                if self.at(&TokenKind::Exception) {
                    self.advance();
                    if let TokenKind::Ident(_) = self.peek() {
                        self.advance();
                    }
                    self.expect(&TokenKind::LBrace)?;
                    self.parse_exception_body()?;
                    self.expect(&TokenKind::RBrace)?;
                }
                Ok(Stmt::Block(block))
            },
            TokenKind::If => self.parse_if(),
            TokenKind::For => self.parse_for(span),
            TokenKind::While => self.parse_while(span),
            TokenKind::Do => self.parse_do(span),
            TokenKind::Return => {
                self.advance();
                let expr = if self.at(&TokenKind::Semicolon) {
                    None
                } else {
                    Some(self.parse_expr()?)
                };
                self.expect_semi()?;
                Ok(Stmt::Return(expr, span))
            },
            TokenKind::Break => {
                self.advance();
                let label = if let TokenKind::Ident(name) = self.peek() {
                    let name = name.clone();
                    self.advance();
                    Some(name)
                } else {
                    None
                };
                self.expect_semi()?;
                Ok(Stmt::Break(label, span))
            },
            TokenKind::Continue => {
                self.advance();
                let label = if let TokenKind::Ident(name) = self.peek() {
                    let name = name.clone();
                    self.advance();
                    Some(name)
                } else {
                    None
                };
                self.expect_semi()?;
                Ok(Stmt::Continue(label, span))
            },
            TokenKind::Exit => {
                self.advance();
                self.expect_semi()?;
                Ok(Stmt::Exit(span))
            },
            TokenKind::Spawn => {
                self.advance();
                let expr = self.parse_expr()?;
                self.expect_semi()?;
                Ok(Stmt::Spawn(expr, span))
            },
            TokenKind::Raise => {
                self.advance();
                let expr = if self.at(&TokenKind::Semicolon) {
                    None
                } else {
                    Some(self.parse_expr()?)
                };
                self.expect_semi()?;
                Ok(Stmt::Raise(expr, span))
            },
            TokenKind::Case => self.parse_case(span),
            TokenKind::Pick => self.parse_pick(span),
            TokenKind::Alt => self.parse_alt(span),
            TokenKind::Semicolon => {
                self.advance();
                Ok(Stmt::Empty)
            },
            TokenKind::Exception => {
                self.advance();
                if let TokenKind::Ident(_) = self.peek() {
                    self.advance();
                }
                self.expect(&TokenKind::LBrace)?;
                self.parse_exception_body()?;
                self.expect(&TokenKind::RBrace)?;
                Ok(Stmt::Empty)
            },
            _ => {
                // A label: name: stmt (where stmt is for/while/case/alt/...)
                if self.is_label() {
                    let label = self.expect_ident()?;
                    self.expect(&TokenKind::Colon)?;
                    let stmt = self.parse_stmt()?;
                    return Ok(Stmt::Label(label, Box::new(stmt)));
                }
                // A local declaration: name: type [= expr]; or Name: import module;
                if self.is_local_var_decl() {
                    return self.parse_local_var_decl();
                }
                // A local include
                if self.at(&TokenKind::Include) {
                    self.advance();
                    if let TokenKind::StringLit(_) = self.peek() {
                        self.advance();
                    }
                    self.expect_semi()?;
                    return Ok(Stmt::Empty);
                }
                // Expression statement
                let expr = self.parse_expr()?;
                self.expect_semi()?;
                Ok(Stmt::Expr(expr))
            },
        }
    }

    /// Parse the body of an exception handler block: `pattern => stmts; ...`
    fn parse_exception_body(&mut self) -> (r: Result<(), ParseError>)
        requires
            old(self).wf(),
        ensures
            final(self).continues(*old(self)),
            r is Ok ==> final(self).cur_kind() is RBrace || final(self).cur_kind() is Eof,
            (old(self).cur_kind() is RBrace || old(self).cur_kind() is Eof) ==> (r is Ok && final(self).pos == old(self).pos),
            r matches Err(e) ==> e.file == old(self).file,
            r matches Err(e) ==> at_token(old(self).tokens@, old(self).pos as int, e.span),
        decreases old(self).remaining(), 19nat,
    {
        while !self.at(&TokenKind::RBrace) && !self.at(&TokenKind::Eof)
            invariant
                self.continues(*old(self)),
                (old(self).cur_kind() is RBrace || old(self).cur_kind() is Eof) ==> self.pos == old(self).pos,
            decreases self.remaining(),
        {
            // The pattern: a string, "*" or an identifier, possibly with
            // "or", up to the "=>" at bracket depth 0
            let ghost pattern_start = self.pos;
            let mut depth: i64 = 0;
            loop
                invariant
                    self.continues(*old(self)),
                    pattern_start <= self.pos,
                    pattern_start >= old(self).pos,
                    -(self.pos - pattern_start) <= depth <= self.pos - pattern_start,
                    !(old(self).cur_kind() is RBrace || old(self).cur_kind() is Eof),
                ensures
                    self.continues(*old(self)),
                    self.pos > pattern_start,
                    !(old(self).cur_kind() is RBrace || old(self).cur_kind() is Eof),
                decreases self.remaining(),
            {
                match self.peek() {
                    TokenKind::FatArrow => {
                        if depth == 0 {
                            self.advance();
                            break;
                        }
                        self.advance();
                    },
                    TokenKind::LParen | TokenKind::LBracket | TokenKind::LBrace => {
                        depth = depth + 1;
                        self.advance();
                    },
                    TokenKind::RParen | TokenKind::RBracket => {
                        depth = depth - 1;
                        self.advance();
                    },
                    TokenKind::RBrace => {
                        if depth > 0 {
                            depth = depth - 1;
                            self.advance();
                        } else {
                            return Ok(());
                        }
                    },
                    TokenKind::Eof => {
                        return Ok(());
                    },
                    _ => {
                        self.advance();
                    },
                }
            }
            // Handler body statements until the next pattern or closing brace
            while !self.at(&TokenKind::RBrace) && !self.at(&TokenKind::Eof)
                invariant
                    self.continues(*old(self)),
                    self.pos > pattern_start,
                    pattern_start >= old(self).pos,
                    !(old(self).cur_kind() is RBrace || old(self).cur_kind() is Eof),
                decreases self.remaining(),
            {
                if self.is_exception_pattern_start() {
                    break;
                }
                self.parse_stmt()?;
            }
        }
        Ok(())
    }

    /// Parse a local variable declaration: `name [, name]* : type [= expr] ;`
    fn parse_local_var_decl(&mut self) -> (r: Result<Stmt, ParseError>)
        requires
            old(self).wf(),
        ensures
            final(self).continues(*old(self)),
            r is Ok ==> final(self).progressed(*old(self)),
            r matches Ok(st) ==> st is VarDecl || st is Import || st is Empty,
            r matches Ok(st) ==> exists|names: Seq<String>| #[trigger] names_at(old(self).tokens@, old(self).pos as int, names)
                && local_decl_result(old(self).tokens@, old(self).pos + 2 * names.len(), names, st, final(self).pos as int),
            r matches Err(e) ==> e.file == old(self).file,
            r matches Err(e) ==> at_token(old(self).tokens@, old(self).pos as int, e.span),
        decreases old(self).remaining(), 19nat,
    {
        let span = self.span();
        let names = self.parse_names_colon()?;
        let ghost t = self.tokens@;
        let ghost q = self.pos as int;
        let ghost ns = names@;
        proof {
            assert(names_at(t, old(self).pos as int, ns));
        }
        // Special forms: import, con, type
        if self.at(&TokenKind::Import) {
            self.advance();
            let module = self.expect_ident()?;
            proof {
                assert(t[q + 1].kind == TokenKind::Ident(module));
            }
            self.expect_semi()?;
            return Ok(Stmt::Import(ImportDecl { names, module, span }));
        }
        if self.at(&TokenKind::Con) {
            self.advance();
            let _value = self.parse_expr()?;
            self.expect_semi()?;
            return Ok(Stmt::Empty);
        }
        if self.at(&TokenKind::Type) {
            self.advance();
            let _ty = self.parse_type()?;
            self.expect_semi()?;
            return Ok(Stmt::Empty);
        }
        let ty = self.parse_type()?;
        let ghost a = self.pos as int;
        let init = if self.at(&TokenKind::Assign) {
            self.advance();
            Some(self.parse_expr()?)
        } else {
            None
        };
        proof {
            if init is Some {
                assert(q < a && t[a].kind is Assign);
                assert(expr_rel(t, a + 1, 0, init->Some_0, self.pos as int));
            }
        }
        self.expect_semi()?;
        Ok(Stmt::VarDecl(VarDecl { names, ty: Some(ty), init, span }))
    }

    fn parse_if(&mut self) -> (r: Result<Stmt, ParseError>)
        requires
            old(self).wf(),
        ensures
            final(self).continues(*old(self)),
            r is Ok ==> final(self).progressed(*old(self)),
            r matches Ok(st) ==> st is If,
            r matches Ok(st) ==> compound_rel(old(self).tokens@, old(self).pos as int, st, final(self).pos as int),
            r matches Err(e) ==> e.file == old(self).file,
            r matches Err(e) ==> at_token(old(self).tokens@, old(self).pos as int, e.span),
        decreases old(self).remaining(), 19nat,
    {
        let ghost t = self.tokens@;
        let ghost p = self.pos as int;
        let span = self.span();
        self.expect(&TokenKind::If)?;
        self.expect(&TokenKind::LParen)?;
        let cond = self.parse_expr()?;
        let ghost m = self.pos as int;
        self.expect(&TokenKind::RParen)?;
        let then_stmt = self.parse_stmt()?;
        let ghost m2 = self.pos as int;
        let then = Box::new(then_stmt);
        let else_ = if self.at(&TokenKind::Else) {
            self.advance();
            Some(Box::new(self.parse_stmt()?))
        } else {
            None
        };
        proof {
            assert(t[p].kind is If);
            assert(t[p + 1].kind is LParen);
            assert(t[m].kind is RParen);
            assert(trigger_end(m) && trigger_end(m2));
        }
        Ok(Stmt::If(IfStmt { cond, then, else_, span }))
    }

    fn parse_for(&mut self, span: Span) -> (r: Result<Stmt, ParseError>)
        requires
            old(self).wf(),
            span == old(self).cur_span(),
        ensures
            final(self).continues(*old(self)),
            r is Ok ==> final(self).progressed(*old(self)),
            r matches Ok(st) ==> st is For,
            r matches Ok(st) ==> compound_rel(old(self).tokens@, old(self).pos as int, st, final(self).pos as int),
            r matches Err(e) ==> e.file == old(self).file,
            r matches Err(e) ==> at_token(old(self).tokens@, old(self).pos as int, e.span),
        decreases old(self).remaining(), 19nat,
    {
        let ghost t = self.tokens@;
        let ghost p = self.pos as int;
        self.expect(&TokenKind::For)?;
        self.expect(&TokenKind::LParen)?;
        let init = if self.at(&TokenKind::Semicolon) {
            None
        } else {
            let expr = self.parse_expr()?;
            Some(Box::new(Stmt::Expr(expr)))
        };
        let ghost a = self.pos as int;
        self.expect_semi()?;
        let cond = if self.at(&TokenKind::Semicolon) {
            None
        } else {
            Some(self.parse_expr()?)
        };
        let ghost b = self.pos as int;
        self.expect_semi()?;
        let post = if self.at(&TokenKind::RParen) {
            None
        } else {
            let expr = self.parse_expr()?;
            Some(Box::new(Stmt::Expr(expr)))
        };
        let ghost c = self.pos as int;
        self.expect(&TokenKind::RParen)?;
        let body = Box::new(self.parse_stmt()?);
        proof {
            assert(t[p].kind is For);
            assert(t[p + 1].kind is LParen);
            assert(t[a].kind is Semicolon);
            assert(t[b].kind is Semicolon);
            assert(t[c].kind is RParen);
            assert(trigger_end(a) && trigger_end(b) && trigger_end(c));
        }
        Ok(Stmt::For(ForStmt { init, cond, post, body, span }))
    }

    fn parse_while(&mut self, span: Span) -> (r: Result<Stmt, ParseError>)
        requires
            old(self).wf(),
            span == old(self).cur_span(),
        ensures
            final(self).continues(*old(self)),
            r is Ok ==> final(self).progressed(*old(self)),
            r matches Ok(st) ==> st is While,
            r matches Ok(st) ==> compound_rel(old(self).tokens@, old(self).pos as int, st, final(self).pos as int),
            r matches Err(e) ==> e.file == old(self).file,
            r matches Err(e) ==> at_token(old(self).tokens@, old(self).pos as int, e.span),
        decreases old(self).remaining(), 19nat,
    {
        let ghost t = self.tokens@;
        let ghost p = self.pos as int;
        self.expect(&TokenKind::While)?;
        self.expect(&TokenKind::LParen)?;
        let cond = self.parse_expr()?;
        let ghost m = self.pos as int;
        self.expect(&TokenKind::RParen)?;
        let body = Box::new(self.parse_stmt()?);
        proof {
            assert(t[p].kind is While);
            assert(t[p + 1].kind is LParen);
            assert(t[m].kind is RParen);
            assert(trigger_end(m));
        }
        Ok(Stmt::While(WhileStmt { cond, body, span }))
    }

    fn parse_do(&mut self, span: Span) -> (r: Result<Stmt, ParseError>)
        requires
            old(self).wf(),
            span == old(self).cur_span(),
        ensures
            final(self).continues(*old(self)),
            r is Ok ==> final(self).progressed(*old(self)),
            r matches Ok(st) ==> st is Do,
            r matches Ok(st) ==> compound_rel(old(self).tokens@, old(self).pos as int, st, final(self).pos as int),
            r matches Err(e) ==> e.file == old(self).file,
            r matches Err(e) ==> at_token(old(self).tokens@, old(self).pos as int, e.span),
        decreases old(self).remaining(), 19nat,
    {
        let ghost t = self.tokens@;
        let ghost p = self.pos as int;
        self.expect(&TokenKind::Do)?;
        let body = Box::new(self.parse_stmt()?);
        let ghost m = self.pos as int;
        self.expect(&TokenKind::While)?;
        self.expect(&TokenKind::LParen)?;
        let cond = self.parse_expr()?;
        let ghost m2 = self.pos as int;
        self.expect(&TokenKind::RParen)?;
        self.expect_semi()?;
        proof {
            assert(t[p].kind is Do);
            assert(t[m].kind is While);
            assert(t[m + 1].kind is LParen);
            assert(t[m2].kind is RParen);
            assert(trigger_end(m) && trigger_end(m2));
        }
        Ok(Stmt::Do(DoStmt { body, cond, span }))
    }

    fn parse_case(&mut self, span: Span) -> (r: Result<Stmt, ParseError>)
        requires
            old(self).wf(),
        ensures
            final(self).continues(*old(self)),
            r is Ok ==> final(self).progressed(*old(self)),
            r matches Ok(st) ==> st is Case,
            r matches Ok(st) ==> (st matches Stmt::Case(c) && c.span == span && (exists|m: int| #[trigger] trigger_end(m)
                && old(self).pos < m && m + 1 < old(self).tokens@.len() && expr_rel(old(self).tokens@, old(self).pos + 1, 0, c.expr, m)
                && old(self).tokens@[m].kind is LBrace && case_arms_rel(old(self).tokens@, m + 1, c.arms@, final(self).pos as int))
                && forall|k: int| 0 <= k < c.arms@.len() ==> case_arm_ok(old(self).tokens@, (#[trigger] c.arms@[k]).patterns@)),
            r matches Err(e) ==> e.file == old(self).file,
            r matches Err(e) ==> at_token(old(self).tokens@, old(self).pos as int, e.span),
        decreases old(self).remaining(), 19nat,
    {
        let ghost t = self.tokens@;
        self.expect(&TokenKind::Case)?;
        let expr = self.parse_expr()?;
        let ghost ce = expr;
        let ghost cm = self.pos as int;
        proof {
            assert(expr_rel(t, old(self).pos + 1, 0, expr, self.pos as int));
        }
        self.expect(&TokenKind::LBrace)?;
        let ghost a0 = cm + 1;
        let mut arms: Vec<CaseArm> = Vec::new();
        proof {
            assert forall|rest: Seq<CaseArm>, end: int| #[trigger] case_arms_rel(t, a0, rest, end) implies case_arms_rel(
                t,
                a0,
                arms@ + rest,
                end,
            ) by {
                assert(arms@ + rest =~= rest);
            }
        }
        loop
            invariant
                self.progressed(*old(self)),
                t == self.tokens@,
                expr == ce,
                expr_rel(t, old(self).pos + 1, 0, ce, cm) && t[cm].kind is LBrace,
                a0 == cm + 1,
                a0 <= self.pos,
                forall|k: int| 0 <= k < arms@.len() ==> case_arm_ok(t, (#[trigger] arms@[k]).patterns@),
                forall|rest: Seq<CaseArm>, end: int| #[trigger] case_arms_rel(t, self.pos as int, rest, end) ==> case_arms_rel(
                    t,
                    a0,
                    arms@ + rest,
                    end,
                ),
            ensures
                self.progressed(*old(self)),
                t == self.tokens@,
                expr == ce,
                expr_rel(t, old(self).pos + 1, 0, ce, cm) && t[cm].kind is LBrace,
                self.cur_kind() is RBrace || self.cur_kind() is Eof,
                forall|k: int| 0 <= k < arms@.len() ==> case_arm_ok(t, (#[trigger] arms@[k]).patterns@),
                forall|rest: Seq<CaseArm>, end: int| #[trigger] case_arms_rel(t, self.pos as int, rest, end) ==> case_arms_rel(
                    t,
                    a0,
                    arms@ + rest,
                    end,
                ),
            decreases self.remaining(),
        {
            if self.at(&TokenKind::RBrace) || self.at(&TokenKind::Eof) {
                break;
            }
            let ghost it_start = self.pos;
            let ghost pq = self.pos as int;
            let ghost before_arms = arms@;
            let patterns = self.parse_case_patterns()?;
            let ghost pe = self.pos as int;
            let ghost ps = patterns@;
            self.expect(&TokenKind::FatArrow)?;
            proof {
                assert(case_patterns_from(t, pq, ps, pe) && t[pe].kind is FatArrow);
            }
            let ghost b0 = self.pos as int;
            let mut body: Vec<Stmt> = Vec::new();
            proof {
                assert forall|rest: Seq<Stmt>, end: int| #[trigger] case_body_rel(t, b0, rest, end) implies case_body_rel(
                    t,
                    b0,
                    body@ + rest,
                    end,
                ) by {
                    assert(body@ + rest =~= rest);
                }
            }
            loop
                invariant
                    self.progressed(*old(self)),
                    self.pos > it_start,
                    t == self.tokens@,
                    patterns@ == ps,
                    case_patterns_from(t, pq, ps, pe) && t[pe].kind is FatArrow,
                    expr == ce,
                    expr_rel(t, old(self).pos + 1, 0, ce, cm) && t[cm].kind is LBrace,
                    forall|k: int| 0 <= k < arms@.len() ==> case_arm_ok(t, (#[trigger] arms@[k]).patterns@),
                    b0 <= self.pos,
                    forall|rest: Seq<Stmt>, end: int| #[trigger] case_body_rel(t, self.pos as int, rest, end) ==> case_body_rel(
                        t,
                        b0,
                        body@ + rest,
                        end,
                    ),
                ensures
                    self.progressed(*old(self)),
                    self.pos > it_start,
                    t == self.tokens@,
                    patterns@ == ps,
                    case_patterns_from(t, pq, ps, pe) && t[pe].kind is FatArrow,
                    expr == ce,
                    expr_rel(t, old(self).pos + 1, 0, ce, cm) && t[cm].kind is LBrace,
                    forall|k: int| 0 <= k < arms@.len() ==> case_arm_ok(t, (#[trigger] arms@[k]).patterns@),
                    case_body_rel(t, b0, body@, self.pos as int),
                decreases self.remaining(),
            {
                let ghost q = self.pos as int;
                if self.at(&TokenKind::RBrace) || self.at(&TokenKind::Eof) || self.is_case_pattern_start() {
                    proof {
                        assert(case_stop(t, q));
                        assert(case_body_rel(t, q, Seq::<Stmt>::empty(), q));
                        assert(body@ + Seq::<Stmt>::empty() =~= body@);
                    }
                    break;
                }
                proof {
                    assert(!case_stop(t, q));
                }
                let ghost before = body@;
                match self.parse_stmt() {
                    Ok(st) => {
                        let ghost g = st;
                        body.push(st);
                        proof {
                            let m = self.pos as int;
                            assert forall|rest: Seq<Stmt>, end: int| #[trigger] case_body_rel(t, m, rest, end) implies case_body_rel(
                                t,
                                b0,
                                body@ + rest,
                                end,
                            ) by {
                                let r2 = seq![g] + rest;
                                assert(r2[0] == g);
                                assert(r2.drop_first() =~= rest);
                                assert(trigger_end(m));
                                assert(case_body_rel(t, q, r2, end));
                                assert(before + r2 =~= body@ + rest);
                            }
                        }
                    },
                    Err(_) => {
                        // Skip the malformed statement up to the next arm
                        while !self.at(&TokenKind::RBrace) && !self.at(&TokenKind::Eof) && !self.is_case_pattern_start()
                            invariant
                                self.progressed(*old(self)),
                                self.pos > it_start,
                                t == self.tokens@,
                                q <= self.pos,
                                self.pos == q ==> !case_stop(t, q),
                            decreases self.remaining(),
                        {
                            self.advance();
                        }
                        proof {
                            let e = self.pos as int;
                            assert(case_stop(t, e));
                            assert(q < e);
                            assert(case_body_rel(t, q, Seq::<Stmt>::empty(), e));
                            assert(before + Seq::<Stmt>::empty() =~= before);
                        }
                        break;
                    },
                }
            }
            let ghost bend = self.pos as int;
            let arm = CaseArm { patterns, body };
            let ghost ga = arm;
            proof {
                assert(trigger_end(pe));
                assert(case_arm_rel(t, pq, ga, bend));
            }
            arms.push(arm);
            proof {
                assert forall|k: int| 0 <= k < arms@.len() implies case_arm_ok(t, (#[trigger] arms@[k]).patterns@) by {
                    if k < before_arms.len() {
                        assert(arms@[k] == before_arms[k]);
                    } else {
                        assert(arms@[k].patterns@ == ps);
                        assert(case_patterns_from(t, pq, ps, pe) && t[pe].kind is FatArrow);
                    }
                }
                assert forall|rest: Seq<CaseArm>, end: int| #[trigger] case_arms_rel(t, bend, rest, end) implies case_arms_rel(
                    t,
                    a0,
                    arms@ + rest,
                    end,
                ) by {
                    let r2 = seq![ga] + rest;
                    assert(r2[0] == ga);
                    assert(r2.drop_first() =~= rest);
                    assert(trigger_end(bend));
                    assert(case_arms_rel(t, pq, r2, end));
                    assert(before_arms + r2 =~= arms@ + rest);
                }
            }
        }
        let ghost rb = self.pos as int;
        self.expect(&TokenKind::RBrace)?;
        proof {
            assert(t[rb].kind is RBrace);
            assert(case_arms_rel(t, rb, Seq::<CaseArm>::empty(), rb + 1));
            assert(arms@ + Seq::<CaseArm>::empty() =~= arms@);
            assert(expr_rel(t, old(self).pos + 1, 0, ce, cm));
            assert(trigger_end(cm));
        }
        Ok(Stmt::Case(CaseStmt { expr, arms, span }))
    }

    fn parse_case_patterns(&mut self) -> (r: Result<Vec<CasePattern>, ParseError>)
        requires
            old(self).wf(),
        ensures
            final(self).continues(*old(self)),
            r is Ok ==> final(self).progressed(*old(self)),
            r matches Ok(ps) ==> case_patterns_from(old(self).tokens@, old(self).pos as int, ps@, final(self).pos as int),
            r matches Err(e) ==> e.file == old(self).file,
            r matches Err(e) ==> at_token(old(self).tokens@, old(self).pos as int, e.span),
        decreases old(self).remaining(), 18nat,
    {
        let ghost t = self.tokens@;
        let ghost p0 = self.pos as int;
        let mut patterns: Vec<CasePattern> = Vec::new();
        proof {
            assert forall|rest: Seq<CasePattern>, end: int| case_patterns_from(t, p0, rest, end)
                implies case_patterns_from(t, p0, patterns@ + rest, end) by {
                assert(patterns@ + rest =~= rest);
            }
        }
        loop
            invariant_except_break
                forall|rest: Seq<CasePattern>, end: int| case_patterns_from(t, self.pos as int, rest, end)
                    ==> case_patterns_from(t, p0, patterns@ + rest, end),
            invariant
                self.continues(*old(self)),
                t == self.tokens@,
                p0 == old(self).pos,
                patterns@.len() > 0 ==> self.pos > old(self).pos,
            ensures
                self.progressed(*old(self)),
                case_patterns_from(t, p0, patterns@, self.pos as int),
            decreases self.remaining(),
        {
            let ghost q = self.pos as int;
            let ghost before = patterns@;
            let ghost mut x: int = 0;
            if self.at_wildcard_arm() {
                self.advance();
                patterns.push(CasePattern::Wildcard);
                proof {
                    x = self.pos as int;
                }
            } else {
                let expr = self.parse_expr()?;
                let ghost e1 = expr;
                let ghost m1 = self.pos as int;
                proof {
                    assert(expr_rel(t, q, 0, e1, m1));
                    assert(trigger_expr_end(e1, m1));
                }
                if self.at(&TokenKind::To) {
                    self.advance();
                    let end = self.parse_expr()?;
                    proof {
                        assert(expr_rel(t, m1 + 1, 0, end, self.pos as int));
                        assert(trigger_expr_end(end, self.pos as int));
                    }
                    patterns.push(CasePattern::Range(expr, end));
                } else {
                    patterns.push(CasePattern::Expr(expr));
                }
                proof {
                    x = self.pos as int;
                }
            }
            let ghost pat = patterns@.last();
            proof {
                assert(patterns@ == before.push(pat));
            }
            if !self.at(&TokenKind::Or) {
                proof {
                    let one = seq![pat];
                    assert(case_patterns_after(t, x, one, x));
                    assert(case_patterns_from(t, q, one, x));
                    assert(before + one =~= patterns@);
                }
                break;
            }
            self.advance();
            proof {
                assert forall|rest: Seq<CasePattern>, end: int| case_patterns_from(t, x + 1, rest, end)
                    implies case_patterns_from(t, p0, patterns@ + rest, end) by {
                    let ps = seq![pat] + rest;
                    assert(ps.drop_first() =~= rest);
                    assert(case_patterns_after(t, x, ps, end));
                    assert(case_patterns_from(t, q, ps, end));
                    assert(before + ps =~= patterns@ + rest);
                }
            }
        }
        Ok(patterns)
    }

    /// Parse `pick name := expr { tags => stmts ... }`.
    fn parse_pick(&mut self, span: Span) -> (r: Result<Stmt, ParseError>)
        requires
            old(self).wf(),
            span == old(self).cur_span(),
            old(self).cur_kind() is Pick,
        ensures
            final(self).continues(*old(self)),
            r is Ok ==> final(self).progressed(*old(self)),
            r matches Ok(st) ==> stmt_more(old(self).tokens@, old(self).pos as int, st, final(self).pos as int),
            r matches Err(e) ==> e.file == old(self).file,
            r matches Err(e) ==> at_token(old(self).tokens@, old(self).pos as int, e.span),
        decreases old(self).remaining(), 19nat,
    {
        let ghost t = self.tokens@;
        let ghost p = self.pos as int;
        self.advance();
        let name = self.expect_ident()?;
        self.expect(&TokenKind::ColonEq)?;
        let expr = self.parse_expr()?;
        let ghost cm = self.pos as int;
        self.expect(&TokenKind::LBrace)?;
        let ghost a0 = cm + 1;
        let mut arms: Vec<PickArm> = Vec::new();
        proof {
            assert forall|rest: Seq<PickArm>, end: int| #[trigger] pick_arms_rel(t, a0, rest, end) implies pick_arms_rel(
                t,
                a0,
                arms@ + rest,
                end,
            ) by {
                assert(arms@ + rest =~= rest);
            }
        }
        loop
            invariant
                self.progressed(*old(self)),
                t == self.tokens@,
                a0 <= self.pos,
                forall|rest: Seq<PickArm>, end: int| #[trigger] pick_arms_rel(t, self.pos as int, rest, end) ==> pick_arms_rel(
                    t,
                    a0,
                    arms@ + rest,
                    end,
                ),
            ensures
                self.progressed(*old(self)),
                t == self.tokens@,
                self.cur_kind() is RBrace || self.cur_kind() is Eof,
                forall|rest: Seq<PickArm>, end: int| #[trigger] pick_arms_rel(t, self.pos as int, rest, end) ==> pick_arms_rel(
                    t,
                    a0,
                    arms@ + rest,
                    end,
                ),
            decreases self.remaining(),
        {
            if self.at(&TokenKind::RBrace) || self.at(&TokenKind::Eof) {
                break;
            }
            let ghost arm_start = self.pos as int;
            let ghost before_arms = arms@;
            let mut tags: Vec<String> = Vec::new();
            let ghost wild = self.cur_kind() is Star && arm_start + 1 < t.len() && (t[arm_start + 1].kind is FatArrow
                || t[arm_start + 1].kind is Or);
            if self.at_wildcard_arm() {
                self.advance();
                tags.push(String::from_str("*"));
            } else {
                let first = self.expect_ident()?;
                tags.push(first);
                proof {
                    assert forall|rest: Seq<String>, a: int| #[trigger] pick_tags_after(t, self.pos as int, rest, a) implies pick_tags_after(
                        t,
                        arm_start + 1,
                        tags@.drop_first() + rest,
                        a,
                    ) by {
                        assert(tags@.drop_first() + rest =~= rest);
                    }
                }
                loop
                    invariant
                        self.progressed(*old(self)),
                        self.pos > arm_start,
                        t == self.tokens@,
                        tags@.len() >= 1,
                        t[arm_start].kind == TokenKind::Ident(tags@[0]),
                        forall|rest: Seq<String>, a: int| #[trigger] pick_tags_after(t, self.pos as int, rest, a) ==> pick_tags_after(
                            t,
                            arm_start + 1,
                            tags@.drop_first() + rest,
                            a,
                        ),
                    ensures
                        self.progressed(*old(self)),
                        self.pos > arm_start,
                        t == self.tokens@,
                        tags@.len() >= 1,
                        t[arm_start].kind == TokenKind::Ident(tags@[0]),
                        pick_tags_after(t, arm_start + 1, tags@.drop_first(), self.pos as int),
                    decreases self.remaining(),
                {
                    let ghost x = self.pos as int;
                    let ghost before = tags@;
                    if !self.at(&TokenKind::Or) {
                        proof {
                            assert(pick_tags_after(t, x, Seq::<String>::empty(), x));
                            assert(before.drop_first() + Seq::<String>::empty() =~= before.drop_first());
                        }
                        break;
                    }
                    self.advance();
                    let n = self.expect_ident()?;
                    tags.push(n);
                    proof {
                        let m = self.pos as int;
                        assert forall|rest: Seq<String>, a: int| #[trigger] pick_tags_after(t, m, rest, a) implies pick_tags_after(
                            t,
                            arm_start + 1,
                            tags@.drop_first() + rest,
                            a,
                        ) by {
                            let r2 = seq![n] + rest;
                            assert(r2[0] == n);
                            assert(r2.drop_first() =~= rest);
                            assert(pick_tags_after(t, x, r2, a));
                            assert(before.drop_first() + r2 =~= tags@.drop_first() + rest);
                        }
                    }
                }
            }
            let ghost arrow = self.pos as int;
            self.expect(&TokenKind::FatArrow)?;
            let ghost b0 = self.pos as int;
            let mut body: Vec<Stmt> = Vec::new();
            proof {
                assert forall|rest: Seq<Stmt>, end: int| #[trigger] pick_body_rel(t, b0, rest, end) implies pick_body_rel(
                    t,
                    b0,
                    body@ + rest,
                    end,
                ) by {
                    assert(body@ + rest =~= rest);
                }
            }
            loop
                invariant
                    self.progressed(*old(self)),
                    self.pos > arm_start,
                    t == self.tokens@,
                    b0 <= self.pos,
                    forall|rest: Seq<Stmt>, end: int| #[trigger] pick_body_rel(t, self.pos as int, rest, end) ==> pick_body_rel(
                        t,
                        b0,
                        body@ + rest,
                        end,
                    ),
                ensures
                    self.progressed(*old(self)),
                    self.pos > arm_start,
                    t == self.tokens@,
                    pick_body_rel(t, b0, body@, self.pos as int),
                decreases self.remaining(),
            {
                let ghost q = self.pos as int;
                if self.at(&TokenKind::RBrace) || self.at(&TokenKind::Eof) || self.is_pick_tag_start() || self.at_wildcard_arm() {
                    proof {
                        assert(pick_body_rel(t, q, Seq::<Stmt>::empty(), q));
                        assert(body@ + Seq::<Stmt>::empty() =~= body@);
                    }
                    break;
                }
                let ghost before = body@;
                let st = self.parse_stmt()?;
                let ghost g = st;
                body.push(st);
                proof {
                    let m = self.pos as int;
                    assert forall|rest: Seq<Stmt>, end: int| #[trigger] pick_body_rel(t, m, rest, end) implies pick_body_rel(
                        t,
                        b0,
                        body@ + rest,
                        end,
                    ) by {
                        let r2 = seq![g] + rest;
                        assert(r2[0] == g);
                        assert(r2.drop_first() =~= rest);
                        assert(trigger_end(m));
                        assert(pick_body_rel(t, q, r2, end));
                        assert(before + r2 =~= body@ + rest);
                    }
                }
            }
            let ghost bend = self.pos as int;
            let arm = PickArm { tags, body };
            let ghost ga = arm;
            proof {
                assert(t[arrow].kind is FatArrow);
                assert(trigger_end(arrow));
                assert(pick_arm_rel(t, arm_start, ga, bend));
            }
            arms.push(arm);
            proof {
                assert forall|rest: Seq<PickArm>, end: int| #[trigger] pick_arms_rel(t, bend, rest, end) implies pick_arms_rel(
                    t,
                    a0,
                    arms@ + rest,
                    end,
                ) by {
                    let r2 = seq![ga] + rest;
                    assert(r2[0] == ga);
                    assert(r2.drop_first() =~= rest);
                    assert(trigger_end(bend));
                    assert(pick_arms_rel(t, arm_start, r2, end));
                    assert(before_arms + r2 =~= arms@ + rest);
                }
            }
        }
        let ghost rb = self.pos as int;
        self.expect(&TokenKind::RBrace)?;
        let st = Stmt::Pick(PickStmt { name, expr, arms, span });
        proof {
            assert(t[rb].kind is RBrace);
            assert(pick_arms_rel(t, rb, Seq::<PickArm>::empty(), rb + 1));
            assert(arms@ + Seq::<PickArm>::empty() =~= arms@);
            assert(t[p + 2].kind is ColonEq);
            assert(t[cm].kind is LBrace);
            assert(trigger_end(cm));
        }
        Ok(st)
    }

    fn parse_alt(&mut self, span: Span) -> (r: Result<Stmt, ParseError>)
        requires
            old(self).wf(),
        ensures
            final(self).continues(*old(self)),
            r is Ok ==> final(self).progressed(*old(self)),
            r matches Ok(st) ==> st is Alt,
            r matches Ok(st) ==> (st matches Stmt::Alt(a) && a.span == span && old(self).pos + 1 < old(self).tokens@.len()
                && alt_arms_rel(old(self).tokens@, old(self).pos + 2, a.arms@, final(self).pos as int)),
            r matches Err(e) ==> e.file == old(self).file,
            r matches Err(e) ==> at_token(old(self).tokens@, old(self).pos as int, e.span),
        decreases old(self).remaining(), 19nat,
    {
        let ghost t = self.tokens@;
        let ghost p2 = self.pos + 2;
        self.expect(&TokenKind::Alt)?;
        self.expect(&TokenKind::LBrace)?;
        let mut arms: Vec<AltArm> = Vec::new();
        proof {
            assert forall|rest: Seq<AltArm>, end: int| #[trigger] alt_arms_rel(t, p2, rest, end) implies alt_arms_rel(
                t,
                p2,
                arms@ + rest,
                end,
            ) by {
                assert(arms@ + rest =~= rest);
            }
        }
        loop
            invariant
                self.progressed(*old(self)),
                t == self.tokens@,
                p2 == old(self).pos + 2,
                p2 <= self.pos,
                forall|rest: Seq<AltArm>, end: int| #[trigger] alt_arms_rel(t, self.pos as int, rest, end) ==> alt_arms_rel(
                    t,
                    p2,
                    arms@ + rest,
                    end,
                ),
            ensures
                self.progressed(*old(self)),
                t == self.tokens@,
                self.cur_kind() is RBrace || self.cur_kind() is Eof,
                forall|rest: Seq<AltArm>, end: int| #[trigger] alt_arms_rel(t, self.pos as int, rest, end) ==> alt_arms_rel(
                    t,
                    p2,
                    arms@ + rest,
                    end,
                ),
            decreases self.remaining(),
        {
            if self.at(&TokenKind::RBrace) || self.at(&TokenKind::Eof) {
                break;
            }
            let ghost it_start = self.pos;
            let ghost before_arms = arms@;
            let guards = if self.at_wildcard_arm() {
                self.advance();
                let mut g: Vec<AltGuard> = Vec::new();
                g.push(AltGuard::Wildcard);
                g
            } else {
                // Guard list: `expr [or expr]* =>`. Every guard gets its own
                // entry and they all share this arm's body.
                let ghost q0 = self.pos as int;
                let first = self.parse_expr()?;
                let ghost fe = first;
                let ghost m0 = self.pos as int;
                let mut guards: Vec<AltGuard> = Vec::new();
                guards.push(self.classify_alt_guard(first)?);
                let ghost mut last_start = q0;
                let ghost mut last_e = fe;
                proof {
                    assert(expr_rel(t, q0, 0, fe, m0));
                }
                // `guards@.drop_last()` are the guards of the `or`-joined
                // expressions before `last_e`, which starts at `last_start`.
                while self.at(&TokenKind::Or)
                    invariant
                        self.progressed(*old(self)),
                        self.pos > it_start,
                        t == self.tokens@,
                        q0 <= last_start < self.pos < t.len(),
                        guards@.len() >= 1,
                        expr_rel(t, last_start, 0, last_e, self.pos as int),
                        alt_guard_form(last_e),
                        guards@.last() == alt_guard_of(last_e),
                        forall|gs: Seq<AltGuard>, end: int| alt_guards_from(t, last_start, gs, end)
                            ==> alt_guards_from(t, q0, guards@.drop_last() + gs, end),
                    decreases self.remaining(),
                {
                    let ghost prev_start = last_start;
                    let ghost prev_e = last_e;
                    let ghost prev_m = self.pos as int;
                    let ghost before = guards@;
                    self.advance();
                    let ghost ns = self.pos as int;
                    let expr = self.parse_expr()?;
                    let ghost ee = expr;
                    let ghost em = self.pos as int;
                    guards.push(self.classify_alt_guard(expr)?);
                    proof {
                        assert(expr_rel(t, ns, 0, ee, em));
                        assert forall|gs: Seq<AltGuard>, end: int| alt_guards_from(t, ns, gs, end)
                            implies alt_guards_from(t, q0, guards@.drop_last() + gs, end) by {
                            let gs2 = seq![before.last()] + gs;
                            assert(gs2.drop_first() =~= gs);
                            assert(trigger_expr_end(prev_e, prev_m));
                            assert(alt_guards_from(t, prev_start, gs2, end));
                            assert(before.drop_last() + gs2 =~= guards@.drop_last() + gs);
                        }
                        last_start = ns;
                        last_e = ee;
                    }
                }
                let ghost gfin = guards@;
                proof {
                    if t[self.pos as int].kind is FatArrow {
                        let m = self.pos as int;
                        let one = seq![gfin.last()];
                        assert(trigger_expr_end(last_e, m));
                        assert(alt_guards_from(t, last_start, one, m));
                        assert(gfin.drop_last() + one =~= gfin);
                    }
                }
                guards
            };
            let ghost arrow = self.pos as int;
            let ghost gs_now = guards@;
            self.expect(&TokenKind::FatArrow)?;
            let ghost b0 = self.pos as int;
            let mut body: Vec<Stmt> = Vec::new();
            proof {
                assert forall|rest: Seq<Stmt>, end: int| #[trigger] alt_body_rel(t, b0, rest, end) implies alt_body_rel(
                    t,
                    b0,
                    body@ + rest,
                    end,
                ) by {
                    assert(body@ + rest =~= rest);
                }
            }
            loop
                invariant
                    self.progressed(*old(self)),
                    self.pos > it_start,
                    t == self.tokens@,
                    b0 <= self.pos,
                    forall|rest: Seq<Stmt>, end: int| #[trigger] alt_body_rel(t, self.pos as int, rest, end) ==> alt_body_rel(
                        t,
                        b0,
                        body@ + rest,
                        end,
                    ),
                ensures
                    self.progressed(*old(self)),
                    self.pos > it_start,
                    t == self.tokens@,
                    alt_body_rel(t, b0, body@, self.pos as int),
                decreases self.remaining(),
            {
                let ghost q = self.pos as int;
                if self.at(&TokenKind::RBrace) || self.at(&TokenKind::Eof) || self.is_alt_guard_start() {
                    proof {
                        assert(alt_body_rel(t, q, Seq::<Stmt>::empty(), q));
                        assert(body@ + Seq::<Stmt>::empty() =~= body@);
                    }
                    break;
                }
                let ghost before = body@;
                let st = self.parse_stmt()?;
                let ghost g = st;
                body.push(st);
                proof {
                    let m = self.pos as int;
                    assert forall|rest: Seq<Stmt>, end: int| #[trigger] alt_body_rel(t, m, rest, end) implies alt_body_rel(
                        t,
                        b0,
                        body@ + rest,
                        end,
                    ) by {
                        let r2 = seq![g] + rest;
                        assert(r2[0] == g);
                        assert(r2.drop_first() =~= rest);
                        assert(trigger_end(m));
                        assert(alt_body_rel(t, q, r2, end));
                        assert(before + r2 =~= body@ + rest);
                    }
                }
            }
            let ghost bend = self.pos as int;
            let arm = AltArm { guards, body };
            let ghost ga = arm;
            proof {
                assert(t[arrow].kind is FatArrow);
                assert(trigger_end(arrow));
                assert(alt_arm_rel(t, it_start as int, ga, bend));
            }
            arms.push(arm);
            proof {
                assert forall|rest: Seq<AltArm>, end: int| #[trigger] alt_arms_rel(t, bend, rest, end) implies alt_arms_rel(
                    t,
                    p2,
                    arms@ + rest,
                    end,
                ) by {
                    let r2 = seq![ga] + rest;
                    assert(r2[0] == ga);
                    assert(r2.drop_first() =~= rest);
                    assert(trigger_end(bend));
                    assert(alt_arms_rel(t, it_start as int, r2, end));
                    assert(before_arms + r2 =~= arms@ + rest);
                }
            }
        }
        let ghost rb = self.pos as int;
        self.expect(&TokenKind::RBrace)?;
        proof {
            assert(t[rb].kind is RBrace);
            assert(alt_arms_rel(t, rb, Seq::<AltArm>::empty(), rb + 1));
            assert(arms@ + Seq::<AltArm>::empty() =~= arms@);
        }
        Ok(Stmt::Alt(AltStmt { arms, span }))
    }

    // ── Top level ──────────────────────────────────────────────

    /// Parse `a, b, c :`, the names that open a declaration, and the colon
    /// after them.
    #[verifier::spinoff_prover]
    fn parse_names_colon(&mut self) -> (r: Result<Vec<String>, ParseError>)
        requires
            old(self).wf(),
        ensures
            final(self).continues(*old(self)),
            r is Ok ==> final(self).progressed(*old(self)),
            r matches Ok(names) ==> names_at(old(self).tokens@, old(self).pos as int, names@)
                && final(self).pos == old(self).pos + 2 * names@.len(),
            r matches Err(e) ==> e.file == old(self).file,
            r matches Err(e) ==> at_token(old(self).tokens@, old(self).pos as int, e.span),
            (exists|ns: Seq<String>| #[trigger] names_at(old(self).tokens@, old(self).pos as int, ns)) ==> r is Ok,
    {
        let ghost start = self.pos as int;
        let ghost t = self.tokens@;
        let ghost ns = choose|ns: Seq<String>| #[trigger] names_at(t, start, ns);
        let ghost good = names_at(t, start, ns);
        proof {
            assert((exists|ns2: Seq<String>| #[trigger] names_at(old(self).tokens@, old(self).pos as int, ns2)) ==> good);
            if good {
                assert(t[start + 2 * 0].kind == TokenKind::Ident(ns[0]));
            }
        }
        let mut names: Vec<String> = Vec::new();
        names.push(self.expect_ident()?);
        while self.at(&TokenKind::Comma)
            invariant
                self.continues(*old(self)),
                start == old(self).pos,
                t == self.tokens@,
                good == names_at(t, start, ns),
                good ==> names@.len() <= ns.len(),
                (exists|ns2: Seq<String>| #[trigger] names_at(old(self).tokens@, old(self).pos as int, ns2)) ==> good,
                names@.len() >= 1,
                self.pos == start + 2 * names@.len() - 1,
                forall|j: int| 0 <= j < names@.len() ==> self.tokens@[start + 2 * j].kind == TokenKind::Ident(#[trigger] names@[j])
                    && (j + 1 < names@.len() ==> self.tokens@[start + 2 * j + 1].kind is Comma),
            decreases self.remaining(),
        {
            let ghost before = names@;
            let ghost comma_at = self.pos as int;
            assert(self.tokens@[comma_at].kind is Comma);
            proof {
                if good {
                    let l = names@.len() as int;
                    assert(t[start + 2 * (l - 1)].kind == TokenKind::Ident(ns[l - 1]));
                    assert(l < ns.len());
                    assert(t[start + 2 * l].kind == TokenKind::Ident(ns[l]));
                }
            }
            self.advance();
            let n = self.expect_ident()?;
            names.push(n);
            proof {
                assert forall|j: int| 0 <= j < names@.len() implies self.tokens@[start + 2 * j].kind == TokenKind::Ident(#[trigger] names@[j])
                    && (j + 1 < names@.len() ==> self.tokens@[start + 2 * j + 1].kind is Comma) by {
                    if j < before.len() {
                        assert(names@[j] == before[j]);
                        if j + 1 == before.len() {
                            assert(start + 2 * j + 1 == comma_at);
                        }
                    } else {
                        assert(j == before.len());
                        assert(start + 2 * j == comma_at + 1);
                    }
                }
            }
        }
        let ghost at_colon = self.pos as int;
        proof {
            if good {
                let l = names@.len() as int;
                assert(t[start + 2 * (l - 1)].kind == TokenKind::Ident(ns[l - 1]));
                assert(l == ns.len());
            }
        }
        self.expect(&TokenKind::Colon)?;
        assert(self.tokens@[at_colon].kind is Colon);
        Ok(names)
    }

    /// Parse a complete Limbo source file.
    #[verifier::spinoff_prover]
    pub fn parse_file(&mut self) -> (r: Result<SourceFile, ParseError>)
        requires
            old(self).wf(),
        ensures
            final(self).continues(*old(self)),
            r is Ok ==> final(self).cur_kind() is Eof,
            r matches Ok(f) ==> (f.implement@.len() > 0 <==> old(self).cur_kind() is Implement),
            r matches Ok(f) ==> file_shape(old(self).token_seq(), old(self).cursor(), f),
            old(self).cur_kind() is Eof ==> (r matches Ok(f) && f.implement@.len() == 0 && f.includes@.len() == 0
                && f.decls@.len() == 0),
            r matches Err(e) ==> e.file@ == old(self).file_name(),
            r matches Err(e) ==> at_token(old(self).token_seq(), old(self).cursor(), e.span),
            header_only_file(old(self).token_seq(), old(self).cursor()) ==> r is Ok,
            ({
                let t = old(self).token_seq();
                let p = old(self).cursor();
                p + 2 < t.len() && t[p].kind is Implement && t[p + 1].kind is Ident && t[p + 2].kind is Semicolon
                    && semi_missing_var(t, p + 3)
            }) ==> (r matches Err(e) && missing_semi_error(old(self).token_seq(), old(self).cursor() + 6, e)),
    {
        let mut implement: Vec<String> = Vec::new();
        let mut includes: Vec<Include> = Vec::new();
        let mut decls: Vec<Decl> = Vec::new();

        let ghost t = self.tokens@;
        let ghost p0 = self.pos as int;
        let ghost header = header_only_file(t, p0);
        let ghost one_name = p0 + 2 < t.len() && t[p0].kind is Implement && t[p0 + 1].kind is Ident
            && t[p0 + 2].kind is Semicolon;
        let ghost bad = one_name && semi_missing_var(t, p0 + 3);
        // Optional: implement Name, Name2, ...;
        if self.at(&TokenKind::Implement) {
            self.advance();
            loop
                invariant_except_break
                    self.pos == p0 + 1 + 2 * implement@.len(),
                    one_name ==> implement@.len() == 0,
                    forall|j: int| 0 <= j < implement@.len() ==> t[p0 + 1 + 2 * j].kind == TokenKind::Ident(
                        #[trigger] implement@[j],
                    ) && t[p0 + 2 + 2 * j].kind is Comma,
                invariant
                    self.continues(*old(self)),
                    t == self.tokens@,
                    p0 == old(self).pos,
                    implement@.len() > 0 ==> old(self).cur_kind() is Implement,
                    old(self).cur_kind() is Implement,
                    one_name == (p0 + 2 < t.len() && t[p0].kind is Implement && t[p0 + 1].kind is Ident
                        && t[p0 + 2].kind is Semicolon),
                ensures
                    self.continues(*old(self)),
                    one_name ==> self.pos == p0 + 2,
                    implement@.len() > 0,
                    old(self).cur_kind() is Implement,
                    self.pos == p0 + 2 * implement@.len(),
                    !(t[self.pos as int].kind is Comma),
                    forall|j: int| 0 <= j < implement@.len() ==> t[p0 + 1 + 2 * j].kind == TokenKind::Ident(
                        #[trigger] implement@[j],
                    ) && (j + 1 < implement@.len() ==> t[p0 + 2 + 2 * j].kind is Comma),
                decreases self.remaining(),
            {
                let ghost before = implement@;
                proof {
                    assert(old(self).cur_kind() == t[p0].kind);
                }
                let n = self.expect_ident()?;
                implement.push(n);
                proof {
                    assert(implement@[before.len() as int] == n);
                    assert forall|j: int| 0 <= j < before.len() implies implement@[j] == before[j]
                        && t[p0 + 2 + 2 * j].kind is Comma by {
                        assert(t[p0 + 1 + 2 * j].kind == TokenKind::Ident(before[j]));
                    }
                }
                if !self.at(&TokenKind::Comma) {
                    break;
                }
                self.advance();
            }
            let ghost semi = self.pos as int;
            self.expect_semi()?;
            proof {
                lemma_implement_at(t, p0, implement@, semi);
            }
        }
        let ghost start = self.pos as int;
        proof {
            if header {
                assert(old(self).cur_kind() == t[p0].kind);
                assert(includes_only(t, start));
            }
            assert forall|incs: Seq<Include>, rest: Seq<Decl>| #[trigger] top_items(t, start, incs, rest) implies top_items(
                t,
                start,
                includes@ + incs,
                decls@ + rest,
            ) by {
                assert(includes@ + incs =~= incs);
                assert(decls@ + rest =~= rest);
            }
        }

        // Parse top-level items
        while !self.at(&TokenKind::Eof)
            invariant
                self.continues(*old(self)),
                t == self.tokens@,
                p0 == old(self).pos,
                start <= self.pos,
                implement@.len() > 0 <==> old(self).cur_kind() is Implement,
                old(self).cur_kind() is Implement ==> implement_at(t, p0 + 1, implement@) && start == p0 + 1 + 2 * implement@.len(),
                !(old(self).cur_kind() is Implement) ==> start == p0,
                old(self).cur_kind() is Eof ==> (self.pos == p0 && includes@.len() == 0 && decls@.len() == 0
                    && implement@.len() == 0),
                forall|incs: Seq<Include>, rest: Seq<Decl>| #[trigger] top_items(t, self.pos as int, incs, rest) ==> top_items(
                    t,
                    start,
                    includes@ + incs,
                    decls@ + rest,
                ),
                header == header_only_file(t, p0),
                header ==> includes_only(t, self.pos as int),
                bad == (one_name && semi_missing_var(t, p0 + 3)),
                one_name == (p0 + 2 < t.len() && t[p0].kind is Implement && t[p0 + 1].kind is Ident
                    && t[p0 + 2].kind is Semicolon),
                bad ==> self.pos == p0 + 3,
            decreases self.remaining(),
        {
            let ghost q = self.pos as int;
            let ghost before = includes@;
            proof {
                if old(self).cur_kind() is Eof {
                    assert(tag_of(t, q) == kind_tag(TokenKind::Eof));
                }
                assert(!(old(self).cur_kind() is Eof));
            }
            if self.at(&TokenKind::Include) {
                let span = self.span();
                self.advance();
                let path = match self.peek() {
                    TokenKind::StringLit(s) => s.clone(),
                    _ => {
                        return Err(self.err(String::from_str("expected string after include")));
                    },
                };
                self.advance();
                self.expect_semi()?;
                let inc = Include { path, span };
                let ghost g = inc;
                includes.push(inc);
                proof {
                    assert forall|incs: Seq<Include>, rest: Seq<Decl>| #[trigger] top_items(t, self.pos as int, incs, rest) implies top_items(
                        t,
                        start,
                        includes@ + incs,
                        decls@ + rest,
                    ) by {
                        let incs2 = seq![g] + incs;
                        assert(incs2.drop_first() =~= incs);
                        assert(top_items(t, q, incs2, rest));
                        assert(before + incs2 =~= includes@ + incs);
                    }
                }
            } else {
                let d = self.parse_top_decl()?;
                let mut d = d;
                let ghost dd = d@;
                let ghost before_decls = decls@;
                decls.append(&mut d);
                proof {
                    let m = self.pos as int;
                    assert forall|incs: Seq<Include>, rest: Seq<Decl>| #[trigger] top_items(t, m, incs, rest) implies top_items(
                        t,
                        start,
                        includes@ + incs,
                        decls@ + rest,
                    ) by {
                        lemma_decl_item(t, q, m, dd, incs, rest);
                        assert(before_decls + (dd + rest) =~= decls@ + rest);
                    }
                }
            }
        }
        proof {
            assert(top_items(t, self.pos as int, Seq::<Include>::empty(), Seq::<Decl>::empty()));
            assert(includes@ + Seq::<Include>::empty() =~= includes@);
            assert(decls@ + Seq::<Decl>::empty() =~= decls@);
            assert(top_items(t, start, includes@, decls@));
            let f = SourceFile { implement, includes, decls };
            assert(file_shape(t, p0, f)) by {
                assert(file_items(t, p0, f.implement@, f.includes@, f.decls@));
            }
        }
        Ok(SourceFile { implement, includes, decls })
    }

    /// Parse a top-level declaration: variable, constant, type, module, adt,
    /// function, or import. A single `name, name2: ...` declaration yields
    /// one `Decl` per name.
    fn parse_top_decl(&mut self) -> (r: Result<Vec<Decl>, ParseError>)
        requires
            old(self).wf(),
        ensures
            final(self).continues(*old(self)),
            r is Ok ==> final(self).progressed(*old(self)),
            r matches Ok(ds) ==> ds@.len() >= 1 && forall|i: int| 0 <= i < ds@.len() ==> decl_span(#[trigger] ds@[i]) == old(self).cur_span(),
            r matches Ok(ds) ==> top_decl_rel(old(self).tokens@, old(self).pos as int, ds@, final(self).pos as int),
            !(old(self).cur_kind() is Ident) ==> r is Err,
            r matches Err(e) ==> !(old(self).cur_kind() is Ident) ==> e.span == old(self).cur_span()
                && e.message@ == "unexpected token at top level: "@ + kind_debug_text(old(self).cur_kind()),
            r matches Err(e) ==> e.file == old(self).file,
            r matches Err(e) ==> at_token(old(self).tokens@, old(self).pos as int, e.span),
            semi_missing_var(old(self).tokens@, old(self).pos as int) ==> (r matches Err(e) && missing_semi_error(
                old(self).tokens@,
                old(self).pos + 3,
                e,
            )),
    {
        reveal(top_decl_rel);
        let span = self.span();
        if let TokenKind::Ident(_) = self.peek() {
            match self.look_ahead_after_ident() {
                LookAhead::FuncDef => {
                    let d = self.parse_func_def()?;
                    return Ok(vec![d]);
                },
                LookAhead::ColonDecl => {
                    return self.parse_colon_decl(span);
                },
                LookAhead::Assign => {
                    let d = self.parse_top_assign(span)?;
                    proof {
                        let v = d->Var_0;
                        assert(v.names@ =~= seq![old(self).cur_kind()->Ident_0]);
                    }
                    return Ok(vec![d]);
                },
                LookAhead::DeclAssign => {
                    let d = self.parse_top_decl_assign(span)?;
                    proof {
                        let v = d->Var_0;
                        assert(v.names@ =~= seq![old(self).cur_kind()->Ident_0]);
                    }
                    return Ok(vec![d]);
                },
            }
        }
        let mut m = String::from_str("unexpected token at top level: ");
        let g = self.peek().debug_text();
        m.append(g.as_str());
        Err(self.err(m))
    }

    /// Parse `names : <type|con|module|adt|import|exception> ...;`
    fn parse_colon_decl(&mut self, span: Span) -> (r: Result<Vec<Decl>, ParseError>)
        requires
            old(self).wf(),
        ensures
            final(self).continues(*old(self)),
            r is Ok ==> final(self).progressed(*old(self)),
            r matches Ok(ds) ==> exists|names: Seq<String>| #[trigger] names_at(old(self).tokens@, old(self).pos as int, names)
                && declares(ds@, names, old(self).tokens@[old(self).pos + 2 * names.len()].kind, span)
                && colon_decl_body(old(self).tokens@, old(self).pos + 2 * names.len(), ds@, final(self).pos as int),
            r matches Err(e) ==> e.file == old(self).file,
            r matches Err(e) ==> at_token(old(self).tokens@, old(self).pos as int, e.span),
            (exists|ns: Seq<String>| #[trigger] names_at(old(self).tokens@, old(self).pos as int, ns)
                && plain_decl_tail(old(self).tokens@, old(self).pos + 2 * ns.len())) ==> r is Ok,
            semi_missing_var(old(self).tokens@, old(self).pos as int) ==> (r matches Err(e) && missing_semi_error(
                old(self).tokens@,
                old(self).pos + 3,
                e,
            )),
    {
        proof {
            let t0 = old(self).tokens@;
            let p = old(self).pos as int;
            if semi_missing_var(t0, p) {
                let one = seq![t0[p].kind->Ident_0];
                assert(t0[p + 2 * 0].kind == TokenKind::Ident(one[0]));
                assert(names_at(t0, p, one));
            }
        }
        let ghost w = choose|ns: Seq<String>| #[trigger] names_at(old(self).tokens@, old(self).pos as int, ns)
            && plain_decl_tail(old(self).tokens@, old(self).pos + 2 * ns.len());
        let names = self.parse_names_colon()?;
        proof {
            let t0 = old(self).tokens@;
            let p = old(self).pos as int;
            if names_at(t0, p, w) && plain_decl_tail(t0, p + 2 * w.len()) {
                lemma_names_at_unique(t0, p, w, names@);
            }
            if semi_missing_var(t0, p) {
                let one = seq![t0[p].kind->Ident_0];
                assert(t0[p + 2 * 0].kind == TokenKind::Ident(one[0]));
                lemma_names_at_unique(t0, p, one, names@);
            }
        }
        let ghost kw = self.cur_kind();
        let ghost q = self.pos as int;
        let ghost t = self.tokens@;
        assert(names_at(old(self).tokens@, old(self).pos as int, names@));
        let r = match self.peek() {
            TokenKind::Con => {
                self.advance();
                let value = self.parse_expr()?;
                let ghost v = value;
                let ghost m = self.pos as int;
                self.expect_semi()?;
                let tpl = Decl::Const(ConstDecl { name: first_name(&names), ty: None, value, span });
                let ds = spread_decl(&names, &tpl);
                proof {
                    assert(expr_rel(t, q + 1, 0, v, m));
                    assert(m == self.pos - 1);
                    assert forall|i: int| 0 <= i < ds@.len() implies (#[trigger] ds@[i] matches Decl::Const(c) && c.ty is None
                        && is_expr_copy(v, c.value)) by {
                        assert(decl_body_copy(tpl, ds@[i]));
                    }
                }
                ds
            },
            TokenKind::Type => {
                self.advance();
                let ty = self.parse_type()?;
                let ghost gty = ty;
                let ghost te = self.pos as int;
                self.expect_semi()?;
                let tpl = Decl::TypeAlias(TypeAliasDecl { name: first_name(&names), ty, span });
                let ds = spread_decl(&names, &tpl);
                proof {
                    assert(te == self.pos - 1);
                    assert(type_rel(t, q + 1, gty, self.pos - 1));
                    assert forall|i: int| 0 <= i < ds@.len() implies (#[trigger] ds@[i] matches Decl::TypeAlias(a)
                        && is_type_copy(gty, a.ty)) by {
                        assert(decl_body_copy(tpl, ds@[i]));
                    }
                }
                ds
            },
            TokenKind::Module => {
                self.advance();
                self.expect(&TokenKind::LBrace)?;
                let members = self.parse_module_members()?;
                let ghost ms = members@;
                let ghost rb = self.pos as int;
                self.expect(&TokenKind::RBrace)?;
                self.expect_semi()?;
                let tpl = Decl::Module(ModuleDecl { name: first_name(&names), members, span });
                let ds = spread_decl(&names, &tpl);
                proof {
                    assert(rb == self.pos - 2);
                    assert(module_members_rel(t, q + 2, ms, rb));
                    assert forall|i: int| 0 <= i < ds@.len() implies (#[trigger] ds@[i] matches Decl::Module(md)
                        && md.members@.len() == ms.len() && forall|j: int| 0 <= j < ms.len()
                        ==> is_module_member_copy(#[trigger] ms[j], md.members@[j])) by {
                        assert(decl_body_copy(tpl, ds@[i]));
                    }
                }
                ds
            },
            TokenKind::Adt => {
                self.advance();
                self.skip_adt_header()?;
                let ghost lb = self.pos as int;
                self.expect(&TokenKind::LBrace)?;
                let (members, pick) = self.parse_adt_members()?;
                let ghost ms = members@;
                let ghost rb = self.pos as int;
                self.expect(&TokenKind::RBrace)?;
                self.expect_semi()?;
                let tpl = Decl::Adt(AdtDecl { name: first_name(&names), members, pick, span });
                let ds = spread_decl(&names, &tpl);
                proof {
                    assert(rb == self.pos - 2);
                    assert(q < lb && t[lb].kind is LBrace);
                    assert(adt_members_rel(t, lb + 1, ms, rb));
                    assert forall|i: int| 0 <= i < ds@.len() implies (#[trigger] ds@[i] matches Decl::Adt(ad)
                        && ad.members@.len() == ms.len() && forall|j: int| 0 <= j < ms.len()
                        ==> is_adt_member_copy(#[trigger] ms[j], ad.members@[j])) by {
                        assert(decl_body_copy(tpl, ds@[i]));
                    }
                }
                ds
            },
            TokenKind::Import => {
                self.advance();
                let module = self.expect_ident()?;
                proof {
                    assert(t[q + 1].kind == TokenKind::Ident(module));
                }
                self.expect_semi()?;
                vec![Decl::Import(ImportDecl { names, module, span })]
            },
            TokenKind::Exception => {
                self.advance();
                // The parenthesized part is a list of types: one type stands
                // alone, several make a tuple.
                let ty = if self.at(&TokenKind::LParen) {
                    Some(self.parse_type()?)
                } else {
                    None
                };
                let ghost gty = ty;
                let ghost te = self.pos as int;
                self.expect_semi()?;
                let tpl = Decl::Exception(ExceptionDecl { name: first_name(&names), ty, span });
                let ds = spread_decl(&names, &tpl);
                proof {
                    assert(te == self.pos - 1);
                    assert forall|i: int| 0 <= i < ds@.len() implies (#[trigger] ds@[i] matches Decl::Exception(x)
                        && is_opt_type_copy(gty, x.ty)) by {
                        assert(decl_body_copy(tpl, ds@[i]));
                    }
                    if t[q + 1].kind is LParen {
                        let y = gty->Some_0;
                        assert(type_rel(t, q + 1, y, self.pos - 1));
                    }
                }
                ds
            },
            _ => {
                // Variable declaration: names : type [= expr];
                let ty = self.parse_type()?;
                let ghost a = self.pos as int;
                let ghost gty = ty;
                let init = if self.at(&TokenKind::Assign) {
                    self.advance();
                    Some(self.parse_expr()?)
                } else {
                    None
                };
                let ghost e0 = self.pos as int;
                proof {
                    assert(type_rel(t, q, gty, a));
                    if init is Some {
                        assert(q < a && t[a].kind is Assign);
                        assert(expr_rel(t, a + 1, 0, init->Some_0, self.pos as int));
                    }
                }
                self.expect_semi()?;
                proof {
                    assert(e0 == self.pos - 1);
                }
                vec![Decl::Var(VarDecl { names, ty: Some(ty), init, span })]
            },
        };
        Ok(r)
    }

    /// Parse `name = expr;` at top level.
    fn parse_top_assign(&mut self, span: Span) -> (r: Result<Decl, ParseError>)
        requires
            old(self).wf(),
        ensures
            final(self).continues(*old(self)),
            r is Ok ==> final(self).progressed(*old(self)),
            r matches Ok(d) ==> d is Var && decl_span(d) == span
                && old(self).cur_kind() == TokenKind::Ident(decl_names(d)[0]) && decl_names(d).len() == 1,
            r matches Ok(Decl::Var(v)) ==> v.ty is None && old(self).tokens@[old(self).pos + 1].kind is Assign
                && old(self).pos + 2 < final(self).pos && old(self).tokens@[final(self).pos - 1].kind is Semicolon
                && (v.init matches Some(x) && expr_rel(old(self).tokens@, old(self).pos + 2, 0, x, final(self).pos - 1)),
            r matches Err(e) ==> e.file == old(self).file,
            r matches Err(e) ==> at_token(old(self).tokens@, old(self).pos as int, e.span),
    {
        let ghost t = self.tokens@;
        let ghost p = self.pos as int;
        let name = self.expect_ident()?;
        self.expect(&TokenKind::Assign)?;
        let init = self.parse_expr()?;
        let ghost e = self.pos as int;
        self.expect_semi()?;
        proof {
            assert(t[p + 1].kind is Assign);
            assert(t[e].kind is Semicolon);
        }
        Ok(Decl::Var(VarDecl { names: vec![name], ty: None, init: Some(init), span }))
    }

    /// Parse `name := expr;` at top level.
    fn parse_top_decl_assign(&mut self, span: Span) -> (r: Result<Decl, ParseError>)
        requires
            old(self).wf(),
        ensures
            final(self).continues(*old(self)),
            r is Ok ==> final(self).progressed(*old(self)),
            r matches Ok(d) ==> d is Var && decl_span(d) == span
                && old(self).cur_kind() == TokenKind::Ident(decl_names(d)[0]) && decl_names(d).len() == 1,
            r matches Ok(Decl::Var(v)) ==> v.ty is None && old(self).tokens@[old(self).pos + 1].kind is ColonEq
                && old(self).pos + 2 < final(self).pos && old(self).tokens@[final(self).pos - 1].kind is Semicolon
                && (v.init matches Some(x) && expr_rel(old(self).tokens@, old(self).pos + 2, 0, x, final(self).pos - 1)),
            r matches Err(e) ==> e.file == old(self).file,
            r matches Err(e) ==> at_token(old(self).tokens@, old(self).pos as int, e.span),
    {
        let ghost t = self.tokens@;
        let ghost p = self.pos as int;
        let name = self.expect_ident()?;
        self.expect(&TokenKind::ColonEq)?;
        let init = self.parse_expr()?;
        let ghost e = self.pos as int;
        self.expect_semi()?;
        proof {
            assert(t[p + 1].kind is ColonEq);
            assert(t[e].kind is Semicolon);
        }
        Ok(Decl::Var(VarDecl { names: vec![name], ty: None, init: Some(init), span }))
    }

    /// Parse module members inside `{ ... }`, up to the closing brace.
    fn parse_module_members(&mut self) -> (r: Result<Vec<ModuleMember>, ParseError>)
        requires
            old(self).wf(),
        ensures
            final(self).continues(*old(self)),
            r is Ok ==> final(self).cur_kind() is RBrace || final(self).cur_kind() is Eof,
            r matches Ok(ms) ==> module_members_rel(old(self).tokens@, old(self).pos as int, ms@, final(self).pos as int),
            plain_members(old(self).tokens@, old(self).pos as int) ==> r is Ok,
            r matches Err(e) ==> e.file == old(self).file,
            r matches Err(e) ==> at_token(old(self).tokens@, old(self).pos as int, e.span),
    {
        let ghost t = self.tokens@;
        let ghost start = self.pos as int;
        let mut members: Vec<ModuleMember> = Vec::new();
        let ghost mut bs: Seq<int> = seq![start];
        let ghost mut cs: Seq<int> = seq![0int];
        proof {
            lemma_groups_empty(start, module_group_fn(t));
        }
        while !self.at(&TokenKind::RBrace) && !self.at(&TokenKind::Eof)
            invariant
                self.continues(*old(self)),
                t == self.tokens@,
                start == old(self).pos,
                groups_ok(bs, cs, members@, module_group_fn(t)),
                bs[0] == start,
                bs.last() == self.pos,
                plain_members(t, start) ==> plain_members(t, self.pos as int),
            decreases self.remaining(),
        {
            let ghost p = self.pos as int;
            let ghost before = members@;
            let ghost plain = plain_members(t, p);
            proof {
                if plain {
                    let w = lemma_names_end_names(t, p);
                    assert(names_at(t, p, w));
                }
            }
            let span = self.span();
            let names = self.parse_names_colon()?;
            let ghost k = self.pos as int;
            let ghost ns = names@;
            assert(names_at(t, p, ns));
            assert(k == p + 2 * ns.len());
            proof {
                lemma_names_end(t, p, ns);
                if plain {
                    if t[k].kind is Con && atom_kind(t[k + 1].kind) && k + 2 < t.len() && t[k + 2].kind is Semicolon {
                        assert(expr_stops(t, k + 2, 0));
                    }
                }
            }
            match self.peek() {
                TokenKind::Con => {
                    self.advance();
                    let value = self.parse_expr()?;
                    let ghost v = value;
                    let ghost e = self.pos as int;
                    self.expect_semi()?;
                    let tm = ModuleMember::Const(ConstDecl { name: first_name(&names), ty: None, value, span });
                    spread_member(&mut members, &names, &tm);
                    proof {
                        let gs = members@.skip(before.len() as int);
                        assert(expr_rel(t, k + 1, 0, v, e));
                        assert forall|i: int| 0 <= i < gs.len() implies (#[trigger] gs[i] matches ModuleMember::Const(c)
                            && c.name == ns[i] && c.ty is None && is_expr_copy(v, c.value) && c.span == t[p].span) by {
                            assert(gs[i] == members@[before.len() + i]);
                            assert(member_body_copy(tm, members@[before.len() + i]));
                            assert(member_names(members@[before.len() + i]) == seq![ns[i]]);
                            assert(tm matches ModuleMember::Const(c0) && c0.value == v && c0.ty is None && c0.span == t[p].span);
                            assert(gs[i] is Const);
                            assert(is_expr_copy(v, gs[i]->Const_0.value));
                            assert(gs[i]->Const_0.ty is None);
                            assert(gs[i]->Const_0.span == t[p].span);
                            assert(seq![gs[i]->Const_0.name][0] == ns[i]);
                        }
                    }
                },
                TokenKind::Type => {
                    self.advance();
                    let ty = self.parse_type()?;
                    let ghost gty = ty;
                    self.expect_semi()?;
                    let tm = ModuleMember::TypeAlias(TypeAliasDecl { name: first_name(&names), ty, span });
                    spread_member(&mut members, &names, &tm);
                    proof {
                        let gs = members@.skip(before.len() as int);
                        assert(type_rel(t, k + 1, gty, self.pos - 1));
                        assert forall|i: int| 0 <= i < gs.len() implies (#[trigger] gs[i] matches ModuleMember::TypeAlias(a)
                            && a.name == ns[i] && is_type_copy(gty, a.ty) && a.span == t[p].span) by {
                            assert(gs[i] == members@[before.len() + i]);
                            assert(member_body_copy(tm, members@[before.len() + i]));
                            assert(member_names(members@[before.len() + i]) == seq![ns[i]]);
                            assert(tm matches ModuleMember::TypeAlias(a0) && a0.ty == gty && a0.span == t[p].span);
                            assert(gs[i] is TypeAlias);
                            assert(is_type_copy(gty, gs[i]->TypeAlias_0.ty));
                            assert(seq![gs[i]->TypeAlias_0.name][0] == ns[i]);
                        }
                    }
                },
                TokenKind::Fn => {
                    let sig = self.parse_func_sig(first_name(&names))?;
                    self.expect_semi()?;
                    let tm = ModuleMember::Func(sig);
                    spread_member(&mut members, &names, &tm);
                    proof {
                        let gs = members@.skip(before.len() as int);
                        assert forall|i: int| 0 <= i < gs.len() implies (#[trigger] gs[i] matches ModuleMember::Func(f)
                            && f.name == ns[i] && f.span == t[k].span) by {
                            assert(gs[i] == members@[before.len() + i]);
                            assert(member_body_copy(tm, members@[before.len() + i]));
                            assert(member_names(members@[before.len() + i]) == seq![ns[i]]);
                            assert(gs[i] is Func);
                            assert(seq![gs[i]->Func_0.name][0] == ns[i]);
                        }
                    }
                },
                TokenKind::Adt => {
                    self.advance();
                    self.skip_adt_header()?;
                    self.expect(&TokenKind::LBrace)?;
                    let (adt_members, pick) = self.parse_adt_members()?;
                    self.expect(&TokenKind::RBrace)?;
                    self.expect_semi()?;
                    let tm = ModuleMember::Adt(AdtDecl { name: first_name(&names), members: adt_members, pick, span });
                    spread_member(&mut members, &names, &tm);
                    proof {
                        let gs = members@.skip(before.len() as int);
                        assert forall|i: int| 0 <= i < gs.len() implies (#[trigger] gs[i] matches ModuleMember::Adt(a)
                            && a.name == ns[i] && a.span == t[p].span) by {
                            assert(gs[i] == members@[before.len() + i]);
                            assert(member_body_copy(tm, members@[before.len() + i]));
                            assert(member_names(members@[before.len() + i]) == seq![ns[i]]);
                            assert(gs[i] is Adt);
                            assert(seq![gs[i]->Adt_0.name][0] == ns[i]);
                        }
                    }
                },
                _ => {
                    // Variable: type ;
                    let ty = self.parse_type()?;
                    let ghost gty = ty;
                    self.expect_semi()?;
                    members.push(ModuleMember::Var(VarDecl { names, ty: Some(ty), init: None, span }));
                    proof {
                        assert(type_rel(t, k, gty, self.pos - 1));
                    }
                },
            }
            proof {
                let m = self.pos as int;
                let gs = members@.skip(before.len() as int);
                assert(members@.take(before.len() as int) =~= before);
                assert(module_group_body(t, p, ns, gs, m));
                assert(module_group(t, p, gs, m));
                assert(module_group_fn(t)(p, gs, m));
                lemma_groups_push(bs, cs, before, module_group_fn(t), m, gs);
                assert(before + gs =~= members@);
                bs = bs.push(m);
                cs = cs.push(members@.len() as int);
            }
        }
        proof {
            assert(groups_ok(bs, cs, members@, module_group_fn(t)) && bs[0] == start && bs.last() == self.pos);
        }
        Ok(members)
    }

    /// Parse ADT members and an optional `pick` clause, up to the closing
    /// brace. A later `pick` replaces an earlier one.
    fn parse_adt_members(&mut self) -> (r: Result<(Vec<AdtMember>, Option<Vec<PickCase>>), ParseError>)
        requires
            old(self).wf(),
        ensures
            final(self).continues(*old(self)),
            r is Ok ==> final(self).cur_kind() is RBrace || final(self).cur_kind() is Eof,
            r matches Ok((ms, _)) ==> adt_members_rel(old(self).tokens@, old(self).pos as int, ms@, final(self).pos as int),
            plain_members(old(self).tokens@, old(self).pos as int) ==> r is Ok,
            r matches Err(e) ==> e.file == old(self).file,
            r matches Err(e) ==> at_token(old(self).tokens@, old(self).pos as int, e.span),
    {
        let ghost t = self.tokens@;
        let ghost start = self.pos as int;
        let mut members: Vec<AdtMember> = Vec::new();
        let mut pick: Option<Vec<PickCase>> = None;
        let ghost mut bs: Seq<int> = seq![start];
        let ghost mut cs: Seq<int> = seq![0int];
        proof {
            lemma_groups_empty(start, adt_group_fn(t));
        }
        while !self.at(&TokenKind::RBrace) && !self.at(&TokenKind::Eof)
            invariant
                self.continues(*old(self)),
                t == self.tokens@,
                start == old(self).pos,
                groups_ok(bs, cs, members@, adt_group_fn(t)),
                bs[0] == start,
                bs.last() == self.pos,
                plain_members(t, start) ==> plain_members(t, self.pos as int),
            decreases self.remaining(),
        {
            let ghost p = self.pos as int;
            let ghost before = members@;
            if self.at(&TokenKind::Pick) {
                self.advance();
                self.expect(&TokenKind::LBrace)?;
                pick = Some(self.parse_pick_cases()?);
                self.expect(&TokenKind::RBrace)?;
                proof {
                    let m = self.pos as int;
                    let gs = members@.skip(before.len() as int);
                    assert(gs.len() == 0);
                    assert(adt_group(t, p, gs, m));
                    assert(adt_group_fn(t)(p, gs, m));
                    lemma_groups_push(bs, cs, before, adt_group_fn(t), m, gs);
                    assert(before + gs =~= members@);
                    bs = bs.push(m);
                    cs = cs.push(members@.len() as int);
                }
                continue;
            }
            let ghost plain = plain_members(t, p);
            proof {
                if plain {
                    let w = lemma_names_end_names(t, p);
                    assert(names_at(t, p, w));
                }
            }
            let span = self.span();
            let names = self.parse_names_colon()?;
            let ghost k = self.pos as int;
            let ghost ns = names@;
            assert(names_at(t, p, ns));
            assert(k == p + 2 * ns.len());
            proof {
                lemma_names_end(t, p, ns);
                if plain {
                    if t[k].kind is Con && atom_kind(t[k + 1].kind) && k + 2 < t.len() && t[k + 2].kind is Semicolon {
                        assert(expr_stops(t, k + 2, 0));
                    }
                }
            }
            match self.peek() {
                TokenKind::Con => {
                    self.advance();
                    let value = self.parse_expr()?;
                    let ghost v = value;
                    let ghost e = self.pos as int;
                    self.expect_semi()?;
                    let tm = AdtMember::Const(ConstDecl { name: first_name(&names), ty: None, value, span });
                    spread_adt_member(&mut members, &names, &tm);
                    proof {
                        let gs = members@.skip(before.len() as int);
                        assert(expr_rel(t, k + 1, 0, v, e));
                        assert forall|i: int| 0 <= i < gs.len() implies (#[trigger] gs[i] matches AdtMember::Const(c)
                            && c.name == ns[i] && c.ty is None && is_expr_copy(v, c.value) && c.span == t[p].span) by {
                            assert(gs[i] == members@[before.len() + i]);
                            assert(adt_member_body_copy(tm, members@[before.len() + i]));
                            assert(adt_member_names(members@[before.len() + i]) == seq![ns[i]]);
                            assert(tm matches AdtMember::Const(c0) && c0.value == v && c0.ty is None && c0.span == t[p].span);
                            assert(gs[i] is Const);
                            assert(is_expr_copy(v, gs[i]->Const_0.value));
                            assert(gs[i]->Const_0.ty is None);
                            assert(gs[i]->Const_0.span == t[p].span);
                            assert(seq![gs[i]->Const_0.name][0] == ns[i]);
                        }
                    }
                },
                TokenKind::Fn => {
                    let sig = self.parse_func_sig(first_name(&names))?;
                    self.expect_semi()?;
                    let tm = AdtMember::Func(sig);
                    spread_adt_member(&mut members, &names, &tm);
                    proof {
                        let gs = members@.skip(before.len() as int);
                        assert forall|i: int| 0 <= i < gs.len() implies (#[trigger] gs[i] matches AdtMember::Func(f)
                            && f.name == ns[i] && f.span == t[k].span) by {
                            assert(gs[i] == members@[before.len() + i]);
                            assert(adt_member_body_copy(tm, members@[before.len() + i]));
                            assert(adt_member_names(members@[before.len() + i]) == seq![ns[i]]);
                            assert(gs[i] is Func);
                            assert(seq![gs[i]->Func_0.name][0] == ns[i]);
                        }
                    }
                },
                _ => {
                    // A field may be marked `cyclic`; the mark is not kept.
                    if self.at(&TokenKind::Cyclic) {
                        self.advance();
                    }
                    let ghost a = self.pos as int;
                    assert(a == k || (t[k].kind is Cyclic && a == k + 1));
                    let ty = self.parse_type()?;
                    let ghost gty = ty;
                    self.expect_semi()?;
                    members.push(AdtMember::Field(VarDecl { names, ty: Some(ty), init: None, span }));
                    proof {
                        assert(type_rel(t, a, gty, self.pos - 1));
                    }
                },
            }
            proof {
                let m = self.pos as int;
                let gs = members@.skip(before.len() as int);
                assert(members@.take(before.len() as int) =~= before);
                assert(adt_group_body(t, p, ns, gs, m));
                assert(adt_group(t, p, gs, m));
                assert(adt_group_fn(t)(p, gs, m));
                lemma_groups_push(bs, cs, before, adt_group_fn(t), m, gs);
                assert(before + gs =~= members@);
                bs = bs.push(m);
                cs = cs.push(members@.len() as int);
            }
        }
        proof {
            assert(groups_ok(bs, cs, members@, adt_group_fn(t)) && bs[0] == start && bs.last() == self.pos);
        }
        Ok((members, pick))
    }

    /// Parse the cases of a `pick { ... }`, up to the closing brace.
    fn parse_pick_cases(&mut self) -> (r: Result<Vec<PickCase>, ParseError>)
        requires
            old(self).wf(),
        ensures
            final(self).continues(*old(self)),
            r is Ok ==> final(self).cur_kind() is RBrace || final(self).cur_kind() is Eof,
            r matches Ok(cases) ==> forall|i: int| 0 <= i < cases@.len() ==> (#[trigger] cases@[i]).tags@.len() >= 1,
            r matches Err(e) ==> e.file == old(self).file,
            r matches Err(e) ==> at_token(old(self).tokens@, old(self).pos as int, e.span),
    {
        let mut cases: Vec<PickCase> = Vec::new();
        while !self.at(&TokenKind::RBrace) && !self.at(&TokenKind::Eof)
            invariant
                self.continues(*old(self)),
                forall|i: int| 0 <= i < cases@.len() ==> (#[trigger] cases@[i]).tags@.len() >= 1,
            decreases self.remaining(),
        {
            let mut tags: Vec<String> = Vec::new();
            tags.push(self.expect_ident()?);
            let ghost it_start = self.pos;
            while self.at(&TokenKind::Or)
                invariant
                    self.continues(*old(self)),
                    self.pos >= it_start,
                    tags@.len() >= 1,
                decreases self.remaining(),
            {
                self.advance();
                tags.push(self.expect_ident()?);
            }
            self.expect(&TokenKind::FatArrow)?;
            let ghost body_start = self.pos;
            let mut fields: Vec<VarDecl> = Vec::new();
            while !self.at(&TokenKind::RBrace) && !self.at(&TokenKind::Eof)
                && !(self.peek().tag() == TokenKind::Ident(String::new()).tag()) || self.is_field_start()
                invariant
                    self.continues(*old(self)),
                    self.pos >= body_start,
                    body_start > it_start,
                    tags@.len() >= 1,
                decreases self.remaining(),
            {
                let span = self.span();
                let names = self.parse_names_colon()?;
                // The fields of a pick case may be marked `cyclic` too.
                if self.at(&TokenKind::Cyclic) {
                    self.advance();
                }
                let ty = self.parse_type()?;
                self.expect_semi()?;
                fields.push(VarDecl { names, ty: Some(ty), init: None, span });
                // Next token starts a new tag (identifier followed by => or 'or')
                if self.is_pick_tag_start() {
                    break;
                }
            }
            cases.push(PickCase { tags, fields });
        }
        Ok(cases)
    }

    // ── Functions ──────────────────────────────────────────────

    /// Parse a function definition: `name.name(args): ret { body }`.
    fn parse_func_def(&mut self) -> (r: Result<Decl, ParseError>)
        requires
            old(self).wf(),
        ensures
            final(self).continues(*old(self)),
            r is Ok ==> final(self).progressed(*old(self)),
            r matches Ok(d) ==> d is Func && decl_span(d) == old(self).cur_span(),
            r matches Ok(Decl::Func(f)) ==> f.sig.name == f.name.name,
            r matches Ok(Decl::Func(f)) ==> exists|m: int| #[trigger] trigger_end(m) && old(self).pos < m < old(self).tokens@.len()
                && old(self).tokens@[m].kind is LBrace && f.body.span == old(self).tokens@[m].span && block_rel(
                old(self).tokens@,
                m + 1,
                f.body.stmts@,
                final(self).pos as int,
            ),
            r matches Err(e) ==> e.file == old(self).file,
            r matches Err(e) ==> at_token(old(self).tokens@, old(self).pos as int, e.span),
    {
        let span = self.span();
        let mut qualifier: Option<String> = None;
        let mut name = self.expect_ident()?;
        // Skip optional polymorphic params: func[T1, T2]
        self.skip_type_params();
        // Qualified name: A.B(
        while self.at(&TokenKind::Dot)
            invariant
                self.progressed(*old(self)),
            decreases self.remaining(),
        {
            self.advance();
            qualifier = Some(name);
            name = self.expect_ident()?;
            self.skip_type_params();
        }
        let sig = self.parse_func_sig(name.clone())?;
        let ghost m = self.pos as int;
        let body = self.parse_block()?;
        proof {
            assert(trigger_end(m));
        }
        Ok(Decl::Func(FuncDecl { name: QualName { qualifier, name }, sig, body, span }))
    }

    /// Turn a parsed `alt` guard expression into the send/receive form: a
    /// send without a binding, or a receive with where its value goes. Any
    /// other guard is rejected.
    fn classify_alt_guard(&self, expr: Expr) -> (r: Result<AltGuard, ParseError>)
        requires
            self.wf(),
        ensures
            r is Ok <==> alt_guard_form(expr),
            r matches Ok(g) ==> g == alt_guard_of(expr),
            r matches Err(e) ==> e.file == self.file && e.span == self.cur_span()
                && e.message@ == "an `alt` guard must be a channel send (`c <-= v`) or receive (`x := <-c`)"@,
            r matches Err(e) ==> at_token(self.tokens@, self.pos as int, e.span),
    {
        let (dest, comm) = match expr {
            Expr::DeclAssign(names, rhs, _) => (Some(AltDest::Decl(names)), *rhs),
            Expr::TupleDeclAssign(names, rhs, _) => (Some(AltDest::TupleDecl(names)), *rhs),
            Expr::Assign(lhs, rhs, _) => (Some(AltDest::Assign(*lhs)), *rhs),
            other => (None, other),
        };
        match (dest, comm) {
            (None, Expr::Send(chan, val, _)) => Ok(AltGuard::Send(*chan, *val)),
            (dest, Expr::Recv(chan, _)) => Ok(AltGuard::Recv(dest, *chan)),
            _ => Err(self.err(String::from_str("an `alt` guard must be a channel send (`c <-= v`) or receive (`x := <-c`)"))),
        }
    }
}

} // verus!
