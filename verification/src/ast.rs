//! Abstract syntax tree for the Limbo language.

use vstd::prelude::*;
use crate::token::Span;

verus! {

/// A complete Limbo source file.
#[derive(Debug)]
pub struct SourceFile {
    pub implement: Vec<String>,
    pub includes: Vec<Include>,
    pub decls: Vec<Decl>,
}

#[derive(Debug)]
pub struct Include {
    pub path: String,
    pub span: Span,
}

/// Top-level declaration.
#[derive(Debug)]
pub enum Decl {
    /// `name: Sys;` or `name: type = expr;`
    Var(VarDecl),
    /// `name: con value;`
    Const(ConstDecl),
    /// `name: type data-type;`
    TypeAlias(TypeAliasDecl),
    /// `name: module { ... };`
    Module(ModuleDecl),
    /// `name: adt { ... };`
    Adt(AdtDecl),
    /// `name(params): rettype { body }`
    Func(FuncDecl),
    /// `name: import modname;`
    Import(ImportDecl),
    /// `name: exception (types);`
    Exception(ExceptionDecl),
}

#[derive(Debug)]
pub struct VarDecl {
    pub names: Vec<String>,
    pub ty: Option<Type>,
    pub init: Option<Expr>,
    pub span: Span,
}

#[derive(Debug)]
pub struct ConstDecl {
    pub name: String,
    pub ty: Option<Type>,
    pub value: Expr,
    pub span: Span,
}

#[derive(Debug)]
pub struct TypeAliasDecl {
    pub name: String,
    pub ty: Type,
    pub span: Span,
}

#[derive(Debug)]
pub struct ModuleDecl {
    pub name: String,
    pub members: Vec<ModuleMember>,
    pub span: Span,
}

#[derive(Debug)]
pub enum ModuleMember {
    Const(ConstDecl),
    TypeAlias(TypeAliasDecl),
    Var(VarDecl),
    Func(FuncSig),
    Adt(AdtDecl),
    Exception(ExceptionDecl),
}

#[derive(Debug)]
pub struct AdtDecl {
    pub name: String,
    pub members: Vec<AdtMember>,
    pub pick: Option<Vec<PickCase>>,
    pub span: Span,
}

#[derive(Debug)]
pub enum AdtMember {
    Field(VarDecl),
    Const(ConstDecl),
    Func(FuncSig),
}

#[derive(Debug)]
pub struct PickCase {
    pub tags: Vec<String>,
    pub fields: Vec<VarDecl>,
}

#[derive(Debug)]
pub struct FuncDecl {
    pub name: QualName,
    pub sig: FuncSig,
    pub body: Block,
    pub span: Span,
}

/// Qualified name: `Module.func` or just `func`.
#[derive(Debug)]
pub struct QualName {
    pub qualifier: Option<String>,
    pub name: String,
}

#[derive(Debug)]
pub struct FuncSig {
    pub name: String,
    pub params: Vec<Param>,
    pub ret: Option<Type>,
    pub span: Span,
}

#[derive(Debug)]
pub struct Param {
    pub names: Vec<String>,
    pub ty: Type,
    pub is_self: bool,
    pub is_nil: bool,
}

#[derive(Debug)]
pub struct ImportDecl {
    pub names: Vec<String>,
    pub module: String,
    pub span: Span,
}

#[derive(Debug)]
pub struct ExceptionDecl {
    pub name: String,
    pub ty: Option<Type>,
    pub span: Span,
}

#[derive(Debug)]
pub struct Block {
    pub stmts: Vec<Stmt>,
    pub span: Span,
}

/// Type expressions.
#[derive(Debug)]
pub enum Type {
    /// `int`, `byte`, `big`, `real`, `string`
    Basic(BasicType),
    /// `array of T`
    Array(Box<Type>),
    /// `list of T`
    List(Box<Type>),
    /// `chan of T`
    Chan(Box<Type>),
    /// `chan[N] of T` (buffered)
    BufChan(Box<Expr>, Box<Type>),
    /// `ref T`
    Ref(Box<Type>),
    /// `(T1, T2, ...)`
    Tuple(Vec<Type>),
    /// `fn(params): ret`
    Func(Box<FuncSig>),
    /// Named type: `Sys`, `Draw->Context`, etc.
    Named(QualName),
    /// `module { ... }`
    Module(Vec<ModuleMember>),
}

#[derive(Debug, Clone, Copy, PartialEq, Eq, Structural)]
pub enum BasicType {
    Int,
    Byte,
    Big,
    Real,
    String,
}

/// Statements.
#[derive(Debug)]
pub enum Stmt {
    Expr(Expr),
    VarDecl(VarDecl),
    Import(ImportDecl),
    Block(Block),
    If(IfStmt),
    For(ForStmt),
    While(WhileStmt),
    Do(DoStmt),
    Case(CaseStmt),
    Alt(AltStmt),
    Pick(PickStmt),
    Return(Option<Expr>, Span),
    Break(Option<String>, Span),
    Continue(Option<String>, Span),
    Exit(Span),
    Spawn(Expr, Span),
    Raise(Option<Expr>, Span),
    Label(String, Box<Stmt>),
    Empty,
}

#[derive(Debug)]
pub struct IfStmt {
    pub cond: Expr,
    pub then: Box<Stmt>,
    pub else_: Option<Box<Stmt>>,
    pub span: Span,
}

#[derive(Debug)]
pub struct ForStmt {
    pub init: Option<Box<Stmt>>,
    pub cond: Option<Expr>,
    pub post: Option<Box<Stmt>>,
    pub body: Box<Stmt>,
    pub span: Span,
}

#[derive(Debug)]
pub struct WhileStmt {
    pub cond: Expr,
    pub body: Box<Stmt>,
    pub span: Span,
}

#[derive(Debug)]
pub struct DoStmt {
    pub body: Box<Stmt>,
    pub cond: Expr,
    pub span: Span,
}

#[derive(Debug)]
pub struct CaseStmt {
    pub expr: Expr,
    pub arms: Vec<CaseArm>,
    pub span: Span,
}

#[derive(Debug)]
pub struct CaseArm {
    pub patterns: Vec<CasePattern>,
    pub body: Vec<Stmt>,
}

#[derive(Debug)]
pub enum CasePattern {
    Expr(Expr),
    Range(Expr, Expr),
    Wildcard,
}

#[derive(Debug)]
pub struct AltStmt {
    pub arms: Vec<AltArm>,
    pub span: Span,
}

/// One arm of an `alt`: its guards, which share the body.
#[derive(Debug)]
pub struct AltArm {
    pub guards: Vec<AltGuard>,
    pub body: Vec<Stmt>,
}

#[derive(Debug)]
pub enum AltGuard {
    /// A receive, with where the received value goes.
    Recv(Option<AltDest>, Expr),
    /// A send of the second expression on the channel that is the first.
    Send(Expr, Expr),
    Wildcard,
}

/// Where the value of a receive guard goes.
#[derive(Debug)]
pub enum AltDest {
    /// `x := <-c`
    Decl(Vec<String>),
    /// `(a, b) := <-c`
    TupleDecl(Vec<String>),
    /// `lhs = <-c`
    Assign(Expr),
}

#[derive(Debug)]
pub struct PickStmt {
    pub name: String,
    pub expr: Expr,
    pub arms: Vec<PickArm>,
    pub span: Span,
}

#[derive(Debug)]
pub struct PickArm {
    pub tags: Vec<String>,
    pub body: Vec<Stmt>,
}

/// One element of an array literal, with the indices it is placed at.
#[derive(Debug)]
pub struct ArrayElem {
    pub index: Option<ArrayIndex>,
    pub value: Expr,
}

/// The index selector of an array-literal element.
#[derive(Debug)]
pub enum ArrayIndex {
    /// Single indices and `lo to hi` ranges joined by `or`.
    Selectors(Vec<(Expr, Option<Expr>)>),
    /// `*`: every index not otherwise given.
    Wildcard,
}

/// Expressions.
#[derive(Debug)]
pub enum Expr {
    /// Integer literal
    IntLit(i64, Span),
    /// Real literal, as written in the source
    RealLit(String, Span),
    /// String literal
    StringLit(String, Span),
    /// Character literal
    CharLit(i32, Span),
    /// `nil`
    Nil(Span),
    /// Variable or named reference
    Ident(String, Span),
    /// Binary operation
    Binary(Box<Expr>, BinOp, Box<Expr>, Span),
    /// Unary operation
    Unary(UnaryOp, Box<Expr>, Span),
    /// Function call: `f(args)`
    Call(Box<Expr>, Vec<Expr>, Span),
    /// Member access: `expr.member`
    Dot(Box<Expr>, String, Span),
    /// Module qualification: `Mod->member`
    ModQual(Box<Expr>, String, Span),
    /// Index: `expr[index]`
    Index(Box<Expr>, Box<Expr>, Span),
    /// Slice: `expr[lo:hi]`
    Slice(Box<Expr>, Option<Box<Expr>>, Option<Box<Expr>>, Span),
    /// Tuple: `(e1, e2, ...)`
    Tuple(Vec<Expr>, Span),
    /// List cons: `expr :: expr`
    Cons(Box<Expr>, Box<Expr>, Span),
    /// Channel receive: `<-chan`
    Recv(Box<Expr>, Span),
    /// Channel send: `chan <-= value`
    Send(Box<Expr>, Box<Expr>, Span),
    /// `load ModType path`
    Load(Box<Type>, Box<Expr>, Span),
    /// `array[size] of type`
    ArrayAlloc(Box<Expr>, Box<Type>, Span),
    /// `array[size] of { elements }`, with the declared size when given
    ArrayLit(Option<Box<Expr>>, Vec<ArrayElem>, Option<Box<Type>>, Span),
    /// `chan of type`
    ChanAlloc(Box<Type>, Span),
    /// `list of { elements }`
    ListLit(Vec<Expr>, Span),
    /// `ref ADT(args)`
    RefAlloc(Box<Type>, Vec<Expr>, Span),
    /// Type cast: `type(expr)`
    Cast(Box<Type>, Box<Expr>, Span),
    /// Declaration expression: `name := expr`
    DeclAssign(Vec<String>, Box<Expr>, Span),
    /// Tuple declaration: `(a, b) := expr`
    TupleDeclAssign(Vec<String>, Box<Expr>, Span),
    /// Assignment: `lhs = rhs`
    Assign(Box<Expr>, Box<Expr>, Span),
    /// Compound assignment: `lhs += rhs`
    CompoundAssign(Box<Expr>, BinOp, Box<Expr>, Span),
    /// `hd expr`
    Hd(Box<Expr>, Span),
    /// `tl expr`
    Tl(Box<Expr>, Span),
    /// `len expr`
    Len(Box<Expr>, Span),
    /// `tagof expr`
    Tagof(Box<Expr>, Span),
    /// Postfix increment: `expr++`
    PostInc(Box<Expr>, Span),
    /// Postfix decrement: `expr--`
    PostDec(Box<Expr>, Span),
}

#[derive(Debug, Clone, Copy, PartialEq, Eq, Structural)]
pub enum BinOp {
    Add,
    Sub,
    Mul,
    Div,
    Mod,
    Power,
    And,
    Or,
    Xor,
    Lshift,
    Rshift,
    Eq,
    Neq,
    Lt,
    Gt,
    Leq,
    Geq,
    LogAnd,
    LogOr,
}

#[derive(Debug, Clone, Copy, PartialEq, Eq, Structural)]
pub enum UnaryOp {
    Neg,
    Not,
    BitNot,
    Ref,
}


/// `b` has the shape of `a`: the same variant, the same basic type, and
/// tuples whose fields have the same shapes.
pub open spec fn same_shape(a: Type, b: Type) -> bool
    decreases a,
{
    match a {
        Type::Basic(x) => b == Type::Basic(x),
        Type::Tuple(xs) => b matches Type::Tuple(ys) && xs@.len() == ys@.len()
            && forall|i: int| 0 <= i < xs@.len() ==> same_shape(#[trigger] xs@[i], ys@[i]),
        Type::Array(_) => b is Array,
        Type::List(_) => b is List,
        Type::Chan(_) => b is Chan,
        Type::BufChan(_, _) => b is BufChan,
        Type::Ref(_) => b is Ref,
        Type::Func(_) => b is Func,
        Type::Named(_) => b is Named,
        Type::Module(_) => b is Module,
    }
}

// ── What a copy is ─────────────────────────────────────────────
//
// `b` is a copy of `a` when it has the same variant, the same names, numbers,
// operators and spans, and vectors of the same length whose elements are
// copies, down to the leaves.

/// `b` is a copy of the expression `a`.
pub open spec fn is_expr_copy(a: Expr, b: Expr) -> bool
    decreases a,
{
    match a {
        Expr::Binary(x, op, y, s) => b matches Expr::Binary(x2, op2, y2, s2) && op2 == op && s2 == s
            && is_expr_copy(*x, *x2) && is_expr_copy(*y, *y2),
        Expr::Unary(op, x, s) => b matches Expr::Unary(op2, x2, s2) && op2 == op && s2 == s && is_expr_copy(*x, *x2),
        Expr::Call(f, xs, s) => b matches Expr::Call(f2, ys, s2) && s2 == s && is_expr_copy(*f, *f2)
            && xs@.len() == ys@.len()
            && forall|i: int| 0 <= i < xs@.len() ==> is_expr_copy(#[trigger] xs@[i], ys@[i]),
        Expr::Dot(x, m, s) => b matches Expr::Dot(x2, m2, s2) && m2 == m && s2 == s && is_expr_copy(*x, *x2),
        Expr::ModQual(x, m, s) => b matches Expr::ModQual(x2, m2, s2) && m2 == m && s2 == s && is_expr_copy(*x, *x2),
        Expr::Index(x, y, s) => b matches Expr::Index(x2, y2, s2) && s2 == s && is_expr_copy(*x, *x2)
            && is_expr_copy(*y, *y2),
        Expr::Slice(x, lo, hi, s) => b matches Expr::Slice(x2, lo2, hi2, s2) && s2 == s && is_expr_copy(*x, *x2)
            && is_opt_box_expr_copy(lo, lo2) && is_opt_box_expr_copy(hi, hi2),
        Expr::Tuple(xs, s) => b matches Expr::Tuple(ys, s2) && s2 == s && xs@.len() == ys@.len()
            && forall|i: int| 0 <= i < xs@.len() ==> is_expr_copy(#[trigger] xs@[i], ys@[i]),
        Expr::Cons(x, y, s) => b matches Expr::Cons(x2, y2, s2) && s2 == s && is_expr_copy(*x, *x2)
            && is_expr_copy(*y, *y2),
        Expr::Recv(x, s) => b matches Expr::Recv(x2, s2) && s2 == s && is_expr_copy(*x, *x2),
        Expr::Send(x, y, s) => b matches Expr::Send(x2, y2, s2) && s2 == s && is_expr_copy(*x, *x2)
            && is_expr_copy(*y, *y2),
        Expr::Load(t, x, s) => b matches Expr::Load(t2, x2, s2) && s2 == s && is_type_copy(*t, *t2)
            && is_expr_copy(*x, *x2),
        Expr::ArrayAlloc(x, t, s) => b matches Expr::ArrayAlloc(x2, t2, s2) && s2 == s && is_expr_copy(*x, *x2)
            && is_type_copy(*t, *t2),
        Expr::ArrayLit(n, es, t, s) => b matches Expr::ArrayLit(n2, fs, t2, s2) && s2 == s
            && is_opt_box_expr_copy(n, n2) && is_opt_box_type_copy(t, t2) && es@.len() == fs@.len()
            && forall|i: int| 0 <= i < es@.len() ==> is_array_elem_copy(#[trigger] es@[i], fs@[i]),
        Expr::ChanAlloc(t, s) => b matches Expr::ChanAlloc(t2, s2) && s2 == s && is_type_copy(*t, *t2),
        Expr::ListLit(xs, s) => b matches Expr::ListLit(ys, s2) && s2 == s && xs@.len() == ys@.len()
            && forall|i: int| 0 <= i < xs@.len() ==> is_expr_copy(#[trigger] xs@[i], ys@[i]),
        Expr::RefAlloc(t, xs, s) => b matches Expr::RefAlloc(t2, ys, s2) && s2 == s && is_type_copy(*t, *t2)
            && xs@.len() == ys@.len()
            && forall|i: int| 0 <= i < xs@.len() ==> is_expr_copy(#[trigger] xs@[i], ys@[i]),
        Expr::Cast(t, x, s) => b matches Expr::Cast(t2, x2, s2) && s2 == s && is_type_copy(*t, *t2)
            && is_expr_copy(*x, *x2),
        Expr::DeclAssign(ns, x, s) => b matches Expr::DeclAssign(ns2, x2, s2) && s2 == s && ns2@ == ns@
            && is_expr_copy(*x, *x2),
        Expr::TupleDeclAssign(ns, x, s) => b matches Expr::TupleDeclAssign(ns2, x2, s2) && s2 == s
            && ns2@ == ns@ && is_expr_copy(*x, *x2),
        Expr::Assign(x, y, s) => b matches Expr::Assign(x2, y2, s2) && s2 == s && is_expr_copy(*x, *x2)
            && is_expr_copy(*y, *y2),
        Expr::CompoundAssign(x, op, y, s) => b matches Expr::CompoundAssign(x2, op2, y2, s2) && op2 == op
            && s2 == s && is_expr_copy(*x, *x2) && is_expr_copy(*y, *y2),
        Expr::Hd(x, s) => b matches Expr::Hd(x2, s2) && s2 == s && is_expr_copy(*x, *x2),
        Expr::Tl(x, s) => b matches Expr::Tl(x2, s2) && s2 == s && is_expr_copy(*x, *x2),
        Expr::Len(x, s) => b matches Expr::Len(x2, s2) && s2 == s && is_expr_copy(*x, *x2),
        Expr::Tagof(x, s) => b matches Expr::Tagof(x2, s2) && s2 == s && is_expr_copy(*x, *x2),
        Expr::PostInc(x, s) => b matches Expr::PostInc(x2, s2) && s2 == s && is_expr_copy(*x, *x2),
        Expr::PostDec(x, s) => b matches Expr::PostDec(x2, s2) && s2 == s && is_expr_copy(*x, *x2),
        _ => b == a,
    }
}

/// `b` is a copy of the optional boxed expression `a`.
pub open spec fn is_opt_box_expr_copy(a: Option<Box<Expr>>, b: Option<Box<Expr>>) -> bool
    decreases a,
{
    match a {
        Some(x) => b matches Some(y) && is_expr_copy(*x, *y),
        None => b is None,
    }
}

/// `b` is a copy of the optional expression `a`.
pub open spec fn is_opt_expr_copy(a: Option<Expr>, b: Option<Expr>) -> bool
    decreases a,
{
    match a {
        Some(x) => b matches Some(y) && is_expr_copy(x, y),
        None => b is None,
    }
}

/// `b` is a copy of the optional boxed type `a`.
pub open spec fn is_opt_box_type_copy(a: Option<Box<Type>>, b: Option<Box<Type>>) -> bool
    decreases a,
{
    match a {
        Some(x) => b matches Some(y) && is_type_copy(*x, *y),
        None => b is None,
    }
}

/// `b` is a copy of the optional type `a`.
pub open spec fn is_opt_type_copy(a: Option<Type>, b: Option<Type>) -> bool
    decreases a,
{
    match a {
        Some(x) => b matches Some(y) && is_type_copy(x, y),
        None => b is None,
    }
}

/// `b` is a copy of the type `a`.
pub open spec fn is_type_copy(a: Type, b: Type) -> bool
    decreases a,
{
    match a {
        Type::Array(x) => b matches Type::Array(y) && is_type_copy(*x, *y),
        Type::List(x) => b matches Type::List(y) && is_type_copy(*x, *y),
        Type::Chan(x) => b matches Type::Chan(y) && is_type_copy(*x, *y),
        Type::BufChan(n, x) => b matches Type::BufChan(n2, y) && is_expr_copy(*n, *n2) && is_type_copy(*x, *y),
        Type::Ref(x) => b matches Type::Ref(y) && is_type_copy(*x, *y),
        Type::Tuple(xs) => b matches Type::Tuple(ys) && xs@.len() == ys@.len()
            && forall|i: int| 0 <= i < xs@.len() ==> is_type_copy(#[trigger] xs@[i], ys@[i]),
        Type::Func(f) => b matches Type::Func(g) && is_func_sig_copy(*f, *g),
        Type::Module(ms) => b matches Type::Module(ns) && ms@.len() == ns@.len()
            && forall|i: int| 0 <= i < ms@.len() ==> is_module_member_copy(#[trigger] ms@[i], ns@[i]),
        _ => b == a,
    }
}

/// `b` is a copy of the parameter `a`.
pub open spec fn is_param_copy(a: Param, b: Param) -> bool
    decreases a,
{
    b.names@ == a.names@ && is_type_copy(a.ty, b.ty) && b.is_self == a.is_self && b.is_nil == a.is_nil
}

/// `b` is a copy of the signature `a`.
pub open spec fn is_func_sig_copy(a: FuncSig, b: FuncSig) -> bool
    decreases a,
{
    &&& b.name == a.name
    &&& b.span == a.span
    &&& is_opt_type_copy(a.ret, b.ret)
    &&& a.params@.len() == b.params@.len()
    &&& forall|i: int| 0 <= i < a.params@.len() ==> is_param_copy(#[trigger] a.params@[i], b.params@[i])
}

/// `b` is a copy of the variable declaration `a`.
pub open spec fn is_var_decl_copy(a: VarDecl, b: VarDecl) -> bool
    decreases a,
{
    b.names@ == a.names@ && is_opt_type_copy(a.ty, b.ty) && is_opt_expr_copy(a.init, b.init) && b.span == a.span
}

/// `b` is a copy of the constant declaration `a`.
pub open spec fn is_const_decl_copy(a: ConstDecl, b: ConstDecl) -> bool
    decreases a,
{
    b.name == a.name && is_opt_type_copy(a.ty, b.ty) && is_expr_copy(a.value, b.value) && b.span == a.span
}

/// `b` is a copy of the type alias `a`.
pub open spec fn is_type_alias_copy(a: TypeAliasDecl, b: TypeAliasDecl) -> bool
    decreases a,
{
    b.name == a.name && is_type_copy(a.ty, b.ty) && b.span == a.span
}

/// `b` is a copy of the exception declaration `a`.
pub open spec fn is_exception_decl_copy(a: ExceptionDecl, b: ExceptionDecl) -> bool
    decreases a,
{
    b.name == a.name && is_opt_type_copy(a.ty, b.ty) && b.span == a.span
}

/// `b` is a copy of the pick case `a`.
pub open spec fn is_pick_case_copy(a: PickCase, b: PickCase) -> bool
    decreases a,
{
    &&& b.tags@ == a.tags@
    &&& a.fields@.len() == b.fields@.len()
    &&& forall|i: int| 0 <= i < a.fields@.len() ==> is_var_decl_copy(#[trigger] a.fields@[i], b.fields@[i])
}

/// `b` is a copy of the optional pick cases `a`.
pub open spec fn is_opt_pick_cases_copy(a: Option<Vec<PickCase>>, b: Option<Vec<PickCase>>) -> bool
    decreases a,
{
    match a {
        Some(ps) => b matches Some(qs) && ps@.len() == qs@.len()
            && forall|i: int| 0 <= i < ps@.len() ==> is_pick_case_copy(#[trigger] ps@[i], qs@[i]),
        None => b is None,
    }
}

/// `b` is a copy of the ADT declaration `a`.
pub open spec fn is_adt_decl_copy(a: AdtDecl, b: AdtDecl) -> bool
    decreases a,
{
    &&& b.name == a.name
    &&& b.span == a.span
    &&& is_opt_pick_cases_copy(a.pick, b.pick)
    &&& a.members@.len() == b.members@.len()
    &&& forall|i: int| 0 <= i < a.members@.len() ==> is_adt_member_copy(#[trigger] a.members@[i], b.members@[i])
}

/// `b` is a copy of the ADT member `a`.
pub open spec fn is_adt_member_copy(a: AdtMember, b: AdtMember) -> bool
    decreases a,
{
    match a {
        AdtMember::Field(v) => b matches AdtMember::Field(w) && is_var_decl_copy(v, w),
        AdtMember::Const(c) => b matches AdtMember::Const(d) && is_const_decl_copy(c, d),
        AdtMember::Func(f) => b matches AdtMember::Func(g) && is_func_sig_copy(f, g),
    }
}

/// `b` is a copy of the module member `a`.
pub open spec fn is_module_member_copy(a: ModuleMember, b: ModuleMember) -> bool
    decreases a,
{
    match a {
        ModuleMember::Const(c) => b matches ModuleMember::Const(d) && is_const_decl_copy(c, d),
        ModuleMember::TypeAlias(t) => b matches ModuleMember::TypeAlias(u) && is_type_alias_copy(t, u),
        ModuleMember::Var(v) => b matches ModuleMember::Var(w) && is_var_decl_copy(v, w),
        ModuleMember::Func(f) => b matches ModuleMember::Func(g) && is_func_sig_copy(f, g),
        ModuleMember::Adt(x) => b matches ModuleMember::Adt(y) && is_adt_decl_copy(x, y),
        ModuleMember::Exception(e) => b matches ModuleMember::Exception(f) && is_exception_decl_copy(e, f),
    }
}

/// `b` is a copy of the array index `a`.
pub open spec fn is_array_index_copy(a: ArrayIndex, b: ArrayIndex) -> bool
    decreases a,
{
    match a {
        ArrayIndex::Selectors(xs) => b matches ArrayIndex::Selectors(ys) && xs@.len() == ys@.len()
            && forall|i: int| 0 <= i < xs@.len() ==> is_selector_copy(#[trigger] xs@[i], ys@[i]),
        ArrayIndex::Wildcard => b is Wildcard,
    }
}

/// `b` is a copy of the selector `a`.
pub open spec fn is_selector_copy(a: (Expr, Option<Expr>), b: (Expr, Option<Expr>)) -> bool
    decreases a,
{
    is_expr_copy(a.0, b.0) && is_opt_expr_copy(a.1, b.1)
}

/// `b` is a copy of the array element `a`.
pub open spec fn is_array_elem_copy(a: ArrayElem, b: ArrayElem) -> bool
    decreases a,
{
    is_expr_copy(a.value, b.value) && match a.index {
        Some(i) => b.index matches Some(j) && is_array_index_copy(i, j),
        None => b.index is None,
    }
}

// ── Copies ─────────────────────────────────────────────────────
//
// A declaration `a, b: con v;` gives each name its own copy of `v`; these
// functions make such copies of the parts of the tree that can be shared.

pub(crate) fn copy_strings(v: &Vec<String>) -> (r: Vec<String>)
    ensures
        r@ == v@,
{
    let mut out: Vec<String> = Vec::new();
    let mut i: usize = 0;
    while i < v.len()
        invariant
            i <= v.len(),
            out@ == v@.take(i as int),
        decreases v.len() - i,
    {
        out.push(v[i].clone());
        i = i + 1;
        assert(out@ =~= v@.take(i as int));
    }
    assert(v@.take(v.len() as int) =~= v@);
    out
}

pub(crate) fn copy_opt_string(v: &Option<String>) -> (r: Option<String>)
    ensures
        r == *v,
{
    match v {
        Some(s) => Some(s.clone()),
        None => None,
    }
}

pub(crate) fn copy_qual_name(q: &QualName) -> (r: QualName)
    ensures
        r == *q,
{
    QualName { qualifier: copy_opt_string(&q.qualifier), name: q.name.clone() }
}

pub(crate) fn copy_exprs(v: &Vec<Expr>) -> (r: Vec<Expr>)
    ensures
        r@.len() == v@.len(),
        forall|i: int| 0 <= i < v@.len() ==> is_expr_copy(#[trigger] v@[i], r@[i]),
    decreases v,
{
    let mut out: Vec<Expr> = Vec::new();
    let mut i: usize = 0;
    while i < v.len()
        invariant
            i <= v.len(),
            out@.len() == i,
            forall|j: int| 0 <= j < i ==> is_expr_copy(#[trigger] v@[j], out@[j]),
        decreases v.len() - i,
    {
        proof {
            assert(decreases_to!(v => v@[i as int]));
        }
        out.push(copy_expr(&v[i]));
        i = i + 1;
    }
    out
}

pub(crate) fn copy_types(v: &Vec<Type>) -> (r: Vec<Type>)
    ensures
        r@.len() == v@.len(),
        forall|i: int| 0 <= i < v@.len() ==> same_shape(#[trigger] v@[i], r@[i]),
        forall|i: int| 0 <= i < v@.len() ==> is_type_copy(#[trigger] v@[i], r@[i]),
    decreases v,
{
    let mut out: Vec<Type> = Vec::new();
    let mut i: usize = 0;
    while i < v.len()
        invariant
            i <= v.len(),
            out@.len() == i,
            forall|j: int| 0 <= j < i ==> same_shape(#[trigger] v@[j], out@[j]),
            forall|j: int| 0 <= j < i ==> is_type_copy(#[trigger] v@[j], out@[j]),
        decreases v.len() - i,
    {
        proof {
            assert(decreases_to!(v => v@[i as int]));
        }
        out.push(copy_type(&v[i]));
        i = i + 1;
    }
    out
}

pub(crate) fn copy_params(v: &Vec<Param>) -> (r: Vec<Param>)
    ensures
        r@.len() == v@.len(),
        forall|i: int| 0 <= i < v@.len() ==> is_param_copy(#[trigger] v@[i], r@[i]),
    decreases v,
{
    let mut out: Vec<Param> = Vec::new();
    let mut i: usize = 0;
    while i < v.len()
        invariant
            i <= v.len(),
            out@.len() == i,
            forall|j: int| 0 <= j < i ==> is_param_copy(#[trigger] v@[j], out@[j]),
        decreases v.len() - i,
    {
        proof {
            assert(decreases_to!(v => v@[i as int]));
        }
        out.push(copy_param(&v[i]));
        i = i + 1;
    }
    out
}

pub(crate) fn copy_module_members(v: &Vec<ModuleMember>) -> (r: Vec<ModuleMember>)
    ensures
        r@.len() == v@.len(),
        forall|i: int| 0 <= i < v@.len() ==> is_module_member_copy(#[trigger] v@[i], r@[i]),
    decreases v,
{
    let mut out: Vec<ModuleMember> = Vec::new();
    let mut i: usize = 0;
    while i < v.len()
        invariant
            i <= v.len(),
            out@.len() == i,
            forall|j: int| 0 <= j < i ==> is_module_member_copy(#[trigger] v@[j], out@[j]),
        decreases v.len() - i,
    {
        proof {
            assert(decreases_to!(v => v@[i as int]));
        }
        out.push(copy_module_member(&v[i]));
        i = i + 1;
    }
    out
}

pub(crate) fn copy_adt_members(v: &Vec<AdtMember>) -> (r: Vec<AdtMember>)
    ensures
        r@.len() == v@.len(),
        forall|i: int| 0 <= i < v@.len() ==> is_adt_member_copy(#[trigger] v@[i], r@[i]),
    decreases v,
{
    let mut out: Vec<AdtMember> = Vec::new();
    let mut i: usize = 0;
    while i < v.len()
        invariant
            i <= v.len(),
            out@.len() == i,
            forall|j: int| 0 <= j < i ==> is_adt_member_copy(#[trigger] v@[j], out@[j]),
        decreases v.len() - i,
    {
        proof {
            assert(decreases_to!(v => v@[i as int]));
        }
        out.push(copy_adt_member(&v[i]));
        i = i + 1;
    }
    out
}

pub(crate) fn copy_pick_cases(v: &Vec<PickCase>) -> (r: Vec<PickCase>)
    ensures
        r@.len() == v@.len(),
        forall|i: int| 0 <= i < v@.len() ==> is_pick_case_copy(#[trigger] v@[i], r@[i]),
    decreases v,
{
    let mut out: Vec<PickCase> = Vec::new();
    let mut i: usize = 0;
    while i < v.len()
        invariant
            i <= v.len(),
            out@.len() == i,
            forall|j: int| 0 <= j < i ==> is_pick_case_copy(#[trigger] v@[j], out@[j]),
        decreases v.len() - i,
    {
        proof {
            assert(decreases_to!(v => v@[i as int]));
        }
        out.push(copy_pick_case(&v[i]));
        i = i + 1;
    }
    out
}

pub(crate) fn copy_var_decls(v: &Vec<VarDecl>) -> (r: Vec<VarDecl>)
    ensures
        r@.len() == v@.len(),
        forall|i: int| 0 <= i < v@.len() ==> is_var_decl_copy(#[trigger] v@[i], r@[i]),
    decreases v,
{
    let mut out: Vec<VarDecl> = Vec::new();
    let mut i: usize = 0;
    while i < v.len()
        invariant
            i <= v.len(),
            out@.len() == i,
            forall|j: int| 0 <= j < i ==> is_var_decl_copy(#[trigger] v@[j], out@[j]),
        decreases v.len() - i,
    {
        proof {
            assert(decreases_to!(v => v@[i as int]));
        }
        out.push(copy_var_decl(&v[i]));
        i = i + 1;
    }
    out
}

pub(crate) fn copy_array_elems(v: &Vec<ArrayElem>) -> (r: Vec<ArrayElem>)
    ensures
        r@.len() == v@.len(),
        forall|i: int| 0 <= i < v@.len() ==> is_array_elem_copy(#[trigger] v@[i], r@[i]),
    decreases v,
{
    let mut out: Vec<ArrayElem> = Vec::new();
    let mut i: usize = 0;
    while i < v.len()
        invariant
            i <= v.len(),
            out@.len() == i,
            forall|j: int| 0 <= j < i ==> is_array_elem_copy(#[trigger] v@[j], out@[j]),
        decreases v.len() - i,
    {
        proof {
            assert(decreases_to!(v => v@[i as int]));
        }
        out.push(copy_array_elem(&v[i]));
        i = i + 1;
    }
    out
}

pub(crate) fn copy_selectors(v: &Vec<(Expr, Option<Expr>)>) -> (r: Vec<(Expr, Option<Expr>)>)
    ensures
        r@.len() == v@.len(),
        forall|i: int| 0 <= i < v@.len() ==> is_selector_copy(#[trigger] v@[i], r@[i]),
    decreases v,
{
    let mut out: Vec<(Expr, Option<Expr>)> = Vec::new();
    let mut i: usize = 0;
    while i < v.len()
        invariant
            i <= v.len(),
            out@.len() == i,
            forall|j: int| 0 <= j < i ==> is_selector_copy(#[trigger] v@[j], out@[j]),
        decreases v.len() - i,
    {
        proof {
            assert(decreases_to!(v => v@[i as int]));
        }
        out.push(copy_selector(&v[i]));
        i = i + 1;
    }
    out
}

pub(crate) fn copy_selector(x: &(Expr, Option<Expr>)) -> (r: (Expr, Option<Expr>))
    ensures
        is_selector_copy(*x, r),
    decreases x,
{
    (copy_expr(&x.0), copy_opt_expr(&x.1))
}

pub(crate) fn copy_opt_expr(e: &Option<Expr>) -> (r: Option<Expr>)
    ensures
        is_opt_expr_copy(*e, r),
    decreases e,
{
    match e {
        Some(x) => Some(copy_expr(x)),
        None => None,
    }
}

pub(crate) fn copy_opt_box_expr(e: &Option<Box<Expr>>) -> (r: Option<Box<Expr>>)
    ensures
        is_opt_box_expr_copy(*e, r),
    decreases e,
{
    match e {
        Some(x) => Some(Box::new(copy_expr(x))),
        None => None,
    }
}

pub(crate) fn copy_opt_type(t: &Option<Type>) -> (r: Option<Type>)
    ensures
        is_opt_type_copy(*t, r),
    decreases t,
{
    match t {
        Some(x) => Some(copy_type(x)),
        None => None,
    }
}

pub(crate) fn copy_opt_box_type(t: &Option<Box<Type>>) -> (r: Option<Box<Type>>)
    ensures
        is_opt_box_type_copy(*t, r),
    decreases t,
{
    match t {
        Some(x) => Some(Box::new(copy_type(x))),
        None => None,
    }
}

pub(crate) fn copy_opt_pick_cases(p: &Option<Vec<PickCase>>) -> (r: Option<Vec<PickCase>>)
    ensures
        is_opt_pick_cases_copy(*p, r),
    decreases p,
{
    match p {
        Some(x) => Some(copy_pick_cases(x)),
        None => None,
    }
}

pub(crate) fn copy_param(p: &Param) -> (r: Param)
    ensures
        is_param_copy(*p, r),
    decreases p,
{
    Param { names: copy_strings(&p.names), ty: copy_type(&p.ty), is_self: p.is_self, is_nil: p.is_nil }
}

pub(crate) fn copy_func_sig(s: &FuncSig) -> (r: FuncSig)
    ensures
        is_func_sig_copy(*s, r),
    decreases s,
{
    FuncSig { name: s.name.clone(), params: copy_params(&s.params), ret: copy_opt_type(&s.ret), span: s.span }
}

pub(crate) fn copy_var_decl(v: &VarDecl) -> (r: VarDecl)
    ensures
        is_var_decl_copy(*v, r),
    decreases v,
{
    VarDecl { names: copy_strings(&v.names), ty: copy_opt_type(&v.ty), init: copy_opt_expr(&v.init), span: v.span }
}

pub(crate) fn copy_const_decl(c: &ConstDecl) -> (r: ConstDecl)
    ensures
        is_const_decl_copy(*c, r),
    decreases c,
{
    ConstDecl { name: c.name.clone(), ty: copy_opt_type(&c.ty), value: copy_expr(&c.value), span: c.span }
}

pub(crate) fn copy_type_alias(t: &TypeAliasDecl) -> (r: TypeAliasDecl)
    ensures
        is_type_alias_copy(*t, r),
    decreases t,
{
    TypeAliasDecl { name: t.name.clone(), ty: copy_type(&t.ty), span: t.span }
}

pub(crate) fn copy_exception_decl(e: &ExceptionDecl) -> (r: ExceptionDecl)
    ensures
        is_exception_decl_copy(*e, r),
    decreases e,
{
    ExceptionDecl { name: e.name.clone(), ty: copy_opt_type(&e.ty), span: e.span }
}

pub(crate) fn copy_pick_case(p: &PickCase) -> (r: PickCase)
    ensures
        is_pick_case_copy(*p, r),
    decreases p,
{
    PickCase { tags: copy_strings(&p.tags), fields: copy_var_decls(&p.fields) }
}

pub(crate) fn copy_adt_decl(a: &AdtDecl) -> (r: AdtDecl)
    ensures
        is_adt_decl_copy(*a, r),
    decreases a,
{
    AdtDecl {
        name: a.name.clone(),
        members: copy_adt_members(&a.members),
        pick: copy_opt_pick_cases(&a.pick),
        span: a.span,
    }
}

pub(crate) fn copy_adt_member(m: &AdtMember) -> (r: AdtMember)
    ensures
        is_adt_member_copy(*m, r),
    decreases m,
{
    match m {
        AdtMember::Field(v) => AdtMember::Field(copy_var_decl(v)),
        AdtMember::Const(c) => AdtMember::Const(copy_const_decl(c)),
        AdtMember::Func(f) => AdtMember::Func(copy_func_sig(f)),
    }
}

pub(crate) fn copy_module_member(m: &ModuleMember) -> (r: ModuleMember)
    ensures
        is_module_member_copy(*m, r),
    decreases m,
{
    match m {
        ModuleMember::Const(c) => ModuleMember::Const(copy_const_decl(c)),
        ModuleMember::TypeAlias(t) => ModuleMember::TypeAlias(copy_type_alias(t)),
        ModuleMember::Var(v) => ModuleMember::Var(copy_var_decl(v)),
        ModuleMember::Func(f) => ModuleMember::Func(copy_func_sig(f)),
        ModuleMember::Adt(a) => ModuleMember::Adt(copy_adt_decl(a)),
        ModuleMember::Exception(e) => ModuleMember::Exception(copy_exception_decl(e)),
    }
}

pub(crate) fn copy_type(t: &Type) -> (r: Type)
    ensures
        same_shape(*t, r),
        is_type_copy(*t, r),
    decreases t,
{
    match t {
        Type::Basic(b) => Type::Basic(*b),
        Type::Array(e) => Type::Array(Box::new(copy_type(e))),
        Type::List(e) => Type::List(Box::new(copy_type(e))),
        Type::Chan(e) => Type::Chan(Box::new(copy_type(e))),
        Type::BufChan(n, e) => Type::BufChan(Box::new(copy_expr(n)), Box::new(copy_type(e))),
        Type::Ref(e) => Type::Ref(Box::new(copy_type(e))),
        Type::Tuple(ts) => Type::Tuple(copy_types(ts)),
        Type::Func(sig) => Type::Func(Box::new(copy_func_sig(sig))),
        Type::Named(q) => Type::Named(copy_qual_name(q)),
        Type::Module(ms) => Type::Module(copy_module_members(ms)),
    }
}

pub(crate) fn copy_array_index(i: &ArrayIndex) -> (r: ArrayIndex)
    ensures
        is_array_index_copy(*i, r),
    decreases i,
{
    match i {
        ArrayIndex::Selectors(v) => ArrayIndex::Selectors(copy_selectors(v)),
        ArrayIndex::Wildcard => ArrayIndex::Wildcard,
    }
}

pub(crate) fn copy_array_elem(a: &ArrayElem) -> (r: ArrayElem)
    ensures
        is_array_elem_copy(*a, r),
    decreases a,
{
    let index = match &a.index {
        Some(i) => Some(copy_array_index(i)),
        None => None,
    };
    ArrayElem { index, value: copy_expr(&a.value) }
}

pub(crate) fn copy_expr(e: &Expr) -> (r: Expr)
    ensures
        is_expr_copy(*e, r),
    decreases e,
{
    match e {
        Expr::IntLit(v, s) => Expr::IntLit(*v, *s),
        Expr::RealLit(v, s) => Expr::RealLit(v.clone(), *s),
        Expr::StringLit(v, s) => Expr::StringLit(v.clone(), *s),
        Expr::CharLit(v, s) => Expr::CharLit(*v, *s),
        Expr::Nil(s) => Expr::Nil(*s),
        Expr::Ident(v, s) => Expr::Ident(v.clone(), *s),
        Expr::Binary(a, op, b, s) => Expr::Binary(Box::new(copy_expr(a)), *op, Box::new(copy_expr(b)), *s),
        Expr::Unary(op, a, s) => Expr::Unary(*op, Box::new(copy_expr(a)), *s),
        Expr::Call(f, args, s) => Expr::Call(Box::new(copy_expr(f)), copy_exprs(args), *s),
        Expr::Dot(a, m, s) => Expr::Dot(Box::new(copy_expr(a)), m.clone(), *s),
        Expr::ModQual(a, m, s) => Expr::ModQual(Box::new(copy_expr(a)), m.clone(), *s),
        Expr::Index(a, b, s) => Expr::Index(Box::new(copy_expr(a)), Box::new(copy_expr(b)), *s),
        Expr::Slice(a, lo, hi, s) => Expr::Slice(Box::new(copy_expr(a)), copy_opt_box_expr(lo), copy_opt_box_expr(hi), *s),
        Expr::Tuple(es, s) => Expr::Tuple(copy_exprs(es), *s),
        Expr::Cons(a, b, s) => Expr::Cons(Box::new(copy_expr(a)), Box::new(copy_expr(b)), *s),
        Expr::Recv(a, s) => Expr::Recv(Box::new(copy_expr(a)), *s),
        Expr::Send(a, b, s) => Expr::Send(Box::new(copy_expr(a)), Box::new(copy_expr(b)), *s),
        Expr::Load(t, a, s) => Expr::Load(Box::new(copy_type(t)), Box::new(copy_expr(a)), *s),
        Expr::ArrayAlloc(a, t, s) => Expr::ArrayAlloc(Box::new(copy_expr(a)), Box::new(copy_type(t)), *s),
        Expr::ArrayLit(n, es, t, s) => Expr::ArrayLit(copy_opt_box_expr(n), copy_array_elems(es), copy_opt_box_type(t), *s),
        Expr::ChanAlloc(t, s) => Expr::ChanAlloc(Box::new(copy_type(t)), *s),
        Expr::ListLit(es, s) => Expr::ListLit(copy_exprs(es), *s),
        Expr::RefAlloc(t, es, s) => Expr::RefAlloc(Box::new(copy_type(t)), copy_exprs(es), *s),
        Expr::Cast(t, a, s) => Expr::Cast(Box::new(copy_type(t)), Box::new(copy_expr(a)), *s),
        Expr::DeclAssign(ns, a, s) => Expr::DeclAssign(copy_strings(ns), Box::new(copy_expr(a)), *s),
        Expr::TupleDeclAssign(ns, a, s) => Expr::TupleDeclAssign(copy_strings(ns), Box::new(copy_expr(a)), *s),
        Expr::Assign(a, b, s) => Expr::Assign(Box::new(copy_expr(a)), Box::new(copy_expr(b)), *s),
        Expr::CompoundAssign(a, op, b, s) => Expr::CompoundAssign(Box::new(copy_expr(a)), *op, Box::new(copy_expr(b)), *s),
        Expr::Hd(a, s) => Expr::Hd(Box::new(copy_expr(a)), *s),
        Expr::Tl(a, s) => Expr::Tl(Box::new(copy_expr(a)), *s),
        Expr::Len(a, s) => Expr::Len(Box::new(copy_expr(a)), *s),
        Expr::Tagof(a, s) => Expr::Tagof(Box::new(copy_expr(a)), *s),
        Expr::PostInc(a, s) => Expr::PostInc(Box::new(copy_expr(a)), *s),
        Expr::PostDec(a, s) => Expr::PostDec(Box::new(copy_expr(a)), *s),
    }
}

} // verus!
