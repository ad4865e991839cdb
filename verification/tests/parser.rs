use ricevm_limbo::ast::{
    AdtMember, AltDest, AltGuard, AltStmt, ArrayElem, ArrayIndex, BasicType, BinOp,
    CasePattern, Decl, Expr, FuncDecl, ModuleMember, SourceFile, Stmt, Type, UnaryOp,
};
use ricevm_limbo::lexer::Lexer;
use ricevm_limbo::parser::Parser;
use ricevm_limbo::token::{Span, Token, TokenKind};


fn parse(src: &str) -> SourceFile {
    let tokens = Lexer::new(src, "<test>")
        .tokenize()
        .expect("lex should succeed");
    Parser::new(tokens, "<test>")
        .parse_file()
        .expect("parse should succeed")
}

#[test]
fn parse_implement_and_include() {
    let file = parse(
        r#"implement Echo;
include "sys.m";
"#,
    );
    assert_eq!(file.implement, vec!["Echo"]);
    assert_eq!(file.includes.len(), 1);
    assert_eq!(file.includes[0].path, "sys.m");
}

#[test]
fn parse_module_decl() {
    let file = parse(
        r#"implement Test;
Test: module {
    init: fn(nil: ref Draw->Context, argv: list of string);
    PATH: con "/dis/test.dis";
};
"#,
    );
    assert_eq!(file.decls.len(), 1);
    assert!(matches!(file.decls[0], Decl::Module(_)));
}

#[test]
fn parse_variable_decl() {
    let file = parse(
        r#"implement T;
sys: Sys;
n: int;
"#,
    );
    assert_eq!(file.decls.len(), 2);
    assert!(matches!(file.decls[0], Decl::Var(_)));
}

#[test]
fn parse_simple_function() {
    let file = parse(
        r#"implement T;
init(nil: ref Draw->Context, args: list of string)
{
    sys = load Sys Sys->PATH;
    sys->print("hello\n");
}
"#,
    );
    assert_eq!(file.decls.len(), 1);
    assert!(matches!(file.decls[0], Decl::Func(_)));
}

#[test]
fn parse_if_else() {
    let file = parse(
        r#"implement T;
test()
{
    if (x > 0)
        y = 1;
    else
        y = 2;
}
"#,
    );
    let Decl::Func(f) = &file.decls[0] else {
        panic!("expected func");
    };
    assert!(matches!(f.body.stmts[0], Stmt::If(_)));
}

#[test]
fn parse_for_loop() {
    let file = parse(
        r#"implement T;
test()
{
    for (i := 0; i < n; i++)
        x = x + 1;
}
"#,
    );
    let Decl::Func(f) = &file.decls[0] else {
        panic!("expected func");
    };
    assert!(matches!(f.body.stmts[0], Stmt::For(_)));
}

#[test]
fn parse_echo_program() {
    let src = r#"implement Echo;

include "sys.m";
    sys: Sys;

include "draw.m";

Echo: module
{
    init: fn(ctxt: ref Draw->Context, argv: list of string);
};

init(ctxt: ref Draw->Context, argv: list of string)
{
    sys = load Sys Sys->PATH;
    argv = tl argv;
    s := "";
    while(argv != nil) {
        s = s + hd argv;
        argv = tl argv;
        if(argv != nil)
            s = s + " ";
    }
    sys->print("%s\n", s);
}
"#;
    let file = parse(src);
    assert_eq!(file.implement, vec!["Echo"]);
    assert_eq!(file.includes.len(), 2);
    // sys: Sys; (var), Echo: module{...}; (module), init(...){...} (func)
    assert!(file.decls.len() >= 3);
}

#[test]
fn parse_array_and_list_constructors() {
    let file = parse(
        r#"implement T;
test()
{
    a := array[10] of int;
    b := array[] of {"hello", "world"};
    c := list of {1, 2, 3};
    d := chan of int;
}
"#,
    );
    let Decl::Func(f) = &file.decls[0] else {
        panic!("expected func");
    };
    assert_eq!(f.body.stmts.len(), 4);
}

#[test]
fn parse_case_statement() {
    let file = parse(
        r#"implement T;
test(x: int)
{
    case x {
    0 =>
        y = 1;
    1 to 10 =>
        y = 2;
    * =>
        y = 3;
    }
}
"#,
    );
    let Decl::Func(f) = &file.decls[0] else {
        panic!("expected func");
    };
    assert!(matches!(f.body.stmts[0], Stmt::Case(_)));
}

#[test]
fn parse_operator_precedence() {
    let file = parse(
        r#"implement T;
test()
{
    x = a + b * c;
}
"#,
    );
    let Decl::Func(f) = &file.decls[0] else {
        panic!("expected func");
    };
    if let Stmt::Expr(Expr::Assign(_, rhs, _)) = &f.body.stmts[0] {
        assert!(matches!(rhs.as_ref(), Expr::Binary(_, BinOp::Add, _, _)));
    }
}

#[test]
fn parse_do_while() {
    let file = parse(
        r#"implement T;
test()
{
    do { x++; } while(x < 10);
}
"#,
    );
    let Decl::Func(f) = &file.decls[0] else {
        panic!("expected func");
    };
    assert!(matches!(f.body.stmts[0], Stmt::Do(_)));
}

#[test]
fn parse_channel_send() {
    let file = parse(
        r#"implement T;
test()
{
    c <-= 42;
}
"#,
    );
    let Decl::Func(f) = &file.decls[0] else {
        panic!("expected func");
    };
    assert!(matches!(f.body.stmts[0], Stmt::Expr(Expr::Send(_, _, _))));
}

#[test]
fn parse_spawn() {
    let file = parse(
        r#"implement T;
test()
{
    spawn worker(c);
}
"#,
    );
    let Decl::Func(f) = &file.decls[0] else {
        panic!("expected func");
    };
    assert!(matches!(f.body.stmts[0], Stmt::Spawn(_, _)));
}

#[test]
fn parse_raise() {
    let file = parse(
        r#"implement T;
test()
{
    raise "fail:error";
}
"#,
    );
    let Decl::Func(f) = &file.decls[0] else {
        panic!("expected func");
    };
    assert!(matches!(f.body.stmts[0], Stmt::Raise(Some(_), _)));
}

#[test]
fn parse_tuple_decl_assign() {
    let file = parse(
        r#"implement T;
test()
{
    (a, b) := func();
}
"#,
    );
    let Decl::Func(f) = &file.decls[0] else {
        panic!("expected func");
    };
    assert!(matches!(
        f.body.stmts[0],
        Stmt::Expr(Expr::TupleDeclAssign(_, _, _))
    ));
}

#[test]
fn parse_local_var_decl() {
    let file = parse(
        r#"implement T;
test()
{
    x: int;
    y: string = "hello";
}
"#,
    );
    let Decl::Func(f) = &file.decls[0] else {
        panic!("expected func");
    };
    assert!(matches!(f.body.stmts[0], Stmt::VarDecl(_)));
    assert!(matches!(f.body.stmts[1], Stmt::VarDecl(_)));
}

#[test]
fn parse_label_statement() {
    let file = parse(
        r#"implement T;
test()
{
    loop: for(;;) break;
}
"#,
    );
    let Decl::Func(f) = &file.decls[0] else {
        panic!("expected func");
    };
    assert!(matches!(f.body.stmts[0], Stmt::Label(_, _)));
}

#[test]
fn parse_alt_statement() {
    let file = parse(
        r#"implement T;
test()
{
    alt {
        v := <-c1 =>
            x = v;
        * =>
            x = 0;
    }
}
"#,
    );
    let Decl::Func(f) = &file.decls[0] else {
        panic!("expected func");
    };
    assert!(matches!(f.body.stmts[0], Stmt::Alt(_)));
}

#[test]
fn parse_pick_statement() {
    let file = parse(
        r#"implement T;
test()
{
    pick x := val {
        A =>
            y = 1;
        B =>
            y = 2;
    }
}
"#,
    );
    let Decl::Func(f) = &file.decls[0] else {
        panic!("expected func");
    };
    assert!(matches!(f.body.stmts[0], Stmt::Pick(_)));
}

#[test]
fn parse_import_decl() {
    let file = parse(
        r#"implement T;
    Iobuf: import bufio;
"#,
    );
    assert!(matches!(file.decls[0], Decl::Import(_)));
}

#[test]
fn parse_exception_decl() {
    let file = parse(
        r#"implement T;
    BadVal: exception;
"#,
    );
    assert!(matches!(file.decls[0], Decl::Exception(_)));
}

#[test]
fn parse_adt_decl() {
    let file = parse(
        r#"implement T;
Point: adt {
    x: int;
    y: int;
};
"#,
    );
    assert!(matches!(file.decls[0], Decl::Adt(_)));
}

#[test]
fn parse_const_decl() {
    let file = parse(
        r#"implement T;
    MAX: con 100;
"#,
    );
    assert!(matches!(file.decls[0], Decl::Const(_)));
}

#[test]
fn parse_qualified_func_def() {
    let file = parse(
        r#"implement T;
Point.distance(p: ref Point): int
{
    return 0;
}
"#,
    );
    let Decl::Func(f) = &file.decls[0] else {
        panic!("expected func");
    };
    assert_eq!(f.name.qualifier, Some("Point".to_string()));
    assert_eq!(f.name.name, "distance");
}

#[test]
fn parse_multiple_functions() {
    let file = parse(
        r#"implement T;
include "sys.m"; sys: Sys;
include "draw.m";
T: module { init: fn(nil: ref Draw->Context, nil: list of string); };
helper(): int { return 42; }
init(nil: ref Draw->Context, nil: list of string) { x := helper(); }
"#,
    );
    let func_count = file
        .decls
        .iter()
        .filter(|d| matches!(d, Decl::Func(_)))
        .count();
    assert_eq!(func_count, 2);
}

#[test]
fn parse_deref_expression() {
    let file = parse(
        r#"implement T;
test()
{
    x = *p;
}
"#,
    );
    let Decl::Func(f) = &file.decls[0] else {
        panic!("expected func");
    };
    if let Stmt::Expr(Expr::Assign(_, rhs, _)) = &f.body.stmts[0] {
        assert!(matches!(rhs.as_ref(), Expr::Unary(_, _, _)));
    }
}

#[test]
fn parse_list_cons() {
    let file = parse(
        r#"implement T;
test()
{
    l := 1 :: 2 :: nil;
}
"#,
    );
    let Decl::Func(f) = &file.decls[0] else {
        panic!("expected func");
    };
    assert!(matches!(
        f.body.stmts[0],
        Stmt::Expr(Expr::DeclAssign(_, _, _))
    ));
}

#[test]
fn parse_chan_alloc() {
    let file = parse(
        r#"implement T;
test()
{
    c := chan of int;
}
"#,
    );
    let Decl::Func(f) = &file.decls[0] else {
        panic!("expected func");
    };
    if let Stmt::Expr(Expr::DeclAssign(_, rhs, _)) = &f.body.stmts[0] {
        assert!(matches!(rhs.as_ref(), Expr::ChanAlloc(_, _)));
    }
}

#[test]
fn parse_array_alloc() {
    let file = parse(
        r#"implement T;
test()
{
    a := array[10] of int;
}
"#,
    );
    let Decl::Func(f) = &file.decls[0] else {
        panic!("expected func");
    };
    if let Stmt::Expr(Expr::DeclAssign(_, rhs, _)) = &f.body.stmts[0] {
        assert!(matches!(rhs.as_ref(), Expr::ArrayAlloc(_, _, _)));
    }
}

#[test]
fn parse_hd_tl_len() {
    let file = parse(
        r#"implement T;
test()
{
    x := hd l;
    y := tl l;
    n := len s;
}
"#,
    );
    let Decl::Func(f) = &file.decls[0] else {
        panic!("expected func");
    };
    assert_eq!(f.body.stmts.len(), 3);
}

#[test]
fn parse_multi_name_const_and_type_decls() {
    let file = parse(
        r#"implement T;
A, B: con 7;
X, Y: type int;
"#,
    );
    let names: Vec<&str> = file
        .decls
        .iter()
        .map(|d| match d {
            Decl::Const(c) => c.name.as_str(),
            Decl::TypeAlias(t) => t.name.as_str(),
            other => panic!("unexpected decl: {other:?}"),
        })
        .collect();
    assert_eq!(names, vec!["A", "B", "X", "Y"]);
}

#[test]
fn parse_multi_name_module_members() {
    let file = parse(
        r#"implement T;
T: module {
    A, B: con 1;
    X, Y: type int;
};
"#,
    );
    let Decl::Module(m) = &file.decls[0] else {
        panic!("expected module");
    };
    let names: Vec<&str> = m
        .members
        .iter()
        .map(|mem| match mem {
            ModuleMember::Const(c) => c.name.as_str(),
            ModuleMember::TypeAlias(t) => t.name.as_str(),
            other => panic!("unexpected member: {other:?}"),
        })
        .collect();
    assert_eq!(names, vec!["A", "B", "X", "Y"]);
}

#[test]
fn parse_multi_name_adt_members() {
    let file = parse(
        r#"implement T;
T: adt {
    A, B: con 1;
};
"#,
    );
    let Decl::Adt(a) = &file.decls[0] else {
        panic!("expected adt");
    };
    let names: Vec<&str> = a
        .members
        .iter()
        .map(|mem| match mem {
            AdtMember::Const(c) => c.name.as_str(),
            other => panic!("unexpected member: {other:?}"),
        })
        .collect();
    assert_eq!(names, vec!["A", "B"]);
}

#[test]
fn cons_binds_tighter_than_logical_and() {
    let file = parse(
        r#"implement T;
test()
{
    x = a && b :: c;
}
"#,
    );
    let Decl::Func(f) = &file.decls[0] else {
        panic!("expected func");
    };
    let Stmt::Expr(Expr::Assign(_, rhs, _)) = &f.body.stmts[0] else {
        panic!("expected assignment");
    };
    // Must parse as `a && (b :: c)`, not `(a && b) :: c`.
    let Expr::Binary(lhs, BinOp::LogAnd, and_rhs, _) = rhs.as_ref() else {
        panic!("expected && at the root, got {rhs:?}");
    };
    assert!(matches!(lhs.as_ref(), Expr::Ident(n, _) if n == "a"));
    assert!(matches!(and_rhs.as_ref(), Expr::Cons(_, _, _)));
}

#[test]
fn cons_binds_looser_than_bitwise_or() {
    let file = parse(
        r#"implement T;
test()
{
    x = a | b :: c;
}
"#,
    );
    let Decl::Func(f) = &file.decls[0] else {
        panic!("expected func");
    };
    let Stmt::Expr(Expr::Assign(_, rhs, _)) = &f.body.stmts[0] else {
        panic!("expected assignment");
    };
    // Must parse as `(a | b) :: c`.
    let Expr::Cons(head, tail, _) = rhs.as_ref() else {
        panic!("expected :: at the root, got {rhs:?}");
    };
    assert!(matches!(head.as_ref(), Expr::Binary(_, BinOp::Or, _, _)));
    assert!(matches!(tail.as_ref(), Expr::Ident(n, _) if n == "c"));
}

#[test]
fn cons_is_right_associative() {
    let file = parse(
        r#"implement T;
test()
{
    x = a :: b :: c;
}
"#,
    );
    let Decl::Func(f) = &file.decls[0] else {
        panic!("expected func");
    };
    let Stmt::Expr(Expr::Assign(_, rhs, _)) = &f.body.stmts[0] else {
        panic!("expected assignment");
    };
    let Expr::Cons(head, tail, _) = rhs.as_ref() else {
        panic!("expected :: at the root, got {rhs:?}");
    };
    assert!(matches!(head.as_ref(), Expr::Ident(n, _) if n == "a"));
    assert!(matches!(tail.as_ref(), Expr::Cons(_, _, _)));
}

#[test]
fn parse_load_expression() {
    let file = parse(
        r#"implement T;
test()
{
    sys = load Sys Sys->PATH;
}
"#,
    );
    let Decl::Func(f) = &file.decls[0] else {
        panic!("expected func");
    };
    if let Stmt::Expr(Expr::Assign(_, rhs, _)) = &f.body.stmts[0] {
        assert!(matches!(rhs.as_ref(), Expr::Load(_, _, _)));
    }
}

/// Pull the single `alt` statement out of a one-function file.
fn alt_of(src: &str) -> AltStmt {
    let file = parse(src);
    let Some(Decl::Func(f)) = file.decls.into_iter().next() else {
        panic!("expected func");
    };
    match f.body.stmts.into_iter().next() {
        Some(Stmt::Alt(a)) => a,
        other => panic!("expected alt, got {other:?}"),
    }
}

/// `x := <-c1 or x = <-c2 or x = <-c3 =>` names three channels, and an
/// `alt` that listens on one of them is a different program. The guards
/// after the first used to be parsed and dropped on the floor.
#[test]
fn alt_arm_retains_every_or_joined_guard() {
    let alt = alt_of(
        r#"implement T;
test(c1: chan of int, c2: chan of int, c3: chan of int)
{
    alt {
    x := <-c1 or
    x = <-c2 or
    x = <-c3 =>
        y = x;
    }
}
"#,
    );
    assert_eq!(alt.arms.len(), 1, "one arm");
    let text = format!("{:?}", alt.arms[0].guards);
    for chan in ["c1", "c2", "c3"] {
        assert!(
            text.contains(chan),
            "guard for {chan} was discarded: {text}"
        );
    }
    assert_eq!(alt.arms[0].guards.len(), 3, "three guards share one body");
}

/// Guards are classified at parse time, so codegen never has to guess
/// whether `Recv` really holds a send.
#[test]
fn alt_classifies_send_and_recv_and_wildcard_guards() {
    let alt = alt_of(
        r#"implement T;
test(c: chan of int, d: chan of int)
{
    alt {
    c <-= 1 =>
        x = 1;
    y := <-d =>
        x = y;
    * =>
        x = 3;
    }
}
"#,
    );
    assert_eq!(alt.arms.len(), 3);
    assert!(
        matches!(alt.arms[0].guards[0], AltGuard::Send(_, _)),
        "`c <-= 1` is a send guard, got {:?}",
        alt.arms[0].guards[0]
    );
    assert!(
        matches!(alt.arms[1].guards[0], AltGuard::Recv(_, _)),
        "`y := <-d` is a recv guard, got {:?}",
        alt.arms[1].guards[0]
    );
    assert!(matches!(alt.arms[2].guards[0], AltGuard::Wildcard));
}

/// `c <- = v` — a space between `<-` and `=` — is a channel send. The
/// reference lexes `<-` as `Lcomm` and the grammar accepts
/// `exp Lcomm '=' exp` (lex.c:1041-1047, limbo.y:1127-1134).
#[test]
fn chan_send_accepts_space_between_arrow_and_equals() {
    let file = parse(
        r#"implement T;
test(c: chan of int)
{
    c <- = 1;
}
"#,
    );
    let Decl::Func(f) = &file.decls[0] else {
        panic!("expected func");
    };
    assert!(
        matches!(&f.body.stmts[0], Stmt::Expr(Expr::Send(_, _, _))),
        "expected a send, got {:?}",
        f.body.stmts[0]
    );
}

/// The spaced form is a send in guard position too — that is where the
/// corpus actually uses it.
#[test]
fn chan_send_with_space_parses_in_an_alt_guard() {
    let alt = alt_of(
        r#"implement T;
test(c: chan of int)
{
    alt {
    c <- = 1 =>
        x = 1;
    }
}
"#,
    );
    assert!(matches!(alt.arms[0].guards[0], AltGuard::Send(_, _)));
}

// ── Shape helpers ──────────────────────────────────────────

/// Message of the diagnostic a malformed source produces.
fn parse_err(src: &str) -> String {
    let tokens = Lexer::new(src, "<test>")
        .tokenize()
        .expect("lex should succeed");
    Parser::new(tokens, "<test>")
        .parse_file()
        .expect_err("parse should fail")
        .message
}

/// The one function declared by a single-function source.
fn func_of(src: &str) -> FuncDecl {
    let file = parse(src);
    for decl in file.decls {
        if let Decl::Func(f) = decl {
            return f;
        }
    }
    panic!("no function declared by {src}");
}

/// Statements of the body of the one function in `src`.
fn stmts_of(src: &str) -> Vec<Stmt> {
    func_of(src).body.stmts
}

/// Parse one expression by putting it in statement position.
fn expr_of(src: &str) -> Expr {
    let text = format!("implement T;\ntest()\n{{\n\t{src};\n}}\n");
    let mut stmts = stmts_of(&text);
    assert_eq!(stmts.len(), 1, "expected one statement from `{src}`");
    match stmts.remove(0) {
        Stmt::Expr(e) => e,
        other => panic!("expected an expression statement from `{src}`, got {other:?}"),
    }
}

fn binop_name(op: BinOp) -> &'static str {
    match op {
        BinOp::Add => "+",
        BinOp::Sub => "-",
        BinOp::Mul => "*",
        BinOp::Div => "/",
        BinOp::Mod => "%",
        BinOp::Power => "**",
        BinOp::And => "&",
        BinOp::Or => "|",
        BinOp::Xor => "^",
        BinOp::Lshift => "<<",
        BinOp::Rshift => ">>",
        BinOp::Eq => "==",
        BinOp::Neq => "!=",
        BinOp::Lt => "<",
        BinOp::Gt => ">",
        BinOp::Leq => "<=",
        BinOp::Geq => ">=",
        BinOp::LogAnd => "&&",
        BinOp::LogOr => "||",
    }
}

fn unop_name(op: UnaryOp) -> &'static str {
    match op {
        UnaryOp::Neg => "-",
        UnaryOp::Not => "!",
        UnaryOp::BitNot => "~",
        UnaryOp::Ref => "ref",
    }
}

/// Render a type as a one-line form for shape assertions.
fn ty_shape(ty: &Type) -> String {
    match ty {
        Type::Basic(BasicType::Int) => "int".to_string(),
        Type::Basic(BasicType::Byte) => "byte".to_string(),
        Type::Basic(BasicType::Big) => "big".to_string(),
        Type::Basic(BasicType::Real) => "real".to_string(),
        Type::Basic(BasicType::String) => "string".to_string(),
        Type::Array(t) => format!("(array {})", ty_shape(t)),
        Type::List(t) => format!("(list {})", ty_shape(t)),
        Type::Chan(t) => format!("(chan {})", ty_shape(t)),
        Type::BufChan(n, t) => format!("(bufchan {} {})", sexp(n), ty_shape(t)),
        Type::Ref(t) => format!("(ref {})", ty_shape(t)),
        Type::Tuple(ts) => {
            let parts: Vec<String> = ts.iter().map(ty_shape).collect();
            format!("(tuple {})", parts.join(" "))
        }
        Type::Func(sig) => {
            let params: Vec<String> = sig.params.iter().map(|p| ty_shape(&p.ty)).collect();
            let ret = sig.ret.as_ref().map(ty_shape).unwrap_or_default();
            format!("(fn [{}] {ret})", params.join(" "))
        }
        Type::Named(q) => match &q.qualifier {
            Some(m) => format!("{m}->{}", q.name),
            None => q.name.clone(),
        },
        Type::Module(_) => "module".to_string(),
    }
}

/// Render an expression as a fully parenthesized form. A precedence or
/// associativity change anywhere in the table then shows up as one
/// specific mismatch rather than as a test that still passes.
fn sexp(e: &Expr) -> String {
    let joined = |items: &[Expr]| -> String {
        items
            .iter()
            .map(sexp)
            .map(|s| format!(" {s}"))
            .collect::<String>()
    };
    match e {
        Expr::IntLit(v, _) => v.to_string(),
        Expr::RealLit(v, _) => format!("{:?}", v.parse::<f64>().expect("a real literal's text parses")),
        Expr::StringLit(s, _) => format!("{s:?}"),
        Expr::CharLit(v, _) => format!("char:{v}"),
        Expr::Nil(_) => "nil".to_string(),
        Expr::Ident(n, _) => n.clone(),
        Expr::Binary(l, op, r, _) => {
            format!("({} {} {})", binop_name(*op), sexp(l), sexp(r))
        }
        Expr::Unary(op, x, _) => format!("({} {})", unop_name(*op), sexp(x)),
        Expr::Call(f, args, _) => format!("(call {}{})", sexp(f), joined(args)),
        Expr::Dot(x, m, _) => format!("(dot {} {m})", sexp(x)),
        Expr::ModQual(x, m, _) => format!("(mdot {} {m})", sexp(x)),
        Expr::Index(x, i, _) => format!("(index {} {})", sexp(x), sexp(i)),
        Expr::Slice(x, lo, hi, _) => {
            let part = |p: &Option<Box<Expr>>| match p {
                Some(e) => sexp(e),
                None => "_".to_string(),
            };
            format!("(slice {} {} {})", sexp(x), part(lo), part(hi))
        }
        Expr::Tuple(xs, _) => format!("(tuple{})", joined(xs)),
        Expr::Cons(h, t, _) => format!("(:: {} {})", sexp(h), sexp(t)),
        Expr::Recv(c, _) => format!("(<- {})", sexp(c)),
        Expr::Send(c, v, _) => format!("(<-= {} {})", sexp(c), sexp(v)),
        Expr::Load(ty, p, _) => format!("(load {} {})", ty_shape(ty), sexp(p)),
        Expr::ArrayAlloc(n, ty, _) => format!("(arrayalloc {} {})", sexp(n), ty_shape(ty)),
        Expr::ArrayLit(n, elems, _, _) => {
            let size = match n {
                Some(e) => sexp(e),
                None => "_".to_string(),
            };
            let parts: Vec<String> = elems.iter().map(elem_shape).collect();
            format!("(arraylit {size} {})", parts.join(" "))
        }
        Expr::ChanAlloc(ty, _) => format!("(chanalloc {})", ty_shape(ty)),
        Expr::ListLit(xs, _) => format!("(listlit{})", joined(xs)),
        Expr::RefAlloc(ty, args, _) => {
            format!("(refalloc {}{})", ty_shape(ty), joined(args))
        }
        Expr::Cast(ty, x, _) => format!("(cast {} {})", ty_shape(ty), sexp(x)),
        Expr::DeclAssign(names, x, _) => {
            format!("(:= [{}] {})", names.join(","), sexp(x))
        }
        Expr::TupleDeclAssign(names, x, _) => {
            format!("(tuple:= [{}] {})", names.join(","), sexp(x))
        }
        Expr::Assign(l, r, _) => format!("(= {} {})", sexp(l), sexp(r)),
        Expr::CompoundAssign(l, op, r, _) => {
            format!("({}= {} {})", binop_name(*op), sexp(l), sexp(r))
        }
        Expr::Hd(x, _) => format!("(hd {})", sexp(x)),
        Expr::Tl(x, _) => format!("(tl {})", sexp(x)),
        Expr::Len(x, _) => format!("(len {})", sexp(x)),
        Expr::Tagof(x, _) => format!("(tagof {})", sexp(x)),
        Expr::PostInc(x, _) => format!("(++ {})", sexp(x)),
        Expr::PostDec(x, _) => format!("(-- {})", sexp(x)),
    }
}

/// Render one array-literal element, index selector included.
fn elem_shape(elem: &ArrayElem) -> String {
    match &elem.index {
        None => sexp(&elem.value),
        Some(ArrayIndex::Wildcard) => format!("(* => {})", sexp(&elem.value)),
        Some(ArrayIndex::Selectors(sels)) => {
            let parts: Vec<String> = sels
                .iter()
                .map(|(lo, hi)| match hi {
                    Some(h) => format!("({} to {})", sexp(lo), sexp(h)),
                    None => sexp(lo),
                })
                .collect();
            format!("([{}] => {})", parts.join(" "), sexp(&elem.value))
        }
    }
}

/// Every rung of the precedence ladder, in both directions, plus the
/// associativity of each rung. The reference declares the ladder in
/// limbo.y:33-53: assignment, `load`, `||`, `&&`, `::`, `|`, `^`, `&`,
/// equality, relational, shifts, additive, multiplicative, `**`, and then
/// the postfix forms.
const PRECEDENCE_TABLE: &[(&str, &str)] = &[
    // Logical or and and.
    ("a || b && c", "(|| a (&& b c))"),
    ("a && b || c", "(|| (&& a b) c)"),
    ("a || b || c", "(|| (|| a b) c)"),
    ("a && b && c", "(&& (&& a b) c)"),
    // Cons sits between `&&` and `|`, and is right-associative.
    ("a && b :: c", "(&& a (:: b c))"),
    ("a :: b && c", "(&& (:: a b) c)"),
    ("a :: b || c", "(|| (:: a b) c)"),
    ("a | b :: c", "(:: (| a b) c)"),
    ("a :: b | c", "(:: a (| b c))"),
    ("a :: b :: c", "(:: a (:: b c))"),
    ("a || b :: c && d", "(|| a (&& (:: b c) d))"),
    // Bitwise or, xor, and and.
    ("a | b ^ c", "(| a (^ b c))"),
    ("a ^ b | c", "(| (^ a b) c)"),
    ("a ^ b & c", "(^ a (& b c))"),
    ("a & b ^ c", "(^ (& a b) c)"),
    ("a | b | c", "(| (| a b) c)"),
    // Equality and relational.
    ("a & b == c", "(& a (== b c))"),
    ("a == b != c", "(!= (== a b) c)"),
    ("a == b < c", "(== a (< b c))"),
    ("a < b > c", "(> (< a b) c)"),
    ("a <= b >= c", "(>= (<= a b) c)"),
    // Shifts, additive, and multiplicative.
    ("a < b << c", "(< a (<< b c))"),
    ("a << b >> c", "(>> (<< a b) c)"),
    ("a << b + c", "(<< a (+ b c))"),
    ("a + b - c", "(- (+ a b) c)"),
    ("a + b * c", "(+ a (* b c))"),
    ("a * b + c", "(+ (* a b) c)"),
    ("a * b / c % d", "(% (/ (* a b) c) d)"),
    ("1 + 2 * 3 ** 4 - 5", "(- (+ 1 (* 2 (** 3 4))) 5)"),
    // Exponentiation binds tighter than multiplication and is
    // right-associative (limbo.y:47).
    ("a * b ** c", "(* a (** b c))"),
    ("a ** b ** c", "(** a (** b c))"),
    ("a ** b * c", "(* (** a b) c)"),
    // Prefix operators take a `monexp`, so they bind tighter than `**`.
    ("-a ** b", "(** (- a) b)"),
    ("a ** -b", "(** a (- b))"),
    ("len a ** b", "(** (len a) b)"),
    ("<-c ** 2", "(** (<- c) 2)"),
    ("!a && b", "(&& (! a) b)"),
    ("-a * b", "(* (- a) b)"),
    ("~a | b", "(| (~ a) b)"),
    ("- -a", "(- (- a))"),
    ("!!a", "(! (! a))"),
    ("+a + b", "(+ a b)"),
    ("hd a :: b", "(:: (hd a) b)"),
    ("hd tl a", "(hd (tl a))"),
    ("len a + 1", "(+ (len a) 1)"),
    ("tagof x == tagof y", "(== (tagof x) (tagof y))"),
    ("-f(x)", "(- (call f x))"),
    ("-a[i]", "(- (index a i))"),
    ("ref X(1)", "(ref (call X 1))"),
    ("*p = 1", "(= (ref p) 1)"),
    // Assignment is right-associative and looser than every operator.
    ("a = b = c", "(= a (= b c))"),
    ("a = b || c", "(= a (|| b c))"),
    ("a = b :: c", "(= a (:: b c))"),
    ("a += b + c", "(+= a (+ b c))"),
    ("a -= b", "(-= a b)"),
    ("a *= b", "(*= a b)"),
    ("a /= b", "(/= a b)"),
    ("a %= b", "(%= a b)"),
    ("a &= b", "(&= a b)"),
    ("a |= b", "(|= a b)"),
    ("a ^= b", "(^= a b)"),
    ("a <<= b", "(<<= a b)"),
    ("a >>= b", "(>>= a b)"),
    ("x := a || b", "(:= [x] (|| a b))"),
    ("(x, y) := f()", "(tuple:= [x,y] (call f))"),
    ("(x, nil) := f()", "(tuple:= [x,nil] (call f))"),
    // Channel communication.
    ("c <-= a + b", "(<-= c (+ a b))"),
    ("c <- = 1", "(<-= c 1)"),
    ("<-c + 1", "(+ (<- c) 1)"),
    ("x = <-c", "(= x (<- c))"),
    ("c[i] <-= 1", "(<-= (index c i) 1)"),
    // Postfix forms bind tightest of all (limbo.y:1358-1405).
    ("a.b.c", "(dot (dot a b) c)"),
    ("m->f(x)", "(call (mdot m f) x)"),
    ("a[0][1]", "(index (index a 0) 1)"),
    ("a.b[0].c", "(dot (index (dot a b) 0) c)"),
    ("a[1:2]", "(slice a 1 2)"),
    ("a[:2]", "(slice a _ 2)"),
    ("a[1:]", "(slice a 1 _)"),
    ("a[:]", "(slice a _ _)"),
    ("a[i+1:j-1]", "(slice a (+ i 1) (- j 1))"),
    ("a++ + b", "(+ (++ a) b)"),
    ("a-- - b", "(- (-- a) b)"),
    ("++a.b", "(++ (dot a b))"),
    ("--a", "(-- a)"),
    ("f(a, b)(c)", "(call (call f a b) c)"),
    ("f()", "(call f)"),
    ("(a + b) * c", "(* (+ a b) c)"),
    ("(a)", "a"),
    ("(a, b)", "(tuple a b)"),
    ("(a, b, )", "(tuple a b)"),
    // Casts take a `monexp` too (limbo.y:1334-1355).
    ("int x + 1", "(+ (cast int x) 1)"),
    ("big 1 ** 2", "(** (cast big 1) 2)"),
    ("real n / 2.0", "(/ (cast real n) 2.0)"),
    ("byte 65", "(cast byte 65)"),
    ("string x", "(cast string x)"),
    ("array of byte s", "(cast (array byte) s)"),
    // Literals and constructors.
    ("nil :: nil", "(:: nil nil)"),
    ("'a' + 1", "(+ char:97 1)"),
    ("1.5 * 2.", "(* 1.5 2.0)"),
    ("s + \"x\"", "(+ s \"x\")"),
    ("iota", "iota"),
    ("array[10] of int", "(arrayalloc 10 int)"),
    ("array[] of int", "(arrayalloc 0 int)"),
    ("array[] of {1, 2}", "(arraylit _ 1 2)"),
    ("array[4] of {1, 2}", "(arraylit 4 1 2)"),
    (
        "array[4] of {2 => 1, * => 0}",
        "(arraylit 4 ([2] => 1) (* => 0))",
    ),
    (
        "array[26] of {'a' to 'z' or '_' => 1}",
        "(arraylit 26 ([(char:97 to char:122) char:95] => 1))",
    ),
    ("chan of int", "(chanalloc int)"),
    ("list of {1, 2, 3}", "(listlit 1 2 3)"),
    ("list of {}", "(listlit)"),
    ("load Sys Sys->PATH", "(load Sys (mdot Sys PATH))"),
    ("load Sys path + x", "(load Sys (+ path x))"),
];

#[test]
fn expression_shapes_match_the_reference_precedence_table() {
    for (src, want) in PRECEDENCE_TABLE {
        assert_eq!(sexp(&expr_of(src)), *want, "shape of `{src}`");
    }
}

/// `chan[n] of T` carries a buffer size in the reference, which keeps it as
/// the size child of its `Ochan` node (limbo.y:1327-1332). `Expr::ChanAlloc`
/// has nowhere to put it, so the size is parsed and dropped and the channel
/// comes out unbuffered. Recorded as a known gap: closing it needs a field
/// on the AST node and a codegen change.
#[test]
fn buffered_chan_alloc_drops_its_size() {
    assert_eq!(sexp(&expr_of("chan[10] of int")), "(chanalloc int)");
}

/// The reference lexes `**=` as one token and reduces `exp Lexpeq exp`
/// (lex.c:113, limbo.y:1123). This front end has no such token, so the
/// statement is rejected in the expression that follows `**`.
#[test]
fn power_assign_is_rejected() {
    let msg = parse_err("implement T;\ntest()\n{\n\tx **= 2;\n}\n");
    assert!(
        msg.contains("unexpected token in expression: Assign"),
        "unexpected message: {msg}"
    );
}

// ── Types ──────────────────────────────────────────────────

/// Parse a type by putting it in a top-level variable declaration.
fn ty_of(src: &str) -> Type {
    let file = parse(&format!("implement T;\nx: {src};\n"));
    match file.decls.into_iter().next().expect("one declaration") {
        Decl::Var(v) => v.ty.expect("declaration should carry a type"),
        other => panic!("expected a variable declaration, got {other:?}"),
    }
}

#[test]
fn type_shapes() {
    // `Foo.Bar` and `Foo->Bar` land in the same qualified node, which is
    // why both render with an arrow.
    let table: &[(&str, &str)] = &[
        ("int", "int"),
        ("byte", "byte"),
        ("big", "big"),
        ("real", "real"),
        ("string", "string"),
        ("array of int", "(array int)"),
        ("array of array of byte", "(array (array byte))"),
        ("list of ref Foo", "(list (ref Foo))"),
        ("chan of list of string", "(chan (list string))"),
        ("ref Draw->Context", "(ref Draw->Context)"),
        ("(int, string)", "(tuple int string)"),
        ("(int, (byte, real))", "(tuple int (tuple byte real))"),
        ("(int)", "int"),
        ("fn(x: int): int", "(fn [int] int)"),
        ("fn(): string", "(fn [] string)"),
        ("fn(x: int, y: string)", "(fn [int string] )"),
        ("Sys", "Sys"),
        ("Sys->FD", "Sys->FD"),
        ("Foo.Bar", "Foo->Bar"),
        ("Set[int]", "Set"),
    ];
    for (src, want) in table {
        assert_eq!(ty_shape(&ty_of(src)), *want, "type `{src}`");
    }
}

// ── Declarations ───────────────────────────────────────────

#[test]
fn multi_name_variable_declaration_keeps_every_name() {
    let file = parse("implement T;\na, b, c: int;\n");
    assert_eq!(file.decls.len(), 1);
    let Decl::Var(v) = &file.decls[0] else {
        panic!("expected a variable declaration");
    };
    assert_eq!(v.names, vec!["a", "b", "c"]);
    assert!(v.init.is_none());
}

#[test]
fn variable_declaration_with_initializer() {
    let file = parse("implement T;\nn: int = 1 + 2;\n");
    let Decl::Var(v) = &file.decls[0] else {
        panic!("expected a variable declaration");
    };
    assert_eq!(v.names, vec!["n"]);
    assert_eq!(sexp(v.init.as_ref().expect("initializer")), "(+ 1 2)");
}

/// `A, B: con iota;` declares both constants. Every name after the first
/// used to be dropped, which silently renumbered the enumeration.
#[test]
fn multi_name_constant_declaration_with_iota() {
    let file = parse("implement T;\nA, B, C: con iota;\n");
    let names: Vec<&str> = file
        .decls
        .iter()
        .map(|d| match d {
            Decl::Const(c) => {
                assert_eq!(sexp(&c.value), "iota");
                c.name.as_str()
            }
            other => panic!("unexpected declaration: {other:?}"),
        })
        .collect();
    assert_eq!(names, vec!["A", "B", "C"]);
}

/// `E: exception (T1, T2)` names a list of types (limbo.y:176). Reading
/// only the first one rejected appl/math/fibonacci.b:22.
#[test]
fn exception_declarations_with_and_without_a_type() {
    let file = parse(
        "implement T;\nE: exception;\nA, B: exception (string, int);\nS: exception (string);\n",
    );
    let Decl::Exception(bare) = &file.decls[0] else {
        panic!("expected an exception declaration");
    };
    assert_eq!(bare.name, "E");
    assert!(bare.ty.is_none());
    let typed: Vec<(&str, String)> = file.decls[1..]
        .iter()
        .map(|d| match d {
            Decl::Exception(e) => (
                e.name.as_str(),
                ty_shape(e.ty.as_ref().expect("exception type")),
            ),
            other => panic!("unexpected declaration: {other:?}"),
        })
        .collect();
    // A one-type list stays that type; it does not become a one-tuple.
    assert_eq!(
        typed,
        vec![
            ("A", "(tuple string int)".to_string()),
            ("B", "(tuple string int)".to_string()),
            ("S", "string".to_string()),
        ]
    );
}

#[test]
fn import_declaration_keeps_every_imported_name() {
    let file = parse("implement T;\nIobuf, Iobufio: import bufio;\n");
    assert_eq!(file.decls.len(), 1);
    let Decl::Import(i) = &file.decls[0] else {
        panic!("expected an import declaration");
    };
    assert_eq!(i.names, vec!["Iobuf", "Iobufio"]);
    assert_eq!(i.module, "bufio");
}

#[test]
fn type_alias_declaration() {
    let file = parse("implement T;\nP: type ref Point;\n");
    let Decl::TypeAlias(t) = &file.decls[0] else {
        panic!("expected a type alias");
    };
    assert_eq!(t.name, "P");
    assert_eq!(ty_shape(&t.ty), "(ref Point)");
}

#[test]
fn top_level_assignment_forms() {
    let file = parse("implement T;\nx = 1;\ny := 2;\n");
    let names: Vec<(&str, String)> = file
        .decls
        .iter()
        .map(|d| match d {
            Decl::Var(v) => (
                v.names[0].as_str(),
                sexp(v.init.as_ref().expect("initializer")),
            ),
            other => panic!("unexpected declaration: {other:?}"),
        })
        .collect();
    assert_eq!(names, vec![("x", "1".to_string()), ("y", "2".to_string())]);
}

#[test]
fn module_declaration_holds_every_member_kind() {
    let file = parse(
        r#"implement T;
T: module {
    PATH: con "/dis/t.dis";
    Alias: type ref Point;
    state: int;
    f, g: fn(x: int): int;
    Point: adt {
        x, y: int;
    };
};
"#,
    );
    let Decl::Module(m) = &file.decls[0] else {
        panic!("expected a module declaration");
    };
    let kinds: Vec<String> = m
        .members
        .iter()
        .map(|mem| match mem {
            ModuleMember::Const(c) => format!("con {}", c.name),
            ModuleMember::TypeAlias(t) => format!("type {}", t.name),
            ModuleMember::Var(v) => format!("var {}", v.names.join(",")),
            ModuleMember::Func(f) => format!("fn {}", f.name),
            ModuleMember::Adt(a) => format!("adt {}", a.name),
            ModuleMember::Exception(e) => format!("exception {}", e.name),
        })
        .collect();
    assert_eq!(
        kinds,
        vec![
            "con PATH",
            "type Alias",
            "var state",
            "fn f",
            "fn g",
            "adt Point",
        ]
    );
    // Both names of `f, g: fn(x: int): int;` keep the whole signature.
    for mem in &m.members {
        if let ModuleMember::Func(sig) = mem {
            assert_eq!(sig.params.len(), 1, "{} lost its parameter", sig.name);
            assert_eq!(ty_shape(sig.ret.as_ref().expect("return type")), "int");
        }
    }
}

#[test]
fn adt_declaration_holds_fields_constants_and_functions() {
    let file = parse(
        r#"implement T;
Point: adt {
    x, y: int;
    next: cyclic ref Point;
    ORIGIN: con 0;
    add: fn(p: self ref Point, q: ref Point): ref Point;
};
"#,
    );
    let Decl::Adt(a) = &file.decls[0] else {
        panic!("expected an ADT declaration");
    };
    let kinds: Vec<String> = a
        .members
        .iter()
        .map(|mem| match mem {
            AdtMember::Field(v) => format!(
                "field {}: {}",
                v.names.join(","),
                ty_shape(v.ty.as_ref().expect("field type"))
            ),
            AdtMember::Const(c) => format!("con {}", c.name),
            AdtMember::Func(f) => format!("fn {}", f.name),
        })
        .collect();
    assert_eq!(
        kinds,
        vec![
            "field x,y: int",
            "field next: (ref Point)",
            "con ORIGIN",
            "fn add",
        ]
    );
    assert!(a.pick.is_none());
}

/// The receiver of an ADT function member is `p: self ref Point`. The
/// `self` marks the parameter; it does not add a level of `ref`.
#[test]
fn self_parameter_keeps_its_own_type() {
    let file = parse(
        r#"implement T;
Point: adt {
    add: fn(p: self ref Point): int;
};
"#,
    );
    let Decl::Adt(a) = &file.decls[0] else {
        panic!("expected an ADT declaration");
    };
    let AdtMember::Func(sig) = &a.members[0] else {
        panic!("expected a function member");
    };
    assert!(sig.params[0].is_self);
    assert_eq!(ty_shape(&sig.params[0].ty), "(ref Point)");
}

/// A module interface declares ADTs with the same rule as the top level,
/// so the type parameters and the `for { ... }` clause belong there too
/// (limbo.y:250-263). module/tables.m:3 and module/alphabet.m:116 use both.
#[test]
fn module_member_adt_with_type_parameters_and_a_for_clause() {
    let file = parse(
        r#"implement T;
Tables: module {
    Table: adt[T] {
        items: array of T;
    };
    Context: adt[V, M] for {
    V =>
        dup: fn(t: self V): V;
    M =>
        mks: fn(s: string): V;
    }
    {
        eval: fn(v: V): int;
    };
};
"#,
    );
    let Decl::Module(m) = &file.decls[0] else {
        panic!("expected a module declaration");
    };
    let names: Vec<&str> = m
        .members
        .iter()
        .map(|mem| match mem {
            ModuleMember::Adt(a) => a.name.as_str(),
            other => panic!("unexpected member: {other:?}"),
        })
        .collect();
    assert_eq!(names, vec!["Table", "Context"]);
}

/// A pick case's fields are `dfields`, so each may be `cyclic`
/// (limbo.y:292 and limbo.y:312). module/json.m:8 declares
/// `mem: cyclic list of (string, ref JValue);`.
#[test]
fn pick_case_field_may_be_cyclic() {
    let file = parse(
        r#"implement T;
JValue: adt {
    pick {
    Object =>
        mem: cyclic list of (string, ref JValue);
    Array =>
        a: cyclic array of ref JValue;
    }
};
"#,
    );
    let Decl::Adt(a) = &file.decls[0] else {
        panic!("expected an ADT declaration");
    };
    let cases = a.pick.as_ref().expect("pick clause");
    let shapes: Vec<String> = cases
        .iter()
        .flat_map(|c| {
            c.fields.iter().map(|f| {
                format!(
                    "{}: {}",
                    f.names.join(","),
                    ty_shape(f.ty.as_ref().expect("field type"))
                )
            })
        })
        .collect();
    assert_eq!(
        shapes,
        vec![
            "mem: (list (tuple string (ref JValue)))",
            "a: (array (ref JValue))",
        ]
    );
}

/// A qualified type name carries its own type arguments, as in
/// `ref Extvalues->Values[ref Abc->Value]` (module/alphabet/abctypes.m:5).
#[test]
fn qualified_type_name_with_type_arguments() {
    assert_eq!(
        ty_shape(&ty_of("ref Extvalues->Values[ref Abc->Value]")),
        "(ref Extvalues->Values)"
    );
    assert_eq!(
        ty_shape(&ty_of("chan of ref Proxy->Typescmd[ref Value]")),
        "(chan (ref Proxy->Typescmd))"
    );
}

#[test]
fn adt_with_a_pick_clause() {
    let file = parse(
        r#"implement T;
Node: adt {
    line: int;
    pick {
    Nil or Empty =>
    Cons =>
        head: int;
        rest: ref Node;
    }
};
"#,
    );
    let Decl::Adt(a) = &file.decls[0] else {
        panic!("expected an ADT declaration");
    };
    let cases = a.pick.as_ref().expect("pick clause");
    assert_eq!(cases.len(), 2);
    assert_eq!(cases[0].tags, vec!["Nil", "Empty"]);
    assert!(cases[0].fields.is_empty(), "the first case has no fields");
    assert_eq!(cases[1].tags, vec!["Cons"]);
    let fields: Vec<String> = cases[1]
        .fields
        .iter()
        .map(|f| {
            format!(
                "{}: {}",
                f.names.join(","),
                ty_shape(f.ty.as_ref().expect("field type"))
            )
        })
        .collect();
    assert_eq!(fields, vec!["head: int", "rest: (ref Node)"]);
}

#[test]
fn polymorphic_declarations_parse_their_type_parameters_away() {
    let file = parse(
        r#"implement T;
Set: adt[T] {
    items: array of T;
};
Pair: adt for { A } {
    a: int;
};
lookup[T](s: T): int
{
    return 0;
}
"#,
    );
    let names: Vec<&str> = file
        .decls
        .iter()
        .map(|d| match d {
            Decl::Adt(a) => a.name.as_str(),
            Decl::Func(f) => f.name.name.as_str(),
            other => panic!("unexpected declaration: {other:?}"),
        })
        .collect();
    assert_eq!(names, vec!["Set", "Pair", "lookup"]);
}

#[test]
fn function_signature_clauses_are_accepted() {
    // `raises`, a `raises` list, and a polymorphic `for` clause all sit
    // between the return type and the body.
    let sources = [
        "implement T;\nf(): int raises (E, F)\n{\n\treturn 0;\n}\n",
        "implement T;\nf(): int raises E\n{\n\treturn 0;\n}\n",
        "implement T;\nf(): int raise (E)\n{\n\treturn 0;\n}\n",
        "implement T;\nf[T](x: T): int for { T => }\n{\n\treturn 0;\n}\n",
    ];
    for src in sources {
        let f = func_of(src);
        assert_eq!(f.name.name, "f");
        assert_eq!(ty_shape(f.sig.ret.as_ref().expect("return type")), "int");
    }
}

#[test]
fn parameter_lists() {
    let f = func_of(
        r#"implement T;
f(a, b: int, s: string, nil: ref Draw->Context, c: chan of int): (int, string)
{
    return (0, "");
}
"#,
    );
    let shapes: Vec<String> = f
        .sig
        .params
        .iter()
        .map(|p| format!("{}: {}", p.names.join(","), ty_shape(&p.ty)))
        .collect();
    assert_eq!(
        shapes,
        vec![
            "a,b: int",
            "s: string",
            "nil: (ref Draw->Context)",
            "c: (chan int)",
        ]
    );
    assert!(f.sig.params[2].is_nil, "the `nil` parameter is marked");
    assert_eq!(
        ty_shape(f.sig.ret.as_ref().expect("return type")),
        "(tuple int string)"
    );
}

#[test]
fn function_type_with_polymorphic_parameters() {
    // `fn[T](...)` appears both as a member signature and as a type.
    let file =
        parse("implement T;\nT: module {\n\tf: fn[T](x: T): int;\n};\ng: fn[T](x: T);\n");
    let Decl::Module(m) = &file.decls[0] else {
        panic!("expected a module declaration");
    };
    let ModuleMember::Func(sig) = &m.members[0] else {
        panic!("expected a function member");
    };
    assert_eq!(sig.params.len(), 1);
    assert_eq!(ty_shape(&ty_of("fn[T](x: T): int")), "(fn [T] int)");
    assert!(matches!(&file.decls[1], Decl::Var(_)));
}

#[test]
fn parameter_name_groups_with_nil_and_a_trailing_comma() {
    let f = func_of("implement T;\nf(nil, nil: int, a: string,)\n{\n\tx = 1;\n}\n");
    let shapes: Vec<String> = f
        .sig
        .params
        .iter()
        .map(|p| format!("{}: {}", p.names.join(","), ty_shape(&p.ty)))
        .collect();
    assert_eq!(shapes, vec!["nil,nil: int", "a: string"]);
}

#[test]
fn variadic_parameter_lists() {
    // `fn(*)` and a trailing `, *` both end the list (limbo.y fnarg).
    for (src, want) in [
        ("implement T;\nf(*)\n{\n\tx = 1;\n}\n", 0),
        ("implement T;\nf(a: int, *)\n{\n\tx = 1;\n}\n", 1),
    ] {
        let f = func_of(src);
        assert_eq!(f.sig.params.len(), want, "parameter count of `{src}`");
    }
}

#[test]
fn qualified_function_definition_with_polymorphic_parameters() {
    let f = func_of("implement T;\nSet[T].add[U](x: int): int\n{\n\treturn x;\n}\n");
    assert_eq!(f.name.qualifier, Some("Set".to_string()));
    assert_eq!(f.name.name, "add");
}

#[test]
fn a_declaration_group_yields_one_declaration_per_name() {
    // Only `import` keeps its names together, because one import binds all
    // of them to the same module.
    let file = parse("implement T;\nA, B: con 1;\nC, D: type int;\nE, F: import m;\n");
    assert_eq!(file.decls.len(), 5);
    assert!(matches!(file.decls[4], Decl::Import(_)));
}

// ── Statements ─────────────────────────────────────────────

#[test]
fn if_else_chain() {
    let stmts = stmts_of(
        r#"implement T;
test()
{
    if (a) x = 1;
    else if (b) x = 2;
    else x = 3;
}
"#,
    );
    let Stmt::If(outer) = &stmts[0] else {
        panic!("expected an if statement");
    };
    assert_eq!(sexp(&outer.cond), "a");
    let Some(else_) = &outer.else_ else {
        panic!("expected an else branch");
    };
    let Stmt::If(inner) = else_.as_ref() else {
        panic!("expected a nested if statement");
    };
    assert_eq!(sexp(&inner.cond), "b");
    assert!(inner.else_.is_some());
}

#[test]
fn if_without_else() {
    let stmts = stmts_of("implement T;\ntest()\n{\n\tif (a) x = 1;\n}\n");
    let Stmt::If(s) = &stmts[0] else {
        panic!("expected an if statement");
    };
    assert!(s.else_.is_none());
}

#[test]
fn loop_statements() {
    let stmts = stmts_of(
        r#"implement T;
test()
{
    while (i < n) i++;
    do i++; while (i < n);
    for (i := 0; i < n; i++) x = i;
    for (;;) break;
}
"#,
    );
    let Stmt::While(w) = &stmts[0] else {
        panic!("expected a while statement");
    };
    assert_eq!(sexp(&w.cond), "(< i n)");
    let Stmt::Do(d) = &stmts[1] else {
        panic!("expected a do statement");
    };
    assert_eq!(sexp(&d.cond), "(< i n)");
    let Stmt::For(f) = &stmts[2] else {
        panic!("expected a for statement");
    };
    assert!(matches!(f.init.as_deref(), Some(Stmt::Expr(_))));
    assert_eq!(sexp(f.cond.as_ref().expect("condition")), "(< i n)");
    assert!(matches!(f.post.as_deref(), Some(Stmt::Expr(_))));
    let Stmt::For(bare) = &stmts[3] else {
        panic!("expected a for statement");
    };
    assert!(bare.init.is_none() && bare.cond.is_none() && bare.post.is_none());
}

#[test]
fn jump_statements() {
    let stmts = stmts_of(
        r#"implement T;
test()
{
    return;
    return 1 + 2;
    break;
    break outer;
    continue;
    continue outer;
    exit;
    spawn worker(c);
    raise "fail:oops";
    raise;
    ;
}
"#,
    );
    assert!(matches!(&stmts[0], Stmt::Return(None, _)));
    let Stmt::Return(Some(e), _) = &stmts[1] else {
        panic!("expected a return with a value");
    };
    assert_eq!(sexp(e), "(+ 1 2)");
    assert!(matches!(&stmts[2], Stmt::Break(None, _)));
    assert!(matches!(&stmts[3], Stmt::Break(Some(l), _) if l == "outer"));
    assert!(matches!(&stmts[4], Stmt::Continue(None, _)));
    assert!(matches!(&stmts[5], Stmt::Continue(Some(l), _) if l == "outer"));
    assert!(matches!(&stmts[6], Stmt::Exit(_)));
    let Stmt::Spawn(e, _) = &stmts[7] else {
        panic!("expected a spawn statement");
    };
    assert_eq!(sexp(e), "(call worker c)");
    assert!(matches!(&stmts[8], Stmt::Raise(Some(_), _)));
    assert!(matches!(&stmts[9], Stmt::Raise(None, _)));
    assert!(matches!(&stmts[10], Stmt::Empty));
}

#[test]
fn labelled_statements() {
    // A label may only precede the statements the reference lets it name
    // (limbo.y stmt: Lid ':' ...).
    for (src, want) in [
        ("out: for (;;) break;", "for"),
        ("out: while (a) break;", "while"),
        ("out: do break; while (a);", "do"),
        ("out: case x { * => break; }", "case"),
        ("out: alt { * => break; }", "alt"),
        ("out: { x = 1; }", "block"),
    ] {
        let stmts = stmts_of(&format!("implement T;\ntest()\n{{\n\t{src}\n}}\n"));
        let Stmt::Label(name, inner) = &stmts[0] else {
            panic!("expected a label for `{src}`, got {:?}", stmts[0]);
        };
        assert_eq!(name, "out");
        let kind = match inner.as_ref() {
            Stmt::For(_) => "for",
            Stmt::While(_) => "while",
            Stmt::Do(_) => "do",
            Stmt::Case(_) => "case",
            Stmt::Alt(_) => "alt",
            Stmt::Pick(_) => "pick",
            Stmt::Block(_) => "block",
            other => panic!("unexpected labelled statement: {other:?}"),
        };
        assert_eq!(kind, want, "labelled statement of `{src}`");
    }
}

#[test]
fn case_statement_patterns() {
    let stmts = stmts_of(
        r#"implement T;
test(x: int)
{
    case x {
    0 or 1 =>
        y = 1;
    2 to 10 =>
        y = 2;
    "s" =>
        y = 3;
    * =>
        y = 4;
    }
}
"#,
    );
    let Stmt::Case(c) = &stmts[0] else {
        panic!("expected a case statement");
    };
    assert_eq!(sexp(&c.expr), "x");
    let shapes: Vec<String> = c
        .arms
        .iter()
        .map(|arm| {
            let parts: Vec<String> = arm
                .patterns
                .iter()
                .map(|p| match p {
                    CasePattern::Expr(e) => sexp(e),
                    CasePattern::Range(lo, hi) => format!("({} to {})", sexp(lo), sexp(hi)),
                    CasePattern::Wildcard => "*".to_string(),
                })
                .collect();
            format!("{} [{}]", parts.join(" or "), arm.body.len())
        })
        .collect();
    assert_eq!(
        shapes,
        vec!["0 or 1 [1]", "(2 to 10) [1]", "\"s\" [1]", "* [1]"]
    );
}

/// A statement that starts with `*` is a dereference, not the wildcard arm.
/// Treating every `*` as an arm opener ended the arm early and then asked
/// for a `=>`, which is what broke appl/cmd/limbo/gen.b:563.
#[test]
fn a_dereference_statement_does_not_open_a_new_arm() {
    let stmts = stmts_of(
        r#"implement T;
test(x: int)
{
    case x {
    0 =>
        next := in.next;
        *in = *b;
        in.next = next;
    * =>
        y = 1;
    }
}
"#,
    );
    let Stmt::Case(c) = &stmts[0] else {
        panic!("expected a case statement");
    };
    assert_eq!(c.arms.len(), 2);
    assert_eq!(c.arms[0].body.len(), 3, "the whole arm body is one arm");
    assert!(matches!(c.arms[1].patterns[0], CasePattern::Wildcard));
}

/// The wildcard may be joined to another pattern with `or`, as in
/// `* or 4 =>` (appl/lib/sets32.b:120) and `* or "disc" =>`
/// (appl/ebook/reader.b:1371).
#[test]
fn wildcard_joined_to_another_pattern_by_or() {
    let stmts = stmts_of(
        r#"implement T;
test(x: int)
{
    case x {
    3 =>
        y = 1;
    * or
    4 =>
        y = 2;
    }
}
"#,
    );
    let Stmt::Case(c) = &stmts[0] else {
        panic!("expected a case statement");
    };
    assert_eq!(c.arms.len(), 2);
    let shapes: Vec<String> = c.arms[1]
        .patterns
        .iter()
        .map(|p| match p {
            CasePattern::Wildcard => "*".to_string(),
            CasePattern::Expr(e) => sexp(e),
            CasePattern::Range(lo, hi) => format!("({} to {})", sexp(lo), sexp(hi)),
        })
        .collect();
    assert_eq!(shapes, vec!["*", "4"]);
}

#[test]
fn case_arm_with_an_empty_body() {
    let stmts = stmts_of(
        r#"implement T;
test(x: int)
{
    case x {
    0 =>
    * =>
        y = 1;
    }
}
"#,
    );
    let Stmt::Case(c) = &stmts[0] else {
        panic!("expected a case statement");
    };
    assert_eq!(c.arms.len(), 2);
    assert!(c.arms[0].body.is_empty());
    assert_eq!(c.arms[1].body.len(), 1);
}

#[test]
fn alt_guard_destinations() {
    let alt = alt_of(
        r#"implement T;
test(c: chan of int, d: chan of (int, int))
{
    alt {
    x := <-c =>
        y = x;
    (a, b) := <-d =>
        y = a;
    z = <-c =>
        y = z;
    arr[i] = <-c =>
        y = 1;
    <-c =>
        y = 2;
    c <-= 3 =>
        y = 3;
    * =>
        y = 4;
    }
}
"#,
    );
    let shapes: Vec<String> = alt
        .arms
        .iter()
        .map(|arm| match &arm.guards[0] {
            AltGuard::Send(chan, val) => format!("send {} {}", sexp(chan), sexp(val)),
            AltGuard::Recv(None, chan) => format!("recv _ {}", sexp(chan)),
            AltGuard::Recv(Some(AltDest::Decl(names)), chan) => {
                format!("recv decl[{}] {}", names.join(","), sexp(chan))
            }
            AltGuard::Recv(Some(AltDest::TupleDecl(names)), chan) => {
                format!("recv tupledecl[{}] {}", names.join(","), sexp(chan))
            }
            AltGuard::Recv(Some(AltDest::Assign(lhs)), chan) => {
                format!("recv assign {} {}", sexp(lhs), sexp(chan))
            }
            AltGuard::Wildcard => "wildcard".to_string(),
        })
        .collect();
    assert_eq!(
        shapes,
        vec![
            "recv decl[x] c",
            "recv tupledecl[a,b] d",
            "recv assign z c",
            "recv assign (index arr i) c",
            "recv _ c",
            "send c 3",
            "wildcard",
        ]
    );
}

#[test]
fn alt_guard_that_is_not_a_communication_is_rejected() {
    let msg = parse_err(
        r#"implement T;
test()
{
    alt {
    x + 1 =>
        y = 1;
    }
}
"#,
    );
    assert!(
        msg.contains("`alt` guard must be"),
        "unexpected message: {msg}"
    );
}

#[test]
fn pick_statement_arms() {
    let stmts = stmts_of(
        r#"implement T;
test(val: ref Node)
{
    pick n := val {
    Cons or Nil =>
        y = 1;
    Leaf =>
        y = 2;
        z = 3;
    * =>
        y = 4;
    }
}
"#,
    );
    let Stmt::Pick(p) = &stmts[0] else {
        panic!("expected a pick statement");
    };
    assert_eq!(p.name, "n");
    assert_eq!(sexp(&p.expr), "val");
    let shapes: Vec<String> = p
        .arms
        .iter()
        .map(|arm| format!("{} [{}]", arm.tags.join(" or "), arm.body.len()))
        .collect();
    assert_eq!(shapes, vec!["Cons or Nil [1]", "Leaf [2]", "* [1]"]);
}

#[test]
fn local_declaration_forms() {
    let stmts = stmts_of(
        r#"implement T;
test()
{
    x: int;
    y, z: string = "s";
    N: con 5;
    A: type ref Point;
    Iobuf: import bufio;
    include "sys.m";
    { w := 1; }
    ;
}
"#,
    );
    let Stmt::VarDecl(bare) = &stmts[0] else {
        panic!("expected a variable declaration");
    };
    assert_eq!(bare.names, vec!["x"]);
    assert!(bare.init.is_none());
    let Stmt::VarDecl(init) = &stmts[1] else {
        panic!("expected a variable declaration");
    };
    assert_eq!(init.names, vec!["y", "z"]);
    assert_eq!(sexp(init.init.as_ref().expect("initializer")), "\"s\"");
    // A local constant and a local type alias bind no storage, so they
    // reach codegen as nothing at all.
    assert!(matches!(&stmts[2], Stmt::Empty));
    assert!(matches!(&stmts[3], Stmt::Empty));
    let Stmt::Import(i) = &stmts[4] else {
        panic!("expected an import statement");
    };
    assert_eq!(i.names, vec!["Iobuf"]);
    assert_eq!(i.module, "bufio");
    assert!(
        matches!(&stmts[5], Stmt::Empty),
        "a local include binds nothing"
    );
    assert!(matches!(&stmts[6], Stmt::Block(_)));
    assert!(matches!(&stmts[7], Stmt::Empty));
}

/// A name followed by a colon is a declaration, a label, or neither, and
/// the three have to stay apart.
#[test]
fn colon_after_a_name_is_classified_by_what_follows() {
    let stmts = stmts_of(
        r#"implement T;
test()
{
    a: int;
    b: for (;;) break;
    c(1);
}
"#,
    );
    assert!(matches!(&stmts[0], Stmt::VarDecl(_)));
    assert!(matches!(&stmts[1], Stmt::Label(_, _)));
    assert!(matches!(&stmts[2], Stmt::Expr(Expr::Call(_, _, _))));
}

#[test]
fn block_with_an_exception_handler() {
    // The handler is skipped rather than kept, so the statement is the
    // block itself.
    let stmts = stmts_of(
        r#"implement T;
test()
{
    {
        x = 1;
    } exception e {
    "fail:*" =>
        x = 2;
    * =>
        x = 3;
    }
    exception {
    "other" =>
        x = 4;
    }
}
"#,
    );
    let Stmt::Block(b) = &stmts[0] else {
        panic!("expected a block statement");
    };
    assert_eq!(b.stmts.len(), 1);
    assert!(matches!(&stmts[1], Stmt::Empty));
}

/// A guard's communication may sit anywhere inside the guard expression.
/// The reference finds it with `hascomm` (typecheck.c:3381-3421) and
/// rewrites the rest of the guard around it (com.c:1208-1242), which makes
/// `reqpool = <-reqdone :: reqpool =>` legal (appl/cmd/wmexport.b:180).
/// This front end only classifies a communication at the top of the guard,
/// so such a guard is reported rather than miscompiled. Known gap: closing
/// it needs the guard expression kept in the AST and codegen support for
/// the rewrite.
#[test]
fn a_nested_communication_in_an_alt_guard_is_reported() {
    let msg = parse_err(
        r#"implement T;
test(reqdone: chan of int)
{
    alt {
    reqpool = <-reqdone :: reqpool =>
        x = 1;
    }
}
"#,
    );
    assert!(
        msg.contains("`alt` guard must be"),
        "unexpected message: {msg}"
    );
}

/// An exception handler pattern may hold brackets of its own, and the
/// scanner that looks for the `=>` has to count them rather than stop at
/// the first one.
#[test]
fn exception_handler_pattern_with_nested_brackets() {
    let stmts = stmts_of(
        r#"implement T;
test()
{
    {
        x = 1;
    } exception e {
    Sys->E(1) or "a[1]" =>
        x = 2;
    * =>
        x = 3;
    }
}
"#,
    );
    assert!(matches!(&stmts[0], Stmt::Block(_)));
}

/// A selector in an expression list is parsed and dropped. The reference
/// only allows selectors in an array initializer (limbo.y initlist), so
/// this path is reached by malformed input; it must not loop or panic.
#[test]
fn selector_in_an_expression_list_is_skipped() {
    assert_eq!(sexp(&expr_of("list of {1 => 2}")), "(listlit 2)");
    assert_eq!(sexp(&expr_of("list of {1 to 3 => 4}")), "(listlit 4)");
    assert_eq!(sexp(&expr_of("list of {1 or 2 => 3}")), "(listlit 3)");
}

/// A basic type in a position where no operand can follow becomes a name
/// rather than a cast.
#[test]
fn basic_type_with_no_operand_is_a_name() {
    assert_eq!(
        sexp(&expr_of("f(int, string)")),
        "(call f Basic(Int) Basic(String))"
    );
}

// ── Errors and recovery ────────────────────────────────────

#[test]
fn malformed_sources_report_a_specific_diagnostic() {
    let table: &[(&str, &str)] = &[
        // Header.
        ("implement 3;\n", "expected identifier"),
        ("implement T, ;\n", "expected identifier"),
        ("implement T\n", "expected Semicolon"),
        (
            "implement T;\ninclude 3;\n",
            "expected string after include",
        ),
        ("implement T;\ninclude \"sys.m\"\n", "expected Semicolon"),
        // Top level.
        (
            "implement T;\nif (x) { }\n",
            "unexpected token at top level",
        ),
        ("implement T;\n}\n", "unexpected token at top level"),
        ("implement T;\n42;\n", "unexpected token at top level"),
        // Truncated declarations.
        ("implement T;\nx: int\n", "expected Semicolon"),
        ("implement T;\nx:\n", "expected type"),
        ("implement T;\nx: int =\n", "unexpected token in expression"),
        (
            "implement T;\nA, B: con\n",
            "unexpected token in expression",
        ),
        ("implement T;\nA, : con 1;\n", "expected identifier"),
        ("implement T;\nx: import\n", "expected identifier"),
        // Unterminated constructs.
        ("implement T;\nT: module { f: fn();\n", "expected RBrace"),
        ("implement T;\nP: adt { x: int;\n", "expected RBrace"),
        ("implement T;\nf()\n{\n\tx = 1;\n", "expected RBrace"),
        ("implement T;\nf(a: int\n", "expected RParen"),
        ("implement T;\nf(a\n", "expected Colon"),
        // A name group that runs into something other than a name.
        ("implement T;\nf(a, *)\n{\n}\n", "expected Colon"),
        (
            "implement T;\nf()\n{\n\tx = (1 + 2;\n}\n",
            "expected RParen",
        ),
        ("implement T;\nf()\n{\n\tx = a[1;\n}\n", "expected RBracket"),
        ("implement T;\nf()\n{\n\tcase x\n}\n", "expected LBrace"),
        ("implement T;\nf()\n{\n\talt x\n}\n", "expected LBrace"),
        (
            "implement T;\nf()\n{\n\tpick x = v { }\n}\n",
            "expected ColonEq",
        ),
        ("implement T;\nf()\n{\n\tdo x = 1;\n}\n", "expected While"),
        // Stray delimiters and malformed expressions.
        (
            "implement T;\nf()\n{\n\t) ;\n}\n",
            "unexpected token in expression",
        ),
        (
            "implement T;\nf()\n{\n\tx = a.;\n}\n",
            "expected identifier",
        ),
        (
            "implement T;\nf()\n{\n\treturn\n}\n",
            "unexpected token in expression",
        ),
        (
            "implement T;\nf()\n{\n\tbreak 1;\n}\n",
            "expected Semicolon",
        ),
        (
            "implement T;\nf()\n{\n\t(a + b) := c;\n}\n",
            "left side of := must be identifier or tuple",
        ),
        (
            "implement T;\nf()\n{\n\t(1, 2) := c;\n}\n",
            "tuple := elements must be identifiers",
        ),
    ];
    for (src, want) in table {
        let msg = parse_err(src);
        assert!(
            msg.contains(want),
            "for {src:?} expected a message containing {want:?}, got {msg:?}"
        );
    }
}

#[test]
fn parser_error_carries_the_file_name_and_place() {
    let tokens = Lexer::new("implement T;\nx: int\n", "prog.b")
        .tokenize()
        .expect("lex should succeed");
    let err = Parser::new(tokens, "prog.b")
        .parse_file()
        .expect_err("parse should fail");
    assert_eq!(err.file, "prog.b");
    assert_eq!(err.span.line, 3);
    assert!(err.to_string().starts_with("prog.b:3:"));
}

/// A malformed statement inside a case arm is skipped up to the next arm,
/// and the surrounding case still parses.
#[test]
fn case_arm_recovers_from_a_malformed_statement() {
    let stmts = stmts_of(
        r#"implement T;
test(x: int)
{
    case x {
    0 =>
        y = ) ;
    * =>
        y = 2;
    }
}
"#,
    );
    let Stmt::Case(c) = &stmts[0] else {
        panic!("expected a case statement");
    };
    assert_eq!(c.arms.len(), 2);
    assert!(
        c.arms[0].body.is_empty(),
        "the malformed statement is dropped"
    );
    assert_eq!(c.arms[1].body.len(), 1);
}

/// A brace where an expression belongs is skipped as a balanced group so
/// that one syntax error does not cascade.
#[test]
fn brace_in_expression_position_is_skipped_as_a_group() {
    let stmts = stmts_of("implement T;\ntest()\n{\n\tx = { a; { b; } };\n}\n");
    assert_eq!(stmts.len(), 1);
    assert_eq!(sexp_of_stmt(&stmts[0]), "(= x nil)");
}

fn sexp_of_stmt(stmt: &Stmt) -> String {
    match stmt {
        Stmt::Expr(e) => sexp(e),
        other => panic!("expected an expression statement, got {other:?}"),
    }
}

/// Every prefix of a rich program has to end in a parse or a diagnostic.
/// The recovery paths (case arms, exception handler bodies, the pick and
/// alt arm scanners, and the balanced-brace skip) are loops over the token
/// stream, so a truncated stream is what would spin them. A panic fails
/// this test and a loop hangs it, which is the signal either way.
#[test]
fn every_truncated_prefix_terminates() {
    let src = r#"implement T;
include "sys.m";
    sys: Sys;
A, B: con iota;
E: exception (string);
T: module {
    PATH: con "/dis/t.dis";
    Node: adt {
        v: int;
        pick {
        Nil =>
        Cons =>
            hd: int;
        }
    };
    init: fn(nil: ref Draw->Context, argv: list of string);
};
init(nil: ref Draw->Context, argv: list of string)
{
    sys = load Sys Sys->PATH;
    a := array[4] of {2 => 1, * => 0};
    l := 1 :: 2 :: nil;
    c := chan of int;
    spawn worker(c);
    for (i := 0; i < len a; i++) {
        case a[i] {
        0 or 1 =>
            continue;
        2 to 3 =>
            break;
        * =>
            x = -i ** 2;
        }
    }
    alt {
    v := <-c =>
        x = v;
    c <-= 1 =>
        x = 2;
    * =>
        x = 3;
    }
    pick n := node {
    Cons =>
        x = n.hd;
    * =>
        x = 0;
    }
    {
        x = 1;
    } exception e {
    "fail:*" =>
        x = 2;
    }
    while (x != 0) do_something(x);
}
"#;
    let tokens = Lexer::new(src, "<test>")
        .tokenize()
        .expect("lex should succeed");
    for n in 0..tokens.len() {
        let mut prefix: Vec<Token> = tokens[..n].to_vec();
        prefix.push(Token {
            kind: TokenKind::Eof,
            span: Span::default(),
        });
        let _ = Parser::new(prefix, "<test>").parse_file();
    }
}

/// The whole program parses, not just its prefixes.
#[test]
fn stray_delimiters_do_not_derail_the_parser() {
    for src in [
        "implement T;\nf()\n{\n\t]\n}\n",
        "implement T;\nf()\n{\n\t{ ] }\n}\n",
        "implement T;\nf()\n{\n\tx = a[)];\n}\n",
        "implement T;\nf()\n{\n\tcase x { ) => y = 1; }\n}\n",
        "implement T;\nf()\n{\n\talt { ) => y = 1; }\n}\n",
        "implement T;\nf()\n{\n\tpick p := v { ) => y = 1; }\n}\n",
        "implement T;\nf()\n{\n\t{ } exception { ) }\n}\n",
        "implement T;\nT: module { ) };\n",
        "implement T;\nP: adt { ) };\n",
        "implement T;\nP: adt { pick { ) } };\n",
    ] {
        let tokens = Lexer::new(src, "<test>")
            .tokenize()
            .expect("lex should succeed");
        // Either outcome is fine; the point is that it returns.
        let _ = Parser::new(tokens, "<test>").parse_file();
    }
}


#[test]
fn a_token_list_without_eof_reads_as_if_one_followed() {
    let mut p = Parser::new(vec![], "<t>");
    let f = p.parse_file().expect("an empty list is an empty file");
    assert!(f.implement.is_empty() && f.includes.is_empty() && f.decls.is_empty());
    let mut tokens = Lexer::new("implement T;", "<t>").tokenize().unwrap();
    tokens.pop();
    let f = Parser::new(tokens, "<t>").parse_file().expect("the missing Eof is supplied");
    assert_eq!(f.implement, vec!["T".to_string()]);
}
