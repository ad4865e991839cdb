use ricevm_limbo::ast::{BasicType, BinOp, ConstDecl, Decl, ExceptionDecl, Expr, ModuleDecl, ModuleMember, QualName, Type, UnaryOp, VarDecl};
use ricevm_limbo::includes::{
    define_const, define_vars, eval_const_expr, extract_module_members, module_consts, register_file_decls, register_module_decl,
    resolve_ast_type, resolve_ast_type_simple, Reals,
};
use ricevm_limbo::lexer::Lexer;
use ricevm_limbo::parser::Parser;
use ricevm_limbo::symtab::{ConstValue, FnType, NameMap, ResolvedType, Symbol, SymbolTable};
use ricevm_limbo::token::Span;

fn module_of(src: &str) -> ModuleDecl {
    let tokens = Lexer::new(src, "<test>").tokenize().expect("lex should succeed");
    let file = Parser::new(tokens, "<test>").parse_file().expect("parse should succeed");
    for d in file.decls {
        if let Decl::Module(m) = d {
            return m;
        }
    }
    panic!("no module in {src}");
}

fn named(qualifier: Option<&str>, name: &str) -> Type {
    Type::Named(QualName { qualifier: qualifier.map(|q| q.to_string()), name: name.to_string() })
}

#[test]
fn simple_resolution_of_declared_types() {
    assert_eq!(resolve_ast_type_simple(&Type::Basic(BasicType::Big)), ResolvedType::Big);
    assert_eq!(
        resolve_ast_type_simple(&Type::List(Box::new(Type::Basic(BasicType::String)))),
        ResolvedType::List(Box::new(ResolvedType::String))
    );
    assert_eq!(resolve_ast_type_simple(&named(Some("Draw"), "Context")), ResolvedType::Adt("Draw.Context".to_string()));
    assert_eq!(resolve_ast_type_simple(&named(None, "Iobuf")), ResolvedType::Adt("Iobuf".to_string()));
    assert_eq!(
        resolve_ast_type_simple(&Type::Tuple(vec![Type::Basic(BasicType::Int), Type::Basic(BasicType::Real)])),
        ResolvedType::Tuple(vec![ResolvedType::Int, ResolvedType::Real])
    );
}

#[test]
fn function_types_flatten_their_parameters() {
    let m = module_of("implement T;\nT: module { f: fn(a, b: int, s: string): big; };\n");
    let map = extract_module_members(&m.members, &Vec::new());
    match map.get("f") {
        Some(Symbol::Func { ty }) => {
            assert_eq!(
                *ty,
                FnType {
                    params: vec![
                        ("a".to_string(), ResolvedType::Int),
                        ("b".to_string(), ResolvedType::Int),
                        ("s".to_string(), ResolvedType::String),
                    ],
                    ret: Some(Box::new(ResolvedType::Big)),
                }
            );
        }
        other => panic!("expected a function, got {other:?}"),
    }
}

#[test]
fn interface_symbols_of_each_member_kind() {
    let m = module_of(
        "implement T;\nT: module {\n PATH: con \"$T\";\n N: con 5;\n x, y: int;\n Ctx: type ref Draw->Context;\n Buf: adt { n: int; };\n};\n",
    );
    let mut m = m;
    m.members.push(ModuleMember::Exception(ExceptionDecl { name: "Oops".to_string(), ty: None, span: Span::default() }));
    let consts = vec![Some(ConstValue::String("$T".to_string())), None];
    let map = extract_module_members(&m.members, &consts);
    assert_eq!(map.len(), 6);
    match map.get("PATH") {
        Some(Symbol::Const { ty, value: ConstValue::String(s) }) => {
            assert_eq!(*ty, ResolvedType::String);
            assert_eq!(s, "$T");
        }
        other => panic!("expected PATH, got {other:?}"),
    }
    assert!(map.get("N").is_none(), "a constant that did not fold is left out");
    assert!(matches!(map.get("x"), Some(Symbol::Var { ty: ResolvedType::Int })));
    assert!(matches!(map.get("y"), Some(Symbol::Var { ty: ResolvedType::Int })));
    match map.get("Ctx") {
        Some(Symbol::Type { resolved }) => {
            assert_eq!(*resolved, ResolvedType::Ref(Box::new(ResolvedType::Adt("Draw.Context".to_string()))))
        }
        other => panic!("expected Ctx, got {other:?}"),
    }
    assert!(matches!(map.get("Buf"), Some(Symbol::Type { resolved: ResolvedType::Adt(n) }) if n == "Buf"));
    assert!(matches!(
        map.get("Oops"),
        Some(Symbol::Const { ty: ResolvedType::String, value: ConstValue::String(n) }) if n == "Oops"
    ));
}

#[test]
fn later_member_replaces_an_earlier_one() {
    let m = module_of("implement T;\nT: module { v: int; v: string; };\n");
    let map = extract_module_members(&m.members, &Vec::new());
    assert_eq!(map.len(), 1);
    assert!(matches!(map.get("v"), Some(Symbol::Var { ty: ResolvedType::String })));
}

#[test]
fn module_declaration_is_registered_and_defined() {
    let m = module_of(
        "implement Test;\nTest: module {\n    PATH: con \"$Test\";\n    init: fn(nil: ref Draw->Context, nil: list of string);\n};\n",
    );
    let mut symtab = SymbolTable::new();
    register_module_decl(&mut symtab, &m, &vec![Some(ConstValue::String("$Test".to_string()))]);
    assert!(symtab.lookup("Test").is_some());
    assert!(matches!(symtab.lookup("Test"), Some(Symbol::Module { name, .. }) if name == "Test"));
    assert!(matches!(symtab.lookup_qualified("Test", "init"), Some(Symbol::Func { .. })));
    assert!(matches!(symtab.lookup_qualified("Test", "PATH"), Some(Symbol::Const { .. })));
}

#[test]
fn variables_resolve_against_the_symbols_in_scope() {
    let mut symtab = SymbolTable::new();
    symtab.define("Point", Symbol::Type { resolved: ResolvedType::Tuple(vec![ResolvedType::Int, ResolvedType::Int]) });
    symtab.register_module("Sys", NameMap::new());
    symtab.define("Sys", Symbol::Module { name: "Sys".to_string(), members: NameMap::new() });
    assert_eq!(
        resolve_ast_type(Some(&named(None, "Point")), &symtab),
        ResolvedType::Tuple(vec![ResolvedType::Int, ResolvedType::Int])
    );
    assert_eq!(resolve_ast_type(Some(&named(None, "Sys")), &symtab), ResolvedType::Module("Sys".to_string()));
    assert_eq!(resolve_ast_type(Some(&named(None, "Other")), &symtab), ResolvedType::Adt("Other".to_string()));
    assert_eq!(resolve_ast_type(None, &symtab), ResolvedType::Unknown);
    let v = VarDecl {
        names: vec!["sys".to_string(), "sys2".to_string()],
        ty: Some(named(None, "Sys")),
        init: None,
        span: Span::default(),
    };
    define_vars(&mut symtab, &v);
    assert!(matches!(symtab.lookup("sys"), Some(Symbol::Var { ty: ResolvedType::Module(n) }) if n == "Sys"));
    assert!(matches!(symtab.lookup("sys2"), Some(Symbol::Var { .. })));
}

#[test]
fn included_constants_are_defined_when_they_fold() {
    let tokens = Lexer::new("implement T;\nMAX: con 10;\nBAD: con f();\n", "<test>").tokenize().unwrap();
    let file = Parser::new(tokens, "<test>").parse_file().unwrap();
    let mut symtab = SymbolTable::new();
    for d in &file.decls {
        if let Decl::Const(c) = d {
            let value = if c.name == "MAX" { Some(ConstValue::Int(10)) } else { None };
            define_const(&mut symtab, c, value);
        }
    }
    assert!(matches!(symtab.lookup("MAX"), Some(Symbol::Const { ty: ResolvedType::Int, value: ConstValue::Int(10) })));
    assert!(symtab.lookup("BAD").is_none());
}

#[test]
fn a_variable_named_like_its_type_shadows_it_for_later_names() {
    let mut symtab = SymbolTable::new();
    symtab.define("Point", Symbol::Type { resolved: ResolvedType::Int });
    let v = VarDecl {
        names: vec!["a".to_string(), "Point".to_string(), "b".to_string(), "a".to_string()],
        ty: Some(named(None, "Point")),
        init: None,
        span: Span::default(),
    };
    define_vars(&mut symtab, &v);
    assert!(matches!(symtab.lookup("Point"), Some(Symbol::Var { ty: ResolvedType::Int })));
    assert!(matches!(symtab.lookup("b"), Some(Symbol::Var { ty: ResolvedType::Adt(n) }) if n == "Point"));
    assert!(matches!(symtab.lookup("a"), Some(Symbol::Var { ty: ResolvedType::Adt(n) }) if n == "Point"));
}

struct TestReals;

impl Reals for TestReals {
    fn parse_real(&self, text: &str) -> Option<u64> {
        text.parse::<f64>().ok().map(f64::to_bits)
    }

    fn arith(&self, a: u64, op: BinOp, b: u64) -> u64 {
        let (a, b) = (f64::from_bits(a), f64::from_bits(b));
        let v = match op {
            BinOp::Add => a + b,
            BinOp::Sub => a - b,
            BinOp::Mul => a * b,
            _ => a / b,
        };
        v.to_bits()
    }

    fn from_int(&self, v: i64) -> u64 {
        (v as f64).to_bits()
    }
}

fn lit(v: i64) -> Expr {
    Expr::IntLit(v, Span::default())
}

#[test]
fn eval_const_int() {
    let expr = Expr::IntLit(42, Span::default());
    assert!(matches!(eval_const_expr(&expr, 0, &NameMap::new(), &TestReals), Some(ConstValue::Int(42))));
}

#[test]
fn eval_const_add() {
    let expr = Expr::Binary(Box::new(lit(10)), BinOp::Add, Box::new(lit(32)), Span::default());
    assert!(matches!(eval_const_expr(&expr, 0, &NameMap::new(), &TestReals), Some(ConstValue::Int(42))));
}

#[test]
fn eval_const_shift() {
    let expr = Expr::Binary(Box::new(lit(1)), BinOp::Lshift, Box::new(lit(8)), Span::default());
    assert!(matches!(eval_const_expr(&expr, 0, &NameMap::new(), &TestReals), Some(ConstValue::Int(256))));
}

#[test]
fn eval_const_neg() {
    let expr = Expr::Unary(UnaryOp::Neg, Box::new(lit(7)), Span::default());
    assert!(matches!(eval_const_expr(&expr, 0, &NameMap::new(), &TestReals), Some(ConstValue::Int(-7))));
}

#[test]
fn eval_const_string() {
    let expr = Expr::StringLit("hello".to_string(), Span::default());
    assert!(
        matches!(eval_const_expr(&expr, 0, &NameMap::new(), &TestReals), Some(ConstValue::String(s)) if s == "hello")
    );
}

#[test]
fn folding_uses_iota_earlier_constants_and_reals() {
    let span = Span { line: 3, col: 1 };
    let iota = Expr::Ident("iota".to_string(), span);
    let mut prior = NameMap::new();
    prior.insert("K".to_string(), ConstValue::Int(5));
    let k = Expr::Ident("K".to_string(), span);
    let sum = Expr::Binary(Box::new(iota), BinOp::Mul, Box::new(k), span);
    assert!(matches!(eval_const_expr(&sum, 3, &prior, &TestReals), Some(ConstValue::Int(15))));
    let unknown = Expr::Ident("Nope".to_string(), span);
    assert!(eval_const_expr(&unknown, 0, &prior, &TestReals).is_none());
    let half = Expr::RealLit("0.5".to_string(), span);
    let twice = Expr::Binary(Box::new(half), BinOp::Mul, Box::new(lit(2)), span);
    match eval_const_expr(&twice, 0, &prior, &TestReals) {
        Some(ConstValue::Real(b)) => assert_eq!(f64::from_bits(b), 1.0),
        other => panic!("unexpected {other:?}"),
    }
    let neg = Expr::Unary(UnaryOp::Neg, Box::new(Expr::RealLit("2.5".to_string(), span)), span);
    match eval_const_expr(&neg, 0, &prior, &TestReals) {
        Some(ConstValue::Real(b)) => assert_eq!(f64::from_bits(b), -2.5),
        other => panic!("unexpected {other:?}"),
    }
    let cast = Expr::Cast(Box::new(Type::Basic(BasicType::Int)), Box::new(Expr::RealLit("2.75".to_string(), span)), span);
    assert!(matches!(eval_const_expr(&cast, 0, &prior, &TestReals), Some(ConstValue::Int(2))));
    let text = Expr::Cast(Box::new(Type::Basic(BasicType::String)), Box::new(lit(-12)), span);
    assert!(matches!(eval_const_expr(&text, 0, &prior, &TestReals), Some(ConstValue::String(s)) if s == "-12"));
    let min_neg = Expr::Unary(UnaryOp::Neg, Box::new(lit(i64::MIN)), span);
    assert!(matches!(eval_const_expr(&min_neg, 0, &prior, &TestReals), Some(ConstValue::Int(i64::MIN))));
}

#[test]
fn iota_counts_within_a_declaration_and_restarts() {
    let a = Span { line: 2, col: 5 };
    let b = Span { line: 3, col: 5 };
    let iota = |s: Span| Expr::Ident("iota".to_string(), s);
    let con = |name: &str, value: Expr, span: Span| {
        ModuleMember::Const(ConstDecl { name: name.to_string(), ty: None, value, span })
    };
    let members = vec![
        con("A", iota(a), a),
        con("B", iota(a), a),
        con("C", iota(b), b),
        con("D", Expr::Binary(Box::new(Expr::Ident("B".to_string(), b)), BinOp::Add, Box::new(lit(10)), b), b),
    ];
    let out = module_consts(&members, &TestReals);
    let ints: Vec<Option<i64>> = out
        .iter()
        .map(|v| match v {
            Some(ConstValue::Int(n)) => Some(*n),
            _ => None,
        })
        .collect();
    assert_eq!(ints, vec![Some(0), Some(1), Some(0), Some(11)]);
}

#[test]
fn process_includes_extracts_module_decl() {
    let src = r#"implement Test;
Test: module {
    PATH: con "$Test";
    init: fn(nil: ref Draw->Context, nil: list of string);
};
"#;
    let tokens = Lexer::new(src, "<test>").tokenize().ok().unwrap_or_default();
    let file = Parser::new(tokens, "<test>")
        .parse_file()
        .ok()
        .unwrap_or_else(|| ricevm_limbo::ast::SourceFile { implement: vec![], includes: vec![], decls: vec![] });
    let mut symtab = SymbolTable::new();
    register_file_decls(&file, &mut symtab, &TestReals);
    assert!(symtab.lookup("Test").is_some());
}
