use ricevm_limbo::ast::{AdtDecl, BasicType, BinOp, Decl, Expr, Type, VarDecl};
use ricevm_limbo::codegen::{
    align_up, compute_adt_layout, decl_array_elem_type, decl_chan_elem_type, describe_expr_kind, is_byte_cast,
    pointer_map_for, unsupported_call_target, compute_adt_shape, compute_tuple_layout, compute_variant_layout,
    resolved_adt_name, resolved_num_kind, resolved_val_type, sys_return_kind, sys_return_val_type,
    tuple_field_index, type_is_ptr, type_size_align, ConstVal, ElemKind, IotaCounter, NumKind, ValType,
    mid_fp, mid_imm, mid_unused, op_fp, op_fp_ind, op_imm, op_mp, op_unused, Slot,
    type_basic, type_num_kind, val_type_of, const_big, const_byte, const_word, mov_opcode,
    mov_opcode_for_type, newc_opcode, Opcode, fold_exact_binary, fold_int_binary,
};
use ricevm_limbo::writer::{
    write_middle_operand, write_operand, AddressMode, MiddleMode, MiddleOperand, Operand,
};
use ricevm_limbo::lexer::Lexer;
use ricevm_limbo::parser::Parser;
use ricevm_limbo::symtab::{ConstValue, ResolvedType};
use ricevm_limbo::token::Span;

fn basic(b: BasicType) -> Type {
    Type::Basic(b)
}

fn adt_of(src: &str) -> AdtDecl {
    let tokens = Lexer::new(src, "<test>").tokenize().expect("lex should succeed");
    let file = Parser::new(tokens, "<test>").parse_file().expect("parse should succeed");
    for d in file.decls {
        if let Decl::Adt(a) = d {
            return a;
        }
    }
    panic!("no adt in {src}");
}

#[test]
fn num_kind_widths() {
    assert_eq!(NumKind::Word.byte_size(), 4);
    assert_eq!(NumKind::Big.byte_size(), 8);
    assert_eq!(NumKind::Real.byte_size(), 8);
    assert!(NumKind::Word < NumKind::Big && NumKind::Big < NumKind::Real);
}

#[test]
fn elem_kinds() {
    assert_eq!(ElemKind::of(&basic(BasicType::Byte)), ElemKind::Byte);
    assert_eq!(ElemKind::of(&basic(BasicType::Int)), ElemKind::Word);
    assert_eq!(ElemKind::of(&basic(BasicType::Big)), ElemKind::Big);
    assert_eq!(ElemKind::of(&basic(BasicType::Real)), ElemKind::Real);
    assert_eq!(ElemKind::of(&basic(BasicType::String)), ElemKind::Ptr);
    assert_eq!(ElemKind::of(&Type::List(Box::new(basic(BasicType::Int)))), ElemKind::Ptr);
    assert_eq!(ElemKind::Byte.byte_size(), 1);
    assert_eq!(ElemKind::Word.byte_size(), 4);
    assert_eq!(ElemKind::Big.byte_size(), 8);
    assert_eq!(ElemKind::Real.byte_size(), 8);
    assert_eq!(ElemKind::Ptr.byte_size(), 4);
    assert!(ElemKind::Ptr.is_ptr());
    assert!(!ElemKind::Word.is_ptr());
    assert_eq!(ElemKind::Byte.basic(), BasicType::Byte);
    assert_eq!(ElemKind::Word.basic(), BasicType::Int);
    assert_eq!(ElemKind::Ptr.basic(), BasicType::String);
}

#[test]
fn iota_counts_within_a_declaration_and_restarts_at_the_next() {
    let a = Span { line: 3, col: 1 };
    let b = Span { line: 4, col: 1 };
    let mut iota = IotaCounter::default();
    assert_eq!(iota.next(a), 0);
    assert_eq!(iota.next(a), 1);
    assert_eq!(iota.next(a), 2);
    assert_eq!(iota.next(b), 0);
    assert_eq!(iota.next(b), 1);
    assert_eq!(iota.next(a), 0);
}

#[test]
fn tuple_field_names() {
    assert_eq!(tuple_field_index("t0"), Some(0));
    assert_eq!(tuple_field_index("t12"), Some(12));
    assert_eq!(tuple_field_index("t+3"), Some(3));
    assert_eq!(tuple_field_index("t"), None);
    assert_eq!(tuple_field_index("x0"), None);
    assert_eq!(tuple_field_index("t1a"), None);
    assert_eq!(tuple_field_index("t-1"), None);
    assert_eq!(tuple_field_index(""), None);
    assert_eq!(tuple_field_index("t99999999999999999999999"), None);
}

#[test]
fn sys_builtin_return_shapes() {
    assert_eq!(sys_return_kind("seek"), NumKind::Big);
    assert_eq!(sys_return_kind("read"), NumKind::Word);
    for name in ["fildes", "open", "create", "fstat", "stat", "dirread", "dial", "announce", "listen"] {
        assert_eq!(sys_return_val_type(name), ValType::Ptr, "{name}");
    }
    assert_eq!(sys_return_val_type("print"), ValType::Word);
}

#[test]
fn resolved_type_classification() {
    let adt = ResolvedType::Adt("Sys.FD".to_string());
    assert_eq!(resolved_adt_name(&adt), Some("FD".to_string()));
    assert_eq!(resolved_adt_name(&ResolvedType::Adt("Plain".to_string())), Some("Plain".to_string()));
    assert_eq!(resolved_adt_name(&ResolvedType::Adt("a.b.".to_string())), Some(String::new()));
    let wrapped = ResolvedType::Ref(Box::new(ResolvedType::List(Box::new(ResolvedType::Array(Box::new(adt))))));
    assert_eq!(resolved_adt_name(&wrapped), Some("FD".to_string()));
    assert_eq!(resolved_adt_name(&ResolvedType::Int), None);
    assert_eq!(resolved_num_kind(&ResolvedType::Big), NumKind::Big);
    assert_eq!(resolved_num_kind(&ResolvedType::Real), NumKind::Real);
    assert_eq!(resolved_num_kind(&ResolvedType::String), NumKind::Word);
    assert_eq!(resolved_val_type(&ResolvedType::Array(Box::new(ResolvedType::Int))), ValType::Array);
    assert_eq!(resolved_val_type(&ResolvedType::String), ValType::Ptr);
    assert_eq!(resolved_val_type(&ResolvedType::Int), ValType::Word);
}

#[test]
fn align_up_rounds_to_the_alignment() {
    assert_eq!(align_up(0, 4), 0);
    assert_eq!(align_up(1, 4), 4);
    assert_eq!(align_up(4, 4), 4);
    assert_eq!(align_up(5, 8), 8);
    assert_eq!(align_up(12, 8), 16);
    assert_eq!(align_up(7, 1), 7);
}

#[test]
fn tuple_layout_aligns_each_field() {
    let fields = vec![basic(BasicType::Int), basic(BasicType::Big), basic(BasicType::String), basic(BasicType::Byte)];
    let layout = compute_tuple_layout(&fields);
    let offsets: Vec<i32> = layout.fields.iter().map(|f| f.1).collect();
    assert_eq!(offsets, vec![0, 8, 16, 20]);
    assert_eq!(layout.size, 24);
    assert_eq!(layout.ptr_offsets, vec![16]);
    assert_eq!(layout.field(1).map(|f| f.1), Some(8));
    assert!(layout.field(4).is_none());
}

#[test]
fn empty_tuple_is_one_word() {
    let layout = compute_tuple_layout(&Vec::new());
    assert_eq!(layout.size, 4);
    assert!(layout.fields.is_empty());
}

#[test]
fn nested_tuple_is_stored_inline() {
    let inner = Type::Tuple(vec![basic(BasicType::Int), basic(BasicType::Real)]);
    assert_eq!(type_size_align(&inner), (16, 8));
    let outer = vec![basic(BasicType::Byte), inner];
    let layout = compute_tuple_layout(&outer);
    let offsets: Vec<i32> = layout.fields.iter().map(|f| f.1).collect();
    assert_eq!(offsets, vec![0, 8]);
    assert_eq!(layout.size, 24);
    assert_eq!(type_size_align(&basic(BasicType::String)), (4, 4));
    assert!(type_is_ptr(&basic(BasicType::String)));
    assert!(!type_is_ptr(&basic(BasicType::Big)));
}

#[test]
fn adt_layout_places_each_name() {
    let adt = adt_of("implement T;\nA: adt { x, y: int; s: string; b: big; };\n");
    let layout = compute_adt_layout(&adt);
    let placed: Vec<(String, i32)> = layout.iter().map(|f| (f.0.clone(), f.2)).collect();
    assert_eq!(
        placed,
        vec![("x".to_string(), 0), ("y".to_string(), 4), ("s".to_string(), 8), ("b".to_string(), 16)]
    );
    let shape = compute_adt_shape(&adt);
    assert_eq!(shape.size, 24);
    assert_eq!(shape.ptr_offsets, vec![8]);
}

#[test]
fn pick_adt_record_covers_every_variant() {
    let adt = adt_of(
        "implement T;\nA: adt { x: int; s: string; pick { P => y: real; Q => z: string; } };\n",
    );
    let common = compute_adt_layout(&adt);
    let placed: Vec<i32> = common.iter().map(|f| f.2).collect();
    assert_eq!(placed, vec![4, 8]);
    let cases = adt.pick.as_ref().expect("a pick adt");
    let p = compute_variant_layout(&adt, &cases[0]);
    assert_eq!(p.iter().map(|f| f.2).collect::<Vec<i32>>(), vec![4, 8, 16]);
    let q = compute_variant_layout(&adt, &cases[1]);
    assert_eq!(q.iter().map(|f| f.2).collect::<Vec<i32>>(), vec![4, 8, 12]);
    let shape = compute_adt_shape(&adt);
    assert_eq!(shape.size, 24);
    assert_eq!(shape.ptr_offsets, vec![8, 12]);
}

#[test]
fn pointer_maps_mark_words_most_significant_bit_first() {
    assert_eq!(pointer_map_for(12, &vec![4, 8, 12, -4]).bytes, vec![0x60]);
    assert_eq!(pointer_map_for(40, &vec![0, 36]).bytes, vec![0x80, 0x40]);
    assert_eq!(pointer_map_for(0, &vec![0]).bytes, Vec::<u8>::new());
    assert_eq!(pointer_map_for(-8, &vec![]).bytes, Vec::<u8>::new());
    assert_eq!(pointer_map_for(33, &vec![32]).bytes, vec![0x00, 0x00]);
}

fn var(ty: Option<Type>, init: Option<Expr>) -> VarDecl {
    VarDecl { names: vec!["v".to_string()], ty, init, span: Span::default() }
}

#[test]
fn element_types_of_declarations() {
    let int = || Type::Basic(BasicType::Int);
    let array_of_int = var(Some(Type::Array(Box::new(int()))), None);
    assert!(matches!(decl_array_elem_type(&array_of_int), Some(Type::Basic(BasicType::Int))));
    let alloc = var(
        None,
        Some(Expr::ArrayAlloc(Box::new(Expr::IntLit(3, Span::default())), Box::new(Type::Basic(BasicType::Byte)), Span::default())),
    );
    assert!(matches!(decl_array_elem_type(&alloc), Some(Type::Basic(BasicType::Byte))));
    assert!(decl_array_elem_type(&var(Some(int()), None)).is_none());
    let chan = var(Some(Type::Chan(Box::new(Type::Basic(BasicType::String)))), None);
    assert!(matches!(decl_chan_elem_type(&chan), Some(Type::Basic(BasicType::String))));
    let chan_alloc = var(None, Some(Expr::ChanAlloc(Box::new(int()), Span::default())));
    assert!(matches!(decl_chan_elem_type(&chan_alloc), Some(Type::Basic(BasicType::Int))));
    assert!(decl_chan_elem_type(&array_of_int).is_none());
}

#[test]
fn unsupported_forms_are_named() {
    let s = Span::default();
    let x = || Box::new(Expr::Ident("x".to_string(), Span::default()));
    assert_eq!(describe_expr_kind(&Expr::Tuple(vec![], s)), "a tuple value");
    assert_eq!(describe_expr_kind(&Expr::Tagof(x(), s)), "`tagof`");
    assert_eq!(describe_expr_kind(&Expr::Nil(s)), "this expression");
    assert_eq!(
        unsupported_call_target(&Expr::Dot(x(), "draw".to_string(), s)),
        "calling the ADT function member `draw` is not supported yet"
    );
    assert_eq!(
        unsupported_call_target(&Expr::Index(x(), x(), s)),
        "calling a function held in an array element is not supported yet"
    );
    assert_eq!(unsupported_call_target(&Expr::Nil(s)), "unsupported call target");
    assert!(is_byte_cast(&Expr::Cast(Box::new(Type::Basic(BasicType::Byte)), x(), s)));
    assert!(!is_byte_cast(&Expr::Cast(Box::new(Type::Basic(BasicType::Int)), x(), s)));
}

#[test]
fn constant_slot_kinds() {
    assert_eq!(ConstVal::Int(5).num_kind(), NumKind::Word);
    assert_eq!(ConstVal::Int(i32::MAX as i64).num_kind(), NumKind::Word);
    assert_eq!(ConstVal::Int(i32::MAX as i64 + 1).num_kind(), NumKind::Big);
    assert_eq!(ConstVal::Int(i32::MIN as i64 - 1).num_kind(), NumKind::Big);
    assert_eq!(ConstVal::Real(1.5f64.to_bits()).num_kind(), NumKind::Real);
    assert_eq!(ConstVal::Str("s".to_string()).num_kind(), NumKind::Word);
    assert_eq!(ConstVal::Str("s".to_string()).val_type(), ValType::Ptr);
    assert_eq!(ConstVal::Real(0).val_type(), ValType::Word);
    assert_eq!(ElemKind::of_values(&vec![ConstVal::Int(1), ConstVal::Real(0)]), ElemKind::Real);
    assert_eq!(ElemKind::of_values(&vec![ConstVal::Real(0), ConstVal::Str(String::new())]), ElemKind::Ptr);
    assert_eq!(ElemKind::of_values(&vec![ConstVal::Int(1)]), ElemKind::Word);
    assert_eq!(ElemKind::of_values(&vec![]), ElemKind::Word);
    assert!(matches!(ConstValue::from(&ConstVal::Str("x".to_string())), ConstValue::String(s) if s == "x"));
    assert!(matches!(ConstVal::from(&ConstValue::Int(7)), ConstVal::Int(7)));
}

#[test]
fn operand_constructors() {
    assert_eq!(op_unused(), Operand { mode: AddressMode::Unused, register1: 0, register2: 0 });
    assert_eq!(op_fp(8), Operand { mode: AddressMode::OffsetIndirectFp, register1: 8, register2: 0 });
    assert_eq!(op_mp(12), Operand { mode: AddressMode::OffsetIndirectMp, register1: 12, register2: 0 });
    assert_eq!(op_imm(-1), Operand { mode: AddressMode::Immediate, register1: -1, register2: 0 });
    assert_eq!(
        op_fp_ind(16, 4),
        Operand { mode: AddressMode::OffsetDoubleIndirectFp, register1: 16, register2: 4 }
    );
    assert_eq!(mid_unused(), MiddleOperand { mode: MiddleMode::Unused, register1: 0 });
    assert_eq!(mid_imm(3), MiddleOperand { mode: MiddleMode::SmallImmediate, register1: 3 });
    assert_eq!(mid_fp(20), MiddleOperand { mode: MiddleMode::SmallOffsetFp, register1: 20 });
    assert_eq!(Slot::Local(40).operand(), op_fp(40));
    assert_eq!(Slot::Global(8).operand(), op_mp(8));
}

#[test]
fn operand_constructors_write_their_registers() {
    let mut buf = Vec::new();
    write_operand(&mut buf, &op_fp_ind(16, 4));
    write_operand(&mut buf, &op_unused());
    write_operand(&mut buf, &op_imm(-1));
    write_middle_operand(&mut buf, &mid_unused());
    write_middle_operand(&mut buf, &mid_fp(20));
    assert_eq!(buf, vec![16, 4, 0x7F, 20]);
}

#[test]
fn numeric_kinds_and_storage_classes_of_types() {
    let list = Type::List(Box::new(basic(BasicType::Int)));
    let array = Type::Array(Box::new(basic(BasicType::Byte)));
    assert_eq!(type_num_kind(&basic(BasicType::Big)), NumKind::Big);
    assert_eq!(type_num_kind(&basic(BasicType::Real)), NumKind::Real);
    assert_eq!(type_num_kind(&basic(BasicType::Int)), NumKind::Word);
    assert_eq!(type_num_kind(&basic(BasicType::String)), NumKind::Word);
    assert_eq!(type_num_kind(&list), NumKind::Word);

    assert_eq!(type_basic(&basic(BasicType::Byte)), Some(BasicType::Byte));
    assert_eq!(type_basic(&array), None);

    assert_eq!(val_type_of(&basic(BasicType::Int)), ValType::Word);
    assert_eq!(val_type_of(&basic(BasicType::Byte)), ValType::Word);
    assert_eq!(val_type_of(&basic(BasicType::Big)), ValType::Word);
    assert_eq!(val_type_of(&basic(BasicType::Real)), ValType::Word);
    assert_eq!(val_type_of(&basic(BasicType::String)), ValType::Ptr);
    assert_eq!(val_type_of(&array), ValType::Array);
    assert_eq!(val_type_of(&list), ValType::Ptr);
}

#[test]
fn move_opcodes_follow_slot_width() {
    assert_eq!(mov_opcode(ValType::Word, NumKind::Word), Opcode::Movw);
    assert_eq!(mov_opcode(ValType::Ptr, NumKind::Word), Opcode::Movp);
    assert_eq!(mov_opcode(ValType::Array, NumKind::Word), Opcode::Movp);
    assert_eq!(mov_opcode(ValType::Ptr, NumKind::Big), Opcode::Movl);
    assert_eq!(mov_opcode(ValType::Word, NumKind::Real), Opcode::Movf);
    assert_eq!(mov_opcode_for_type(&basic(BasicType::Big)), Opcode::Movl);
    assert_eq!(mov_opcode_for_type(&basic(BasicType::Real)), Opcode::Movf);
    assert_eq!(mov_opcode_for_type(&basic(BasicType::Int)), Opcode::Movw);
    assert_eq!(mov_opcode_for_type(&basic(BasicType::Byte)), Opcode::Movw);
    assert_eq!(mov_opcode_for_type(&basic(BasicType::String)), Opcode::Movp);
    assert_eq!(mov_opcode_for_type(&Type::List(Box::new(basic(BasicType::Int)))), Opcode::Movp);
}

#[test]
fn channel_allocation_follows_element_type() {
    assert_eq!(newc_opcode(Some(BasicType::Byte)), Opcode::Newcb);
    assert_eq!(newc_opcode(Some(BasicType::Big)), Opcode::Newcl);
    assert_eq!(newc_opcode(Some(BasicType::Real)), Opcode::Newcf);
    assert_eq!(newc_opcode(Some(BasicType::String)), Opcode::Newcp);
    assert_eq!(newc_opcode(Some(BasicType::Int)), Opcode::Newcw);
    assert_eq!(newc_opcode(None), Opcode::Newcw);
}

#[test]
fn constant_words_bytes_and_bigs() {
    assert_eq!(const_word(&ConstVal::Int(7)), 7);
    assert_eq!(const_word(&ConstVal::Int(0x1_0000_0005)), 5);
    assert_eq!(const_word(&ConstVal::Int(-1)), -1);
    assert_eq!(const_word(&ConstVal::Str("x".to_string())), 0);
    assert_eq!(const_byte(&ConstVal::Int(0x1ff)), 0xff);
    assert_eq!(const_byte(&ConstVal::Int(-2)), 0xfe);
    assert_eq!(const_big(&ConstVal::Int(1 << 40)), 1 << 40);
    assert_eq!(const_big(&ConstVal::Str(String::new())), 0);
    for x in [0.0f64, 0.5, -0.5, 1.0, -1.0, 2.75, -2.75, 1e9, -1e9, 3e9, -3e9, 1e18, -1e18, 1e19, -1e19,
        1e300, -1e300, f64::INFINITY, f64::NEG_INFINITY, f64::NAN, 4503599627370497.0, 9.2e18, 5e-324]
    {
        let v = ConstVal::Real(x.to_bits());
        assert_eq!(const_word(&v), x as i32, "word of {x}");
        assert_eq!(const_big(&v), x as i64, "big of {x}");
        assert_eq!(const_byte(&v), (x as i32) as u8, "byte of {x}");
    }
}

#[test]
fn integer_constants_fold_with_wrapping() {
    assert_eq!(fold_int_binary(10, BinOp::Add, 32), Ok(42));
    assert_eq!(fold_int_binary(1, BinOp::Lshift, 8), Ok(256));
    assert_eq!(fold_int_binary(i64::MAX, BinOp::Add, 1), Ok(i64::MIN));
    assert_eq!(fold_int_binary(i64::MIN, BinOp::Sub, 1), Ok(i64::MAX));
    assert_eq!(fold_int_binary(i64::MAX, BinOp::Mul, 2), Ok(-2));
    assert_eq!(fold_int_binary(-7, BinOp::Div, 2), Ok(-3));
    assert_eq!(fold_int_binary(7, BinOp::Div, -2), Ok(-3));
    assert_eq!(fold_int_binary(-7, BinOp::Mod, 2), Ok(-1));
    assert_eq!(fold_int_binary(7, BinOp::Mod, -2), Ok(1));
    assert_eq!(fold_int_binary(i64::MIN, BinOp::Div, -1), Ok(i64::MIN));
    assert_eq!(fold_int_binary(i64::MIN, BinOp::Mod, -1), Ok(0));
    assert_eq!(fold_int_binary(-16, BinOp::Rshift, 2), Ok(-4));
    assert_eq!(fold_int_binary(1, BinOp::Lshift, 65), Ok(2));
    assert_eq!(fold_int_binary(12, BinOp::And, 10), Ok(8));
    assert_eq!(fold_int_binary(12, BinOp::Or, 10), Ok(14));
    assert_eq!(fold_int_binary(12, BinOp::Xor, 10), Ok(6));
    assert_eq!(fold_int_binary(3, BinOp::Eq, 3), Ok(1));
    assert_eq!(fold_int_binary(3, BinOp::Neq, 3), Ok(0));
    assert_eq!(fold_int_binary(2, BinOp::Lt, 3), Ok(1));
    assert_eq!(fold_int_binary(2, BinOp::Gt, 3), Ok(0));
    assert_eq!(fold_int_binary(3, BinOp::Leq, 3), Ok(1));
    assert_eq!(fold_int_binary(2, BinOp::Geq, 3), Ok(0));
    assert_eq!(fold_int_binary(1, BinOp::Div, 0), Err("constant division by zero".to_string()));
    assert_eq!(fold_int_binary(1, BinOp::Mod, 0), Err("constant division by zero".to_string()));
    assert_eq!(fold_int_binary(2, BinOp::Power, 3), Err("unsupported constant operator Power".to_string()));
    assert_eq!(fold_int_binary(1, BinOp::LogAnd, 1), Err("unsupported constant operator LogAnd".to_string()));
}

#[test]
fn exact_folding_leaves_real_arithmetic_out() {
    let s = |x: &str| ConstVal::Str(x.to_string());
    match fold_exact_binary(&s("hel"), BinOp::Add, &s("lo")) {
        Some(Ok(ConstVal::Str(c))) => assert_eq!(c, "hello"),
        other => panic!("unexpected {other:?}"),
    }
    match fold_exact_binary(&s("a"), BinOp::Sub, &s("b")) {
        Some(Err(m)) => assert_eq!(m, "unsupported constant operator Sub"),
        other => panic!("unexpected {other:?}"),
    }
    match fold_exact_binary(&s("a"), BinOp::Add, &ConstVal::Int(1)) {
        Some(Err(m)) => assert_eq!(m, "unsupported constant operator Add"),
        other => panic!("unexpected {other:?}"),
    }
    match fold_exact_binary(&ConstVal::Int(40), BinOp::Add, &ConstVal::Int(2)) {
        Some(Ok(ConstVal::Int(42))) => {}
        other => panic!("unexpected {other:?}"),
    }
    let r = ConstVal::Real(1.5f64.to_bits());
    assert!(fold_exact_binary(&r, BinOp::Add, &r).is_none());
    assert!(fold_exact_binary(&ConstVal::Int(1), BinOp::Add, &r).is_none());
    assert!(fold_exact_binary(&r, BinOp::Mul, &ConstVal::Int(1)).is_none());
    assert!(fold_exact_binary(&r, BinOp::Add, &s("x")).is_some());
}

#[test]
fn align_up_rounds_to_any_power_of_two() {
    assert_eq!(align_up(5, 4), 8);
    assert_eq!(align_up(8, 4), 8);
    assert_eq!(align_up(0, 8), 0);
    assert_eq!(align_up(12, 8), 16);
    assert_eq!(align_up(17, 16), 32);
    assert_eq!(align_up(-5, 4), -4);
    assert_eq!(align_up(-8, 8), -8);
    assert_eq!(align_up(-1, 64), 0);
    assert_eq!(align_up(1000, 1024), 1024);
}
