use ricevm_limbo::writer::{
    encode_addr_mode, encode_mid_mode, push_be32, push_be64, write_cstring, write_data_header,
    write_data_item, write_dis, write_middle_operand, write_op, write_operand, AddressMode,
    DataItem, Export, Handler, HandlerCase, Header, ImportFunction, ImportModule, Instruction,
    MiddleMode, MiddleOperand, Module, Operand, PointerMap, TypeDescriptor, HAS_HANDLER, XMAGIC,
};

fn op(v: i32) -> Vec<u8> {
    let mut buf = Vec::new();
    write_op(&mut buf, v);
    buf
}

/// The Dis loader's reading of an operand.
fn read_op(b: &[u8]) -> (i32, usize) {
    let b0 = b[0] as i32;
    match b0 & 0xC0 {
        0x00 => (b0, 1),
        0x40 => (b0 - 0x80, 1),
        0x80 => {
            let x = ((b0 & 0x3F) << 8) | b[1] as i32;
            (if x & 0x2000 != 0 { x - 0x4000 } else { x }, 2)
        }
        _ => {
            let x = ((b0 & 0x3F) << 24) | (b[1] as i32) << 16 | (b[2] as i32) << 8 | b[3] as i32;
            (if x & 0x2000_0000 != 0 { x - 0x4000_0000 } else { x }, 4)
        }
    }
}

#[test]
fn operand_encodings() {
    assert_eq!(op(0), vec![0x00]);
    assert_eq!(op(63), vec![0x3F]);
    assert_eq!(op(-1), vec![0x7F]);
    assert_eq!(op(-64), vec![0x40]);
    assert_eq!(op(64), vec![0x80, 0x40]);
    assert_eq!(op(8191), vec![0x9F, 0xFF]);
    assert_eq!(op(-65), vec![0xBF, 0xBF]);
    assert_eq!(op(-8192), vec![0xA0, 0x00]);
    assert_eq!(op(8192), vec![0xC0, 0x00, 0x20, 0x00]);
    assert_eq!(op(-8193), vec![0xFF, 0xFF, 0xDF, 0xFF]);
    assert_eq!(op(0x1FFF_FFFF), vec![0xDF, 0xFF, 0xFF, 0xFF]);
}

#[test]
fn operands_read_back_as_written() {
    for v in [0, 1, 63, 64, -1, -64, -65, 100, -100, 8191, -8192, 8192, -8193, 1 << 20, -(1 << 20), 0x1FFF_FFFF, -0x2000_0000] {
        let bytes = op(v);
        assert_eq!(read_op(&bytes), (v, bytes.len()), "operand {v}");
    }
}

#[test]
fn cstring_is_nul_terminated() {
    let mut buf = vec![1u8];
    write_cstring(&mut buf, "abc");
    assert_eq!(buf, vec![1, b'a', b'b', b'c', 0]);
    write_cstring(&mut buf, "");
    assert_eq!(buf, vec![1, b'a', b'b', b'c', 0, 0]);
}

#[test]
fn data_header_counts() {
    let mut buf = Vec::new();
    write_data_header(&mut buf, 3, 5, 8);
    assert_eq!(buf, vec![0x35, 0x08]);
    let mut buf = Vec::new();
    write_data_header(&mut buf, 2, 16, 4);
    assert_eq!(buf, vec![0x20, 0x10, 0x04]);
    let mut buf = Vec::new();
    write_data_header(&mut buf, 1, 0, 100);
    assert_eq!(buf, vec![0x10, 0x00, 0x80, 0x64]);
}

fn header(runtime_flags: u32) -> Header {
    Header {
        runtime_flags,
        stack_extent: 4,
        code_size: 1,
        data_size: 0,
        type_size: 1,
        export_size: 1,
        entry_pc: 0,
        entry_type: 0,
    }
}

fn no_operand() -> Operand {
    Operand { mode: AddressMode::Unused, register1: 0, register2: 0 }
}

fn small_module(runtime_flags: u32) -> Module {
    Module {
        header: header(runtime_flags),
        name: "T".to_string(),
        code: vec![Instruction {
            opcode: 0,
            middle: MiddleOperand { mode: MiddleMode::Unused, register1: 0 },
            source: no_operand(),
            destination: no_operand(),
        }],
        types: vec![TypeDescriptor { id: 0, size: 4, pointer_map: PointerMap { bytes: vec![] } }],
        data: vec![],
        exports: vec![Export {
            pc: 0,
            frame_type: 0,
            signature: 0x1234_5678,
            name: "init".to_string(),
        }],
        imports: vec![],
        handlers: vec![],
    }
}

fn item(d: DataItem) -> Vec<u8> {
    let mut buf = Vec::new();
    write_data_item(&mut buf, &d);
    buf
}

#[test]
fn magic_and_flag_values() {
    assert_eq!(XMAGIC, 819248);
    assert_eq!(HAS_HANDLER, 0x20);
    assert_eq!(op(XMAGIC), vec![0xC0, 0x0C, 0x80, 0x30]);
}

#[test]
fn big_endian_words() {
    let mut buf = vec![9];
    push_be32(&mut buf, 0x0102_0304);
    assert_eq!(buf, vec![9, 1, 2, 3, 4]);
    let mut buf = Vec::new();
    push_be64(&mut buf, 0x0102_0304_0506_0708);
    assert_eq!(buf, vec![1, 2, 3, 4, 5, 6, 7, 8]);
}

#[test]
fn mode_numbers() {
    assert_eq!(encode_addr_mode(AddressMode::OffsetIndirectMp), 0);
    assert_eq!(encode_addr_mode(AddressMode::OffsetIndirectFp), 1);
    assert_eq!(encode_addr_mode(AddressMode::Immediate), 2);
    assert_eq!(encode_addr_mode(AddressMode::Unused), 3);
    assert_eq!(encode_addr_mode(AddressMode::OffsetDoubleIndirectMp), 4);
    assert_eq!(encode_addr_mode(AddressMode::OffsetDoubleIndirectFp), 5);
    assert_eq!(encode_mid_mode(MiddleMode::Unused), 0);
    assert_eq!(encode_mid_mode(MiddleMode::SmallImmediate), 1);
    assert_eq!(encode_mid_mode(MiddleMode::SmallOffsetFp), 2);
    assert_eq!(encode_mid_mode(MiddleMode::SmallOffsetMp), 3);
}

#[test]
fn operands_write_their_registers() {
    let mut buf = Vec::new();
    write_operand(&mut buf, &no_operand());
    assert!(buf.is_empty());
    write_operand(&mut buf, &Operand { mode: AddressMode::Immediate, register1: 7, register2: 9 });
    assert_eq!(buf, vec![7]);
    let mut buf = Vec::new();
    write_operand(
        &mut buf,
        &Operand { mode: AddressMode::OffsetDoubleIndirectFp, register1: 8, register2: 100 },
    );
    assert_eq!(buf, vec![8, 0x80, 0x64]);
    let mut buf = Vec::new();
    write_middle_operand(&mut buf, &MiddleOperand { mode: MiddleMode::Unused, register1: 5 });
    assert!(buf.is_empty());
    write_middle_operand(&mut buf, &MiddleOperand { mode: MiddleMode::SmallOffsetMp, register1: 5 });
    assert_eq!(buf, vec![5]);
}

#[test]
fn data_items() {
    assert_eq!(item(DataItem::Bytes { offset: 8, values: vec![1, 2, 3] }), vec![0x13, 0x08, 1, 2, 3]);
    assert_eq!(
        item(DataItem::Words { offset: 0, values: vec![1, -1] }),
        vec![0x22, 0x00, 0, 0, 0, 1, 0xFF, 0xFF, 0xFF, 0xFF]
    );
    assert_eq!(
        item(DataItem::Str { offset: 4, value: "hi".to_string() }),
        vec![0x32, 0x04, b'h', b'i']
    );
    assert_eq!(item(DataItem::Str { offset: 4, value: String::new() }), vec![0x30, 0x00, 0x04]);
    assert_eq!(
        item(DataItem::Str { offset: 0, value: "\u{e9}".to_string() }),
        vec![0x32, 0x00, 0xC3, 0xA9]
    );
    assert_eq!(
        item(DataItem::Reals { offset: 16, values: vec![1.0f64.to_bits()] }),
        vec![0x41, 0x10, 0x3F, 0xF0, 0, 0, 0, 0, 0, 0]
    );
    assert_eq!(
        item(DataItem::Array { offset: 12, element_type: 2, length: 3 }),
        vec![0x51, 0x0C, 0, 0, 0, 2, 0, 0, 0, 3]
    );
    assert_eq!(item(DataItem::SetArray { offset: 0, index: 1 }), vec![0x61, 0, 0, 0, 1]);
    assert_eq!(item(DataItem::RestoreBase), vec![0x70]);
    assert_eq!(
        item(DataItem::Bigs { offset: 20, values: vec![-2] }),
        vec![0x81, 0x14, 0xFF, 0xFF, 0xFF, 0xFF, 0xFF, 0xFF, 0xFF, 0xFE]
    );
    let words = item(DataItem::Words { offset: 4, values: vec![0; 16] });
    assert_eq!(&words[..3], &[0x20, 0x10, 0x04]);
    assert_eq!(words.len(), 3 + 64);
}

#[test]
fn small_module_bytes() {
    let bytes = write_dis(&small_module(0x40));
    let mut expected = vec![0xC0, 0x0C, 0x80, 0x30, 0x80, 0x40, 4, 1, 0, 1, 1, 0, 0];
    expected.extend_from_slice(&[0x00, 0x1B]);
    expected.extend_from_slice(&[0, 4, 0]);
    expected.push(0);
    expected.extend_from_slice(&[b'T', 0]);
    expected.extend_from_slice(&[0, 0, 0x12, 0x34, 0x56, 0x78, b'i', b'n', b'i', b't', 0]);
    expected.push(0);
    assert_eq!(bytes, expected);
}

#[test]
fn instruction_mode_byte() {
    let mut m = small_module(0x40);
    m.code = vec![Instruction {
        opcode: 0x2A,
        middle: MiddleOperand { mode: MiddleMode::SmallImmediate, register1: 5 },
        source: Operand { mode: AddressMode::OffsetIndirectFp, register1: 40, register2: 0 },
        destination: Operand {
            mode: AddressMode::OffsetDoubleIndirectMp,
            register1: 8,
            register2: 100,
        },
    }];
    let bytes = write_dis(&m);
    assert_eq!(&bytes[13..20], &[0x2A, 0x4C, 0x05, 0x28, 0x08, 0x80, 0x64]);
}

#[test]
fn type_descriptor_with_pointer_map() {
    let mut m = small_module(0x40);
    m.types = vec![TypeDescriptor { id: 1, size: 16, pointer_map: PointerMap { bytes: vec![0x80, 0x40] } }];
    let bytes = write_dis(&m);
    assert_eq!(&bytes[15..21], &[1, 16, 2, 0x80, 0x40, 0]);
}

#[test]
fn imports_end_with_a_nul() {
    let mut m = small_module(0x40);
    m.exports = vec![];
    m.imports = vec![ImportModule {
        functions: vec![ImportFunction { signature: 0xDEAD_BEEF, name: "print".to_string() }],
    }];
    let bytes = write_dis(&m);
    let tail = &bytes[bytes.len() - 13..];
    assert_eq!(tail, &[1, 1, 0xDE, 0xAD, 0xBE, 0xEF, b'p', b'r', b'i', b'n', b't', 0, 0]);
}

#[test]
fn handlers_only_with_the_flag() {
    let handler = Handler {
        exception_offset: 8,
        begin_pc: 1,
        end_pc: 5,
        type_descriptor: Some(2),
        cases: vec![
            HandlerCase { name: Some("e".to_string()), pc: 3 },
            HandlerCase { name: None, pc: 4 },
            HandlerCase { name: Some("f".to_string()), pc: 6 },
        ],
    };
    let mut without = small_module(0x40);
    without.handlers = vec![Handler {
        exception_offset: 8,
        begin_pc: 1,
        end_pc: 5,
        type_descriptor: None,
        cases: vec![],
    }];
    assert_eq!(write_dis(&without), write_dis(&small_module(0x40)));

    let mut with = small_module(0x60);
    with.handlers = vec![handler];
    let bytes = write_dis(&with);
    let plain = write_dis(&small_module(0x60));
    assert_eq!(&plain[plain.len() - 2..], &[0, 0]);
    let base = plain.len() - 2;
    assert_eq!(&bytes[..base], &plain[..base]);
    assert_eq!(
        &bytes[base..],
        &[1, 8, 1, 5, 2, 2, b'e', 0, 3, b'f', 0, 6, 4, 0]
    );

    let mut lone = small_module(0x60);
    lone.handlers = vec![Handler {
        exception_offset: 0,
        begin_pc: 0,
        end_pc: 1,
        type_descriptor: None,
        cases: vec![HandlerCase { name: Some("x".to_string()), pc: 2 }],
    }];
    let bytes = write_dis(&lone);
    assert_eq!(&bytes[base..], &[1, 0, 0, 1, 0x7F, 1, b'x', 0, 2, 0x7F, 0]);
}

#[test]
fn header_reads_back() {
    let mut m = small_module(0x60);
    m.header.stack_extent = 100_000;
    m.header.code_size = -3;
    let bytes = write_dis(&m);
    let mut at = 0;
    let mut read = Vec::new();
    for _ in 0..9 {
        let (v, n) = read_op(&bytes[at..]);
        read.push(v);
        at += n;
    }
    assert_eq!(read, vec![XMAGIC, 0x60, 100_000, -3, 0, 1, 1, 0, 0]);
}
