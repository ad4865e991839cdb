//! The Dis module binary format: a module in memory and the bytes it is
//! written as.

use vstd::prelude::*;
use vstd::string::StringSliceAdditionalSpecFns;
use vstd::seq_lib::lemma_concat_associative;
use vstd::utf8::encode_utf8;

verus! {

/// The bytes of the operand `v` in the Dis binary format: one byte for
/// -64..63 (0x00-0x3F for 0..63, 0x40-0x7F for -64..-1), two bytes with an `0b10` prefix for -8192..8191, and four bytes
/// with an `0b11` prefix for everything else (which keeps the low 30 bits).
pub open spec fn op_bytes(v: int) -> Seq<u8> {
    if 0 <= v < 64 {
        seq![v as u8]
    } else if -64 <= v < 0 {
        seq![(v + 128) as u8]
    } else if -8192 <= v < 8192 {
        let w = if v < 0 { v + 0x1_0000 } else { v };
        seq![(0x80 + (w / 0x100) % 64) as u8, (w % 0x100) as u8]
    } else {
        let w = if v < 0 { v + 0x1_0000_0000 } else { v };
        seq![
            (0xC0 + (w / 0x100_0000) % 64) as u8,
            ((w / 0x1_0000) % 0x100) as u8,
            ((w / 0x100) % 0x100) as u8,
            (w % 0x100) as u8,
        ]
    }
}

/// How many bytes the operand starting with `b0` takes.
pub open spec fn op_len(b0: u8) -> int {
    if b0 < 0x80 {
        1
    } else if b0 < 0xC0 {
        2
    } else {
        4
    }
}

/// The value of the operand at the start of `b`, as the Dis loader reads it:
/// the prefix bits choose the width and the bit after them is the sign.
pub open spec fn op_value(b: Seq<u8>) -> int {
    let b0 = b[0] as int;
    if b0 < 0x40 {
        b0
    } else if b0 < 0x80 {
        b0 - 0x80
    } else if b0 < 0xC0 {
        let x = (b0 - 0x80) * 0x100 + b[1] as int;
        if b0 - 0x80 >= 0x20 {
            x - 0x4000
        } else {
            x
        }
    } else {
        let x = (b0 - 0xC0) * 0x100_0000 + b[1] as int * 0x1_0000 + b[2] as int * 0x100 + b[3] as int;
        if b0 - 0xC0 >= 0x20 {
            x - 0x4000_0000
        } else {
            x
        }
    }
}

/// Reading back a two-byte operand gives the value written.
proof fn lemma_op_roundtrip_two(v: int)
    requires
        -8192 <= v < 8192,
        !(-64 <= v < 64),
    ensures
        op_len(op_bytes(v)[0]) == 2 == op_bytes(v).len(),
        op_value(op_bytes(v)) == v,
{
    let b = op_bytes(v);
    let w = if v < 0 { v + 0x1_0000 } else { v };
    let q = w / 0x100;
    let r = w % 0x100;
    assert(0 <= w < 0x1_0000);
    assert(w == q * 0x100 + r && 0 <= r < 0x100) by (nonlinear_arith)
        requires
            q == w / 0x100,
            r == w % 0x100,
            0 <= w;
    assert(0 <= q < 0x100);
    assert(b[0] as int == 0x80 + q % 64);
    assert(b[1] as int == r);
    if v < 0 {
        assert(q >= 0xE0);
        assert(q % 64 == q - 0xC0);
    } else {
        assert(q < 0x20);
        assert(q % 64 == q);
    }
}

/// Reading back a four-byte operand gives the value written.
proof fn lemma_op_roundtrip_four(v: int)
    requires
        -0x2000_0000 <= v < 0x2000_0000,
        !(-8192 <= v < 8192),
    ensures
        op_len(op_bytes(v)[0]) == 4 == op_bytes(v).len(),
        op_value(op_bytes(v)) == v,
{
    let b = op_bytes(v);
    let w = if v < 0 { v + 0x1_0000_0000 } else { v };
    assert(0 <= w < 0x1_0000_0000);
    let h = w / 0x100_0000;
    let b1 = (w / 0x1_0000) % 0x100;
    let b2 = (w / 0x100) % 0x100;
    let b3 = w % 0x100;
    assert(w == h * 0x100_0000 + b1 * 0x1_0000 + b2 * 0x100 + b3) by (nonlinear_arith)
        requires
            h == w / 0x100_0000,
            b1 == (w / 0x1_0000) % 0x100,
            b2 == (w / 0x100) % 0x100,
            b3 == w % 0x100,
            0 <= w;
    assert(0 <= h < 0x100);
    assert(0 <= b1 < 0x100 && 0 <= b2 < 0x100 && 0 <= b3 < 0x100);
    assert(b[0] as int == 0xC0 + h % 64);
    assert(b[1] as int == b1);
    assert(b[2] as int == b2);
    assert(b[3] as int == b3);
    if v < 0 {
        assert(h >= 0xE0);
        assert(h % 64 == h - 0xC0);
    } else {
        assert(h < 0x20);
        assert(h % 64 == h);
    }
}

/// Reading back an operand gives the value written, for every value the
/// four-byte form can hold, and the reader takes exactly the bytes written.
pub proof fn lemma_op_roundtrip(v: int)
    requires
        -0x2000_0000 <= v < 0x2000_0000,
    ensures
        op_len(op_bytes(v)[0]) == op_bytes(v).len(),
        op_value(op_bytes(v)) == v,
{
    let b = op_bytes(v);
    if 0 <= v < 64 {
        assert(b[0] as int == v);
    } else if -64 <= v < 0 {
        assert(b[0] as int == v + 128);
    } else if -8192 <= v < 8192 {
        lemma_op_roundtrip_two(v);
    } else {
        lemma_op_roundtrip_four(v);
    }
}

/// Append the operand `val` in the Dis binary format.
pub fn write_op(buf: &mut Vec<u8>, val: i32)
    ensures
        final(buf)@ == old(buf)@ + op_bytes(val as int),
{
    if 0 <= val && val < 64 {
        buf.push(val as u8);
    } else if -64 <= val && val < 0 {
        buf.push((val + 128) as u8);
    } else if -8192 <= val && val < 8192 {
        let w: u32 = if val < 0 { (val + 0x1_0000) as u32 } else { val as u32 };
        buf.push((0x80 + (w / 0x100) % 64) as u8);
        buf.push((w % 0x100) as u8);
    } else {
        let w: u64 = if val < 0 { (val as i64 + 0x1_0000_0000) as u64 } else { val as u64 };
        buf.push((0xC0 + (w / 0x100_0000) % 64) as u8);
        buf.push(((w / 0x1_0000) % 0x100) as u8);
        buf.push(((w / 0x100) % 0x100) as u8);
        buf.push((w % 0x100) as u8);
    }
    assert(buf@ =~= old(buf)@ + op_bytes(val as int));
}

/// Append the bytes of `s` and a terminating NUL.
pub fn write_cstring(buf: &mut Vec<u8>, s: &str)
    ensures
        final(buf)@ == old(buf)@ + s.spec_bytes() + seq![0u8],
{
    let b = s.as_bytes();
    let mut i: usize = 0;
    while i < b.len()
        invariant
            i <= b@.len(),
            b@ == s.spec_bytes(),
            buf@ == old(buf)@ + b@.take(i as int),
        decreases b.len() - i,
    {
        buf.push(b[i]);
        i = i + 1;
        assert(buf@ =~= old(buf)@ + b@.take(i as int));
    }
    buf.push(0u8);
    assert(b@.take(b@.len() as int) =~= b@);
    assert(buf@ =~= old(buf)@ + s.spec_bytes() + seq![0u8]);
}

/// The bytes that open a data item of `item_type` with `count` elements at
/// `offset`: the type in the high nibble and a count of 1..15 in the low
/// one, or a zero low nibble and the count as an operand; then the offset.
pub open spec fn data_header_bytes(item_type: u8, count: int, offset: int) -> Seq<u8> {
    let t = ((item_type as int * 16) % 256) as u8;
    if 0 < count <= 15 {
        seq![(t + count) as u8] + op_bytes(offset)
    } else {
        seq![t] + op_bytes(count) + op_bytes(offset)
    }
}

/// Append the header of a data item.
pub fn write_data_header(buf: &mut Vec<u8>, item_type: u8, count: i32, offset: i32)
    ensures
        final(buf)@ == old(buf)@ + data_header_bytes(item_type, count as int, offset as int),
{
    let t: u8 = item_type << 4;
    assert(t == ((item_type as int * 16) % 256) as u8) by (bit_vector)
        requires
            t == item_type << 4;
    assert(t & 15 == 0) by (bit_vector)
        requires
            t == item_type << 4;
    if count > 0 && count <= 15 {
        let c: u8 = count as u8;
        let h: u8 = t | c;
        assert(h == t + c) by (bit_vector)
            requires
                h == t | c,
                t & 15 == 0,
                c < 16;
        buf.push(h);
    } else {
        buf.push(t);
        write_op(buf, count);
    }
    write_op(buf, offset);
    assert(buf@ =~= old(buf)@ + data_header_bytes(item_type, count as int, offset as int));
}

/// The magic number of a Dis module without a signature.
pub const XMAGIC: i32 = 819248;

/// The runtime flag of a module that has exception handlers.
pub const HAS_HANDLER: u32 = 0x20;

/// How an operand of an instruction reaches its value.
#[derive(Clone, Copy, Debug, PartialEq, Eq, Structural)]
pub enum AddressMode {
    OffsetIndirectMp,
    OffsetIndirectFp,
    Immediate,
    Unused,
    OffsetDoubleIndirectMp,
    OffsetDoubleIndirectFp,
}

/// How the middle operand of an instruction reaches its value.
#[derive(Clone, Copy, Debug, PartialEq, Eq, Structural)]
pub enum MiddleMode {
    Unused,
    SmallImmediate,
    SmallOffsetFp,
    SmallOffsetMp,
}

/// A source or destination operand.
#[derive(Clone, Copy, Debug, PartialEq, Eq, Structural)]
pub struct Operand {
    pub mode: AddressMode,
    pub register1: i32,
    pub register2: i32,
}

/// The middle operand of an instruction.
#[derive(Clone, Copy, Debug, PartialEq, Eq, Structural)]
pub struct MiddleOperand {
    pub mode: MiddleMode,
    pub register1: i32,
}

/// One instruction: its opcode and three operands.
#[derive(Clone, Copy, Debug, PartialEq, Eq, Structural)]
pub struct Instruction {
    pub opcode: u8,
    pub middle: MiddleOperand,
    pub source: Operand,
    pub destination: Operand,
}

/// Which words of a value hold pointers, one bit per word.
#[derive(Debug)]
pub struct PointerMap {
    pub bytes: Vec<u8>,
}

/// The size and pointer map of a type that frames and records use.
#[derive(Debug)]
pub struct TypeDescriptor {
    pub id: u32,
    pub size: i32,
    pub pointer_map: PointerMap,
}

/// An item that initialises the module data. Reals are held by their
/// IEEE 754 bits.
#[derive(Debug)]
pub enum DataItem {
    Bytes { offset: i32, values: Vec<u8> },
    Words { offset: i32, values: Vec<i32> },
    Str { offset: i32, value: String },
    Reals { offset: i32, values: Vec<u64> },
    Array { offset: i32, element_type: i32, length: i32 },
    SetArray { offset: i32, index: i32 },
    RestoreBase,
    Bigs { offset: i32, values: Vec<i64> },
}

/// A function that the module exports.
#[derive(Debug)]
pub struct Export {
    pub pc: i32,
    pub frame_type: i32,
    pub signature: u32,
    pub name: String,
}

/// A function that the module imports from another module.
#[derive(Debug)]
pub struct ImportFunction {
    pub signature: u32,
    pub name: String,
}

/// The functions imported from one module.
#[derive(Debug)]
pub struct ImportModule {
    pub functions: Vec<ImportFunction>,
}

/// A case of an exception handler: an exception name, or none for the
/// wildcard, and where it goes.
#[derive(Debug)]
pub struct HandlerCase {
    pub name: Option<String>,
    pub pc: i32,
}

/// An exception handler over a range of instructions.
#[derive(Debug)]
pub struct Handler {
    pub exception_offset: i32,
    pub begin_pc: i32,
    pub end_pc: i32,
    pub type_descriptor: Option<u32>,
    pub cases: Vec<HandlerCase>,
}

/// The module header.
#[derive(Clone, Copy, Debug)]
pub struct Header {
    pub runtime_flags: u32,
    pub stack_extent: i32,
    pub code_size: i32,
    pub data_size: i32,
    pub type_size: i32,
    pub export_size: i32,
    pub entry_pc: i32,
    pub entry_type: i32,
}

/// A Dis module.
#[derive(Debug)]
pub struct Module {
    pub header: Header,
    pub name: String,
    pub code: Vec<Instruction>,
    pub types: Vec<TypeDescriptor>,
    pub data: Vec<DataItem>,
    pub exports: Vec<Export>,
    pub imports: Vec<ImportModule>,
    pub handlers: Vec<Handler>,
}

/// The four bytes of `v`, most significant first.
pub open spec fn be32(v: u32) -> Seq<u8> {
    seq![
        (v / 0x100_0000) as u8,
        ((v / 0x1_0000) % 0x100) as u8,
        ((v / 0x100) % 0x100) as u8,
        (v % 0x100) as u8,
    ]
}

/// The eight bytes of `v`, most significant first.
pub open spec fn be64(v: u64) -> Seq<u8> {
    be32((v / 0x1_0000_0000) as u32) + be32((v % 0x1_0000_0000) as u32)
}

/// The UTF-8 bytes of a string and a terminating NUL.
pub open spec fn cstring_bytes(s: Seq<char>) -> Seq<u8> {
    encode_utf8(s) + seq![0u8]
}

/// The bytes of each element of `s` by `f`, one after another.
pub open spec fn concat_map<T>(s: Seq<T>, f: spec_fn(T) -> Seq<u8>) -> Seq<u8>
    decreases s.len(),
{
    if s.len() == 0 {
        Seq::empty()
    } else {
        concat_map(s.drop_last(), f) + f(s.last())
    }
}

/// One more element adds its bytes at the end.
pub proof fn lemma_concat_map_take<T>(s: Seq<T>, f: spec_fn(T) -> Seq<u8>, i: int)
    requires
        0 <= i < s.len(),
    ensures
        concat_map(s.take(i + 1), f) == concat_map(s.take(i), f) + f(s[i]),
{
    assert(s.take(i + 1).drop_last() =~= s.take(i));
}

/// The number of an address mode in an instruction's mode byte.
pub open spec fn addr_mode_code(m: AddressMode) -> u8 {
    match m {
        AddressMode::OffsetIndirectMp => 0,
        AddressMode::OffsetIndirectFp => 1,
        AddressMode::Immediate => 2,
        AddressMode::Unused => 3,
        AddressMode::OffsetDoubleIndirectMp => 4,
        AddressMode::OffsetDoubleIndirectFp => 5,
    }
}

/// The number of a middle mode in an instruction's mode byte.
pub open spec fn mid_mode_code(m: MiddleMode) -> u8 {
    match m {
        MiddleMode::Unused => 0,
        MiddleMode::SmallImmediate => 1,
        MiddleMode::SmallOffsetFp => 2,
        MiddleMode::SmallOffsetMp => 3,
    }
}

/// The bytes of a source or destination operand: none, one register, or
/// two for the double indirect modes.
pub open spec fn operand_bytes(op: Operand) -> Seq<u8> {
    match op.mode {
        AddressMode::Unused => Seq::empty(),
        AddressMode::OffsetDoubleIndirectFp | AddressMode::OffsetDoubleIndirectMp => op_bytes(
            op.register1 as int,
        ) + op_bytes(op.register2 as int),
        _ => op_bytes(op.register1 as int),
    }
}

/// The bytes of a middle operand.
pub open spec fn middle_bytes(m: MiddleOperand) -> Seq<u8> {
    if m.mode == MiddleMode::Unused {
        Seq::empty()
    } else {
        op_bytes(m.register1 as int)
    }
}

/// The mode byte of an instruction: middle, source and destination modes
/// in two, three and three bits.
pub open spec fn mode_byte(i: Instruction) -> u8 {
    (mid_mode_code(i.middle.mode) * 64 + addr_mode_code(i.source.mode) * 8 + addr_mode_code(
        i.destination.mode,
    )) as u8
}

/// The bytes of an instruction.
pub open spec fn instruction_bytes(i: Instruction) -> Seq<u8> {
    seq![i.opcode, mode_byte(i)] + middle_bytes(i.middle) + operand_bytes(i.source) + operand_bytes(
        i.destination,
    )
}

pub open spec fn instruction_fn() -> spec_fn(Instruction) -> Seq<u8> {
    |i: Instruction| instruction_bytes(i)
}

/// The bytes of a type descriptor: id, size, map length, map.
pub open spec fn type_descriptor_bytes(t: TypeDescriptor) -> Seq<u8> {
    op_bytes(t.id as i32 as int) + op_bytes(t.size as int) + op_bytes(
        t.pointer_map.bytes@.len() as i32 as int,
    ) + t.pointer_map.bytes@
}

pub open spec fn type_descriptor_fn() -> spec_fn(TypeDescriptor) -> Seq<u8> {
    |t: TypeDescriptor| type_descriptor_bytes(t)
}

pub open spec fn word_fn() -> spec_fn(i32) -> Seq<u8> {
    |w: i32| be32(w as u32)
}

pub open spec fn real_fn() -> spec_fn(u64) -> Seq<u8> {
    |v: u64| be64(v)
}

pub open spec fn big_fn() -> spec_fn(i64) -> Seq<u8> {
    |v: i64| be64(v as u64)
}

/// The bytes of a data item. An array and the setting of an array index
/// take a count of 1 and their fields as four big-endian bytes.
pub open spec fn data_item_bytes(item: DataItem) -> Seq<u8> {
    match item {
        DataItem::Bytes { offset, values } => data_header_bytes(
            1,
            values@.len() as i32 as int,
            offset as int,
        ) + values@,
        DataItem::Words { offset, values } => data_header_bytes(
            2,
            values@.len() as i32 as int,
            offset as int,
        ) + concat_map(values@, word_fn()),
        DataItem::Str { offset, value } => data_header_bytes(
            3,
            encode_utf8(value@).len() as i32 as int,
            offset as int,
        ) + encode_utf8(value@),
        DataItem::Reals { offset, values } => data_header_bytes(
            4,
            values@.len() as i32 as int,
            offset as int,
        ) + concat_map(values@, real_fn()),
        DataItem::Array { offset, element_type, length } => seq![0x51u8] + op_bytes(offset as int)
            + be32(element_type as u32) + be32(length as u32),
        DataItem::SetArray { offset: _, index } => seq![0x61u8] + be32(index as u32),
        DataItem::RestoreBase => seq![0x70u8],
        DataItem::Bigs { offset, values } => data_header_bytes(
            8,
            values@.len() as i32 as int,
            offset as int,
        ) + concat_map(values@, big_fn()),
    }
}

pub open spec fn data_item_fn() -> spec_fn(DataItem) -> Seq<u8> {
    |d: DataItem| data_item_bytes(d)
}

/// The bytes of an export: pc, frame type, signature, name.
pub open spec fn export_bytes(e: Export) -> Seq<u8> {
    op_bytes(e.pc as int) + op_bytes(e.frame_type as int) + be32(e.signature) + cstring_bytes(
        e.name@,
    )
}

pub open spec fn export_fn() -> spec_fn(Export) -> Seq<u8> {
    |e: Export| export_bytes(e)
}

/// The bytes of an imported function: signature, name.
pub open spec fn import_function_bytes(f: ImportFunction) -> Seq<u8> {
    be32(f.signature) + cstring_bytes(f.name@)
}

pub open spec fn import_function_fn() -> spec_fn(ImportFunction) -> Seq<u8> {
    |f: ImportFunction| import_function_bytes(f)
}

/// The bytes of the imports from one module: their count, then each.
pub open spec fn import_module_bytes(m: ImportModule) -> Seq<u8> {
    op_bytes(m.functions@.len() as i32 as int) + concat_map(m.functions@, import_function_fn())
}

pub open spec fn import_module_fn() -> spec_fn(ImportModule) -> Seq<u8> {
    |m: ImportModule| import_module_bytes(m)
}

/// The import section: the number of modules, each module's imports, and
/// a NUL after them where there is any.
pub open spec fn imports_bytes(imports: Seq<ImportModule>) -> Seq<u8> {
    op_bytes(imports.len() as i32 as int) + concat_map(imports, import_module_fn()) + if imports.len()
        > 0 {
        seq![0u8]
    } else {
        Seq::empty()
    }
}

/// How many cases name an exception.
pub open spec fn named_count(cases: Seq<HandlerCase>) -> nat
    decreases cases.len(),
{
    if cases.len() == 0 {
        0
    } else {
        named_count(cases.drop_last()) + if cases.last().name is Some {
            1nat
        } else {
            0nat
        }
    }
}

/// Where the first wildcard case goes, or -1 where there is none.
pub open spec fn wildcard_pc(cases: Seq<HandlerCase>) -> int
    decreases cases.len(),
{
    if cases.len() == 0 {
        -1
    } else if cases[0].name is None {
        cases[0].pc as int
    } else {
        wildcard_pc(cases.drop_first())
    }
}

/// The bytes of a case that names an exception: its name and pc; a
/// wildcard case writes nothing here.
pub open spec fn named_case_bytes(c: HandlerCase) -> Seq<u8> {
    match c.name {
        Some(n) => cstring_bytes(n@) + op_bytes(c.pc as int),
        None => Seq::empty(),
    }
}

pub open spec fn named_case_fn() -> spec_fn(HandlerCase) -> Seq<u8> {
    |c: HandlerCase| named_case_bytes(c)
}

/// The bytes of a handler: exception offset, pc range, type descriptor
/// (-1 for none), the number of named cases in the low 16 bits, each named
/// case, and the wildcard's pc.
pub open spec fn handler_bytes(h: Handler) -> Seq<u8> {
    op_bytes(h.exception_offset as int) + op_bytes(h.begin_pc as int) + op_bytes(h.end_pc as int)
        + op_bytes(
        match h.type_descriptor {
            Some(t) => t as i32 as int,
            None => -1,
        },
    ) + op_bytes(named_count(h.cases@) as int % 0x1_0000) + concat_map(h.cases@, named_case_fn())
        + op_bytes(wildcard_pc(h.cases@))
}

pub open spec fn handler_fn() -> spec_fn(Handler) -> Seq<u8> {
    |h: Handler| handler_bytes(h)
}

/// The handler section, written only where the runtime flags say the
/// module has handlers: their count, each handler, and a NUL.
pub open spec fn handlers_bytes(flags: u32, handlers: Seq<Handler>) -> Seq<u8> {
    if flags & HAS_HANDLER != 0 {
        op_bytes(handlers.len() as i32 as int) + concat_map(handlers, handler_fn()) + seq![0u8]
    } else {
        Seq::empty()
    }
}

/// The header: the magic number, then the runtime flags and the sizes.
pub open spec fn header_bytes(h: Header) -> Seq<u8> {
    op_bytes(XMAGIC as int) + (op_bytes(h.runtime_flags as i32 as int) + (op_bytes(
        h.stack_extent as int,
    ) + (op_bytes(h.code_size as int) + (op_bytes(h.data_size as int) + (op_bytes(
        h.type_size as int,
    ) + (op_bytes(h.export_size as int) + (op_bytes(h.entry_pc as int) + op_bytes(
        h.entry_type as int,
    ))))))))
}

/// The bytes of a module after its header: code, types, data and a NUL,
/// the name, exports, imports and handlers.
pub open spec fn body_bytes(m: Module) -> Seq<u8> {
    concat_map(m.code@, instruction_fn()) + concat_map(m.types@, type_descriptor_fn())
        + concat_map(m.data@, data_item_fn()) + seq![0u8] + cstring_bytes(m.name@) + concat_map(
        m.exports@,
        export_fn(),
    ) + imports_bytes(m.imports@) + handlers_bytes(m.header.runtime_flags, m.handlers@)
}

/// The bytes of a module: its header, then its body.
pub open spec fn dis_bytes(m: Module) -> Seq<u8> {
    header_bytes(m.header) + body_bytes(m)
}

/// Append the four bytes of `v`, most significant first.
pub fn push_be32(buf: &mut Vec<u8>, v: u32)
    ensures
        final(buf)@ == old(buf)@ + be32(v),
{
    buf.push((v / 0x100_0000) as u8);
    buf.push(((v / 0x1_0000) % 0x100) as u8);
    buf.push(((v / 0x100) % 0x100) as u8);
    buf.push((v % 0x100) as u8);
    assert(buf@ =~= old(buf)@ + be32(v));
}

/// Append the eight bytes of `v`, most significant first.
pub fn push_be64(buf: &mut Vec<u8>, v: u64)
    ensures
        final(buf)@ == old(buf)@ + be64(v),
{
    push_be32(buf, (v / 0x1_0000_0000) as u32);
    push_be32(buf, (v % 0x1_0000_0000) as u32);
    assert(buf@ =~= old(buf)@ + be64(v));
}

/// Append the bytes of `b`.
fn push_bytes(buf: &mut Vec<u8>, b: &[u8])
    ensures
        final(buf)@ == old(buf)@ + b@,
{
    let mut i: usize = 0;
    while i < b.len()
        invariant
            i <= b@.len(),
            buf@ == old(buf)@ + b@.take(i as int),
        decreases b.len() - i,
    {
        buf.push(b[i]);
        i = i + 1;
        assert(buf@ =~= old(buf)@ + b@.take(i as int));
    }
    assert(b@.take(b@.len() as int) =~= b@);
}

/// The number of an address mode in an instruction's mode byte.
pub fn encode_addr_mode(mode: AddressMode) -> (r: u8)
    ensures
        r == addr_mode_code(mode),
{
    match mode {
        AddressMode::OffsetIndirectMp => 0,
        AddressMode::OffsetIndirectFp => 1,
        AddressMode::Immediate => 2,
        AddressMode::Unused => 3,
        AddressMode::OffsetDoubleIndirectMp => 4,
        AddressMode::OffsetDoubleIndirectFp => 5,
    }
}

/// The number of a middle mode in an instruction's mode byte.
pub fn encode_mid_mode(mode: MiddleMode) -> (r: u8)
    ensures
        r == mid_mode_code(mode),
{
    match mode {
        MiddleMode::Unused => 0,
        MiddleMode::SmallImmediate => 1,
        MiddleMode::SmallOffsetFp => 2,
        MiddleMode::SmallOffsetMp => 3,
    }
}

/// Append a middle operand.
pub fn write_middle_operand(buf: &mut Vec<u8>, mid: &MiddleOperand)
    ensures
        final(buf)@ == old(buf)@ + middle_bytes(*mid),
{
    match mid.mode {
        MiddleMode::Unused => {
            assert(buf@ =~= old(buf)@ + middle_bytes(*mid));
        },
        _ => write_op(buf, mid.register1),
    }
}

/// Append a source or destination operand.
pub fn write_operand(buf: &mut Vec<u8>, op: &Operand)
    ensures
        final(buf)@ == old(buf)@ + operand_bytes(*op),
{
    match op.mode {
        AddressMode::Unused => {
            assert(buf@ =~= old(buf)@ + operand_bytes(*op));
        },
        AddressMode::OffsetIndirectFp | AddressMode::OffsetIndirectMp | AddressMode::Immediate => {
            write_op(buf, op.register1);
        },
        AddressMode::OffsetDoubleIndirectFp | AddressMode::OffsetDoubleIndirectMp => {
            write_op(buf, op.register1);
            write_op(buf, op.register2);
            assert(buf@ =~= old(buf)@ + operand_bytes(*op));
        },
    }
}

/// Append an instruction.
fn write_instruction(buf: &mut Vec<u8>, inst: &Instruction)
    ensures
        final(buf)@ == old(buf)@ + instruction_bytes(*inst),
{
    buf.push(inst.opcode);
    let mid_mode = encode_mid_mode(inst.middle.mode);
    let src_mode = encode_addr_mode(inst.source.mode);
    let dst_mode = encode_addr_mode(inst.destination.mode);
    let modes: u8 = (mid_mode << 6) | (src_mode << 3) | dst_mode;
    assert(modes == (mid_mode * 64 + src_mode * 8 + dst_mode) as u8) by (bit_vector)
        requires
            modes == (mid_mode << 6) | (src_mode << 3) | dst_mode,
            mid_mode < 4,
            src_mode < 8,
            dst_mode < 8,
    ;
    buf.push(modes);
    write_middle_operand(buf, &inst.middle);
    write_operand(buf, &inst.source);
    write_operand(buf, &inst.destination);
    assert(buf@ =~= old(buf)@ + instruction_bytes(*inst));
}

/// Append a type descriptor.
fn write_type_descriptor(buf: &mut Vec<u8>, td: &TypeDescriptor)
    ensures
        final(buf)@ == old(buf)@ + type_descriptor_bytes(*td),
{
    write_op(buf, td.id as i32);
    write_op(buf, td.size);
    let map_len = td.pointer_map.bytes.len() as i32;
    write_op(buf, map_len);
    push_bytes(buf, td.pointer_map.bytes.as_slice());
    assert(buf@ =~= old(buf)@ + type_descriptor_bytes(*td));
}

/// Append each word, four big-endian bytes apiece.
fn push_words(buf: &mut Vec<u8>, values: &Vec<i32>)
    ensures
        final(buf)@ == old(buf)@ + concat_map(values@, word_fn()),
{
    let mut i: usize = 0;
    while i < values.len()
        invariant
            i <= values@.len(),
            buf@ == old(buf)@ + concat_map(values@.take(i as int), word_fn()),
        decreases values.len() - i,
    {
        push_be32(buf, values[i] as u32);
        proof {
            lemma_concat_map_take(values@, word_fn(), i as int);
        }
        i = i + 1;
        assert(buf@ =~= old(buf)@ + concat_map(values@.take(i as int), word_fn()));
    }
    assert(values@.take(values@.len() as int) =~= values@);
}

/// Append the bits of each real, eight big-endian bytes apiece.
fn push_reals(buf: &mut Vec<u8>, values: &Vec<u64>)
    ensures
        final(buf)@ == old(buf)@ + concat_map(values@, real_fn()),
{
    let mut i: usize = 0;
    while i < values.len()
        invariant
            i <= values@.len(),
            buf@ == old(buf)@ + concat_map(values@.take(i as int), real_fn()),
        decreases values.len() - i,
    {
        push_be64(buf, values[i]);
        proof {
            lemma_concat_map_take(values@, real_fn(), i as int);
        }
        i = i + 1;
        assert(buf@ =~= old(buf)@ + concat_map(values@.take(i as int), real_fn()));
    }
    assert(values@.take(values@.len() as int) =~= values@);
}

/// Append each big, eight big-endian bytes apiece.
fn push_bigs(buf: &mut Vec<u8>, values: &Vec<i64>)
    ensures
        final(buf)@ == old(buf)@ + concat_map(values@, big_fn()),
{
    let mut i: usize = 0;
    while i < values.len()
        invariant
            i <= values@.len(),
            buf@ == old(buf)@ + concat_map(values@.take(i as int), big_fn()),
        decreases values.len() - i,
    {
        push_be64(buf, values[i] as u64);
        proof {
            lemma_concat_map_take(values@, big_fn(), i as int);
        }
        i = i + 1;
        assert(buf@ =~= old(buf)@ + concat_map(values@.take(i as int), big_fn()));
    }
    assert(values@.take(values@.len() as int) =~= values@);
}

/// Append a data item.
pub fn write_data_item(buf: &mut Vec<u8>, item: &DataItem)
    ensures
        final(buf)@ == old(buf)@ + data_item_bytes(*item),
{
    match item {
        DataItem::Bytes { offset, values } => {
            write_data_header(buf, 1, values.len() as i32, *offset);
            push_bytes(buf, values.as_slice());
        },
        DataItem::Words { offset, values } => {
            write_data_header(buf, 2, values.len() as i32, *offset);
            push_words(buf, values);
        },
        DataItem::Str { offset, value } => {
            let b = value.as_str().as_bytes();
            write_data_header(buf, 3, b.len() as i32, *offset);
            push_bytes(buf, b);
        },
        DataItem::Reals { offset, values } => {
            write_data_header(buf, 4, values.len() as i32, *offset);
            push_reals(buf, values);
        },
        DataItem::Array { offset, element_type, length } => {
            buf.push(0x51u8);
            write_op(buf, *offset);
            push_be32(buf, *element_type as u32);
            push_be32(buf, *length as u32);
        },
        DataItem::SetArray { offset: _, index } => {
            buf.push(0x61u8);
            push_be32(buf, *index as u32);
        },
        DataItem::RestoreBase => {
            buf.push(0x70u8);
        },
        DataItem::Bigs { offset, values } => {
            write_data_header(buf, 8, values.len() as i32, *offset);
            push_bigs(buf, values);
        },
    }
    assert(buf@ =~= old(buf)@ + data_item_bytes(*item));
}

/// Append an export.
fn write_export(buf: &mut Vec<u8>, export: &Export)
    ensures
        final(buf)@ == old(buf)@ + export_bytes(*export),
{
    write_op(buf, export.pc);
    write_op(buf, export.frame_type);
    push_be32(buf, export.signature);
    write_cstring(buf, export.name.as_str());
    assert(buf@ =~= old(buf)@ + export_bytes(*export));
}

/// Append the imports from one module.
fn write_import_module(buf: &mut Vec<u8>, import_mod: &ImportModule)
    ensures
        final(buf)@ == old(buf)@ + import_module_bytes(*import_mod),
{
    let funcs = &import_mod.functions;
    write_op(buf, funcs.len() as i32);
    let ghost start = buf@;
    let mut i: usize = 0;
    while i < funcs.len()
        invariant
            i <= funcs@.len(),
            buf@ == start + concat_map(funcs@.take(i as int), import_function_fn()),
        decreases funcs.len() - i,
    {
        let func = &funcs[i];
        push_be32(buf, func.signature);
        write_cstring(buf, func.name.as_str());
        proof {
            lemma_concat_map_take(funcs@, import_function_fn(), i as int);
        }
        i = i + 1;
        assert(buf@ =~= start + concat_map(funcs@.take(i as int), import_function_fn()));
    }
    assert(funcs@.take(funcs@.len() as int) =~= funcs@);
    assert(buf@ =~= old(buf)@ + import_module_bytes(*import_mod));
}

/// How many cases name an exception.
fn count_named(cases: &Vec<HandlerCase>) -> (r: usize)
    ensures
        r == named_count(cases@),
{
    let mut named: usize = 0;
    let mut k: usize = 0;
    while k < cases.len()
        invariant
            k <= cases@.len(),
            named == named_count(cases@.take(k as int)),
            named <= k,
        decreases cases.len() - k,
    {
        assert(cases@.take(k + 1).drop_last() =~= cases@.take(k as int));
        if cases[k].name.is_some() {
            named = named + 1;
        }
        k = k + 1;
    }
    assert(cases@.take(cases@.len() as int) =~= cases@);
    named
}

/// Where the first wildcard case goes, or -1.
fn first_wildcard_pc(cases: &Vec<HandlerCase>) -> (r: i32)
    ensures
        r as int == wildcard_pc(cases@),
{
    let mut w: usize = 0;
    assert(cases@.skip(0) =~= cases@);
    while w < cases.len() && cases[w].name.is_some()
        invariant
            w <= cases@.len(),
            wildcard_pc(cases@.skip(w as int)) == wildcard_pc(cases@),
        decreases cases.len() - w,
    {
        assert(cases@.skip(w as int).drop_first() =~= cases@.skip(w + 1));
        w = w + 1;
    }
    if w < cases.len() {
        cases[w].pc
    } else {
        -1
    }
}

/// Append the name and pc of each case that names an exception.
fn write_named_cases(buf: &mut Vec<u8>, cases: &Vec<HandlerCase>)
    ensures
        final(buf)@ == old(buf)@ + concat_map(cases@, named_case_fn()),
{
    let mut i: usize = 0;
    while i < cases.len()
        invariant
            i <= cases@.len(),
            buf@ == old(buf)@ + concat_map(cases@.take(i as int), named_case_fn()),
        decreases cases.len() - i,
    {
        let case = &cases[i];
        match &case.name {
            Some(name) => {
                write_cstring(buf, name.as_str());
                write_op(buf, case.pc);
            },
            None => {},
        }
        proof {
            lemma_concat_map_take(cases@, named_case_fn(), i as int);
        }
        i = i + 1;
        assert(buf@ =~= old(buf)@ + concat_map(cases@.take(i as int), named_case_fn()));
    }
    assert(cases@.take(cases@.len() as int) =~= cases@);
}

/// Append a handler.
#[verifier::spinoff_prover]
fn write_handler(buf: &mut Vec<u8>, handler: &Handler)
    ensures
        final(buf)@ == old(buf)@ + handler_bytes(*handler),
{
    write_op(buf, handler.exception_offset);
    write_op(buf, handler.begin_pc);
    write_op(buf, handler.end_pc);
    let td: i32 = match handler.type_descriptor {
        Some(t) => t as i32,
        None => -1,
    };
    write_op(buf, td);
    let named = count_named(&handler.cases);
    let packed: i32 = (named % 0x1_0000) as i32;
    assert(packed as int == named_count(handler.cases@) as int % 0x1_0000);
    write_op(buf, packed);
    let ghost head = buf@;
    write_named_cases(buf, &handler.cases);
    let wildcard = first_wildcard_pc(&handler.cases);
    write_op(buf, wildcard);
    assert(buf@ == head + concat_map(handler.cases@, named_case_fn()) + op_bytes(
        wildcard_pc(handler.cases@),
    ));
    assert(buf@ =~= old(buf)@ + handler_bytes(*handler));
}

/// Append the header.
fn write_header(buf: &mut Vec<u8>, header: &Header)
    ensures
        final(buf)@ == old(buf)@ + header_bytes(*header),
{
    let ghost s0 = buf@;
    write_op(buf, XMAGIC);
    let ghost s1 = buf@;
    write_op(buf, header.runtime_flags as i32);
    let ghost s2 = buf@;
    write_op(buf, header.stack_extent);
    let ghost s3 = buf@;
    write_op(buf, header.code_size);
    let ghost s4 = buf@;
    write_op(buf, header.data_size);
    let ghost s5 = buf@;
    write_op(buf, header.type_size);
    let ghost s6 = buf@;
    write_op(buf, header.export_size);
    let ghost s7 = buf@;
    write_op(buf, header.entry_pc);
    let ghost s8 = buf@;
    write_op(buf, header.entry_type);
    proof {
        let h = *header;
        let o0 = op_bytes(XMAGIC as int);
        let o1 = op_bytes(h.runtime_flags as i32 as int);
        let o2 = op_bytes(h.stack_extent as int);
        let o3 = op_bytes(h.code_size as int);
        let o4 = op_bytes(h.data_size as int);
        let o5 = op_bytes(h.type_size as int);
        let o6 = op_bytes(h.export_size as int);
        let o7 = op_bytes(h.entry_pc as int);
        let o8 = op_bytes(h.entry_type as int);
        let h7 = o7 + o8;
        let h6 = o6 + h7;
        let h5 = o5 + h6;
        let h4 = o4 + h5;
        let h3 = o3 + h4;
        let h2 = o2 + h3;
        let h1 = o1 + h2;
        lemma_concat_associative(s7, o7, o8);
        lemma_concat_associative(s6, o6, h7);
        lemma_concat_associative(s5, o5, h6);
        lemma_concat_associative(s4, o4, h5);
        lemma_concat_associative(s3, o3, h4);
        lemma_concat_associative(s2, o2, h3);
        lemma_concat_associative(s1, o1, h2);
        lemma_concat_associative(s0, o0, h1);
    }
}

/// Append each instruction.
fn write_code(buf: &mut Vec<u8>, code: &Vec<Instruction>)
    ensures
        final(buf)@ == old(buf)@ + concat_map(code@, instruction_fn()),
{
    let mut i: usize = 0;
    while i < code.len()
        invariant
            i <= code@.len(),
            buf@ == old(buf)@ + concat_map(code@.take(i as int), instruction_fn()),
        decreases code.len() - i,
    {
        write_instruction(buf, &code[i]);
        proof {
            lemma_concat_map_take(code@, instruction_fn(), i as int);
        }
        i = i + 1;
        assert(buf@ =~= old(buf)@ + concat_map(code@.take(i as int), instruction_fn()));
    }
    assert(code@.take(code@.len() as int) =~= code@);
}

/// Append each type descriptor.
fn write_types(buf: &mut Vec<u8>, types: &Vec<TypeDescriptor>)
    ensures
        final(buf)@ == old(buf)@ + concat_map(types@, type_descriptor_fn()),
{
    let mut i: usize = 0;
    while i < types.len()
        invariant
            i <= types@.len(),
            buf@ == old(buf)@ + concat_map(types@.take(i as int), type_descriptor_fn()),
        decreases types.len() - i,
    {
        write_type_descriptor(buf, &types[i]);
        proof {
            lemma_concat_map_take(types@, type_descriptor_fn(), i as int);
        }
        i = i + 1;
        assert(buf@ =~= old(buf)@ + concat_map(types@.take(i as int), type_descriptor_fn()));
    }
    assert(types@.take(types@.len() as int) =~= types@);
}

/// Append each data item.
fn write_data(buf: &mut Vec<u8>, data: &Vec<DataItem>)
    ensures
        final(buf)@ == old(buf)@ + concat_map(data@, data_item_fn()),
{
    let mut i: usize = 0;
    while i < data.len()
        invariant
            i <= data@.len(),
            buf@ == old(buf)@ + concat_map(data@.take(i as int), data_item_fn()),
        decreases data.len() - i,
    {
        write_data_item(buf, &data[i]);
        proof {
            lemma_concat_map_take(data@, data_item_fn(), i as int);
        }
        i = i + 1;
        assert(buf@ =~= old(buf)@ + concat_map(data@.take(i as int), data_item_fn()));
    }
    assert(data@.take(data@.len() as int) =~= data@);
}

/// Append each export.
fn write_exports(buf: &mut Vec<u8>, exports: &Vec<Export>)
    ensures
        final(buf)@ == old(buf)@ + concat_map(exports@, export_fn()),
{
    let mut i: usize = 0;
    while i < exports.len()
        invariant
            i <= exports@.len(),
            buf@ == old(buf)@ + concat_map(exports@.take(i as int), export_fn()),
        decreases exports.len() - i,
    {
        write_export(buf, &exports[i]);
        proof {
            lemma_concat_map_take(exports@, export_fn(), i as int);
        }
        i = i + 1;
        assert(buf@ =~= old(buf)@ + concat_map(exports@.take(i as int), export_fn()));
    }
    assert(exports@.take(exports@.len() as int) =~= exports@);
}

/// Append the import section.
fn write_imports(buf: &mut Vec<u8>, imports: &Vec<ImportModule>)
    ensures
        final(buf)@ == old(buf)@ + imports_bytes(imports@),
{
    write_op(buf, imports.len() as i32);
    let ghost start = buf@;
    let mut i: usize = 0;
    while i < imports.len()
        invariant
            i <= imports@.len(),
            buf@ == start + concat_map(imports@.take(i as int), import_module_fn()),
        decreases imports.len() - i,
    {
        write_import_module(buf, &imports[i]);
        proof {
            lemma_concat_map_take(imports@, import_module_fn(), i as int);
        }
        i = i + 1;
        assert(buf@ =~= start + concat_map(imports@.take(i as int), import_module_fn()));
    }
    assert(imports@.take(imports@.len() as int) =~= imports@);
    if imports.len() > 0 {
        buf.push(0x00);
    }
    assert(buf@ =~= old(buf)@ + imports_bytes(imports@));
}

/// Append the handler section where the runtime flags call for one.
fn write_handlers(buf: &mut Vec<u8>, flags: u32, handlers: &Vec<Handler>)
    ensures
        final(buf)@ == old(buf)@ + handlers_bytes(flags, handlers@),
{
    if flags & HAS_HANDLER != 0 {
        write_op(buf, handlers.len() as i32);
        let ghost start = buf@;
        let mut i: usize = 0;
        while i < handlers.len()
            invariant
                i <= handlers@.len(),
                buf@ == start + concat_map(handlers@.take(i as int), handler_fn()),
            decreases handlers.len() - i,
        {
            write_handler(buf, &handlers[i]);
            proof {
                lemma_concat_map_take(handlers@, handler_fn(), i as int);
            }
            i = i + 1;
            assert(buf@ =~= start + concat_map(handlers@.take(i as int), handler_fn()));
        }
        assert(handlers@.take(handlers@.len() as int) =~= handlers@);
        buf.push(0x00);
    }
    assert(buf@ =~= old(buf)@ + handlers_bytes(flags, handlers@));
}

/// Write a module in the Dis binary format.
pub fn write_dis(module: &Module) -> (r: Vec<u8>)
    ensures
        r@ == dis_bytes(*module),
{
    let mut buf: Vec<u8> = Vec::new();
    write_header(&mut buf, &module.header);
    let ghost head = buf@;
    write_code(&mut buf, &module.code);
    write_types(&mut buf, &module.types);
    write_data(&mut buf, &module.data);
    buf.push(0x00);
    write_cstring(&mut buf, module.name.as_str());
    write_exports(&mut buf, &module.exports);
    write_imports(&mut buf, &module.imports);
    write_handlers(&mut buf, module.header.runtime_flags, &module.handlers);
    assert(buf@ =~= head + body_bytes(*module));
    assert(buf@ =~= dis_bytes(*module));
    buf
}

/// Whether `v` fits the four-byte operand form, the widest there is.
pub open spec fn op_fits(v: int) -> bool {
    -0x2000_0000 <= v < 0x2000_0000
}

/// The first `n` operands of `b`, read one after another as the Dis loader
/// reads them.
pub open spec fn read_ops(b: Seq<u8>, n: nat) -> Seq<int>
    decreases n,
{
    if n == 0 || b.len() == 0 {
        Seq::empty()
    } else {
        seq![op_value(b)] + read_ops(b.skip(op_len(b[0])), (n - 1) as nat)
    }
}

/// An operand written in front of other bytes is read back, and the reading
/// goes on with those bytes.
pub proof fn lemma_read_op_prefix(v: int, rest: Seq<u8>, n: nat)
    requires
        op_fits(v),
    ensures
        read_ops(op_bytes(v) + rest, n + 1) == seq![v] + read_ops(rest, n),
{
    let ob = op_bytes(v);
    let b = ob + rest;
    lemma_op_roundtrip(v);
    assert(b[0] == ob[0]);
    assert(forall|k: int| 0 <= k < ob.len() ==> b[k] == ob[k]);
    if ob.len() >= 2 {
        assert(b[1] == ob[1]);
    }
    if ob.len() == 4 {
        assert(b[2] == ob[2]);
        assert(b[3] == ob[3]);
    }
    assert(op_value(b) == op_value(ob));
    assert(b.skip(ob.len() as int) =~= rest);
}

/// Reading a written module from its start gives back the magic number, the
/// runtime flags and the header's sizes, in the order of the header,
/// wherever each of them fits an operand.
pub proof fn lemma_header_reads_back(m: Module)
    requires
        op_fits(m.header.runtime_flags as i32 as int),
        op_fits(m.header.stack_extent as int),
        op_fits(m.header.code_size as int),
        op_fits(m.header.data_size as int),
        op_fits(m.header.type_size as int),
        op_fits(m.header.export_size as int),
        op_fits(m.header.entry_pc as int),
        op_fits(m.header.entry_type as int),
    ensures
        read_ops(dis_bytes(m), 9) == seq![
            XMAGIC as int,
            m.header.runtime_flags as i32 as int,
            m.header.stack_extent as int,
            m.header.code_size as int,
            m.header.data_size as int,
            m.header.type_size as int,
            m.header.export_size as int,
            m.header.entry_pc as int,
            m.header.entry_type as int,
        ],
{
    let h = m.header;
    let rest = body_bytes(m);
    let o0 = op_bytes(XMAGIC as int);
    let o1 = op_bytes(h.runtime_flags as i32 as int);
    let o2 = op_bytes(h.stack_extent as int);
    let o3 = op_bytes(h.code_size as int);
    let o4 = op_bytes(h.data_size as int);
    let o5 = op_bytes(h.type_size as int);
    let o6 = op_bytes(h.export_size as int);
    let o7 = op_bytes(h.entry_pc as int);
    let o8 = op_bytes(h.entry_type as int);
    let h7 = o7 + o8;
    let h6 = o6 + h7;
    let h5 = o5 + h6;
    let h4 = o4 + h5;
    let h3 = o3 + h4;
    let h2 = o2 + h3;
    let h1 = o1 + h2;
    lemma_concat_associative(o0, h1, rest);
    lemma_concat_associative(o1, h2, rest);
    lemma_concat_associative(o2, h3, rest);
    lemma_concat_associative(o3, h4, rest);
    lemma_concat_associative(o4, h5, rest);
    lemma_concat_associative(o5, h6, rest);
    lemma_concat_associative(o6, h7, rest);
    lemma_concat_associative(o7, o8, rest);
    lemma_read_op_prefix(h.entry_type as int, rest, 0);
    lemma_read_op_prefix(h.entry_pc as int, o8 + rest, 1);
    lemma_read_op_prefix(h.export_size as int, h7 + rest, 2);
    lemma_read_op_prefix(h.type_size as int, h6 + rest, 3);
    lemma_read_op_prefix(h.data_size as int, h5 + rest, 4);
    lemma_read_op_prefix(h.code_size as int, h4 + rest, 5);
    lemma_read_op_prefix(h.stack_extent as int, h3 + rest, 6);
    lemma_read_op_prefix(h.runtime_flags as i32 as int, h2 + rest, 7);
    lemma_read_op_prefix(XMAGIC as int, h1 + rest, 8);
    assert(read_ops(rest, 0) =~= Seq::<int>::empty());
}

/// The value of four bytes read most significant first.
pub open spec fn be32_value(b: Seq<u8>) -> int {
    b[0] as int * 0x100_0000 + b[1] as int * 0x1_0000 + b[2] as int * 0x100 + b[3] as int
}

/// An export read as the Dis loader reads one: an operand, a second
/// operand, then a four-byte signature; the name's bytes follow.
pub open spec fn read_export(b: Seq<u8>) -> (int, int, int) {
    let k1 = op_len(b[0]);
    let k2 = k1 + op_len(b[k1]);
    (op_value(b), op_value(b.skip(k1)), be32_value(b.skip(k2)))
}

/// How many bytes the operands and signature of the export at the start
/// of `b` take.
pub open spec fn export_head_len(b: Seq<u8>) -> int {
    let k1 = op_len(b[0]);
    k1 + op_len(b[k1]) + 4
}

/// Where the export section of a written module starts: after the header,
/// the code, the types, the data with its NUL, and the module's name.
pub open spec fn exports_start(m: Module) -> int {
    header_bytes(m.header).len() as int + (concat_map(m.code@, instruction_fn()) + concat_map(
        m.types@,
        type_descriptor_fn(),
    ) + concat_map(m.data@, data_item_fn()) + seq![0u8] + cstring_bytes(m.name@)).len() as int
}

/// Where the `i`th export of a written module starts.
pub open spec fn export_start(m: Module, i: int) -> int {
    exports_start(m) + concat_map(m.exports@.take(i), export_fn()).len()
}

/// The bytes of a sequence split at `i` are those of its two parts.
pub proof fn lemma_concat_map_split<T>(s: Seq<T>, f: spec_fn(T) -> Seq<u8>, i: int)
    requires
        0 <= i <= s.len(),
    ensures
        concat_map(s, f) == concat_map(s.take(i), f) + concat_map(s.skip(i), f),
    decreases s.len(),
{
    if i == s.len() {
        assert(s.take(i) =~= s);
        assert(s.skip(i).len() == 0);
        assert(concat_map(s.skip(i), f) =~= Seq::<u8>::empty());
        assert(concat_map(s, f) + Seq::<u8>::empty() =~= concat_map(s, f));
    } else {
        let d = s.drop_last();
        lemma_concat_map_split(d, f, i);
        assert(d.take(i) =~= s.take(i));
        assert(s.skip(i).drop_last() =~= d.skip(i));
        assert(s.skip(i).last() == s.last());
        assert(concat_map(s, f) =~= concat_map(s.take(i), f) + concat_map(s.skip(i), f));
    }
}

/// Four bytes written most significant first read back as the same number.
pub proof fn lemma_be32_value(v: u32)
    ensures
        be32_value(be32(v)) == v as int,
{
    let b0: u32 = v / 0x100_0000;
    let b1: u32 = (v / 0x1_0000) % 0x100;
    let b2: u32 = (v / 0x100) % 0x100;
    let b3: u32 = v % 0x100;
    assert(b0 < 0x100 && b1 < 0x100 && b2 < 0x100 && b3 < 0x100) by (bit_vector)
        requires
            b0 == v / 0x100_0000,
            b1 == (v / 0x1_0000) % 0x100,
            b2 == (v / 0x100) % 0x100,
            b3 == v % 0x100,
    ;
    assert(b0 * 0x100_0000 + b1 * 0x1_0000 + b2 * 0x100 + b3 == v) by (bit_vector)
        requires
            b0 == v / 0x100_0000,
            b1 == (v / 0x1_0000) % 0x100,
            b2 == (v / 0x100) % 0x100,
            b3 == v % 0x100,
    ;
    let b = be32(v);
    assert(b[0] as int == b0 as int);
    assert(b[1] as int == b1 as int);
    assert(b[2] as int == b2 as int);
    assert(b[3] as int == b3 as int);
}

/// An operand in front of other bytes is read as written and takes the
/// bytes it was written in.
proof fn lemma_op_in_front(v: int, rest: Seq<u8>)
    requires
        op_fits(v),
    ensures
        op_len((op_bytes(v) + rest)[0]) == op_bytes(v).len(),
        op_value(op_bytes(v) + rest) == v,
        (op_bytes(v) + rest).skip(op_bytes(v).len() as int) == rest,
{
    let ob = op_bytes(v);
    let b = ob + rest;
    lemma_op_roundtrip(v);
    assert(b[0] == ob[0]);
    if ob.len() >= 2 {
        assert(b[1] == ob[1]);
    }
    if ob.len() == 4 {
        assert(b[2] == ob[2]);
        assert(b[3] == ob[3]);
    }
    assert(op_value(b) == op_value(ob));
    assert(b.skip(ob.len() as int) =~= rest);
}

/// An export in front of other bytes reads back as its pc, then its frame
/// type, then its signature, followed by its name and a NUL.
pub proof fn lemma_export_bytes_read_back(e: Export, rest: Seq<u8>)
    requires
        op_fits(e.pc as int),
        op_fits(e.frame_type as int),
    ensures
        read_export(export_bytes(e) + rest) == (e.pc as int, e.frame_type as int, e.signature as int),
        export_head_len(export_bytes(e) + rest) == op_bytes(e.pc as int).len() + op_bytes(
            e.frame_type as int,
        ).len() + 4,
        (export_bytes(e) + rest).skip(export_head_len(export_bytes(e) + rest)) == cstring_bytes(e.name@)
            + rest,
{
    let o1 = op_bytes(e.pc as int);
    let o2 = op_bytes(e.frame_type as int);
    let s = be32(e.signature);
    let c = cstring_bytes(e.name@);
    let b = export_bytes(e) + rest;
    let r2 = s + c + rest;
    let r1 = o2 + r2;
    assert(b =~= o1 + r1);
    lemma_op_in_front(e.pc as int, r1);
    lemma_op_in_front(e.frame_type as int, r2);
    let k1 = o1.len() as int;
    assert(b.skip(k1) == r1);
    assert(b[k1] == r1[0]);
    let k2 = k1 + o2.len();
    assert(b.skip(k2) =~= r2);
    lemma_be32_value(e.signature);
    assert(be32_value(r2) == be32_value(s));
    assert(b.skip(k2 + 4) =~= c + rest);
}

/// A written module, from where its exports start, holds the exports and
/// then the imports and handlers.
proof fn lemma_exports_section(m: Module)
    ensures
        0 <= exports_start(m) <= dis_bytes(m).len(),
        dis_bytes(m).skip(exports_start(m)) == concat_map(m.exports@, export_fn()) + (imports_bytes(
            m.imports@,
        ) + handlers_bytes(m.header.runtime_flags, m.handlers@)),
{
    let hd = header_bytes(m.header);
    let p1 = concat_map(m.code@, instruction_fn()) + concat_map(m.types@, type_descriptor_fn())
        + concat_map(m.data@, data_item_fn()) + seq![0u8] + cstring_bytes(m.name@);
    let x = concat_map(m.exports@, export_fn());
    let im = imports_bytes(m.imports@);
    let hs = handlers_bytes(m.header.runtime_flags, m.handlers@);
    let body = body_bytes(m);
    assert(body == ((p1 + x) + im) + hs);
    lemma_concat_associative(p1 + x, im, hs);
    lemma_concat_associative(p1, x, im + hs);
    let d = dis_bytes(m);
    assert(d == hd + (p1 + (x + (im + hs))));
    assert(d.skip(hd.len() + p1.len() as int) =~= x + (im + hs));
}

/// The bytes from the start of the `i`th element of a sequence are that
/// element's bytes, then the later elements', then what follows.
proof fn lemma_concat_map_at<T>(s: Seq<T>, f: spec_fn(T) -> Seq<u8>, i: int, t: Seq<u8>)
    requires
        0 <= i < s.len(),
    ensures
        (concat_map(s, f) + t).skip(concat_map(s.take(i), f).len() as int) == f(s[i]) + (concat_map(
            s.skip(i + 1),
            f,
        ) + t),
{
    lemma_concat_map_split(s, f, i);
    let later = s.skip(i);
    lemma_concat_map_split(later, f, 1);
    assert(later.take(1) =~= seq![s[i]]);
    let one = seq![s[i]];
    assert(one.drop_last() =~= Seq::<T>::empty());
    assert(concat_map(one.drop_last(), f) == Seq::<u8>::empty());
    assert(concat_map(one, f) == concat_map(one.drop_last(), f) + f(s[i]));
    assert(concat_map(one, f) =~= f(s[i]));
    assert(later.skip(1) =~= s.skip(i + 1));
    let before = concat_map(s.take(i), f);
    let l1 = concat_map(s.skip(i + 1), f);
    let eb = f(s[i]);
    assert(concat_map(s, f) == before + (eb + l1));
    lemma_concat_associative(before, eb + l1, t);
    lemma_concat_associative(eb, l1, t);
    assert((before + (eb + (l1 + t))).skip(before.len() as int) =~= eb + (l1 + t));
}

/// Skipping `a` then `b` elements skips `a + b`.
proof fn lemma_skip_skip(d: Seq<u8>, a: int, b: int)
    requires
        0 <= a <= d.len(),
        0 <= b <= d.len() - a,
    ensures
        d.skip(a + b) == d.skip(a).skip(b),
{
    assert(d.skip(a + b) =~= d.skip(a).skip(b));
}

/// What follows the `i`th export of a written module.
pub open spec fn after_export(m: Module, i: int) -> Seq<u8> {
    concat_map(m.exports@.skip(i + 1), export_fn()) + (imports_bytes(m.imports@) + handlers_bytes(
        m.header.runtime_flags,
        m.handlers@,
    ))
}

/// A written module, from where its `i`th export starts, holds that
/// export's bytes and then the rest.
proof fn lemma_export_at(m: Module, i: int)
    requires
        0 <= i < m.exports@.len(),
    ensures
        0 <= export_start(m, i) <= dis_bytes(m).len(),
        dis_bytes(m).skip(export_start(m, i)) == export_bytes(m.exports@[i]) + after_export(m, i),
{
    let t = imports_bytes(m.imports@) + handlers_bytes(m.header.runtime_flags, m.handlers@);
    let d = dis_bytes(m);
    let a = exports_start(m);
    let x = concat_map(m.exports@, export_fn());
    lemma_exports_section(m);
    lemma_concat_map_at(m.exports@, export_fn(), i, t);
    lemma_concat_map_split(m.exports@, export_fn(), i);
    let b0 = concat_map(m.exports@.take(i), export_fn()).len() as int;
    assert(b0 <= x.len());
    assert(d.skip(a).len() == x.len() + t.len());
    lemma_skip_skip(d, a, b0);
    assert(export_fn()(m.exports@[i]) == export_bytes(m.exports@[i]));
}

/// In a written module, the bytes at the start of its `i`th export read
/// back as that export's pc, then its frame type, then its signature,
/// followed by its name and a NUL.
#[verifier::rlimit(40)]
pub proof fn lemma_exports_read_back(m: Module, i: int)
    requires
        0 <= i < m.exports@.len(),
        op_fits(m.exports@[i].pc as int),
        op_fits(m.exports@[i].frame_type as int),
    ensures
        read_export(dis_bytes(m).skip(export_start(m, i))) == (
            m.exports@[i].pc as int,
            m.exports@[i].frame_type as int,
            m.exports@[i].signature as int,
        ),
        dis_bytes(m).skip(export_start(m, i) + export_head_len(dis_bytes(m).skip(export_start(m, i))))
            .take(cstring_bytes(m.exports@[i].name@).len() as int) == cstring_bytes(m.exports@[i].name@),
{
    let e = m.exports@[i];
    let d = dis_bytes(m);
    let k = export_start(m, i);
    let rest = after_export(m, i);
    lemma_export_at(m, i);
    let b = export_bytes(e) + rest;
    lemma_export_bytes_read_back(e, rest);
    let h = export_head_len(b);
    let c = cstring_bytes(e.name@);
    assert(b.skip(h) == c + rest);
    assert(h <= b.len());
    lemma_skip_skip(d, k, h);
    assert((c + rest).take(c.len() as int) =~= c);
}

} // verus!
