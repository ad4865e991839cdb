//! Storage classification and layout for the Dis code generator: the slot
//! kinds of values, the widths of array elements, the values of `iota`, the
//! byte layout of tuples and ADT records, their pointer maps, the operands
//! that address frame and module words, the move and channel opcodes each
//! kind of value takes, the words that constants store, and the folding of
//! integer and string constants.

use vstd::prelude::*;
use vstd::arithmetic::power2::pow2;
use vstd::string::{StrSliceExecFns, StringExecFns, StringSliceAdditionalSpecFns};
use crate::ast::{BinOp, copy_type, is_type_copy, same_shape, AdtDecl, AdtMember, BasicType, Expr, PickCase, Type, VarDecl};
use crate::lexer::{parse_digits, parse_uint};
use crate::symtab::{spec_is_ptr, ConstValue, ResolvedType};
use crate::token::Span;
use crate::writer::{AddressMode, MiddleMode, MiddleOperand, Operand, PointerMap};

verus! {

/// Value type tracking for selecting correct Dis opcodes.
#[derive(Clone, Copy, PartialEq, Eq, Debug, Structural)]
pub enum ValType {
    Word,
    /// string, list, ref, module, channel
    Ptr,
    /// array types (use Lena instead of Lenc)
    Array,
}

/// Numeric kind: selects 4-byte word, 8-byte big, or 8-byte real slots and
/// the corresponding Dis opcode family. The order word < big < real is the
/// order of width promotion in mixed expressions.
#[derive(Clone, Copy, PartialEq, Eq, PartialOrd, Ord, Debug, Structural)]
pub enum NumKind {
    Word,
    Big,
    Real,
}

impl NumKind {
    /// The width of a slot of this kind.
    pub fn byte_size(self) -> (r: i32)
        ensures
            r == (if self is Word { 4i32 } else { 8i32 }),
    {
        match self {
            NumKind::Word => 4,
            NumKind::Big | NumKind::Real => 8,
        }
    }
}

/// Whether two strings hold the same characters.
fn str_eq(a: &str, b: &str) -> (r: bool)
    ensures
        r == (a@ == b@),
{
    String::from_str(a) == String::from_str(b)
}

/// Map a Limbo type to a NumKind. Non-numeric types collapse to Word.
pub fn type_num_kind(ty: &Type) -> (r: NumKind)
    ensures
        r == (match *ty {
            Type::Basic(BasicType::Big) => NumKind::Big,
            Type::Basic(BasicType::Real) => NumKind::Real,
            _ => NumKind::Word,
        }),
{
    match ty {
        Type::Basic(BasicType::Big) => NumKind::Big,
        Type::Basic(BasicType::Real) => NumKind::Real,
        _ => NumKind::Word,
    }
}

/// Reduce a Type to a BasicType when possible.
pub fn type_basic(ty: &Type) -> (r: Option<BasicType>)
    ensures
        r == (match *ty {
            Type::Basic(b) => Some(b),
            _ => None,
        }),
{
    match ty {
        Type::Basic(b) => Some(*b),
        _ => None,
    }
}

/// The storage class of a value of this type.
pub fn val_type_of(ty: &Type) -> (r: ValType)
    ensures
        r == (match *ty {
            Type::Basic(BasicType::String) => ValType::Ptr,
            Type::Basic(_) => ValType::Word,
            Type::Array(_) => ValType::Array,
            _ => ValType::Ptr,
        }),
{
    match ty {
        Type::Basic(BasicType::Int) | Type::Basic(BasicType::Byte) | Type::Basic(BasicType::Big)
        | Type::Basic(BasicType::Real) => ValType::Word,
        Type::Array(_) => ValType::Array,
        _ => ValType::Ptr,
    }
}

/// Whether a field of this type holds a heap pointer: everything but the
/// numeric types does.
pub open spec fn spec_type_is_ptr(ty: Type) -> bool {
    !(ty matches Type::Basic(b) && !(b is String))
}

/// Does a field of this type hold a heap pointer?
pub fn type_is_ptr(ty: &Type) -> (r: bool)
    ensures
        r == spec_type_is_ptr(*ty),
{
    !matches!(
        ty,
        Type::Basic(BasicType::Int) | Type::Basic(BasicType::Byte) | Type::Basic(BasicType::Big)
        | Type::Basic(BasicType::Real)
    )
}

/// The position that a tuple field name `t0`, `t1`, ... stands for: a `t`,
/// then an unsigned decimal number (with an optional `+`) that fits a
/// `usize`.
pub open spec fn field_index(b: Seq<u8>) -> Option<int> {
    if b.len() >= 1 && b[0] == 116u8 {
        let rest = b.subrange(1, b.len() as int);
        let digits = if rest.len() >= 1 && rest[0] == 43u8 {
            rest.subrange(1, rest.len() as int)
        } else {
            rest
        };
        match parse_digits(digits, 10, usize::MAX as int) {
            Ok(v) => Some(v),
            Err(_) => None,
        }
    } else {
        None
    }
}

/// `t0`, `t1`, ... name a tuple's fields by position. Returns the position.
pub fn tuple_field_index(field: &str) -> (r: Option<usize>)
    ensures
        r matches Some(i) ==> field_index(field.spec_bytes()) == Some(i as int),
        r is None ==> field_index(field.spec_bytes()) is None,
{
    let b = field.as_bytes();
    if b.len() == 0 || b[0] != 116u8 {
        return None;
    }
    let start: usize = if b.len() >= 2 && b[1] == 43u8 { 2 } else { 1 };
    proof {
        let rest = b@.subrange(1, b@.len() as int);
        if start == 2 {
            assert(rest.subrange(1, rest.len() as int) =~= b@.subrange(2, b@.len() as int));
        } else {
            assert(rest =~= b@.subrange(1, b@.len() as int));
        }
    }
    match parse_uint(b, start, b.len(), 10, usize::MAX as u64) {
        Ok(v) => Some(v as usize),
        Err(_) => None,
    }
}

/// Return the numeric kind of the value produced by a known `$Sys` builtin:
/// `seek` returns a big, everything else a word.
pub fn sys_return_kind(name: &str) -> (r: NumKind)
    ensures
        r == (if name@ == "seek"@ { NumKind::Big } else { NumKind::Word }),
{
    if str_eq(name, "seek") {
        NumKind::Big
    } else {
        NumKind::Word
    }
}

/// The `$Sys` functions that return a reference.
pub open spec fn sys_returns_ptr(name: Seq<char>) -> bool {
    name == "fildes"@ || name == "open"@ || name == "create"@ || name == "fstat"@ || name == "stat"@
        || name == "dirread"@ || name == "dial"@ || name == "announce"@ || name == "listen"@
}

/// Fallback shape of a `$Sys` function's return value, used only when the
/// interface behind the handle could not be read.
pub fn sys_return_val_type(name: &str) -> (r: ValType)
    ensures
        r == (if sys_returns_ptr(name@) { ValType::Ptr } else { ValType::Word }),
{
    if str_eq(name, "fildes") || str_eq(name, "open") || str_eq(name, "create") || str_eq(name, "fstat")
        || str_eq(name, "stat") || str_eq(name, "dirread") || str_eq(name, "dial") || str_eq(name, "announce")
        || str_eq(name, "listen") {
        ValType::Ptr
    } else {
        ValType::Word
    }
}

/// The text after the last `.` of `s`, or all of `s` if it has none.
pub open spec fn after_last_dot(s: Seq<char>) -> Seq<char>
    decreases s.len(),
{
    if s.len() == 0 {
        s
    } else if s.last() == '.' {
        Seq::empty()
    } else {
        after_last_dot(s.drop_last()).push(s.last())
    }
}

/// With the last `.` of `s` at `k` (or none, for `k == -1`), what follows
/// it is `s[k + 1..]`.
proof fn lemma_after_last_dot(s: Seq<char>, k: int)
    requires
        -1 <= k < s.len(),
        k >= 0 ==> s[k] == '.',
        forall|j: int| k < j < s.len() ==> s[j] != '.',
    ensures
        after_last_dot(s) == s.subrange(k + 1, s.len() as int),
    decreases s.len(),
{
    if s.len() == 0 {
        assert(s.subrange(0, 0) =~= s);
    } else if s.last() == '.' {
        assert(k == s.len() - 1);
        assert(s.subrange(k + 1, s.len() as int) =~= Seq::<char>::empty());
    } else {
        lemma_after_last_dot(s.drop_last(), k);
        assert(s.subrange(k + 1, s.len() as int) =~= s.drop_last().subrange(k + 1, s.len() - 1).push(s.last()));
    }
}

/// The ADT a resolved type names, under `ref`, `array of` and `list of`.
pub open spec fn spec_resolved_adt_name(ty: ResolvedType) -> Option<Seq<char>>
    decreases ty,
{
    match ty {
        ResolvedType::Adt(name) => Some(after_last_dot(name@)),
        ResolvedType::Ref(inner) => spec_resolved_adt_name(*inner),
        ResolvedType::Array(inner) => spec_resolved_adt_name(*inner),
        ResolvedType::List(inner) => spec_resolved_adt_name(*inner),
        _ => None,
    }
}

/// The ADT a resolved interface type names, peeling `ref`, `array of` and
/// `list of` wrappers; of a qualified name `M.T`, the part after the last dot.
pub fn resolved_adt_name(ty: &ResolvedType) -> (r: Option<String>)
    ensures
        r matches Some(n) ==> spec_resolved_adt_name(*ty) == Some(n@),
        r is None ==> spec_resolved_adt_name(*ty) is None,
    decreases ty,
{
    match ty {
        ResolvedType::Adt(name) => {
            let s = name.as_str();
            let n = s.unicode_len();
            let mut k: usize = n;
            while k > 0 && s.get_char(k - 1) != '.'
                invariant
                    k <= n,
                    n == s@.len(),
                    forall|j: int| k <= j < n ==> s@[j] != '.',
                decreases k,
            {
                k = k - 1;
            }
            proof {
                lemma_after_last_dot(s@, k - 1);
            }
            Some(String::from_str(s.substring_char(k, n)))
        },
        ResolvedType::Ref(inner) | ResolvedType::Array(inner) | ResolvedType::List(inner) => resolved_adt_name(inner),
        _ => None,
    }
}

/// Slot width of a resolved interface type.
pub fn resolved_num_kind(ty: &ResolvedType) -> (r: NumKind)
    ensures
        r == (match *ty {
            ResolvedType::Big => NumKind::Big,
            ResolvedType::Real => NumKind::Real,
            _ => NumKind::Word,
        }),
{
    match ty {
        ResolvedType::Big => NumKind::Big,
        ResolvedType::Real => NumKind::Real,
        _ => NumKind::Word,
    }
}

/// Storage shape of a resolved interface type.
pub fn resolved_val_type(ty: &ResolvedType) -> (r: ValType)
    ensures
        r == (if *ty is Array {
            ValType::Array
        } else if spec_is_ptr(*ty) {
            ValType::Ptr
        } else {
            ValType::Word
        }),
{
    match ty {
        ResolvedType::Array(_) => ValType::Array,
        _ => if ty.is_ptr() {
            ValType::Ptr
        } else {
            ValType::Word
        },
    }
}

/// Supplies the value of `iota` while folding a sequence of `con`
/// declarations: it counts up within one declaration (whose names all carry
/// the same span) and restarts at the next declaration.
#[derive(Debug)]
pub struct IotaCounter {
    group: Option<Span>,
    value: i64,
}

impl IotaCounter {
    /// The declaration being counted in, if any.
    pub closed spec fn current_group(&self) -> Option<Span> {
        self.group
    }

    /// The value the next name of the current declaration gets.
    pub closed spec fn count(&self) -> int {
        self.value as int
    }

    /// A counter that has seen no declaration yet.
    pub fn new() -> (r: Self)
        ensures
            r.current_group() is None,
            r.count() == 0,
    {
        IotaCounter { group: None, value: 0 }
    }

    /// The value of `iota` for the next name, which belongs to the
    /// declaration at `span`.
    pub fn next(&mut self, span: Span) -> (r: i64)
        requires
            old(self).current_group() == Some(span) ==> old(self).count() < i64::MAX,
        ensures
            old(self).current_group() == Some(span) ==> r == old(self).count(),
            old(self).current_group() != Some(span) ==> r == 0,
            final(self).current_group() == Some(span),
            final(self).count() == r + 1,
    {
        let same = match self.group {
            Some(g) => g == span,
            None => false,
        };
        if !same {
            self.group = Some(span);
            self.value = 0;
        }
        let v = self.value;
        self.value = self.value + 1;
        v
    }
}

impl Default for IotaCounter {
    fn default() -> (r: Self)
        ensures
            r.current_group() is None,
            r.count() == 0,
    {
        IotaCounter::new()
    }
}

/// A constant value being folded. A real is held as the bits of its IEEE
/// 754 double-precision value.
#[derive(Clone, Debug)]
pub enum ConstVal {
    Int(i64),
    Real(u64),
    Str(String),
}

impl ConstVal {
    /// The ValType a use of this constant produces.
    pub fn val_type(&self) -> (r: ValType)
        ensures
            r == (if *self is Str { ValType::Ptr } else { ValType::Word }),
    {
        match self {
            ConstVal::Str(_) => ValType::Ptr,
            _ => ValType::Word,
        }
    }

    /// The NumKind (slot width) a use of this constant produces: a real
    /// takes a real slot, an integer outside the 32-bit range a big one.
    pub fn num_kind(&self) -> (r: NumKind)
        ensures
            r == (match *self {
                ConstVal::Real(_) => NumKind::Real,
                ConstVal::Int(v) => if v > i32::MAX || v < i32::MIN { NumKind::Big } else { NumKind::Word },
                ConstVal::Str(_) => NumKind::Word,
            }),
    {
        match self {
            ConstVal::Real(_) => NumKind::Real,
            ConstVal::Int(v) => if *v > i32::MAX as i64 || *v < i32::MIN as i64 {
                NumKind::Big
            } else {
                NumKind::Word
            },
            _ => NumKind::Word,
        }
    }
}

impl From<&ConstVal> for ConstValue {
    fn from(value: &ConstVal) -> (r: Self) {
        match value {
            ConstVal::Int(v) => ConstValue::Int(*v),
            ConstVal::Real(v) => ConstValue::Real(*v),
            ConstVal::Str(s) => ConstValue::String(s.clone()),
        }
    }
}

impl vstd::std_specs::convert::FromSpecImpl<&ConstVal> for ConstValue {
    open spec fn obeys_from_spec() -> bool {
        true
    }

    open spec fn from_spec(value: &ConstVal) -> ConstValue {
        match *value {
            ConstVal::Int(v) => ConstValue::Int(v),
            ConstVal::Real(v) => ConstValue::Real(v),
            ConstVal::Str(s) => ConstValue::String(s),
        }
    }
}

impl From<&ConstValue> for ConstVal {
    fn from(value: &ConstValue) -> (r: Self) {
        match value {
            ConstValue::Int(v) => ConstVal::Int(*v),
            ConstValue::Real(v) => ConstVal::Real(*v),
            ConstValue::String(s) => ConstVal::Str(s.clone()),
        }
    }
}

impl vstd::std_specs::convert::FromSpecImpl<&ConstValue> for ConstVal {
    open spec fn obeys_from_spec() -> bool {
        true
    }

    open spec fn from_spec(value: &ConstValue) -> ConstVal {
        match *value {
            ConstValue::Int(v) => ConstVal::Int(v),
            ConstValue::Real(v) => ConstVal::Real(v),
            ConstValue::String(s) => ConstVal::Str(s),
        }
    }
}

/// The exponent field of the double with bits `b`.
pub open spec fn real_exponent(b: u64) -> u64 {
    (b >> 52u64) & 0x7ffu64
}

/// The fraction field of the double with bits `b`.
pub open spec fn real_fraction(b: u64) -> u64 {
    b & 0xf_ffff_ffff_ffffu64
}

/// Whether the sign bit of the double with bits `b` is set.
pub open spec fn real_negative(b: u64) -> bool {
    (b >> 63u64) == 1u64
}

/// The magnitude of the finite double with bits `b`, truncated toward zero.
pub open spec fn real_trunc_magnitude(b: u64) -> nat {
    let e = real_exponent(b) as nat;
    let f = real_fraction(b) as nat;
    if e == 0 {
        f / pow2(1074)
    } else if e < 1075 {
        (f + pow2(52)) / pow2((1075 - e) as nat)
    } else {
        (f + pow2(52)) * pow2((e - 1075) as nat)
    }
}

/// What converting the double with bits `b` to an integer type with range
/// `lo..=hi` gives: NaN is zero, a value is truncated toward zero, and what
/// lies outside the range (infinities among it) saturates to its bound.
pub open spec fn real_cast(b: u64, lo: int, hi: int) -> int {
    if real_exponent(b) == 0x7ff {
        if real_fraction(b) != 0 {
            0
        } else if real_negative(b) {
            lo
        } else {
            hi
        }
    } else {
        let v = if real_negative(b) {
            -(real_trunc_magnitude(b) as int)
        } else {
            real_trunc_magnitude(b) as int
        };
        if v < lo {
            lo
        } else if v > hi {
            hi
        } else {
            v
        }
    }
}

/// The fields of a double's bits, with the implicit leading one of a
/// normal number.
proof fn lemma_real_fields(b: u64)
    ensures
        real_fraction(b) < 0x10_0000_0000_0000,
        real_exponent(b) < 0x800,
        real_fraction(b) | 0x10_0000_0000_0000u64 == real_fraction(b) + 0x10_0000_0000_0000,
        pow2(52) == 0x10_0000_0000_0000,
        pow2(53) == 0x20_0000_0000_0000,
        pow2(11) == 2048,
        pow2(21) == 0x20_0000,
{
    let f = real_fraction(b);
    assert(b & 0xf_ffff_ffff_ffffu64 < 0x10_0000_0000_0000) by (bit_vector);
    assert((b >> 52u64) & 0x7ffu64 < 0x800) by (bit_vector);
    assert(f < 0x10_0000_0000_0000 ==> f | 0x10_0000_0000_0000u64 == f + 0x10_0000_0000_0000) by (bit_vector);
    vstd::arithmetic::power2::lemma2_to64();
    vstd::arithmetic::power2::lemma2_to64_rest();
}

/// A finite double whose exponent is below that of one is less than one in
/// magnitude.
proof fn lemma_real_below_one(b: u64)
    requires
        real_exponent(b) < 1023,
    ensures
        real_trunc_magnitude(b) == 0,
{
    lemma_real_fields(b);
    let e = real_exponent(b) as nat;
    let f = real_fraction(b) as nat;
    if e == 0 {
        vstd::arithmetic::power2::lemma_pow2_strictly_increases(52, 1074);
        vstd::arithmetic::div_mod::lemma_basic_div(f as int, pow2(1074) as int);
    } else {
        let s = (1075 - e) as nat;
        if s > 53 {
            vstd::arithmetic::power2::lemma_pow2_strictly_increases(53, s);
        }
        vstd::arithmetic::div_mod::lemma_basic_div((f + pow2(52)) as int, pow2(s) as int);
    }
}

/// Convert the double with bits `b` to a 64-bit integer as `as` does.
pub(crate) fn real_to_i64(b: u64) -> (r: i64)
    ensures
        r == real_cast(b, i64::MIN as int, i64::MAX as int),
{
    let e: u64 = (b >> 52) & 0x7ff;
    let f: u64 = b & 0xf_ffff_ffff_ffff;
    let neg: bool = (b >> 63) == 1;
    proof {
        lemma_real_fields(b);
    }
    if e == 0x7ff {
        return if f != 0 {
            0
        } else if neg {
            i64::MIN
        } else {
            i64::MAX
        };
    }
    if e < 1023 {
        proof {
            lemma_real_below_one(b);
        }
        return 0;
    }
    let m: u64 = f | 0x10_0000_0000_0000;
    if e >= 1086 {
        proof {
            let p = pow2((e - 1075) as nat);
            if e > 1086 {
                vstd::arithmetic::power2::lemma_pow2_strictly_increases(11, (e - 1075) as nat);
            }
            assert(m as int * p >= 0x10_0000_0000_0000 * 2048) by (nonlinear_arith)
                requires
                    m >= 0x10_0000_0000_0000,
                    p >= 2048,
            ;
        }
        return if neg {
            i64::MIN
        } else {
            i64::MAX
        };
    }
    if e >= 1075 {
        let sh: u64 = e - 1075;
        proof {
            if sh < 10 {
                vstd::arithmetic::power2::lemma_pow2_strictly_increases(sh as nat, 10);
            }
            vstd::arithmetic::power2::lemma2_to64();
            assert(pow2(10) == 1024);
            assert(m as int * pow2(sh as nat) < 0x20_0000_0000_0000 * 1024) by (nonlinear_arith)
                requires
                    m < 0x20_0000_0000_0000,
                    pow2(sh as nat) <= 1024,
            ;
            assert(m as int * pow2(sh as nat) >= 0) by (nonlinear_arith)
                requires
                    m >= 0,
                    pow2(sh as nat) >= 0,
            ;
            vstd::bits::lemma_u64_shl_is_mul(m, sh);
        }
        let v: u64 = m << sh;
        return if neg {
            -(v as i64)
        } else {
            v as i64
        };
    }
    let sh: u64 = 1075 - e;
    proof {
        vstd::bits::lemma_u64_shr_is_div(m, sh);
    }
    let v: u64 = m >> sh;
    proof {
        assert(m >> sh <= m) by (bit_vector);
    }
    if neg {
        -(v as i64)
    } else {
        v as i64
    }
}

/// Convert the double with bits `b` to a 32-bit integer as `as` does.
fn real_to_i32(b: u64) -> (r: i32)
    ensures
        r == real_cast(b, i32::MIN as int, i32::MAX as int),
{
    let e: u64 = (b >> 52) & 0x7ff;
    let f: u64 = b & 0xf_ffff_ffff_ffff;
    let neg: bool = (b >> 63) == 1;
    proof {
        lemma_real_fields(b);
    }
    if e == 0x7ff {
        return if f != 0 {
            0
        } else if neg {
            i32::MIN
        } else {
            i32::MAX
        };
    }
    if e < 1023 {
        proof {
            lemma_real_below_one(b);
        }
        return 0;
    }
    let m: u64 = f | 0x10_0000_0000_0000;
    if e >= 1054 {
        proof {
            if e >= 1075 {
                let p = pow2((e - 1075) as nat);
                vstd::arithmetic::power2::lemma_pow2_pos((e - 1075) as nat);
                assert(m as int * p >= m) by (nonlinear_arith)
                    requires
                        m >= 0,
                        p >= 1,
                ;
            } else {
                let s = (1075 - e) as nat;
                if s < 21 {
                    vstd::arithmetic::power2::lemma_pow2_strictly_increases(s, 21);
                }
                vstd::arithmetic::power2::lemma_pow2_pos(s);
                vstd::arithmetic::div_mod::lemma_div_is_ordered(0x10_0000_0000_0000, m as int, pow2(s) as int);
                vstd::arithmetic::div_mod::lemma_div_is_ordered_by_denominator(
                    0x10_0000_0000_0000,
                    pow2(s) as int,
                    0x20_0000,
                );
            }
        }
        return if neg {
            i32::MIN
        } else {
            i32::MAX
        };
    }
    let sh: u64 = 1075 - e;
    proof {
        vstd::bits::lemma_u64_shr_is_div(m, sh);
        assert(m < 0x20_0000_0000_0000 && 22 <= sh < 64 ==> m >> sh < 0x8000_0000) by (bit_vector);
    }
    let v: u64 = m >> sh;
    if neg {
        -(v as i32)
    } else {
        v as i32
    }
}

/// The word a constant stores: an integer truncated to 32 bits, a real
/// converted as `as` does, and zero for a string.
pub fn const_word(v: &ConstVal) -> (r: i32)
    ensures
        r == (match *v {
            ConstVal::Int(n) => n as i32,
            ConstVal::Real(b) => real_cast(b, i32::MIN as int, i32::MAX as int) as i32,
            ConstVal::Str(_) => 0i32,
        }),
{
    match v {
        ConstVal::Int(n) => *n as i32,
        ConstVal::Real(b) => real_to_i32(*b),
        ConstVal::Str(_) => 0,
    }
}

/// The byte a constant stores: the low byte of its word.
pub fn const_byte(v: &ConstVal) -> (r: u8)
    ensures
        r == (match *v {
            ConstVal::Int(n) => n as i32,
            ConstVal::Real(b) => real_cast(b, i32::MIN as int, i32::MAX as int) as i32,
            ConstVal::Str(_) => 0i32,
        }) as u8,
{
    const_word(v) as u8
}

/// The 64-bit value a constant stores: an integer as it is, a real
/// converted as `as` does, and zero for a string.
pub fn const_big(v: &ConstVal) -> (r: i64)
    ensures
        r == (match *v {
            ConstVal::Int(n) => n as int,
            ConstVal::Real(b) => real_cast(b, i64::MIN as int, i64::MAX as int),
            ConstVal::Str(_) => 0,
        }),
{
    match v {
        ConstVal::Int(n) => *n,
        ConstVal::Real(b) => real_to_i64(*b),
        ConstVal::Str(_) => 0,
    }
}

/// The name of a binary operator as its `Debug` text spells it.
pub open spec fn binop_name(op: BinOp) -> Seq<char> {
    match op {
        BinOp::Add => "Add"@,
        BinOp::Sub => "Sub"@,
        BinOp::Mul => "Mul"@,
        BinOp::Div => "Div"@,
        BinOp::Mod => "Mod"@,
        BinOp::Power => "Power"@,
        BinOp::And => "And"@,
        BinOp::Or => "Or"@,
        BinOp::Xor => "Xor"@,
        BinOp::Lshift => "Lshift"@,
        BinOp::Rshift => "Rshift"@,
        BinOp::Eq => "Eq"@,
        BinOp::Neq => "Neq"@,
        BinOp::Lt => "Lt"@,
        BinOp::Gt => "Gt"@,
        BinOp::Leq => "Leq"@,
        BinOp::Geq => "Geq"@,
        BinOp::LogAnd => "LogAnd"@,
        BinOp::LogOr => "LogOr"@,
    }
}

fn binop_debug_name(op: BinOp) -> (r: String)
    ensures
        r@ == binop_name(op),
{
    match op {
        BinOp::Add => String::from_str("Add"),
        BinOp::Sub => String::from_str("Sub"),
        BinOp::Mul => String::from_str("Mul"),
        BinOp::Div => String::from_str("Div"),
        BinOp::Mod => String::from_str("Mod"),
        BinOp::Power => String::from_str("Power"),
        BinOp::And => String::from_str("And"),
        BinOp::Or => String::from_str("Or"),
        BinOp::Xor => String::from_str("Xor"),
        BinOp::Lshift => String::from_str("Lshift"),
        BinOp::Rshift => String::from_str("Rshift"),
        BinOp::Eq => String::from_str("Eq"),
        BinOp::Neq => String::from_str("Neq"),
        BinOp::Lt => String::from_str("Lt"),
        BinOp::Gt => String::from_str("Gt"),
        BinOp::Leq => String::from_str("Leq"),
        BinOp::Geq => String::from_str("Geq"),
        BinOp::LogAnd => String::from_str("LogAnd"),
        BinOp::LogOr => String::from_str("LogOr"),
    }
}

/// The message for an operator that constants cannot be folded with.
pub open spec fn unsupported_op_message(op: BinOp) -> Seq<char> {
    "unsupported constant operator "@ + binop_name(op)
}

fn unsupported_op(op: BinOp) -> (r: String)
    ensures
        r@ == unsupported_op_message(op),
{
    let mut m = String::from_str("unsupported constant operator ");
    let n = binop_debug_name(op);
    m.append(n.as_str());
    m
}

/// The absolute value of `a`.
pub open spec fn abs_int(a: int) -> nat {
    if a < 0 {
        (-a) as nat
    } else {
        a as nat
    }
}

/// The quotient of `a` by `b`, rounded toward zero.
pub open spec fn trunc_quot(a: int, b: int) -> int {
    let q = abs_int(a) / abs_int(b);
    if (a < 0) != (b < 0) {
        -q
    } else {
        q as int
    }
}

/// The remainder of `a` by `b` that goes with `trunc_quot`: it has the sign
/// of `a`.
pub open spec fn trunc_rem(a: int, b: int) -> int {
    let r = abs_int(a) % abs_int(b);
    if a < 0 {
        -r
    } else {
        r as int
    }
}

/// A comparison's value as a constant: one for true, zero for false.
pub open spec fn truth(b: bool) -> i64 {
    if b {
        1
    } else {
        0
    }
}

/// The value of `a op b` folded over 64-bit integers: arithmetic and shifts
/// wrap, a division or remainder by zero is an error, a comparison gives one
/// or zero, and an operator with no constant meaning is an error.
pub open spec fn fold_int_result(a: i64, op: BinOp, b: i64) -> Result<i64, Seq<char>> {
    match op {
        BinOp::Add => Ok(a.wrapping_add(b)),
        BinOp::Sub => Ok(a.wrapping_sub(b)),
        BinOp::Mul => Ok(a.wrapping_mul(b)),
        BinOp::Div => if b == 0 {
            Err("constant division by zero"@)
        } else {
            Ok(trunc_quot(a as int, b as int) as i64)
        },
        BinOp::Mod => if b == 0 {
            Err("constant division by zero"@)
        } else {
            Ok(trunc_rem(a as int, b as int) as i64)
        },
        BinOp::Lshift => Ok(a.wrapping_shl(b as u32)),
        BinOp::Rshift => Ok(a.wrapping_shr(b as u32)),
        BinOp::And => Ok(a & b),
        BinOp::Or => Ok(a | b),
        BinOp::Xor => Ok(a ^ b),
        BinOp::Eq => Ok(truth(a == b)),
        BinOp::Neq => Ok(truth(a != b)),
        BinOp::Lt => Ok(truth(a < b)),
        BinOp::Gt => Ok(truth(a > b)),
        BinOp::Leq => Ok(truth(a <= b)),
        BinOp::Geq => Ok(truth(a >= b)),
        _ => Err(unsupported_op_message(op)),
    }
}

/// The magnitude of `a`, widened so that that of `i64::MIN` fits.
fn magnitude(a: i64) -> (r: u128)
    ensures
        r == abs_int(a as int),
{
    if a < 0 {
        (0i128 - a as i128) as u128
    } else {
        a as u128
    }
}

/// Fold `a op b` over 64-bit integers.
pub fn fold_int_binary(a: i64, op: BinOp, b: i64) -> (r: Result<i64, String>)
    ensures
        match r {
            Ok(v) => fold_int_result(a, op, b) == Ok::<i64, Seq<char>>(v),
            Err(m) => fold_int_result(a, op, b) == Err::<i64, Seq<char>>(m@),
        },
{
    match op {
        BinOp::Add => Ok(a.wrapping_add(b)),
        BinOp::Sub => Ok(a.wrapping_sub(b)),
        BinOp::Mul => Ok(a.wrapping_mul(b)),
        BinOp::Div | BinOp::Mod => {
            if b == 0 {
                return Err(String::from_str("constant division by zero"));
            }
            let ma = magnitude(a);
            let mb = magnitude(b);
            if op == BinOp::Div {
                let q: u128 = ma / mb;
                proof {
                    assert(q <= ma) by (nonlinear_arith)
                        requires
                            q == ma / mb,
                            mb >= 1,
                    ;
                }
                let sq: i128 = if (a < 0) != (b < 0) {
                    0i128 - q as i128
                } else {
                    q as i128
                };
                Ok(sq as i64)
            } else {
                let m: u128 = ma % mb;
                proof {
                    assert(m < mb);
                }
                let sm: i128 = if a < 0 {
                    0i128 - m as i128
                } else {
                    m as i128
                };
                Ok(sm as i64)
            }
        },
        BinOp::Lshift => Ok(a.wrapping_shl(b as u32)),
        BinOp::Rshift => Ok(a.wrapping_shr(b as u32)),
        BinOp::And => Ok(a & b),
        BinOp::Or => Ok(a | b),
        BinOp::Xor => Ok(a ^ b),
        BinOp::Eq => Ok(if a == b { 1 } else { 0 }),
        BinOp::Neq => Ok(if a != b { 1 } else { 0 }),
        BinOp::Lt => Ok(if a < b { 1 } else { 0 }),
        BinOp::Gt => Ok(if a > b { 1 } else { 0 }),
        BinOp::Leq => Ok(if a <= b { 1 } else { 0 }),
        BinOp::Geq => Ok(if a >= b { 1 } else { 0 }),
        _ => Err(unsupported_op(op)),
    }
}

/// Fold `lhs op rhs` where no real arithmetic is involved: two strings
/// concatenate under `+`, two integers fold as `fold_int_result` says, and
/// any other pairing or operator is an error. `None` exactly when the pair
/// needs real arithmetic: two reals, or a real and an integer.
pub fn fold_exact_binary(lhs: &ConstVal, op: BinOp, rhs: &ConstVal) -> (r: Option<Result<ConstVal, String>>)
    ensures
        r is None <==> ((*lhs is Real && (*rhs is Real || *rhs is Int)) || (*lhs is Int && *rhs is Real)),
        r matches Some(res) ==> match (*lhs, *rhs) {
            (ConstVal::Str(a), ConstVal::Str(b)) => if op == BinOp::Add {
                res matches Ok(ConstVal::Str(c)) && c@ == a@ + b@
            } else {
                res matches Err(m) && m@ == unsupported_op_message(op)
            },
            (ConstVal::Int(a), ConstVal::Int(b)) => match fold_int_result(a, op, b) {
                Ok(v) => res matches Ok(ConstVal::Int(w)) && w == v,
                Err(e) => res matches Err(m) && m@ == e,
            },
            _ => res matches Err(m) && m@ == unsupported_op_message(op),
        },
{
    match (lhs, rhs) {
        (ConstVal::Str(a), ConstVal::Str(b)) => {
            if op == BinOp::Add {
                let mut c = a.clone();
                c.append(b.as_str());
                Some(Ok(ConstVal::Str(c)))
            } else {
                Some(Err(unsupported_op(op)))
            }
        },
        (ConstVal::Int(a), ConstVal::Int(b)) => match fold_int_binary(*a, op, *b) {
            Ok(v) => Some(Ok(ConstVal::Int(v))),
            Err(m) => Some(Err(m)),
        },
        (ConstVal::Real(_), ConstVal::Real(_)) | (ConstVal::Int(_), ConstVal::Real(_)) | (
            ConstVal::Real(_),
            ConstVal::Int(_),
        ) => None,
        _ => Some(Err(unsupported_op(op))),
    }
}

/// The value folded for `a op b` when `op` has a value, `0` otherwise.
pub open spec fn folded(a: i64, op: BinOp, b: i64) -> i64 {
    match fold_int_result(a, op, b) {
        Ok(v) => v,
        Err(_) => 0,
    }
}

/// A folded comparison is one exactly when the comparison holds of the two
/// integers and zero otherwise; so each comparison is the complement of its
/// negation and the mirror image of its converse.
pub proof fn lemma_fold_comparisons(a: i64, b: i64)
    ensures
        fold_int_result(a, BinOp::Eq, b) is Ok,
        fold_int_result(a, BinOp::Neq, b) is Ok,
        fold_int_result(a, BinOp::Lt, b) is Ok,
        fold_int_result(a, BinOp::Gt, b) is Ok,
        fold_int_result(a, BinOp::Leq, b) is Ok,
        fold_int_result(a, BinOp::Geq, b) is Ok,
        folded(a, BinOp::Eq, b) == 1 <==> a == b,
        folded(a, BinOp::Neq, b) == 1 <==> a != b,
        folded(a, BinOp::Lt, b) == 1 <==> a < b,
        folded(a, BinOp::Gt, b) == 1 <==> a > b,
        folded(a, BinOp::Leq, b) == 1 <==> a <= b,
        folded(a, BinOp::Geq, b) == 1 <==> a >= b,
        folded(a, BinOp::Eq, b) + folded(a, BinOp::Neq, b) == 1,
        folded(a, BinOp::Lt, b) + folded(a, BinOp::Geq, b) == 1,
        folded(a, BinOp::Gt, b) + folded(a, BinOp::Leq, b) == 1,
        folded(a, BinOp::Lt, b) == folded(b, BinOp::Gt, a),
        folded(a, BinOp::Leq, b) == folded(b, BinOp::Geq, a),
        folded(a, BinOp::Eq, b) == folded(b, BinOp::Eq, a),
{
}

/// Sums, differences and products fold to the value that agrees with the
/// exact integer result modulo 2^64, which is that result whenever it fits.
pub proof fn lemma_fold_wrapping_arith(a: i64, b: i64)
    ensures
        fold_int_result(a, BinOp::Add, b) is Ok,
        fold_int_result(a, BinOp::Sub, b) is Ok,
        fold_int_result(a, BinOp::Mul, b) is Ok,
        (folded(a, BinOp::Add, b) - (a + b)) % 0x1_0000_0000_0000_0000 == 0,
        (folded(a, BinOp::Sub, b) - (a - b)) % 0x1_0000_0000_0000_0000 == 0,
        (folded(a, BinOp::Mul, b) - a * b) % 0x1_0000_0000_0000_0000 == 0,
        i64::MIN <= a + b <= i64::MAX ==> folded(a, BinOp::Add, b) == a + b,
        i64::MIN <= a - b <= i64::MAX ==> folded(a, BinOp::Sub, b) == a - b,
        i64::MIN <= a * b <= i64::MAX ==> folded(a, BinOp::Mul, b) == a * b,
{
    let m: int = 0x1_0000_0000_0000_0000;
    let p: int = a * b;
    let c: int = p % m;
    assert(0 <= c < m);
    assert((c - p) % m == 0) by {
        vstd::arithmetic::div_mod::lemma_fundamental_div_mod(p, m);
        vstd::arithmetic::div_mod::lemma_mod_multiples_basic(-(p / m), m);
        assert(c - p == -(p / m) * m) by (nonlinear_arith)
            requires
                p == m * (p / m) + c,
        ;
    }
    if c > i64::MAX {
        assert(((c - m) - p) % m == 0) by {
            vstd::arithmetic::div_mod::lemma_mod_sub_multiples_vanish(c - p, m);
        }
    }
    if i64::MIN <= p <= i64::MAX {
        if p >= 0 {
            vstd::arithmetic::div_mod::lemma_small_mod(p as nat, m as nat);
        } else {
            assert(c == p + m) by {
                vstd::arithmetic::div_mod::lemma_mod_add_multiples_vanish(p, m);
                vstd::arithmetic::div_mod::lemma_small_mod((p + m) as nat, m as nat);
            }
        }
    }
    assert((folded(a, BinOp::Add, b) - (a + b)) % m == 0) by {
        let s: int = a + b;
        if s > i64::MAX {
            vstd::arithmetic::div_mod::lemma_mod_multiples_basic(-1, m);
        } else if s < i64::MIN {
            vstd::arithmetic::div_mod::lemma_mod_multiples_basic(1, m);
        }
    }
    assert((folded(a, BinOp::Sub, b) - (a - b)) % m == 0) by {
        let s: int = a - b;
        if s > i64::MAX {
            vstd::arithmetic::div_mod::lemma_mod_multiples_basic(-1, m);
        } else if s < i64::MIN {
            vstd::arithmetic::div_mod::lemma_mod_multiples_basic(1, m);
        }
    }
}

/// For a non-negative value and a shift below 64, a right shift folds to
/// the value divided by two to the shift, rounded down, and a left shift to
/// the value times two to the shift wherever that fits.
pub proof fn lemma_fold_shifts(a: i64, b: i64)
    requires
        0 <= a,
        0 <= b < 64,
    ensures
        fold_int_result(a, BinOp::Rshift, b) is Ok,
        fold_int_result(a, BinOp::Lshift, b) is Ok,
        folded(a, BinOp::Rshift, b) == (a as int) / (pow2(b as nat) as int),
        a * pow2(b as nat) <= i64::MAX ==> folded(a, BinOp::Lshift, b) == a * pow2(b as nat),
{
    let s: u32 = b as u32;
    assert(s % 64 == s);
    let ua: u64 = a as u64;
    let us: u64 = s as u64;
    assert((a >> s) == ((ua >> us) as i64)) by (bit_vector)
        requires
            0 <= a,
            s < 64,
            ua == a as u64,
            us == s as u64,
    ;
    vstd::bits::lemma_u64_shr_is_div(ua, us);
    assert(ua >> us <= ua) by (bit_vector);
    assert(folded(a, BinOp::Rshift, b) == a >> s);
    assert((a << s) == ((ua << us) as i64)) by (bit_vector)
        requires
            0 <= a,
            s < 64,
            ua == a as u64,
            us == s as u64,
    ;
    assert(folded(a, BinOp::Lshift, b) == a << s);
    if a * pow2(b as nat) <= i64::MAX {
        vstd::bits::lemma_u64_shl_is_mul(ua, us);
    }
}

/// Division by zero is an error; otherwise the quotient truncates toward
/// zero and the remainder has the sign of the dividend and a smaller
/// magnitude than the divisor, the two recombining to the dividend
/// (wherever the quotient fits in 64 bits).
pub proof fn lemma_fold_division(a: i64, b: i64)
    ensures
        b == 0 ==> fold_int_result(a, BinOp::Div, b) is Err && fold_int_result(a, BinOp::Mod, b) is Err,
        b != 0 ==> fold_int_result(a, BinOp::Div, b) is Ok && fold_int_result(a, BinOp::Mod, b) is Ok,
        b != 0 ==> abs_int(folded(a, BinOp::Mod, b) as int) < abs_int(b as int),
        b != 0 ==> folded(a, BinOp::Mod, b) == 0 || (folded(a, BinOp::Mod, b) < 0) == (a < 0),
        b != 0 && !(a == i64::MIN && b == -1) ==>
            folded(a, BinOp::Div, b) * b + folded(a, BinOp::Mod, b) == a,
        b != 0 && !(a == i64::MIN && b == -1) ==>
            abs_int(folded(a, BinOp::Div, b) as int) * abs_int(b as int) <= abs_int(a as int),
{
    if b != 0 {
        let x: int = abs_int(a as int) as int;
        let y: int = abs_int(b as int) as int;
        let q: int = x / y;
        let r: int = x % y;
        vstd::arithmetic::div_mod::lemma_fundamental_div_mod(x, y);
        assert(0 <= r < y);
        assert(0 <= q <= x) by (nonlinear_arith)
            requires
                x == y * q + r,
                0 <= r < y,
                y >= 1,
                x >= 0,
        ;
        assert(trunc_rem(a as int, b as int) == if a < 0 { -r } else { r });
        assert(trunc_quot(a as int, b as int) == if (a < 0) != (b < 0) { -q } else { q });
        if !(a == i64::MIN && b == -1) {
            let sq: int = if (a < 0) != (b < 0) { -q } else { q };
            assert(i64::MIN <= sq <= i64::MAX) by {
                if q > i64::MAX {
                    assert(y == 1) by (nonlinear_arith)
                        requires
                            x == y * q + r,
                            q >= 0x8000_0000_0000_0000,
                            x <= 0x8000_0000_0000_0000,
                            y >= 1,
                            r >= 0,
                    ;
                    assert(b == 1);
                }
            }
            assert(folded(a, BinOp::Div, b) as int == if (a < 0) != (b < 0) { -q } else { q });
            assert(folded(a, BinOp::Mod, b) as int == if a < 0 { -r } else { r });
            assert(folded(a, BinOp::Div, b) * b + folded(a, BinOp::Mod, b) == a) by (nonlinear_arith)
                requires
                    x == y * q + r,
                    x == if a < 0 { -(a as int) } else { a as int },
                    y == if b < 0 { -(b as int) } else { b as int },
                    folded(a, BinOp::Div, b) as int == if (a < 0) != (b < 0) { -q } else { q },
                    folded(a, BinOp::Mod, b) as int == if a < 0 { -r } else { r },
            ;
            assert(abs_int(folded(a, BinOp::Div, b) as int) == q);
            assert(q * y <= x) by (nonlinear_arith)
                requires
                    x == y * q + r,
                    r >= 0,
            ;
        }
    }
}

/// The storage class of an array element, which fixes both the element width
/// and whether the collector has to trace it.
#[derive(Clone, Copy, PartialEq, Eq, Debug, Structural)]
pub enum ElemKind {
    Byte,
    Word,
    Big,
    Real,
    Ptr,
}

impl ElemKind {
    /// The element kind of an array of `ty`.
    pub fn of(ty: &Type) -> (r: Self)
        ensures
            r == (match *ty {
                Type::Basic(BasicType::Byte) => ElemKind::Byte,
                Type::Basic(BasicType::Int) => ElemKind::Word,
                Type::Basic(BasicType::Big) => ElemKind::Big,
                Type::Basic(BasicType::Real) => ElemKind::Real,
                _ => ElemKind::Ptr,
            }),
    {
        match ty {
            Type::Basic(BasicType::Byte) => ElemKind::Byte,
            Type::Basic(BasicType::Int) => ElemKind::Word,
            Type::Basic(BasicType::Big) => ElemKind::Big,
            Type::Basic(BasicType::Real) => ElemKind::Real,
            Type::Basic(BasicType::String) => ElemKind::Ptr,
            _ => ElemKind::Ptr,
        }
    }

    /// Element kind implied by a literal's values when no type was written:
    /// strings if any value is a string, reals if any is a real, words
    /// otherwise.
    pub fn of_values(values: &Vec<ConstVal>) -> (r: Self)
        ensures
            r == (if exists|i: int| 0 <= i < values@.len() && #[trigger] values@[i] is Str {
                ElemKind::Ptr
            } else if exists|i: int| 0 <= i < values@.len() && #[trigger] values@[i] is Real {
                ElemKind::Real
            } else {
                ElemKind::Word
            }),
    {
        let mut any_str = false;
        let mut any_real = false;
        let mut i: usize = 0;
        while i < values.len()
            invariant
                i <= values@.len(),
                any_str == exists|j: int| 0 <= j < i && #[trigger] values@[j] is Str,
                any_real == exists|j: int| 0 <= j < i && #[trigger] values@[j] is Real,
            decreases values.len() - i,
        {
            match &values[i] {
                ConstVal::Str(_) => {
                    any_str = true;
                },
                ConstVal::Real(_) => {
                    any_real = true;
                },
                _ => {},
            }
            i = i + 1;
        }
        if any_str {
            ElemKind::Ptr
        } else if any_real {
            ElemKind::Real
        } else {
            ElemKind::Word
        }
    }

    /// The width of one element.
    pub fn byte_size(self) -> (r: i32)
        ensures
            r == (match self {
                ElemKind::Byte => 1i32,
                ElemKind::Big => 8i32,
                ElemKind::Real => 8i32,
                _ => 4i32,
            }),
    {
        match self {
            ElemKind::Byte => 1,
            ElemKind::Big | ElemKind::Real => 8,
            _ => 4,
        }
    }

    /// Whether the collector has to trace an element.
    pub fn is_ptr(self) -> (r: bool)
        ensures
            r == (self is Ptr),
    {
        self == ElemKind::Ptr
    }

    /// The Limbo basic type an element of this width reads back as.
    pub fn basic(self) -> (r: BasicType)
        ensures
            r == (match self {
                ElemKind::Byte => BasicType::Byte,
                ElemKind::Word => BasicType::Int,
                ElemKind::Big => BasicType::Big,
                ElemKind::Real => BasicType::Real,
                ElemKind::Ptr => BasicType::String,
            }),
    {
        match self {
            ElemKind::Byte => BasicType::Byte,
            ElemKind::Word => BasicType::Int,
            ElemKind::Big => BasicType::Big,
            ElemKind::Real => BasicType::Real,
            ElemKind::Ptr => BasicType::String,
        }
    }
}

/// The least multiple of `align` that is at least `off`.
pub open spec fn round_up(off: int, align: int) -> int {
    ((off + align - 1) / align) * align
}

/// Round `off` up to a multiple of `align`, a power of two.
pub fn align_up(off: i32, align: i32) -> (r: i32)
    requires
        align > 0,
        align & ((align - 1) as i32) == 0,
        off + align - 1 <= i32::MAX,
    ensures
        r == round_up(off as int, align as int),
        r % align == 0,
        off <= r < off + align,
{
    let m: i32 = align - 1;
    let x: i32 = off + m;
    let r = x & !m;
    assert(r <= x && x - r < align && r % align == 0) by (bit_vector)
        requires
            align > 0,
            m == align - 1,
            align & m == 0,
            x == off + m,
            r == x & !m,
    ;
    proof {
        lemma_round_up_unique(off as int, align as int, r as int);
    }
    r
}

/// The alignments that layouts use are powers of two.
proof fn lemma_layout_aligns()
    ensures
        4i32 & 3i32 == 0,
        8i32 & 7i32 == 0,
{
    assert(4i32 & 3i32 == 0) by (bit_vector);
    assert(8i32 & 7i32 == 0) by (bit_vector);
}

/// The one multiple of `align` in `off..off + align` is `round_up(off, align)`.
proof fn lemma_round_up_unique(off: int, align: int, r: int)
    requires
        align > 0,
        r % align == 0,
        off <= r < off + align,
    ensures
        r == round_up(off, align),
{
    let q = r / align;
    vstd::arithmetic::div_mod::lemma_fundamental_div_mod(r, align);
    assert(r == q * align);
    let x = off + align - 1;
    assert(q * align <= x < q * align + align);
    vstd::arithmetic::div_mod::lemma_fundamental_div_mod(x, align);
    let d = x / align;
    assert(x == d * align + x % align);
    assert(0 <= x % align < align);
    assert(d == q) by (nonlinear_arith)
        requires
            x == d * align + x % align,
            0 <= x % align < align,
            q * align <= x < q * align + align,
            align > 0,
    {
        if d < q {
            assert(d * align + align <= q * align) by (nonlinear_arith)
                requires d < q, align > 0;
        } else if d > q {
            assert(q * align + align <= d * align) by (nonlinear_arith)
                requires q < d, align > 0;
        }
    }
}

// ── Layout ─────────────────────────────────────────────────────

/// Field width and alignment of a value of type `t`: word, byte and pointer
/// fields are four bytes wide and four-aligned, `big` and `real` eight and
/// eight-aligned, and a tuple is stored inline, as wide as its layout and as
/// aligned as its most aligned field.
pub open spec fn size_align(t: Type) -> (int, int)
    decreases t, 1nat,
{
    match t {
        Type::Basic(BasicType::Big) => (8, 8),
        Type::Basic(BasicType::Real) => (8, 8),
        Type::Tuple(fs) => (tuple_size(fs@), fields_align(fs@)),
        _ => (4, 4),
    }
}

/// Where a tuple's last field ends, with the fields `fs` laid out in order,
/// each at the first offset after the previous one that its alignment allows.
pub open spec fn tuple_end(fs: Seq<Type>) -> int
    decreases fs, 0nat,
{
    if fs.len() == 0 {
        0
    } else {
        round_up(tuple_end(fs.drop_last()), size_align(fs.last()).1) + size_align(fs.last()).0
    }
}

/// The offset of field `k` of a tuple of the fields `fs`.
pub open spec fn tuple_offset(fs: Seq<Type>, k: int) -> int {
    round_up(tuple_end(fs.take(k)), size_align(fs[k]).1)
}

/// The size of a tuple of the fields `fs`: its end rounded up to a word, and
/// at least a word.
pub open spec fn tuple_size(fs: Seq<Type>) -> int
    decreases fs, 1nat,
{
    let e = round_up(tuple_end(fs), 4);
    if e < 4 {
        4
    } else {
        e
    }
}

/// The alignment of a tuple of the fields `fs`: that of its most aligned
/// field, and four for a tuple of none.
pub open spec fn fields_align(fs: Seq<Type>) -> int
    decreases fs, 0nat,
{
    if fs.len() == 0 {
        4
    } else {
        let a = fields_align(fs.drop_last());
        let b = size_align(fs.last()).1;
        if a < b {
            b
        } else {
            a
        }
    }
}

/// The offsets of the fields of `fs` that hold heap pointers, in order.
pub open spec fn tuple_ptr_offsets(fs: Seq<Type>) -> Seq<int>
    decreases fs.len(),
{
    if fs.len() == 0 {
        Seq::empty()
    } else {
        let prev = tuple_ptr_offsets(fs.drop_last());
        if spec_type_is_ptr(fs.last()) {
            prev.push(tuple_offset(fs, fs.len() - 1))
        } else {
            prev
        }
    }
}

/// Every field is at least a word wide and four- or eight-aligned.
pub proof fn lemma_size_align(t: Type)
    ensures
        size_align(t).0 >= 4,
        size_align(t).1 == 4 || size_align(t).1 == 8,
    decreases t, 1nat,
{
    if let Type::Tuple(fs) = t {
        assert(decreases_to!(fs => fs@));
        lemma_fields_align(fs@);
    }
}

/// A tuple is four- or eight-aligned.
pub proof fn lemma_fields_align(fs: Seq<Type>)
    ensures
        fields_align(fs) == 4 || fields_align(fs) == 8,
    decreases fs, 0nat,
{
    if fs.len() > 0 {
        lemma_fields_align(fs.drop_last());
        lemma_size_align(fs.last());
    }
}

/// Rounding up to four or eight does not go down, and goes up by less than
/// the alignment.
proof fn lemma_round_up(off: int, align: int)
    requires
        0 <= off,
        align == 4 || align == 8,
    ensures
        off <= round_up(off, align) < off + align,
        round_up(off, align) % align == 0,
{
}

/// A tuple's fields end at a nonnegative offset.
proof fn lemma_tuple_end_nonneg(fs: Seq<Type>)
    ensures
        tuple_end(fs) >= 0,
    decreases fs.len(),
{
    if fs.len() > 0 {
        lemma_tuple_end_nonneg(fs.drop_last());
        lemma_size_align(fs.last());
        lemma_round_up(tuple_end(fs.drop_last()), size_align(fs.last()).1);
    }
}

/// The first `k` fields end no later than all of them.
proof fn lemma_tuple_end_prefix(fs: Seq<Type>, k: int)
    requires
        0 <= k <= fs.len(),
    ensures
        tuple_end(fs.take(k)) <= tuple_end(fs),
    decreases fs.len(),
{
    if k == fs.len() {
        assert(fs.take(k) =~= fs);
    } else {
        lemma_tuple_end_prefix(fs.drop_last(), k);
        assert(fs.drop_last().take(k) =~= fs.take(k));
        lemma_tuple_end_nonneg(fs.drop_last());
        lemma_size_align(fs.last());
        lemma_round_up(tuple_end(fs.drop_last()), size_align(fs.last()).1);
    }
}

/// The byte layout of a tuple value: every consumer of a tuple agrees on
/// these offsets and this size.
#[derive(Debug)]
pub struct TupleLayout {
    /// `(field type, byte offset)` in declaration order.
    pub fields: Vec<(Type, i32)>,
    /// Total size, which is what a channel of this tuple moves per message.
    pub size: i32,
    /// Offsets of the fields holding heap pointers, for the descriptor.
    pub ptr_offsets: Vec<i32>,
}

impl TupleLayout {
    /// Offset and type of field `n`, i.e. of `.tN`.
    pub fn field(&self, n: usize) -> (r: Option<&(Type, i32)>)
        ensures
            n < self.fields@.len() ==> r == Some(&self.fields@[n as int]),
            n >= self.fields@.len() ==> r is None,
    {
        if n < self.fields.len() {
            Some(&self.fields[n])
        } else {
            None
        }
    }
}

/// The largest layout a 32-bit offset can hold once it is rounded up to a
/// whole word: `i32::MAX` rounded down to a multiple of four.
pub open spec fn layout_limit() -> int {
    0x7FFF_FFFC
}

/// Field width and alignment for ADT layout.
pub fn type_size_align(ty: &Type) -> (r: (i32, i32))
    requires
        size_align(*ty).0 <= layout_limit(),
    ensures
        r.0 == size_align(*ty).0,
        r.1 == size_align(*ty).1,
    decreases ty, 1nat,
{
    match ty {
        Type::Basic(BasicType::Big) | Type::Basic(BasicType::Real) => (8, 8),
        // A tuple is stored inline, so it occupies its whole width and
        // inherits its widest field's alignment.
        Type::Tuple(fields) => {
            proof {
                lemma_tuple_end_nonneg(fields@);
                lemma_round_up(tuple_end(fields@), 4);
            }
            (compute_tuple_layout(fields).size, tuple_align(fields))
        },
        _ => (4, 4),
    }
}

/// The alignment of a tuple of `fields`: that of its widest-aligned field,
/// and four for a tuple of none.
fn tuple_align(fields: &Vec<Type>) -> (r: i32)
    requires
        tuple_size(fields@) <= layout_limit(),
    ensures
        r == fields_align(fields@),
    decreases fields, 0nat,
{
    let mut align: i32 = 4;
    let mut i: usize = 0;
    while i < fields.len()
        invariant
            i <= fields@.len(),
            tuple_size(fields@) <= layout_limit(),
            align == fields_align(fields@.take(i as int)),
        decreases fields.len() - i,
    {
        proof {
            assert(decreases_to!(fields => fields@[i as int]));
            assert(fields@.take(i + 1).drop_last() =~= fields@.take(i as int));
            assert(fields@.take(i + 1).last() == fields@[i as int]);
            lemma_size_align(fields@[i as int]);
            lemma_tuple_end_prefix(fields@, i + 1);
            lemma_tuple_end_prefix(fields@.take(i + 1), i as int);
            assert(fields@.take(i + 1).take(i as int) =~= fields@.take(i as int));
            lemma_tuple_end_nonneg(fields@.take(i as int));
            lemma_round_up(tuple_end(fields@), 4);
            lemma_round_up(tuple_end(fields@.take(i as int)), size_align(fields@[i as int]).1);
        }
        let a = type_size_align(&fields[i]).1;
        if a > align {
            align = a;
        }
        i = i + 1;
    }
    proof {
        assert(fields@.take(fields@.len() as int) =~= fields@);
    }
    align
}

/// Lay out a tuple's fields using the same width and alignment rules as an
/// ADT's.
pub fn compute_tuple_layout(fields: &Vec<Type>) -> (r: TupleLayout)
    requires
        tuple_size(fields@) <= layout_limit(),
    ensures
        r.fields@.len() == fields@.len(),
        forall|k: int| 0 <= k < fields@.len() ==> (#[trigger] r.fields@[k]).1 == tuple_offset(fields@, k),
        forall|k: int| 0 <= k < fields@.len() ==> is_type_copy(fields@[k], (#[trigger] r.fields@[k]).0),
        r.size == tuple_size(fields@),
        r.ptr_offsets@.map_values(|o: i32| o as int) == tuple_ptr_offsets(fields@),
    decreases fields, 0nat,
{
    let mut out: Vec<(Type, i32)> = Vec::new();
    let mut ptr_offsets: Vec<i32> = Vec::new();
    let mut off: i32 = 0;
    let mut i: usize = 0;
    while i < fields.len()
        invariant
            i <= fields@.len(),
            tuple_size(fields@) <= layout_limit(),
            off == tuple_end(fields@.take(i as int)),
            out@.len() == i,
            forall|k: int| 0 <= k < i ==> (#[trigger] out@[k]).1 == tuple_offset(fields@, k),
            forall|k: int| 0 <= k < i ==> is_type_copy(fields@[k], (#[trigger] out@[k]).0),
            ptr_offsets@.map_values(|o: i32| o as int) == tuple_ptr_offsets(fields@.take(i as int)),
        decreases fields.len() - i,
    {
        let ghost pre = fields@.take(i as int);
        let ghost next = fields@.take(i + 1);
        proof {
            assert(decreases_to!(fields => fields@[i as int]));
            assert(next.drop_last() =~= pre);
            assert(next.last() == fields@[i as int]);
            assert(next.take(i as int) =~= pre);
            lemma_size_align(fields@[i as int]);
            lemma_tuple_end_nonneg(pre);
            lemma_tuple_end_prefix(fields@, i + 1);
            lemma_round_up(tuple_end(fields@), 4);
            lemma_round_up(off as int, size_align(fields@[i as int]).1);
            assert(tuple_end(next) == round_up(off as int, size_align(fields@[i as int]).1) + size_align(fields@[i as int]).0);
        }
        let (size, align) = type_size_align(&fields[i]);
        proof {
            lemma_layout_aligns();
        }
        off = align_up(off, align);
        proof {
            assert(fields@.take(i as int) =~= pre);
            assert(off == tuple_offset(fields@, i as int));
            assert(tuple_offset(next, i as int) == tuple_offset(fields@, i as int));
        }
        if type_is_ptr(&fields[i]) {
            ptr_offsets.push(off);
            proof {
                assert(ptr_offsets@.map_values(|o: i32| o as int) =~= tuple_ptr_offsets(pre).push(off as int));
            }
        }
        out.push((copy_type(&fields[i]), off));
        off = off + size;
        i = i + 1;
    }
    proof {
        assert(fields@.take(fields@.len() as int) =~= fields@);
        lemma_tuple_end_nonneg(fields@);
        lemma_round_up(tuple_end(fields@), 4);
    }
    proof {
        lemma_layout_aligns();
    }
    let end = align_up(off, 4);
    let size = if end < 4 {
        4
    } else {
        end
    };
    TupleLayout { fields: out, size, ptr_offsets }
}

/// The fields of a tuple do not overlap, each stands at a multiple of its
/// alignment, and all of them lie within the tuple's size.
pub proof fn lemma_tuple_layout_sound(fs: Seq<Type>, j: int, k: int)
    requires
        0 <= j < k < fs.len(),
    ensures
        tuple_offset(fs, j) + size_align(fs[j]).0 <= tuple_offset(fs, k),
        tuple_offset(fs, k) % size_align(fs[k]).1 == 0,
        tuple_offset(fs, k) + size_align(fs[k]).0 <= tuple_size(fs),
{
    let pj = fs.take(j + 1);
    let pk = fs.take(k);
    let pk1 = fs.take(k + 1);
    assert(pj.drop_last() =~= fs.take(j));
    assert(pj.last() == fs[j]);
    assert(pk.take(j + 1) =~= pj);
    lemma_tuple_end_prefix(pk, j + 1);
    lemma_tuple_end_nonneg(pk);
    lemma_size_align(fs[k]);
    lemma_round_up(tuple_end(pk), size_align(fs[k]).1);
    assert(pk1.drop_last() =~= pk);
    assert(pk1.last() == fs[k]);
    lemma_tuple_end_prefix(fs, k + 1);
    lemma_tuple_end_nonneg(fs);
    lemma_round_up(tuple_end(fs), 4);
}

/// Where an ADT's own fields start: a tagged (`pick`) ADT keeps its tag in
/// word 0 and its fields follow it.
pub fn adt_field_base(adt: &AdtDecl) -> (r: i32)
    ensures
        r == (if adt.pick is Some { 4i32 } else { 0i32 }),
{
    match adt.pick {
        Some(_) => 4,
        None => 0,
    }
}

/// The field declarations among `members`, in declaration order.
pub open spec fn adt_fields(members: Seq<AdtMember>) -> Seq<VarDecl>
    decreases members.len(),
{
    if members.len() == 0 {
        Seq::empty()
    } else {
        let prev = adt_fields(members.drop_last());
        match members.last() {
            AdtMember::Field(v) => prev.push(v),
            _ => prev,
        }
    }
}

/// The field declarations of an ADT, in declaration order.
pub fn adt_field_decls(adt: &AdtDecl) -> (r: Vec<&VarDecl>)
    ensures
        r@.map_values(|d: &VarDecl| *d) == adt_fields(adt.members@),
{
    let mut out: Vec<&VarDecl> = Vec::new();
    let mut i: usize = 0;
    while i < adt.members.len()
        invariant
            i <= adt.members@.len(),
            out@.map_values(|d: &VarDecl| *d) == adt_fields(adt.members@.take(i as int)),
        decreases adt.members.len() - i,
    {
        proof {
            assert(adt.members@.take(i + 1).drop_last() =~= adt.members@.take(i as int));
        }
        match &adt.members[i] {
            AdtMember::Field(v) => {
                out.push(v);
                proof {
                    assert(out@.map_values(|d: &VarDecl| *d) =~= adt_fields(adt.members@.take(i as int)).push(*v));
                }
            },
            _ => {},
        }
        i = i + 1;
    }
    proof {
        assert(adt.members@.take(adt.members@.len() as int) =~= adt.members@);
    }
    out
}

/// Fields placed in a record: each name with its offset and type.
pub type Placed = Seq<(Seq<char>, int, Type)>;

/// `names`, all of type `t`, placed one after another from `off`, each
/// `size` wide, after the placed fields `acc`; and where the last of them
/// ends.
pub open spec fn place_names(acc: Placed, off: int, size: int, names: Seq<String>, t: Type) -> (Placed, int)
    decreases names.len(),
{
    if names.len() == 0 {
        (acc, off)
    } else {
        let p = place_names(acc, off, size, names.drop_last(), t);
        (p.0.push((names.last()@, p.1, t)), p.1 + size)
    }
}

/// The fields of the declarations `ds` placed from `base`: each
/// declaration's names, one after another, from the first offset after the
/// previous declaration that the type's alignment allows. A declaration
/// without a type places nothing.
pub open spec fn place_decls(base: int, ds: Seq<VarDecl>) -> (Placed, int)
    decreases ds.len(),
{
    if ds.len() == 0 {
        (Seq::empty(), base)
    } else {
        let p = place_decls(base, ds.drop_last());
        match ds.last().ty {
            Some(t) => place_names(p.0, round_up(p.1, size_align(t).1), size_align(t).0, ds.last().names@, t),
            None => p,
        }
    }
}

proof fn lemma_place_names_mono(acc: Placed, off: int, size: int, names: Seq<String>, t: Type, j: int)
    requires
        0 <= j <= names.len(),
        size >= 0,
    ensures
        off <= place_names(acc, off, size, names.take(j), t).1 <= place_names(acc, off, size, names, t).1,
    decreases names.len(),
{
    if names.len() > 0 {
        let jj = if j == names.len() { names.len() - 1 } else { j };
        lemma_place_names_mono(acc, off, size, names.drop_last(), t, jj);
        assert(names.drop_last().take(jj) =~= names.take(jj));
    }
    if j == names.len() {
        assert(names.take(j) =~= names);
    }
}

proof fn lemma_place_decls_mono(base: int, ds: Seq<VarDecl>, k: int)
    requires
        0 <= k <= ds.len(),
        base >= 0,
    ensures
        base <= place_decls(base, ds.take(k)).1 <= place_decls(base, ds).1,
    decreases ds.len(),
{
    if k == ds.len() {
        assert(ds.take(k) =~= ds);
        if ds.len() > 0 {
            lemma_place_decls_mono(base, ds.drop_last(), 0);
            assert(ds.drop_last().take(0) =~= ds.take(0));
            lemma_place_decls_step(base, ds);
        }
    } else {
        lemma_place_decls_mono(base, ds.drop_last(), k);
        assert(ds.drop_last().take(k) =~= ds.take(k));
        lemma_place_decls_step(base, ds);
    }
}

/// Placing one more declaration does not move the end back.
proof fn lemma_place_decls_step(base: int, ds: Seq<VarDecl>)
    requires
        ds.len() > 0,
        base >= 0,
        place_decls(base, ds.drop_last()).1 >= base,
    ensures
        place_decls(base, ds.drop_last()).1 <= place_decls(base, ds).1,
{
    let p = place_decls(base, ds.drop_last());
    if let Some(t) = ds.last().ty {
        lemma_size_align(t);
        lemma_round_up(p.1, size_align(t).1);
        lemma_place_names_mono(p.0, round_up(p.1, size_align(t).1), size_align(t).0, ds.last().names@, t, 0);
    }
}

/// Types of the same shape are laid out alike.
pub proof fn lemma_same_shape(a: Type, b: Type)
    requires
        same_shape(a, b),
    ensures
        size_align(a) == size_align(b),
        spec_type_is_ptr(a) == spec_type_is_ptr(b),
    decreases a, 1nat,
{
    if let Type::Tuple(xs) = a {
        if let Type::Tuple(ys) = b {
            assert(decreases_to!(xs => xs@));
            lemma_same_shape_seq(xs@, ys@);
        }
    }
}

/// Tuples of fields of the same shapes are laid out alike.
pub proof fn lemma_same_shape_seq(xs: Seq<Type>, ys: Seq<Type>)
    requires
        xs.len() == ys.len(),
        forall|i: int| 0 <= i < xs.len() ==> same_shape(#[trigger] xs[i], ys[i]),
    ensures
        tuple_end(xs) == tuple_end(ys),
        tuple_size(xs) == tuple_size(ys),
        fields_align(xs) == fields_align(ys),
    decreases xs, 0nat,
{
    if xs.len() > 0 {
        assert(same_shape(xs[xs.len() - 1], ys[ys.len() - 1]));
        lemma_same_shape(xs.last(), ys.last());
        lemma_same_shape_seq(xs.drop_last(), ys.drop_last());
    }
}

/// The name, offset and type of each field in `fields`.
pub open spec fn placed(fields: Seq<(String, Type, i32)>) -> Placed {
    fields.map_values(|f: (String, Type, i32)| (f.0@, f.2 as int, f.1))
}

/// `fields` holds the names and offsets of `p`, with copies of its types.
pub open spec fn matches_placed(fields: Seq<(String, Type, i32)>, p: Placed) -> bool {
    &&& fields.len() == p.len()
    &&& forall|k: int| 0 <= k < p.len() ==> (#[trigger] fields[k]).0@ == p[k].0 && fields[k].2 == p[k].1
        && same_shape(p[k].2, fields[k].1) && is_type_copy(p[k].2, fields[k].1)
}

/// Every declared type in `ds` fits the layout limit.
pub open spec fn decl_types_fit(ds: Seq<VarDecl>) -> bool {
    forall|i: int| 0 <= i < ds.len() ==> ((#[trigger] ds[i]).ty matches Some(t) ==> size_align(t).0 <= layout_limit())
}

/// Place `decls` from `base` onwards, returning the placed fields and the
/// offset just past the last one.
pub fn layout_fields(base: i32, decls: &Vec<&VarDecl>) -> (r: (Vec<(String, Type, i32)>, i32))
    requires
        base >= 0,
        place_decls(base as int, decls@.map_values(|d: &VarDecl| *d)).1 <= layout_limit(),
        decl_types_fit(decls@.map_values(|d: &VarDecl| *d)),
    ensures
        matches_placed(r.0@, place_decls(base as int, decls@.map_values(|d: &VarDecl| *d)).0),
        r.1 == place_decls(base as int, decls@.map_values(|d: &VarDecl| *d)).1,
{
    let ghost ds = decls@.map_values(|d: &VarDecl| *d);
    let mut fields: Vec<(String, Type, i32)> = Vec::new();
    let mut off: i32 = base;
    let mut i: usize = 0;
    while i < decls.len()
        invariant
            ds == decls@.map_values(|d: &VarDecl| *d),
            base >= 0,
            place_decls(base as int, ds).1 <= layout_limit(),
            decl_types_fit(ds),
            i <= ds.len(),
            off == place_decls(base as int, ds.take(i as int)).1,
            matches_placed(fields@, place_decls(base as int, ds.take(i as int)).0),
        decreases decls.len() - i,
    {
        let v = decls[i];
        let ghost pre = ds.take(i as int);
        let ghost next = ds.take(i + 1);
        proof {
            assert(next.drop_last() =~= pre);
            assert(next.last() == *v);
            lemma_place_decls_mono(base as int, ds, i + 1);
            lemma_place_decls_mono(base as int, pre, 0);
        }
        match &v.ty {
            None => {},
            Some(t) => {
                let ghost p = place_decls(base as int, pre);
                proof {
                    assert(ds[i as int] == *v);
                    lemma_size_align(*t);
                    lemma_round_up(p.1, size_align(*t).1);
                    lemma_place_names_mono(p.0, round_up(p.1, size_align(*t).1), size_align(*t).0, v.names@, *t, 0);
                }
                let (size, align) = type_size_align(t);
                proof {
                    lemma_layout_aligns();
                }
                off = align_up(off, align);
                let ghost start = off as int;
                let mut j: usize = 0;
                while j < v.names.len()
                    invariant
                        0 <= start <= off,
                        size == size_align(*t).0,
                        place_names(p.0, start, size as int, v.names@, *t).1 <= layout_limit(),
                        j <= v.names@.len(),
                        off == place_names(p.0, start, size as int, v.names@.take(j as int), *t).1,
                        matches_placed(fields@, place_names(p.0, start, size as int, v.names@.take(j as int), *t).0),
                    decreases v.names.len() - j,
                {
                    proof {
                        assert(v.names@.take(j + 1).drop_last() =~= v.names@.take(j as int));
                        lemma_place_names_mono(p.0, start, size as int, v.names@, *t, j + 1);
                        lemma_size_align(*t);
                    }
                    fields.push((v.names[j].clone(), copy_type(t), off));
                    off = off + size;
                    j = j + 1;
                }
                proof {
                    assert(v.names@.take(v.names@.len() as int) =~= v.names@);
                }
            },
        }
        i = i + 1;
    }
    proof {
        assert(ds.take(ds.len() as int) =~= ds);
    }
    (fields, off)
}

/// References to each of `decls`, in order.
fn decl_refs(decls: &Vec<VarDecl>) -> (r: Vec<&VarDecl>)
    ensures
        r@.map_values(|d: &VarDecl| *d) == decls@,
{
    let mut out: Vec<&VarDecl> = Vec::new();
    let mut i: usize = 0;
    while i < decls.len()
        invariant
            i <= decls@.len(),
            out@.len() == i,
            out@.map_values(|d: &VarDecl| *d) == decls@.take(i as int),
        decreases decls.len() - i,
    {
        let ghost before = out@;
        let d = &decls[i];
        out.push(d);
        proof {
            assert(*out@[i as int] == decls@[i as int]);
            assert forall|k: int| 0 <= k < i implies out@[k] == before[k] by {}
            assert(out@.map_values(|d: &VarDecl| *d) =~= decls@.take(i + 1));
        }
        i = i + 1;
    }
    proof {
        assert(decls@.take(decls@.len() as int) =~= decls@);
    }
    out
}

/// Where the fields of `adt` start.
pub open spec fn field_base(adt: AdtDecl) -> int {
    if adt.pick is Some {
        4
    } else {
        0
    }
}

/// The ADT's own fields, placed.
pub open spec fn common_layout(adt: AdtDecl) -> (Placed, int) {
    place_decls(field_base(adt), adt_fields(adt.members@))
}

/// The fields of one `pick` variant: the ADT's own, then the variant's,
/// which start where the common ones end.
pub open spec fn variant_layout(adt: AdtDecl, case: PickCase) -> Placed {
    common_layout(adt).0 + place_decls(common_layout(adt).1, case.fields@).0
}

/// The ADT's own fields fit the layout limit.
pub open spec fn common_fits(adt: AdtDecl) -> bool {
    &&& common_layout(adt).1 <= layout_limit()
    &&& decl_types_fit(adt_fields(adt.members@))
}

/// The variant `case` of the ADT fits the layout limit.
pub open spec fn variant_fits(adt: AdtDecl, case: PickCase) -> bool {
    &&& place_decls(common_layout(adt).1, case.fields@).1 <= layout_limit()
    &&& decl_types_fit(case.fields@)
}

/// Compute an ADT's field layout: list of `(name, type, byte_offset)`.
pub fn compute_adt_layout(adt: &AdtDecl) -> (r: Vec<(String, Type, i32)>)
    requires
        common_fits(*adt),
    ensures
        matches_placed(r@, common_layout(*adt).0),
{
    let decls = adt_field_decls(adt);
    layout_fields(adt_field_base(adt), &decls).0
}

/// The layout one `pick` variant presents: the ADT's own fields followed by
/// that variant's, which start where the common fields end. Every variant
/// starts at the same offset, so they overlay one another.
pub fn compute_variant_layout(adt: &AdtDecl, case: &PickCase) -> (r: Vec<(String, Type, i32)>)
    requires
        common_fits(*adt),
        variant_fits(*adt, *case),
    ensures
        matches_placed(r@, variant_layout(*adt, *case)),
{
    let decls = adt_field_decls(adt);
    let (mut fields, common_end) = layout_fields(adt_field_base(adt), &decls);
    let ghost common = fields@;
    proof {
        lemma_place_decls_mono(field_base(*adt), adt_fields(adt.members@), 0);
    }
    let case_decls = decl_refs(&case.fields);
    let (mut more, _) = layout_fields(common_end, &case_decls);
    let ghost extra = more@;
    fields.append(&mut more);
    proof {
        let p = variant_layout(*adt, *case);
        assert forall|k: int| 0 <= k < p.len() implies (#[trigger] fields@[k]).0@ == p[k].0 && fields@[k].2 == p[k].1
            && same_shape(p[k].2, fields@[k].1) by {
            if k < common.len() {
                assert(fields@[k] == common[k]);
            } else {
                assert(fields@[k] == extra[k - common.len()]);
            }
        }
    }
    fields
}

/// A record's storage shape: total size in bytes and the byte offsets of the
/// words that hold heap pointers.
#[derive(Debug)]
pub struct RecordShape {
    pub size: i32,
    pub ptr_offsets: Vec<i32>,
}

/// The furthest end of the fields `p` of a record whose first `base` bytes
/// are the tag.
pub open spec fn shape_end(base: int, p: Placed) -> int
    decreases p.len(),
{
    if p.len() == 0 {
        base
    } else {
        let e = shape_end(base, p.drop_last());
        let f = p.last().1 + size_align(p.last().2).0;
        if e < f {
            f
        } else {
            e
        }
    }
}

/// The size of a record with fields `p`: its end rounded up to a word, and
/// at least a word.
pub open spec fn shape_size(base: int, p: Placed) -> int {
    let e = shape_end(base, p);
    round_up(if e < 4 { 4 } else { e }, 4)
}

/// The offsets of the fields of `p` that hold heap pointers, in order.
pub open spec fn shape_ptrs(p: Placed) -> Seq<int>
    decreases p.len(),
{
    if p.len() == 0 {
        Seq::empty()
    } else if spec_type_is_ptr(p.last().2) {
        shape_ptrs(p.drop_last()).push(p.last().1)
    } else {
        shape_ptrs(p.drop_last())
    }
}

/// Every field of `p` stands at a nonnegative offset and ends within the
/// layout limit.
pub open spec fn placed_fits(p: Placed) -> bool {
    forall|k: int| 0 <= k < p.len() ==> 0 <= (#[trigger] p[k]).1 && p[k].1 + size_align(p[k].2).0 <= layout_limit()
        && size_align(p[k].2).0 <= layout_limit()
}

proof fn lemma_shape_end_bounds(base: int, p: Placed)
    requires
        0 <= base <= layout_limit(),
        placed_fits(p),
    ensures
        base <= shape_end(base, p) <= layout_limit(),
    decreases p.len(),
{
    if p.len() > 0 {
        assert(p.drop_last().len() == p.len() - 1);
        assert(forall|k: int| 0 <= k < p.drop_last().len() ==> p.drop_last()[k] == p[k]);
        lemma_shape_end_bounds(base, p.drop_last());
        assert(0 <= p[p.len() - 1].1 && p[p.len() - 1].1 + size_align(p[p.len() - 1].2).0 <= layout_limit());
    }
}

/// The storage shape of a record with these fields, whose first `base`
/// bytes are the tag (or nothing, for an untagged ADT).
pub fn shape_of(base: i32, fields: &Vec<(String, Type, i32)>) -> (r: RecordShape)
    requires
        0 <= base <= layout_limit(),
        placed_fits(placed(fields@)),
    ensures
        r.size == shape_size(base as int, placed(fields@)),
        r.ptr_offsets@.map_values(|o: i32| o as int) == shape_ptrs(placed(fields@)),
{
    let ghost all = placed(fields@);
    let mut ptr_offsets: Vec<i32> = Vec::new();
    let mut end: i32 = base;
    let mut i: usize = 0;
    while i < fields.len()
        invariant
            all == placed(fields@),
            0 <= base <= layout_limit(),
            placed_fits(all),
            i <= fields@.len(),
            end == shape_end(base as int, all.take(i as int)),
            ptr_offsets@.map_values(|o: i32| o as int) == shape_ptrs(all.take(i as int)),
        decreases fields.len() - i,
    {
        let ghost pre = all.take(i as int);
        let ghost next = all.take(i + 1);
        proof {
            assert(next.drop_last() =~= pre);
            assert(next.last() == all[i as int]);
            assert(all[i as int] == (fields@[i as int].0@, fields@[i as int].2 as int, fields@[i as int].1));
            assert(placed_fits(pre)) by {
                assert forall|k: int| 0 <= k < pre.len() implies 0 <= (#[trigger] pre[k]).1 && pre[k].1 + size_align(pre[k].2).0 <= layout_limit()
                    && size_align(pre[k].2).0 <= layout_limit() by {
                    assert(pre[k] == all[k]);
                }
            }
            lemma_shape_end_bounds(base as int, pre);
            assert(0 <= all[i as int].1 && all[i as int].1 + size_align(all[i as int].2).0 <= layout_limit());
        }
        let f = &fields[i];
        let size = type_size_align(&f.1).0;
        let e = f.2 + size;
        if end < e {
            end = e;
        }
        if type_is_ptr(&f.1) {
            ptr_offsets.push(f.2);
            proof {
                assert(ptr_offsets@.map_values(|o: i32| o as int) =~= shape_ptrs(pre).push(f.2 as int));
            }
        }
        i = i + 1;
    }
    proof {
        assert(all.take(all.len() as int) =~= all);
        lemma_shape_end_bounds(base as int, all);
    }
    let m = if end < 4 {
        4
    } else {
        end
    };
    proof {
        lemma_layout_aligns();
    }
    RecordShape { size: align_up(m, 4), ptr_offsets }
}

/// Fields placed by `place_names` after `acc` lie between `off` and the
/// end, and `acc` stays as it was.
proof fn lemma_place_names_within(acc: Placed, off: int, size: int, names: Seq<String>, t: Type)
    requires
        size == size_align(t).0,
    ensures
        place_names(acc, off, size, names, t).0.len() == acc.len() + names.len(),
        place_names(acc, off, size, names, t).1 == off + names.len() * size,
        forall|k: int| 0 <= k < acc.len() ==> #[trigger] place_names(acc, off, size, names, t).0[k] == acc[k],
        forall|k: int| acc.len() <= k < acc.len() + names.len() ==> {
            let e = #[trigger] place_names(acc, off, size, names, t).0[k];
            &&& off <= e.1
            &&& e.1 + size_align(e.2).0 <= place_names(acc, off, size, names, t).1
            &&& e.2 == t
        },
    decreases names.len(),
{
    if names.len() > 0 {
        lemma_place_names_within(acc, off, size, names.drop_last(), t);
        lemma_size_align(t);
        assert((names.len() - 1) * size + size == names.len() * size) by (nonlinear_arith);
        assert(0 <= (names.len() - 1) * size) by (nonlinear_arith)
            requires
                names.len() >= 1,
                size >= 4;
    }
}

/// Every field that `place_decls` places lies after `base` and ends by the
/// end of the layout, and its type fits the layout limit.
pub proof fn lemma_place_decls_within(base: int, ds: Seq<VarDecl>)
    requires
        base >= 0,
        decl_types_fit(ds),
    ensures
        forall|k: int| 0 <= k < place_decls(base, ds).0.len() ==> {
            let e = #[trigger] place_decls(base, ds).0[k];
            &&& base <= e.1
            &&& e.1 + size_align(e.2).0 <= place_decls(base, ds).1
            &&& size_align(e.2).0 <= layout_limit()
        },
    decreases ds.len(),
{
    if ds.len() > 0 {
        let pre = ds.drop_last();
        assert(decl_types_fit(pre)) by {
            assert forall|i: int| 0 <= i < pre.len() implies ((#[trigger] pre[i]).ty matches Some(t) ==> size_align(t).0 <= layout_limit()) by {
                assert(pre[i] == ds[i]);
            }
        }
        lemma_place_decls_within(base, pre);
        lemma_place_decls_mono(base, pre, 0);
        assert(pre.take(0) =~= Seq::<VarDecl>::empty());
        let p = place_decls(base, pre);
        if let Some(t) = ds.last().ty {
            assert(ds[ds.len() - 1] == ds.last());
            lemma_size_align(t);
            lemma_round_up(p.1, size_align(t).1);
            lemma_place_names_within(p.0, round_up(p.1, size_align(t).1), size_align(t).0, ds.last().names@, t);
            let q = place_names(p.0, round_up(p.1, size_align(t).1), size_align(t).0, ds.last().names@, t);
            assert forall|k: int| 0 <= k < q.0.len() implies {
                let e = #[trigger] q.0[k];
                &&& base <= e.1
                &&& e.1 + size_align(e.2).0 <= q.1
                &&& size_align(e.2).0 <= layout_limit()
            } by {
                if k < p.0.len() {
                    assert(q.0[k] == p.0[k]);
                    assert(p.1 <= q.1) by (nonlinear_arith)
                        requires
                            q.1 == round_up(p.1, size_align(t).1) + ds.last().names@.len() * size_align(t).0,
                            round_up(p.1, size_align(t).1) >= p.1,
                            size_align(t).0 >= 4;
                }
            }
        }
    }
}

/// A layout that matches `p` has the shape of `p`.
proof fn lemma_shape_matches(base: int, fields: Seq<(String, Type, i32)>, p: Placed)
    requires
        matches_placed(fields, p),
    ensures
        shape_end(base, placed(fields)) == shape_end(base, p),
        shape_ptrs(placed(fields)) == shape_ptrs(p),
    decreases p.len(),
{
    if p.len() > 0 {
        let f2 = fields.drop_last();
        let p2 = p.drop_last();
        assert(placed(fields).drop_last() =~= placed(f2));
        assert(matches_placed(f2, p2)) by {
            assert forall|k: int| 0 <= k < p2.len() implies (#[trigger] f2[k]).0@ == p2[k].0 && f2[k].2 == p2[k].1
                && same_shape(p2[k].2, f2[k].1) by {
                assert(f2[k] == fields[k]);
                assert(p2[k] == p[k]);
            }
        }
        lemma_shape_matches(base, f2, p2);
        let n = p.len() - 1;
        assert(same_shape(p[n].2, fields[n].1));
        lemma_same_shape(p[n].2, fields[n].1);
        assert(placed(fields).last() == (fields[n].0@, fields[n].2 as int, fields[n].1));
    }
}

/// The size of an ADT's record with the `pick` variants `cases`: enough
/// for its own fields and for each variant.
pub open spec fn cases_size(adt: AdtDecl, cases: Seq<PickCase>) -> int
    decreases cases.len(),
{
    if cases.len() == 0 {
        shape_size(field_base(adt), common_layout(adt).0)
    } else {
        let a = cases_size(adt, cases.drop_last());
        let b = shape_size(field_base(adt), variant_layout(adt, cases.last()));
        if a < b {
            b
        } else {
            a
        }
    }
}

/// The pointer slots of an ADT's record with the `pick` variants `cases`:
/// those of its own fields and those of each variant.
pub open spec fn cases_ptrs(adt: AdtDecl, cases: Seq<PickCase>) -> Set<int>
    decreases cases.len(),
{
    if cases.len() == 0 {
        shape_ptrs(common_layout(adt).0).to_set()
    } else {
        cases_ptrs(adt, cases.drop_last()) + shape_ptrs(variant_layout(adt, cases.last())).to_set()
    }
}

/// `acc` followed by each of `xs` in order that is not there already.
pub open spec fn append_new(acc: Seq<int>, xs: Seq<int>) -> Seq<int>
    decreases xs.len(),
{
    if xs.len() == 0 {
        acc
    } else {
        let m = append_new(acc, xs.drop_last());
        if m.contains(xs.last()) {
            m
        } else {
            m.push(xs.last())
        }
    }
}

/// The pointer offsets of an ADT record in the order they are listed: those
/// of its own fields, then those of each of `cases` that are new.
pub open spec fn cases_ptr_list(adt: AdtDecl, cases: Seq<PickCase>) -> Seq<int>
    decreases cases.len(),
{
    if cases.len() == 0 {
        shape_ptrs(common_layout(adt).0)
    } else {
        append_new(cases_ptr_list(adt, cases.drop_last()), shape_ptrs(variant_layout(adt, cases.last())))
    }
}

/// The `pick` variants of an ADT, none for an untagged one.
pub open spec fn adt_cases(adt: AdtDecl) -> Seq<PickCase> {
    match adt.pick {
        Some(cs) => cs@,
        None => Seq::empty(),
    }
}

/// Placed fields stand one after another: each ends before the next begins.
pub open spec fn placed_in_order(p: Placed) -> bool {
    forall|j: int, k: int| 0 <= j < k < p.len() ==> #[trigger] p[j].1 + size_align(p[j].2).0 <= #[trigger] p[k].1
}

/// Every placed field ends by `end`.
pub open spec fn placed_end_by(p: Placed, end: int) -> bool {
    forall|k: int| 0 <= k < p.len() ==> #[trigger] p[k].1 + size_align(p[k].2).0 <= end
}

proof fn lemma_place_names_in_order(acc: Placed, off: int, size: int, names: Seq<String>, t: Type)
    requires
        size == size_align(t).0,
        placed_in_order(acc),
        placed_end_by(acc, off),
    ensures
        placed_in_order(place_names(acc, off, size, names, t).0),
        placed_end_by(place_names(acc, off, size, names, t).0, place_names(acc, off, size, names, t).1),
        off <= place_names(acc, off, size, names, t).1,
    decreases names.len(),
{
    lemma_size_align(t);
    if names.len() > 0 {
        lemma_place_names_in_order(acc, off, size, names.drop_last(), t);
        let p = place_names(acc, off, size, names.drop_last(), t);
        let q = place_names(acc, off, size, names, t);
        assert(q.0 == p.0.push((names.last()@, p.1, t)));
        assert forall|j: int, k: int| 0 <= j < k < q.0.len() implies #[trigger] q.0[j].1 + size_align(q.0[j].2).0 <= #[trigger] q.0[k].1 by {
            if k < p.0.len() {
                assert(q.0[j] == p.0[j] && q.0[k] == p.0[k]);
            } else {
                assert(q.0[j] == p.0[j]);
            }
        }
        assert forall|k: int| 0 <= k < q.0.len() implies #[trigger] q.0[k].1 + size_align(q.0[k].2).0 <= q.1 by {
            if k < p.0.len() {
                assert(q.0[k] == p.0[k]);
            }
        }
    }
}

/// The fields that `place_decls` places stand one after another, and all
/// of them end by the end of the layout.
pub proof fn lemma_place_decls_in_order(base: int, ds: Seq<VarDecl>)
    requires
        base >= 0,
    ensures
        placed_in_order(place_decls(base, ds).0),
        placed_end_by(place_decls(base, ds).0, place_decls(base, ds).1),
        base <= place_decls(base, ds).1,
    decreases ds.len(),
{
    if ds.len() > 0 {
        lemma_place_decls_in_order(base, ds.drop_last());
        let p = place_decls(base, ds.drop_last());
        if let Some(t) = ds.last().ty {
            lemma_size_align(t);
            lemma_round_up(p.1, size_align(t).1);
            lemma_place_names_in_order(p.0, round_up(p.1, size_align(t).1), size_align(t).0, ds.last().names@, t);
        }
    }
}

/// The fields of each variant of an ADT record never overlap: the ADT's
/// own fields stand one after another, and the variant's fields follow them
/// in the same way.
pub proof fn lemma_variant_fields_disjoint(adt: AdtDecl, case: PickCase)
    ensures
        placed_in_order(variant_layout(adt, case)),
{
    let c = common_layout(adt);
    lemma_place_decls_in_order(field_base(adt), adt_fields(adt.members@));
    lemma_place_decls_in_order(c.1, case.fields@);
    let v = place_decls(c.1, case.fields@);
    lemma_place_decls_within_nonneg(c.1, case.fields@);
    let all = variant_layout(adt, case);
    assert forall|j: int, k: int| 0 <= j < k < all.len() implies #[trigger] all[j].1 + size_align(all[j].2).0 <= #[trigger] all[k].1 by {
        if k < c.0.len() {
            assert(all[j] == c.0[j] && all[k] == c.0[k]);
        } else if j < c.0.len() {
            assert(all[j] == c.0[j]);
            assert(all[k] == v.0[k - c.0.len()]);
        } else {
            assert(all[j] == v.0[j - c.0.len()]);
            assert(all[k] == v.0[k - c.0.len()]);
        }
    }
}

/// Every field that `place_decls` places starts at or after `base`.
proof fn lemma_place_decls_within_nonneg(base: int, ds: Seq<VarDecl>)
    requires
        base >= 0,
    ensures
        forall|k: int| 0 <= k < place_decls(base, ds).0.len() ==> base <= #[trigger] place_decls(base, ds).0[k].1,
    decreases ds.len(),
{
    if ds.len() > 0 {
        lemma_place_decls_within_nonneg(base, ds.drop_last());
        lemma_place_decls_in_order(base, ds.drop_last());
        let p = place_decls(base, ds.drop_last());
        if let Some(t) = ds.last().ty {
            lemma_size_align(t);
            lemma_round_up(p.1, size_align(t).1);
            lemma_place_names_within(p.0, round_up(p.1, size_align(t).1), size_align(t).0, ds.last().names@, t);
        }
    }
}

/// The record of an ADT is as large as the layout of its own fields and of
/// each of its variants, and its pointer slots include those of its own
/// fields and of each variant.
pub proof fn lemma_record_covers_variants(adt: AdtDecl, cases: Seq<PickCase>, k: int)
    requires
        0 <= k < cases.len(),
    ensures
        cases_size(adt, cases) >= shape_size(field_base(adt), common_layout(adt).0),
        cases_size(adt, cases) >= shape_size(field_base(adt), variant_layout(adt, cases[k])),
        shape_ptrs(common_layout(adt).0).to_set().subset_of(cases_ptrs(adt, cases)),
        shape_ptrs(variant_layout(adt, cases[k])).to_set().subset_of(cases_ptrs(adt, cases)),
    decreases cases.len(),
{
    lemma_record_covers_common(adt, cases);
    if k < cases.len() - 1 {
        lemma_record_covers_variants(adt, cases.drop_last(), k);
        assert(cases.drop_last()[k] == cases[k]);
    }
}

/// The record of an ADT is as large as the layout of its own fields, and
/// its pointer slots include theirs.
proof fn lemma_record_covers_common(adt: AdtDecl, cases: Seq<PickCase>)
    ensures
        cases_size(adt, cases) >= shape_size(field_base(adt), common_layout(adt).0),
        shape_ptrs(common_layout(adt).0).to_set().subset_of(cases_ptrs(adt, cases)),
    decreases cases.len(),
{
    if cases.len() > 0 {
        lemma_record_covers_common(adt, cases.drop_last());
    }
}

/// Whether `v` holds `x`.
fn has_offset(v: &Vec<i32>, x: i32) -> (r: bool)
    ensures
        r == v@.contains(x),
{
    let mut i: usize = 0;
    while i < v.len()
        invariant
            i <= v@.len(),
            forall|j: int| 0 <= j < i ==> v@[j] != x,
        decreases v.len() - i,
    {
        if v[i] == x {
            return true;
        }
        i = i + 1;
    }
    false
}

/// The offsets in `v`, as integers.
pub open spec fn offset_set(v: Seq<i32>) -> Set<int> {
    v.map_values(|o: i32| o as int).to_set()
}

/// The shape of a record that the fields `fields` give, matched against `p`.
fn shape_of_placed(base: i32, fields: &Vec<(String, Type, i32)>, Ghost(p): Ghost<Placed>, Ghost(end): Ghost<int>) -> (r: RecordShape)
    requires
        0 <= base <= layout_limit(),
        matches_placed(fields@, p),
        end <= layout_limit(),
        forall|k: int| 0 <= k < p.len() ==> {
            let e = #[trigger] p[k];
            &&& base <= e.1
            &&& e.1 + size_align(e.2).0 <= end
            &&& size_align(e.2).0 <= layout_limit()
        },
    ensures
        r.size == shape_size(base as int, p),
        r.ptr_offsets@.map_values(|o: i32| o as int) == shape_ptrs(p),
{
    proof {
        assert forall|k: int| 0 <= k < placed(fields@).len() implies 0 <= (#[trigger] placed(fields@)[k]).1
            && placed(fields@)[k].1 + size_align(placed(fields@)[k].2).0 <= layout_limit()
            && size_align(placed(fields@)[k].2).0 <= layout_limit() by {
            assert(same_shape(p[k].2, fields@[k].1));
            lemma_same_shape(p[k].2, fields@[k].1);
            lemma_size_align(p[k].2);
        }
        lemma_shape_matches(base as int, fields@, p);
    }
    shape_of(base, fields)
}

/// The storage shape of a record built from an ADT declaration. `pick`
/// variants are laid out after the common fields, and the record is big
/// enough for the largest of them; the pointer slots of every variant are
/// marked.
pub fn compute_adt_shape(adt: &AdtDecl) -> (r: RecordShape)
    requires
        common_fits(*adt),
        forall|i: int| 0 <= i < adt_cases(*adt).len() ==> variant_fits(*adt, #[trigger] adt_cases(*adt)[i]),
    ensures
        r.size == cases_size(*adt, adt_cases(*adt)),
        offset_set(r.ptr_offsets@) == cases_ptrs(*adt, adt_cases(*adt)),
        r.ptr_offsets@.map_values(|o: i32| o as int) == cases_ptr_list(*adt, adt_cases(*adt)),
{
    let base = adt_field_base(adt);
    let common = compute_adt_layout(adt);
    proof {
        lemma_place_decls_within(field_base(*adt), adt_fields(adt.members@));
    }
    let mut shape = shape_of_placed(base, &common, Ghost(common_layout(*adt).0), Ghost(common_layout(*adt).1));
    proof {
        assert(offset_set(shape.ptr_offsets@) =~= shape_ptrs(common_layout(*adt).0).to_set());
    }
    match &adt.pick {
        None => {},
        Some(cases) => {
            proof {
                assert(adt_cases(*adt) == cases@);
                assert forall|j: int| 0 <= j < cases@.len() implies variant_fits(*adt, #[trigger] cases@[j]) by {
                    assert(adt_cases(*adt)[j] == cases@[j]);
                }
                assert(cases@.take(0) =~= Seq::<PickCase>::empty());
            }
            let mut i: usize = 0;
            while i < cases.len()
                invariant
                    adt.pick == Some(*cases),
                    base == field_base(*adt),
                    common_fits(*adt),
                    forall|j: int| 0 <= j < cases@.len() ==> variant_fits(*adt, #[trigger] cases@[j]),
                    i <= cases@.len(),
                    shape.size == cases_size(*adt, cases@.take(i as int)),
                    offset_set(shape.ptr_offsets@) == cases_ptrs(*adt, cases@.take(i as int)),
                    shape.ptr_offsets@.map_values(|o: i32| o as int) == cases_ptr_list(*adt, cases@.take(i as int)),
                decreases cases.len() - i,
            {
                proof {
                    assert(adt_cases(*adt) == cases@);
                    assert(cases@.take(i + 1).drop_last() =~= cases@.take(i as int));
                    assert(cases@.take(i + 1).last() == cases@[i as int]);
                }
                let case = &cases[i];
                let fields = compute_variant_layout(adt, case);
                let ghost vp = variant_layout(*adt, *case);
                let ghost ce = common_layout(*adt).1;
                let ghost vend = place_decls(ce, case.fields@).1;
                proof {
                    lemma_place_decls_within(field_base(*adt), adt_fields(adt.members@));
                    lemma_place_decls_mono(field_base(*adt), adt_fields(adt.members@), 0);
                    lemma_place_decls_within(ce, case.fields@);
                    lemma_place_decls_mono(ce, case.fields@, 0);
                    assert(adt_fields(adt.members@).take(0) =~= Seq::<VarDecl>::empty());
                    assert(case.fields@.take(0) =~= Seq::<VarDecl>::empty());
                    let cp = common_layout(*adt).0;
                    assert forall|k: int| 0 <= k < vp.len() implies {
                        let e = #[trigger] vp[k];
                        &&& base <= e.1
                        &&& e.1 + size_align(e.2).0 <= vend
                        &&& size_align(e.2).0 <= layout_limit()
                    } by {
                        if k < cp.len() {
                            assert(vp[k] == cp[k]);
                        } else {
                            assert(vp[k] == place_decls(ce, case.fields@).0[k - cp.len()]);
                        }
                    }
                }
                let variant = shape_of_placed(base, &fields, Ghost(vp), Ghost(vend));
                if variant.size > shape.size {
                    shape.size = variant.size;
                }
                let ghost before = shape.ptr_offsets@;
                let ghost new_size = shape.size;
                let mut j: usize = 0;
                while j < variant.ptr_offsets.len()
                    invariant
                        shape.size == new_size,
                        j <= variant.ptr_offsets@.len(),
                        offset_set(shape.ptr_offsets@) == offset_set(before) + offset_set(variant.ptr_offsets@.take(j as int)),
                        shape.ptr_offsets@.map_values(|o: i32| o as int) == append_new(
                            before.map_values(|o: i32| o as int),
                            variant.ptr_offsets@.take(j as int).map_values(|o: i32| o as int),
                        ),
                    decreases variant.ptr_offsets.len() - j,
                {
                    let off = variant.ptr_offsets[j];
                    proof {
                        assert(variant.ptr_offsets@.take(j + 1) =~= variant.ptr_offsets@.take(j as int).push(off));
                        assert(offset_set(variant.ptr_offsets@.take(j + 1)) =~= offset_set(variant.ptr_offsets@.take(j as int)).insert(off as int)) by {
                            let m = variant.ptr_offsets@.take(j as int).map_values(|o: i32| o as int);
                            assert(variant.ptr_offsets@.take(j + 1).map_values(|o: i32| o as int) =~= m.push(off as int));
                            m.lemma_push_to_set_commute(off as int);
                        }
                    }
                    let ghost vm = variant.ptr_offsets@.take(j + 1).map_values(|o: i32| o as int);
                    let ghost cur = shape.ptr_offsets@.map_values(|o: i32| o as int);
                    proof {
                        assert(vm.drop_last() =~= variant.ptr_offsets@.take(j as int).map_values(|o: i32| o as int));
                        assert(vm.last() == off as int);
                        assert(cur.contains(off as int) <==> shape.ptr_offsets@.contains(off)) by {
                            if cur.contains(off as int) {
                                let w = choose|w: int| 0 <= w < cur.len() && cur[w] == off as int;
                                assert(shape.ptr_offsets@[w] == off);
                            }
                            if shape.ptr_offsets@.contains(off) {
                                let w = choose|w: int| 0 <= w < shape.ptr_offsets@.len() && shape.ptr_offsets@[w] == off;
                                assert(cur[w] == off as int);
                            }
                        }
                    }
                    if !has_offset(&shape.ptr_offsets, off) {
                        let ghost pre = shape.ptr_offsets@;
                        shape.ptr_offsets.push(off);
                        proof {
                            assert(shape.ptr_offsets@.map_values(|o: i32| o as int) =~= pre.map_values(|o: i32| o as int).push(off as int));
                            pre.map_values(|o: i32| o as int).lemma_push_to_set_commute(off as int);
                            assert(offset_set(shape.ptr_offsets@) =~= offset_set(pre).insert(off as int));
                        }
                    } else {
                        proof {
                            let w = choose|w: int| 0 <= w < shape.ptr_offsets@.len() && shape.ptr_offsets@[w] == off;
                            assert(shape.ptr_offsets@.map_values(|o: i32| o as int)[w] == off as int);
                            assert(offset_set(shape.ptr_offsets@).contains(off as int));
                            assert(offset_set(shape.ptr_offsets@) =~= offset_set(shape.ptr_offsets@).insert(off as int));
                        }
                    }
                    proof {
                        assert(offset_set(shape.ptr_offsets@) =~= offset_set(before) + offset_set(variant.ptr_offsets@.take(j + 1)));
                        assert(shape.ptr_offsets@.map_values(|o: i32| o as int) =~= append_new(before.map_values(|o: i32| o as int), vm));
                    }
                    j = j + 1;
                }
                proof {
                    assert(variant.ptr_offsets@.take(variant.ptr_offsets@.len() as int) =~= variant.ptr_offsets@);
                    assert(offset_set(variant.ptr_offsets@) =~= shape_ptrs(vp).to_set());
                    assert(offset_set(shape.ptr_offsets@) =~= cases_ptrs(*adt, cases@.take(i + 1)));
                    assert(variant.ptr_offsets@.map_values(|o: i32| o as int) == shape_ptrs(vp));
                    assert(shape.ptr_offsets@.map_values(|o: i32| o as int) =~= cases_ptr_list(*adt, cases@.take(i + 1)));
                }
                i = i + 1;
            }
            proof {
                assert(cases@.take(cases@.len() as int) =~= cases@);
            }
        },
    }
    shape
}

// ── Declarations and expressions ───────────────────────────────

/// The element type of the array a declaration declares: the written
/// `array of T`, or the element type of an `array[n] of T`, of an
/// `array[] of T {...}` or of an `array of T` cast that initializes it.
pub open spec fn array_elem_of(v: VarDecl) -> Option<Type> {
    match v.ty {
        Some(Type::Array(elem)) => Some(*elem),
        _ => match v.init {
            Some(Expr::ArrayAlloc(_, ty, _)) => Some(*ty),
            Some(Expr::ArrayLit(_, _, Some(ty), _)) => Some(*ty),
            Some(Expr::Cast(ty, _, _)) => match *ty {
                Type::Array(elem) => Some(*elem),
                _ => None,
            },
            _ => None,
        },
    }
}

/// `a` is a copy of `b`, shape for shape.
pub open spec fn same_opt_shape(a: Option<Type>, b: Option<Type>) -> bool {
    match (a, b) {
        (Some(x), Some(y)) => same_shape(y, x),
        (None, None) => true,
        _ => false,
    }
}

/// Extract the array element Type from a VarDecl, if any.
pub fn decl_array_elem_type(v: &VarDecl) -> (r: Option<Type>)
    ensures
        same_opt_shape(r, array_elem_of(*v)),
{
    if let Some(Type::Array(elem)) = &v.ty {
        return Some(copy_type(elem));
    }
    match &v.init {
        Some(Expr::ArrayAlloc(_, ty, _)) => Some(copy_type(ty)),
        Some(Expr::ArrayLit(_, _, Some(ty), _)) => Some(copy_type(ty)),
        Some(Expr::Cast(ty, _, _)) => match &**ty {
            Type::Array(elem) => Some(copy_type(elem)),
            _ => None,
        },
        _ => None,
    }
}

/// The element type of the channel a declaration declares: the written
/// `chan of T` (buffered or not), or that of a `chan of T` it is
/// initialized with.
pub open spec fn chan_elem_of(v: VarDecl) -> Option<Type> {
    match v.ty {
        Some(Type::Chan(elem)) => Some(*elem),
        Some(Type::BufChan(_, elem)) => Some(*elem),
        _ => match v.init {
            Some(Expr::ChanAlloc(ty, _)) => Some(*ty),
            _ => None,
        },
    }
}

/// Extract the channel element Type from a VarDecl, if any.
pub fn decl_chan_elem_type(v: &VarDecl) -> (r: Option<Type>)
    ensures
        same_opt_shape(r, chan_elem_of(*v)),
{
    match &v.ty {
        Some(Type::Chan(elem)) | Some(Type::BufChan(_, elem)) => {
            return Some(copy_type(elem));
        },
        _ => {},
    }
    if let Some(Expr::ChanAlloc(ty, _)) = &v.init {
        return Some(copy_type(ty));
    }
    None
}

/// Is `e` a cast to `byte`?
pub fn is_byte_cast(e: &Expr) -> (r: bool)
    ensures
        r == (e matches Expr::Cast(ty, _, _) && *ty == Type::Basic(BasicType::Byte)),
{
    match e {
        Expr::Cast(ty, _, _) => match &**ty {
            Type::Basic(BasicType::Byte) => true,
            _ => false,
        },
        _ => false,
    }
}

/// The name of the expression form that has no lowering.
pub open spec fn expr_kind_text(e: Expr) -> Seq<char> {
    match e {
        Expr::ArrayLit(_, _, _, _) => "an array literal outside a declaration"@,
        Expr::Tuple(_, _) => "a tuple value"@,
        Expr::TupleDeclAssign(_, _, _) => "a tuple `:=` used as an expression"@,
        Expr::Tagof(_, _) => "`tagof`"@,
        Expr::Slice(_, _, _, _) => "slicing"@,
        _ => "this expression"@,
    }
}

/// Name the expression form that has no lowering, so the diagnostic points
/// at the missing feature rather than merely at the file.
pub fn describe_expr_kind(expr: &Expr) -> (r: &'static str)
    ensures
        r@ == expr_kind_text(*expr),
{
    match expr {
        Expr::ArrayLit(_, _, _, _) => "an array literal outside a declaration",
        Expr::Tuple(_, _) => "a tuple value",
        Expr::TupleDeclAssign(_, _, _) => "a tuple `:=` used as an expression",
        Expr::Tagof(_, _) => "`tagof`",
        Expr::Slice(_, _, _, _) => "slicing",
        _ => "this expression",
    }
}

/// What cannot be lowered about a call to `callee`.
pub open spec fn call_target_text(callee: Expr) -> Seq<char> {
    match callee {
        Expr::Dot(_, method, _) => "calling the ADT function member `"@ + method@ + "` is not supported yet"@,
        Expr::Index(_, _, _) => "calling a function held in an array element is not supported yet"@,
        _ => "unsupported call target"@,
    }
}

/// Name what could not be lowered about a call, so the reader knows which
/// feature is missing.
pub fn unsupported_call_target(callee: &Expr) -> (r: String)
    ensures
        r@ == call_target_text(*callee),
{
    match callee {
        Expr::Dot(_, method, _) => {
            let mut m = String::from_str("calling the ADT function member `");
            m.append(method.as_str());
            m.append("` is not supported yet");
            m
        },
        Expr::Index(_, _, _) => String::from_str("calling a function held in an array element is not supported yet"),
        _ => String::from_str("unsupported call target"),
    }
}

// ── Pointer maps ───────────────────────────────────────────────

/// Some offset in `offsets` lies wholly inside a record of `size` bytes and
/// in its word `w`.
pub open spec fn marks_word(size: int, offsets: Seq<i32>, w: int) -> bool {
    exists|i: int| 0 <= i < offsets.len() && 0 <= #[trigger] offsets[i] && offsets[i] + 4 <= size && offsets[i] / 4 == w
}

/// The number of bytes in the pointer map of a record of `size` bytes: one
/// bit per word, eight words to a byte.
pub open spec fn map_len(size: int) -> int {
    let words = ((if size < 0 { 0 } else { size }) + 3) / 4;
    (words + 7) / 8
}

/// Bit `j` of `b`, counted from the most significant.
pub open spec fn msb_bit(b: u8, j: int) -> bool {
    (b >> ((7 - j) as u8)) & 1u8 == 1u8
}

/// Setting bit `s` (from the most significant) sets it and leaves the
/// others.
proof fn lemma_set_bit(x: u8, s: u8, t: u8)
    requires
        s < 8,
        t < 8,
    ensures
        ((x | (1u8 << (7 - s) as u8)) >> (7 - t) as u8) & 1u8 == 1u8 <==> (t == s || (x >> (7 - t) as u8) & 1u8 == 1u8),
{
    assert(((x | (1u8 << (7 - s) as u8)) >> (7 - t) as u8) & 1u8 == 1u8 <==> (t == s || (x >> (7 - t) as u8) & 1u8 == 1u8))
        by (bit_vector)
        requires
            s < 8,
            t < 8;
}

/// A pointer map over `size` bytes with the given pointer offsets, written
/// most-significant-bit first: word `n` is bit `1 << (7 - n % 8)` of byte
/// `n / 8`. Offsets outside the record are ignored.
pub fn pointer_map_for(size: i32, offsets: &Vec<i32>) -> (r: PointerMap)
    ensures
        r.bytes@.len() == map_len(size as int),
        forall|k: int, j: int| 0 <= k < r.bytes@.len() && 0 <= j < 8 ==> (#[trigger] msb_bit(r.bytes@[k], j) <==> marks_word(size as int, offsets@, 8 * k + j)),
{
    let pos: i64 = if size < 0 { 0 } else { size as i64 };
    let words: i64 = (pos + 3) / 4;
    let n: i64 = (words + 7) / 8;
    let mut bytes: Vec<u8> = Vec::new();
    let mut z: i64 = 0;
    while z < n
        invariant
            0 <= z <= n,
            n == map_len(size as int),
            bytes@.len() == z,
            forall|k: int| 0 <= k < z ==> #[trigger] bytes@[k] == 0u8,
        decreases n - z,
    {
        bytes.push(0u8);
        z = z + 1;
    }
    proof {
        assert forall|k: int, j: int| 0 <= k < bytes@.len() && 0 <= j < 8 implies (#[trigger] msb_bit(bytes@[k], j)
            <==> marks_word(size as int, offsets@.take(0), 8 * k + j)) by {
            let b = bytes@[k];
            assert(b == 0u8);
            let t = (7 - j) as u8;
            assert((0u8 >> t) & 1u8 == 0u8) by (bit_vector);
        }
    }
    let mut i: usize = 0;
    while i < offsets.len()
        invariant
            i <= offsets@.len(),
            pos == (if size < 0 { 0 } else { size as int }),
            words == (pos + 3) / 4,
            n == (words + 7) / 8,
            n == map_len(size as int),
            bytes@.len() == n,
            forall|k: int, j: int| 0 <= k < bytes@.len() && 0 <= j < 8 ==> (#[trigger] msb_bit(bytes@[k], j)
                <==> marks_word(size as int, offsets@.take(i as int), 8 * k + j)),
        decreases offsets.len() - i,
    {
        let off = offsets[i];
        let ghost pre = offsets@.take(i as int);
        let ghost next = offsets@.take(i + 1);
        proof {
            assert forall|q: int| 0 <= q < pre.len() implies next[q] == pre[q] by {}
            assert(next[i as int] == off);
        }
        if off < 0 || (off as i64) + 4 > size as i64 {
            proof {
                assert forall|w: int| marks_word(size as int, next, w) <==> marks_word(size as int, pre, w) by {
                    if marks_word(size as int, next, w) {
                        let q = choose|q: int| 0 <= q < next.len() && 0 <= #[trigger] next[q] && next[q] + 4 <= size && next[q] / 4 == w;
                        assert(q < pre.len());
                        assert(pre[q] == next[q]);
                    }
                    if marks_word(size as int, pre, w) {
                        let q = choose|q: int| 0 <= q < pre.len() && 0 <= #[trigger] pre[q] && pre[q] + 4 <= size && pre[q] / 4 == w;
                        assert(next[q] == pre[q]);
                    }
                }
            }
        } else {
            let word: i64 = (off as i64) / 4;
            let k: usize = (word / 8) as usize;
            let s: u8 = (word % 8) as u8;
            assert(k < bytes@.len()) by {
                assert(word * 4 <= off);
                assert(off + 4 <= pos);
                assert(word < words) by (nonlinear_arith)
                    requires
                        word == off / 4,
                        off + 4 <= pos,
                        words == (pos + 3) / 4,
                        0 <= off;
            }
            assert(k as int == word / 8 && s as int == word % 8);
            assert(word == 8 * (k as int) + s as int);
            let ghost old_bytes = bytes@;
            let b = bytes[k];
            let nb: u8 = b | (1u8 << (7 - s));
            bytes.set(k, nb);
            proof {
                assert forall|kk: int, j: int| 0 <= kk < bytes@.len() && 0 <= j < 8 implies (#[trigger] msb_bit(bytes@[kk], j)
                    <==> marks_word(size as int, next, 8 * kk + j)) by {
                    let w = 8 * kk + j;
                    assert(marks_word(size as int, next, w) <==> (marks_word(size as int, pre, w) || w == word)) by {
                        if marks_word(size as int, next, w) {
                            let q = choose|q: int| 0 <= q < next.len() && 0 <= #[trigger] next[q] && next[q] + 4 <= size && next[q] / 4 == w;
                            if q < pre.len() {
                                assert(pre[q] == next[q]);
                            }
                        }
                        if marks_word(size as int, pre, w) {
                            let q = choose|q: int| 0 <= q < pre.len() && 0 <= #[trigger] pre[q] && pre[q] + 4 <= size && pre[q] / 4 == w;
                            assert(next[q] == pre[q]);
                        }
                    }
                    assert(msb_bit(old_bytes[kk], j) <==> marks_word(size as int, pre, w));
                    if kk == k {
                        assert(bytes@[kk] == nb);
                        lemma_set_bit(b, s, j as u8);
                        assert((w == word) == (j == s as int));
                        assert(msb_bit(nb, j) <==> (j == s as int || msb_bit(b, j)));
                    } else {
                        assert(bytes@[kk] == old_bytes[kk]);
                        assert(w != word);
                    }
                }
            }
        }
        i = i + 1;
    }
    proof {
        assert(offsets@.take(offsets@.len() as int) =~= offsets@);
    }
    PointerMap { bytes }
}

/// The Dis instructions that the storage helpers choose between: the moves
/// of a word, a big, a real and a pointer, and the allocations of a channel
/// of bytes, words, bigs, reals and pointers.
#[derive(Clone, Copy, PartialEq, Eq, Debug, Structural)]
pub enum Opcode {
    Movw,
    Movl,
    Movf,
    Movp,
    Newcb,
    Newcw,
    Newcl,
    Newcf,
    Newcp,
}

/// The channel allocation for elements of the given basic type: bytes,
/// bigs, reals and strings have their own, and an int or an unknown element
/// takes a word channel.
pub fn newc_opcode(basic: Option<BasicType>) -> (r: Opcode)
    ensures
        r == (match basic {
            Some(BasicType::Byte) => Opcode::Newcb,
            Some(BasicType::Big) => Opcode::Newcl,
            Some(BasicType::Real) => Opcode::Newcf,
            Some(BasicType::String) => Opcode::Newcp,
            _ => Opcode::Newcw,
        }),
{
    match basic {
        Some(BasicType::Byte) => Opcode::Newcb,
        Some(BasicType::Big) => Opcode::Newcl,
        Some(BasicType::Real) => Opcode::Newcf,
        Some(BasicType::String) => Opcode::Newcp,
        _ => Opcode::Newcw,
    }
}

/// The move that copies one value of this type: `big` and `real` are moved
/// as 8-byte values, `int` and `byte` as words, and every other type is a
/// heap reference that the collector has to see move.
pub fn mov_opcode_for_type(ty: &Type) -> (r: Opcode)
    ensures
        r == (match *ty {
            Type::Basic(BasicType::Big) => Opcode::Movl,
            Type::Basic(BasicType::Real) => Opcode::Movf,
            Type::Basic(BasicType::Int) | Type::Basic(BasicType::Byte) => Opcode::Movw,
            _ => Opcode::Movp,
        }),
{
    match ty {
        Type::Basic(BasicType::Big) => Opcode::Movl,
        Type::Basic(BasicType::Real) => Opcode::Movf,
        Type::Basic(BasicType::Int) | Type::Basic(BasicType::Byte) => Opcode::Movw,
        _ => Opcode::Movp,
    }
}

/// The move for a whole value of the given shape: a big or real payload by
/// its 8-byte move, a word by the word move, and a pointer or array by the
/// reference-counting pointer move.
pub fn mov_opcode(ty: ValType, kind: NumKind) -> (r: Opcode)
    ensures
        r == (if kind is Big {
            Opcode::Movl
        } else if kind is Real {
            Opcode::Movf
        } else if ty is Word {
            Opcode::Movw
        } else {
            Opcode::Movp
        }),
{
    match (ty, kind) {
        (_, NumKind::Big) => Opcode::Movl,
        (_, NumKind::Real) => Opcode::Movf,
        (ValType::Word, NumKind::Word) => Opcode::Movw,
        _ => Opcode::Movp,
    }
}

/// Where a named variable lives: function locals are frame relative, and
/// module-level variables live in the module data.
#[derive(Clone, Copy, PartialEq, Eq, Debug, Structural)]
pub enum Slot {
    Local(i32),
    Global(i32),
}

impl Slot {
    /// The operand that addresses this slot.
    pub fn operand(self) -> (r: Operand)
        ensures
            r == (match self {
                Slot::Local(off) => Operand { mode: AddressMode::OffsetIndirectFp, register1: off, register2: 0 },
                Slot::Global(off) => Operand { mode: AddressMode::OffsetIndirectMp, register1: off, register2: 0 },
            }),
    {
        match self {
            Slot::Local(off) => op_fp(off),
            Slot::Global(off) => op_mp(off),
        }
    }
}

/// The operand that is not there.
pub fn op_unused() -> (r: Operand)
    ensures
        r == (Operand { mode: AddressMode::Unused, register1: 0, register2: 0 }),
{
    Operand { mode: AddressMode::Unused, register1: 0, register2: 0 }
}

/// The frame word at `offset`.
pub fn op_fp(offset: i32) -> (r: Operand)
    ensures
        r == (Operand { mode: AddressMode::OffsetIndirectFp, register1: offset, register2: 0 }),
{
    Operand { mode: AddressMode::OffsetIndirectFp, register1: offset, register2: 0 }
}

/// The module data word at `offset`.
pub fn op_mp(offset: i32) -> (r: Operand)
    ensures
        r == (Operand { mode: AddressMode::OffsetIndirectMp, register1: offset, register2: 0 }),
{
    Operand { mode: AddressMode::OffsetIndirectMp, register1: offset, register2: 0 }
}

/// The immediate value `val`.
pub fn op_imm(val: i32) -> (r: Operand)
    ensures
        r == (Operand { mode: AddressMode::Immediate, register1: val, register2: 0 }),
{
    Operand { mode: AddressMode::Immediate, register1: val, register2: 0 }
}

/// The word at `field_off` in the record that the frame word at `fp_off`
/// points to.
pub fn op_fp_ind(fp_off: i32, field_off: i32) -> (r: Operand)
    ensures
        r == (Operand { mode: AddressMode::OffsetDoubleIndirectFp, register1: fp_off, register2: field_off }),
{
    Operand { mode: AddressMode::OffsetDoubleIndirectFp, register1: fp_off, register2: field_off }
}

/// The middle operand that is not there.
pub fn mid_unused() -> (r: MiddleOperand)
    ensures
        r == (MiddleOperand { mode: MiddleMode::Unused, register1: 0 }),
{
    MiddleOperand { mode: MiddleMode::Unused, register1: 0 }
}

/// The small immediate value `val` as a middle operand.
pub fn mid_imm(val: i32) -> (r: MiddleOperand)
    ensures
        r == (MiddleOperand { mode: MiddleMode::SmallImmediate, register1: val }),
{
    MiddleOperand { mode: MiddleMode::SmallImmediate, register1: val }
}

/// The frame word at `offset` as a middle operand.
pub fn mid_fp(offset: i32) -> (r: MiddleOperand)
    ensures
        r == (MiddleOperand { mode: MiddleMode::SmallOffsetFp, register1: offset }),
{
    MiddleOperand { mode: MiddleMode::SmallOffsetFp, register1: offset }
}

} // verus!