//! Module interfaces: resolving declared types, and the symbols that a
//! module declaration or an included `.m` file contributes to the symbol
//! table.

use vstd::prelude::*;
use vstd::string::StringExecFns;
use crate::ast::{BasicType, BinOp, ConstDecl, Decl, Expr, SourceFile, FuncSig, ModuleDecl, ModuleMember, Param, Type, UnaryOp, VarDecl};
use crate::codegen::{fold_exact_binary, fold_int_result, real_cast, real_to_i64, ConstVal, IotaCounter};
use crate::text::{i64_decimal, i64_text};
use crate::symtab::{same_type, ConstValue, FnType, NameMap, ResolvedType, Symbol, SymbolTable};
use crate::text::push_char;
use crate::token::Span;

verus! {

/// The name of the ADT a named type resolves to: `M.T` for `M->T`, and the
/// bare name otherwise.
pub open spec fn named_type_text(qualifier: Option<String>, name: String) -> Seq<char> {
    match qualifier {
        Some(m) => m@ + seq!['.'] + name@,
        None => name@,
    }
}

/// How many names the parameters `ps` declare.
pub open spec fn param_count(ps: Seq<Param>) -> nat
    decreases ps.len(),
{
    if ps.len() == 0 {
        0
    } else {
        param_count(ps.drop_last()) + ps.last().names@.len()
    }
}

/// `r` is what the AST type `t` resolves to without a symbol table: the
/// basic types to themselves, the containers part for part, a named type to
/// the ADT of that name, a function type to its flattened parameters and its
/// result, a module type to the module `module`, and anything else to
/// `Unknown`.
pub open spec fn resolves_to(t: Type, r: ResolvedType) -> bool
    decreases t,
{
    match t {
        Type::Basic(BasicType::Int) => r is Int,
        Type::Basic(BasicType::Byte) => r is Byte,
        Type::Basic(BasicType::Big) => r is Big,
        Type::Basic(BasicType::Real) => r is Real,
        Type::Basic(BasicType::String) => r is String,
        Type::Array(e) => r matches ResolvedType::Array(x) && resolves_to(*e, *x),
        Type::List(e) => r matches ResolvedType::List(x) && resolves_to(*e, *x),
        Type::Chan(e) => r matches ResolvedType::Chan(x) && resolves_to(*e, *x),
        Type::Ref(e) => r matches ResolvedType::Ref(x) && resolves_to(*e, *x),
        Type::Tuple(ts) => r matches ResolvedType::Tuple(xs) && xs@.len() == ts@.len()
            && forall|i: int| 0 <= i < ts@.len() ==> resolves_to(#[trigger] ts@[i], xs@[i]),
        Type::Named(q) => r matches ResolvedType::Adt(n) && n@ == named_type_text(q.qualifier, q.name),
        Type::Func(sig) => r matches ResolvedType::Fn(f) && sig_resolves_to(*sig, f),
        Type::Module(_) => r matches ResolvedType::Module(n) && n@ == "module"@,
        Type::BufChan(_, _) => r is Unknown,
    }
}

/// `f` is what the function signature `sig` resolves to: one parameter per
/// declared name, each with its parameter's resolved type, and the resolved
/// result type.
pub open spec fn sig_resolves_to(sig: FuncSig, f: FnType) -> bool
    decreases sig,
{
    &&& f.params@.len() == param_count(sig.params@)
    &&& forall|i: int, k: int| 0 <= i < sig.params@.len() && 0 <= k < sig.params@[i].names@.len() ==> {
        let e = #[trigger] f.params@[param_count(sig.params@.take(i)) + k];
        &&& e.0@ == (#[trigger] sig.params@[i]).names@[k]@
        &&& resolves_to(sig.params@[i].ty, e.1)
    }
    &&& match sig.ret {
        Some(t) => f.ret matches Some(x) && resolves_to(t, *x),
        None => f.ret is None,
    }
}

/// The parameters before the first `a` declare no more names than those
/// before the first `b`, for `a <= b`.
proof fn lemma_param_count_mono(ps: Seq<Param>, a: int, b: int)
    requires
        0 <= a <= b <= ps.len(),
    ensures
        param_count(ps.take(a)) <= param_count(ps.take(b)),
    decreases b - a,
{
    if a < b {
        lemma_param_count_mono(ps, a, b - 1);
        assert(ps.take(b).drop_last() =~= ps.take(b - 1));
    }
}

/// Resolve an AST type to a ResolvedType (simple version, no symtab lookup).
pub fn resolve_ast_type_simple(ty: &Type) -> (r: ResolvedType)
    ensures
        resolves_to(*ty, r),
    decreases ty,
{
    match ty {
        Type::Basic(BasicType::Int) => ResolvedType::Int,
        Type::Basic(BasicType::Byte) => ResolvedType::Byte,
        Type::Basic(BasicType::Big) => ResolvedType::Big,
        Type::Basic(BasicType::Real) => ResolvedType::Real,
        Type::Basic(BasicType::String) => ResolvedType::String,
        Type::Array(elem) => ResolvedType::Array(Box::new(resolve_ast_type_simple(elem))),
        Type::List(elem) => ResolvedType::List(Box::new(resolve_ast_type_simple(elem))),
        Type::Chan(elem) => ResolvedType::Chan(Box::new(resolve_ast_type_simple(elem))),
        Type::Ref(inner) => ResolvedType::Ref(Box::new(resolve_ast_type_simple(inner))),
        Type::Tuple(types) => ResolvedType::Tuple(resolve_types(types)),
        Type::Named(qn) => match &qn.qualifier {
            Some(qualifier) => {
                let mut n = qualifier.clone();
                push_char(&mut n, '.');
                n.append(qn.name.as_str());
                assert(n@ =~= qualifier@ + seq!['.'] + qn.name@);
                ResolvedType::Adt(n)
            },
            None => ResolvedType::Adt(qn.name.clone()),
        },
        Type::Func(sig) => ResolvedType::Fn(resolve_sig(sig)),
        Type::Module(_) => ResolvedType::Module(String::from_str("module")),
        _ => ResolvedType::Unknown,
    }
}

/// Resolve each of `types`.
fn resolve_types(types: &Vec<Type>) -> (r: Vec<ResolvedType>)
    ensures
        r@.len() == types@.len(),
        forall|i: int| 0 <= i < types@.len() ==> resolves_to(#[trigger] types@[i], r@[i]),
    decreases types,
{
    let mut out: Vec<ResolvedType> = Vec::new();
    let mut i: usize = 0;
    while i < types.len()
        invariant
            i <= types@.len(),
            out@.len() == i,
            forall|j: int| 0 <= j < i ==> resolves_to(#[trigger] types@[j], out@[j]),
        decreases types.len() - i,
    {
        proof {
            assert(decreases_to!(types => types@[i as int]));
        }
        out.push(resolve_ast_type_simple(&types[i]));
        i = i + 1;
    }
    out
}

/// The type of a parameter, resolved.
fn resolve_param_type(param: &Param) -> (r: ResolvedType)
    ensures
        resolves_to(param.ty, r),
    decreases param,
{
    resolve_ast_type_simple(&param.ty)
}

/// Resolve a function signature: one parameter per declared name.
fn resolve_sig(sig: &FuncSig) -> (r: FnType)
    ensures
        sig_resolves_to(*sig, r),
    decreases sig,
{
    let ghost ps = sig.params@;
    let mut params: Vec<(String, ResolvedType)> = Vec::new();
    let mut i: usize = 0;
    while i < sig.params.len()
        invariant
            ps == sig.params@,
            i <= ps.len(),
            params@.len() == param_count(ps.take(i as int)),
            forall|a: int, k: int| 0 <= a < i && 0 <= k < ps[a].names@.len() ==> {
                let e = #[trigger] params@[param_count(ps.take(a)) + k];
                &&& e.0@ == (#[trigger] ps[a]).names@[k]@
                &&& resolves_to(ps[a].ty, e.1)
            },
        decreases sig.params.len() - i,
    {
        proof {
            assert(decreases_to!(sig.params => sig.params@[i as int]));
            assert(ps.take(i + 1).drop_last() =~= ps.take(i as int));
            assert(ps.take(i + 1).last() == ps[i as int]);
        }
        let p = &sig.params[i];
        let ghost base = params@.len();
        let ghost before = params@;
        let mut k: usize = 0;
        while k < p.names.len()
            invariant
                ps == sig.params@,
                *p == ps[i as int],
                i < ps.len(),
                base == param_count(ps.take(i as int)),
                k <= p.names@.len(),
                params@.len() == base + k,
                forall|j: int| 0 <= j < base ==> #[trigger] params@[j] == before[j],
                forall|j: int| 0 <= j < k ==> {
                    let e = #[trigger] params@[base + j];
                    &&& e.0@ == p.names@[j]@
                    &&& resolves_to(p.ty, e.1)
                },
            decreases p.names.len() - k,
        {
            params.push((p.names[k].clone(), resolve_param_type(p)));
            k = k + 1;
        }
        proof {
            assert forall|a: int, kk: int| 0 <= a < i + 1 && 0 <= kk < ps[a].names@.len() implies {
                let e = #[trigger] params@[param_count(ps.take(a)) + kk];
                &&& e.0@ == (#[trigger] ps[a]).names@[kk]@
                &&& resolves_to(ps[a].ty, e.1)
            } by {
                if a < i {
                    lemma_param_count_mono(ps, a + 1, i as int);
                    assert(ps.take(a + 1).drop_last() =~= ps.take(a));
                    assert(ps.take(a + 1).last() == ps[a]);
                    let c0 = param_count(ps.take(a));
                    let c1 = param_count(ps.take(a + 1));
                    assert(c1 == c0 + ps[a].names@.len());
                    assert(c0 + kk < base);
                    assert(params@[c0 + kk] == before[c0 + kk]);
                } else {
                    let e = params@[base + kk];
                    assert(e.0@ == p.names@[kk]@);
                }
            }
        }
        i = i + 1;
    }
    proof {
        assert(ps.take(ps.len() as int) =~= ps);
    }
    let ret = match &sig.ret {
        Some(t) => Some(Box::new(resolve_ast_type_simple(t))),
        None => None,
    };
    FnType { params, ret }
}

/// `r` is what the declared type `ty` resolves to against the symbols in
/// scope: a bare name that names a type takes that type, and one that
/// names a module is that module; anything else resolves on its own, and
/// no type is `Unknown`.
pub open spec fn resolves_in(symbols: Map<Seq<char>, Symbol>, ty: Option<Type>, r: ResolvedType) -> bool {
    match ty {
        None => r is Unknown,
        Some(t) => {
            if t matches Type::Named(q) && q.qualifier is None && symbols.dom().contains(q.name@)
                && symbols[q.name@] is Type {
                same_type(symbols[t->Named_0.name@]->resolved, r)
            } else if t matches Type::Named(q) && q.qualifier is None && symbols.dom().contains(q.name@)
                && symbols[q.name@] is Module {
                r matches ResolvedType::Module(n) && n@ == t->Named_0.name@
            } else {
                resolves_to(t, r)
            }
        },
    }
}

/// Resolve an AST type with symtab lookup.
pub fn resolve_ast_type(ty: Option<&Type>, symtab: &SymbolTable) -> (r: ResolvedType)
    ensures
        resolves_in(symtab.symbols@, match ty {
            Some(t) => Some(*t),
            None => None,
        }, r),
{
    match ty {
        Some(t) => {
            if let Type::Named(qn) = t {
                if qn.qualifier.is_none() {
                    match symtab.lookup(&qn.name) {
                        Some(Symbol::Type { resolved }) => {
                            return resolved.clone();
                        },
                        Some(Symbol::Module { .. }) => {
                            return ResolvedType::Module(qn.name.clone());
                        },
                        _ => {},
                    }
                }
            }
            resolve_ast_type_simple(t)
        },
        None => ResolvedType::Unknown,
    }
}

/// How many of `members` are constants: the position of a constant's value
/// among the folded values is the number of constants before it.
pub open spec fn const_count(members: Seq<ModuleMember>) -> nat
    decreases members.len(),
{
    if members.len() == 0 {
        0
    } else {
        const_count(members.drop_last()) + if members.last() is Const { 1nat } else { 0nat }
    }
}

/// The folded value of the constant member at `k`, if it folded.
pub open spec fn const_value_at(members: Seq<ModuleMember>, consts: Seq<Option<ConstValue>>, k: int) -> Option<ConstValue> {
    consts[const_count(members.take(k)) as int]
}

/// The names that member `m` puts into the interface; a constant whose
/// value did not fold puts none.
pub open spec fn member_defines(m: ModuleMember, value: Option<ConstValue>) -> Seq<String> {
    match m {
        ModuleMember::Const(c) => if value is Some { seq![c.name] } else { Seq::empty() },
        ModuleMember::Func(sig) => seq![sig.name],
        ModuleMember::Var(v) => v.names@,
        ModuleMember::TypeAlias(t) => seq![t.name],
        ModuleMember::Adt(a) => seq![a.name],
        ModuleMember::Exception(e) => seq![e.name],
    }
}

/// The type a constant of value `v` has.
pub open spec fn const_type_ok(v: ConstValue, ty: ResolvedType) -> bool {
    match v {
        ConstValue::Real(_) => ty is Real,
        ConstValue::String(_) => ty is String,
        ConstValue::Int(_) => ty is Int,
    }
}

/// `sym` is the symbol that member `m` gives each name it defines.
pub open spec fn member_symbol(m: ModuleMember, value: Option<ConstValue>, sym: Symbol) -> bool {
    match m {
        ModuleMember::Const(_) => value matches Some(v) && sym matches Symbol::Const { ty, value: w }
            && w == v && const_type_ok(v, ty),
        ModuleMember::Func(sig) => sym matches Symbol::Func { ty } && sig_resolves_to(sig, ty),
        ModuleMember::Var(v) => sym matches Symbol::Var { ty } && resolves_to(
            match v.ty {
                Some(t) => t,
                None => Type::Basic(BasicType::Int),
            },
            ty,
        ),
        ModuleMember::TypeAlias(ta) => sym matches Symbol::Type { resolved } && resolves_to(ta.ty, resolved),
        ModuleMember::Adt(a) => sym matches Symbol::Type { resolved } && resolved matches ResolvedType::Adt(n)
            && n@ == a.name@,
        ModuleMember::Exception(e) => sym matches Symbol::Const { ty, value } && ty is String
            && (value matches ConstValue::String(s) && s@ == e.name@),
    }
}

/// For each name the members define, the position of the last member that
/// defines it: a later definition replaces an earlier one.
pub open spec fn defining_member(members: Seq<ModuleMember>, consts: Seq<Option<ConstValue>>) -> Map<Seq<char>, int>
    decreases members.len(),
{
    if members.len() == 0 {
        Map::empty()
    } else {
        let k = members.len() - 1;
        let names = member_defines(members.last(), const_value_at(members, consts, k));
        defining_member(members.drop_last(), consts).union_prefer_right(
            Map::new(|n: Seq<char>| exists|j: int| 0 <= j < names.len() && names[j]@ == n, |n: Seq<char>| k),
        )
    }
}

proof fn lemma_const_count_step(ms: Seq<ModuleMember>, i: int)
    requires
        0 <= i < ms.len(),
    ensures
        const_count(ms.take(i + 1)) == const_count(ms.take(i)) + if ms[i] is Const { 1nat } else { 0nat },
{
    assert(ms.take(i + 1).drop_last() =~= ms.take(i));
    assert(ms.take(i + 1).last() == ms[i]);
}

proof fn lemma_const_count_mono(ms: Seq<ModuleMember>, a: int, b: int)
    requires
        0 <= a <= b <= ms.len(),
    ensures
        const_count(ms.take(a)) <= const_count(ms.take(b)),
    decreases b - a,
{
    if a < b {
        lemma_const_count_mono(ms, a, b - 1);
        lemma_const_count_step(ms, b - 1);
    }
}

/// The names defined by the first `i + 1` members are those of the first
/// `i`, with member `i`'s own names now defined by it.
proof fn lemma_defining_step(ms: Seq<ModuleMember>, cs: Seq<Option<ConstValue>>, i: int)
    requires
        0 <= i < ms.len(),
    ensures
        ({
            let names = member_defines(ms[i], const_value_at(ms, cs, i));
            defining_member(ms.take(i + 1), cs) == defining_member(ms.take(i), cs).union_prefer_right(
                Map::new(|n: Seq<char>| exists|j: int| 0 <= j < names.len() && names[j]@ == n, |n: Seq<char>| i),
            )
        }),
{
    let t = ms.take(i + 1);
    assert(t.drop_last() =~= ms.take(i));
    assert(t.last() == ms[i]);
    assert(t.take(i) =~= ms.take(i));
    assert(const_value_at(t, cs, i) == const_value_at(ms, cs, i));
}

/// Some name of `names` is `n`.
pub open spec fn names_has(names: Seq<String>, n: Seq<char>) -> bool {
    exists|q: int| 0 <= q < names.len() && names[q]@ == n
}

/// `after` is `before` with each of `names` given a symbol that member `m`
/// gives it, and every other name as it was.
pub open spec fn step_done(
    before: Map<Seq<char>, Symbol>,
    after: Map<Seq<char>, Symbol>,
    names: Seq<String>,
    m: ModuleMember,
    val: Option<ConstValue>,
) -> bool {
    &&& forall|n: Seq<char>| #[trigger] after.dom().contains(n) <==> (before.dom().contains(n) || names_has(names, n))
    &&& forall|n: Seq<char>| #[trigger] names_has(names, n) ==> member_symbol(m, val, after[n])
    &&& forall|n: Seq<char>| before.dom().contains(n) && !names_has(names, n) ==> #[trigger] after[n] == before[n]
}

proof fn lemma_single_insert(
    before: Map<Seq<char>, Symbol>,
    after: Map<Seq<char>, Symbol>,
    names: Seq<String>,
    name: String,
    sym: Symbol,
    m: ModuleMember,
    val: Option<ConstValue>,
)
    requires
        after == before.insert(name@, sym),
        names == seq![name],
        member_symbol(m, val, sym),
    ensures
        step_done(before, after, names, m, val),
{
    assert forall|n: Seq<char>| #[trigger] names_has(names, n) <==> n == name@ by {
        if n == name@ {
            assert(names[0]@ == n);
        }
    }
}

proof fn lemma_no_insert(before: Map<Seq<char>, Symbol>, names: Seq<String>, m: ModuleMember, val: Option<ConstValue>)
    requires
        names.len() == 0,
    ensures
        step_done(before, before, names, m, val),
{
}

proof fn lemma_extend_insert(
    before: Map<Seq<char>, Symbol>,
    mid: Map<Seq<char>, Symbol>,
    after: Map<Seq<char>, Symbol>,
    names: Seq<String>,
    j: int,
    sym: Symbol,
    m: ModuleMember,
    val: Option<ConstValue>,
)
    requires
        0 <= j < names.len(),
        step_done(before, mid, names.take(j), m, val),
        after == mid.insert(names[j]@, sym),
        member_symbol(m, val, sym),
    ensures
        step_done(before, after, names.take(j + 1), m, val),
{
    let key = names[j]@;
    let p = names.take(j);
    let p1 = names.take(j + 1);
    assert forall|n: Seq<char>| #[trigger] names_has(p1, n) <==> (names_has(p, n) || n == key) by {
        if n == key {
            assert(p1[j]@ == n);
        }
        if names_has(p, n) {
            let q = choose|q: int| 0 <= q < p.len() && p[q]@ == n;
            assert(p1[q]@ == n);
        }
        if names_has(p1, n) && n != key {
            let q = choose|q: int| 0 <= q < p1.len() && p1[q]@ == n;
            assert(q < j);
            assert(p[q]@ == n);
        }
    }
}

/// A copy of a constant value.
fn copy_const(v: &ConstValue) -> (r: ConstValue)
    ensures
        r == *v,
{
    match v {
        ConstValue::Int(i) => ConstValue::Int(*i),
        ConstValue::Real(b) => ConstValue::Real(*b),
        ConstValue::String(s) => ConstValue::String(s.clone()),
    }
}

/// The symbols of a module interface: each constant with its folded value
/// (a constant whose value did not fold is left out), each function with
/// its resolved signature, each variable with its type (`int` if it has
/// none), each type alias and ADT as a type, and each exception as a string
/// constant of its own name. `consts` holds, in order, the folded value of
/// each constant member.
pub fn extract_module_members(members: &Vec<ModuleMember>, consts: &Vec<Option<ConstValue>>) -> (r: NameMap<Symbol>)
    requires
        consts@.len() >= const_count(members@),
    ensures
        r@.dom() == defining_member(members@, consts@).dom(),
        forall|n: Seq<char>| #[trigger] r@.dom().contains(n) ==> {
            let k = defining_member(members@, consts@)[n];
            &&& 0 <= k < members@.len()
            &&& member_symbol(members@[k], const_value_at(members@, consts@, k), r@[n])
        },
{
    let mut map: NameMap<Symbol> = NameMap::new();
    let ghost ms = members@;
    let ghost cs = consts@;
    let mut ci: usize = 0;
    let mut i: usize = 0;
    while i < members.len()
        invariant
            ms == members@,
            cs == consts@,
            cs.len() >= const_count(ms),
            i <= ms.len(),
            ci == const_count(ms.take(i as int)),
            map@.dom() == defining_member(ms.take(i as int), cs).dom(),
            forall|n: Seq<char>| #[trigger] map@.dom().contains(n) ==> {
                let k = defining_member(ms.take(i as int), cs)[n];
                &&& 0 <= k < i
                &&& member_symbol(ms[k], const_value_at(ms, cs, k), map@[n])
            },
        decreases members.len() - i,
    {
        let ghost before = map@;
        let ghost val = const_value_at(ms, cs, i as int);
        let ghost names = member_defines(ms[i as int], val);
        let ghost dm = defining_member(ms.take(i as int), cs);
        proof {
            lemma_defining_step(ms, cs, i as int);
            lemma_const_count_step(ms, i as int);
            lemma_const_count_mono(ms, i + 1, ms.len() as int);
            assert(ms.take(ms.len() as int) =~= ms);
        }
        let m = &members[i];
        match m {
            ModuleMember::Const(c) => {
                let n_consts = consts.len();
                assert(ci < n_consts);
                let v = &consts[ci];
                ci = ci + 1;
                match v {
                    Some(val) => {
                        let ty = match val {
                            ConstValue::Real(_) => ResolvedType::Real,
                            ConstValue::String(_) => ResolvedType::String,
                            ConstValue::Int(_) => ResolvedType::Int,
                        };
                        let sym = Symbol::Const { ty, value: copy_const(val) };
                        let ghost g = sym;
                        map.insert(c.name.clone(), sym);
                        proof {
                            lemma_single_insert(before, map@, names, c.name, g, ms[i as int], Some(*val));
                        }
                    },
                    None => {
                        proof {
                            lemma_no_insert(before, names, ms[i as int], val);
                        }
                    },
                }
            },
            ModuleMember::Func(sig) => {
                let ty = resolve_sig(sig);
                let sym = Symbol::Func { ty };
                let ghost g = sym;
                map.insert(sig.name.clone(), sym);
                proof {
                    lemma_single_insert(before, map@, names, sig.name, g, ms[i as int], val);
                }
            },
            ModuleMember::Var(v) => {
                let mut j: usize = 0;
                while j < v.names.len()
                    invariant
                        i < ms.len(),
                        names == v.names@,
                        ms[i as int] == ModuleMember::Var(*v),
                        j <= v.names@.len(),
                        step_done(before, map@, v.names@.take(j as int), ms[i as int], val),
                    decreases v.names.len() - j,
                {
                    let ty = match &v.ty {
                        Some(t) => resolve_ast_type_simple(t),
                        None => ResolvedType::Int,
                    };
                    let ghost mid = map@;
                    let sym = Symbol::Var { ty };
                    let ghost g = sym;
                    map.insert(v.names[j].clone(), sym);
                    proof {
                        lemma_extend_insert(before, mid, map@, v.names@, j as int, g, ms[i as int], val);
                    }
                    j = j + 1;
                }
                proof {
                    assert(v.names@.take(v.names@.len() as int) =~= v.names@);
                }
            },
            ModuleMember::TypeAlias(ta) => {
                let resolved = resolve_ast_type_simple(&ta.ty);
                let sym = Symbol::Type { resolved };
                let ghost g = sym;
                map.insert(ta.name.clone(), sym);
                proof {
                    lemma_single_insert(before, map@, names, ta.name, g, ms[i as int], val);
                }
            },
            ModuleMember::Adt(adt) => {
                let sym = Symbol::Type { resolved: ResolvedType::Adt(adt.name.clone()) };
                let ghost g = sym;
                map.insert(adt.name.clone(), sym);
                proof {
                    lemma_single_insert(before, map@, names, adt.name, g, ms[i as int], val);
                }
            },
            ModuleMember::Exception(exc) => {
                let sym = Symbol::Const { ty: ResolvedType::String, value: ConstValue::String(exc.name.clone()) };
                let ghost g = sym;
                map.insert(exc.name.clone(), sym);
                proof {
                    lemma_single_insert(before, map@, names, exc.name, g, ms[i as int], val);
                }
            },
        }
        proof {
            let dm2 = defining_member(ms.take(i + 1), cs);
            assert(step_done(before, map@, names, ms[i as int], val));
            assert forall|n: Seq<char>| map@.dom().contains(n) <==> dm2.dom().contains(n) by {
                if names_has(names, n) {
                    let q = choose|q: int| 0 <= q < names.len() && names[q]@ == n;
                    assert(names[q]@ == n);
                }
            }
            assert(map@.dom() =~= dm2.dom());
            assert forall|n: Seq<char>| #[trigger] map@.dom().contains(n) implies {
                let k = dm2[n];
                &&& 0 <= k < i + 1
                &&& member_symbol(ms[k], const_value_at(ms, cs, k), map@[n])
            } by {
                if names_has(names, n) {
                    let q = choose|q: int| 0 <= q < names.len() && names[q]@ == n;
                    assert(names[q]@ == n);
                    assert(dm2[n] == i);
                } else {
                    assert(dm2[n] == dm[n]);
                    assert(map@[n] == before[n]);
                }
            }
        }
        i = i + 1;
    }
    proof {
        assert(ms.take(ms.len() as int) =~= ms);
    }
    map
}

/// `map` is the interface that `members` declare, with `consts` the folded
/// values of their constants.
pub open spec fn is_interface(map: NameMap<Symbol>, members: Seq<ModuleMember>, consts: Seq<Option<ConstValue>>) -> bool {
    &&& map@.dom() == defining_member(members, consts).dom()
    &&& forall|n: Seq<char>| #[trigger] map@.dom().contains(n) ==> {
        let k = defining_member(members, consts)[n];
        &&& 0 <= k < members.len()
        &&& member_symbol(members[k], const_value_at(members, consts, k), map@[n])
    }
}

/// Register a module declaration: its interface under its name among the
/// modules, and a module symbol of that name in scope. `consts` holds the
/// folded values of its constant members, in order.
pub fn register_module_decl(symtab: &mut SymbolTable, md: &ModuleDecl, consts: &Vec<Option<ConstValue>>)
    requires
        consts@.len() >= const_count(md.members@),
    ensures
        final(symtab).modules@.dom() == old(symtab).modules@.dom().insert(md.name@),
        forall|n: Seq<char>| n != md.name@ && #[trigger] old(symtab).modules@.dom().contains(n)
            ==> final(symtab).modules@[n] == old(symtab).modules@[n],
        is_interface(final(symtab).modules@[md.name@], md.members@, consts@),
        final(symtab).symbols@.dom() == old(symtab).symbols@.dom().insert(md.name@),
        forall|n: Seq<char>| n != md.name@ && #[trigger] old(symtab).symbols@.dom().contains(n)
            ==> final(symtab).symbols@[n] == old(symtab).symbols@[n],
        final(symtab).symbols@[md.name@] matches Symbol::Module { name, members }
            && name@ == md.name@ && is_interface(members, md.members@, consts@),
        final(symtab).include_paths == old(symtab).include_paths,
{
    let members = extract_module_members(&md.members, consts);
    symtab.register_module(md.name.as_str(), members);
    let members = extract_module_members(&md.members, consts);
    symtab.define(md.name.as_str(), Symbol::Module { name: md.name.clone(), members });
}

/// Whether `r` is what the declared type `ty` of the variable at index `k`
/// of `names` resolves to: the names before it are already variables, so a
/// type named by one of them resolves on its own; any other type resolves
/// against `before`.
pub open spec fn var_type(before: Map<Seq<char>, Symbol>, names: Seq<String>, ty: Option<Type>, k: int, r: ResolvedType) -> bool {
    if ty matches Some(Type::Named(q)) && q.qualifier is None
        && exists|f: int| 0 <= f < k && #[trigger] names[f]@ == q.name@ {
        resolves_to(ty->Some_0, r)
    } else {
        resolves_in(before, ty, r)
    }
}

/// Whether `k` is the last index of `n` among the first `j` of `names`.
pub open spec fn last_index(names: Seq<String>, j: int, n: Seq<char>, k: int) -> bool {
    &&& 0 <= k < j
    &&& names[k]@ == n
    &&& forall|k2: int| k < k2 < j ==> #[trigger] names[k2]@ != n
}

/// Define each name of a variable declaration as a variable of its
/// declared type, resolved against the symbols in scope; where a name
/// occurs twice, the later definition stands.
pub fn define_vars(symtab: &mut SymbolTable, v: &VarDecl)
    ensures
        final(symtab).symbols@.dom() == old(symtab).symbols@.dom() + Set::new(|n: Seq<char>| names_has(v.names@, n)),
        forall|n: Seq<char>| #[trigger] names_has(v.names@, n) ==> exists|k: int| {
            &&& last_index(v.names@, v.names@.len() as int, n, k)
            &&& final(symtab).symbols@[n] matches Symbol::Var { ty }
            &&& var_type(old(symtab).symbols@, v.names@, v.ty, k, ty)
        },
        forall|n: Seq<char>| !names_has(v.names@, n) && #[trigger] old(symtab).symbols@.dom().contains(n)
            ==> final(symtab).symbols@[n] == old(symtab).symbols@[n],
        final(symtab).modules == old(symtab).modules,
        final(symtab).include_paths == old(symtab).include_paths,
{
    let ghost before = symtab.symbols@;
    let mut j: usize = 0;
    while j < v.names.len()
        invariant
            j <= v.names@.len(),
            symtab.symbols@.dom() == before.dom() + Set::new(|n: Seq<char>| names_has(v.names@.take(j as int), n)),
            forall|n: Seq<char>| #[trigger] names_has(v.names@.take(j as int), n) ==> exists|k: int| {
                &&& last_index(v.names@, j as int, n, k)
                &&& symtab.symbols@[n] matches Symbol::Var { ty }
                &&& var_type(before, v.names@, v.ty, k, ty)
            },
            forall|n: Seq<char>| !names_has(v.names@.take(j as int), n) && #[trigger] before.dom().contains(n)
                ==> symtab.symbols@[n] == before[n],
            symtab.modules == old(symtab).modules,
            symtab.include_paths == old(symtab).include_paths,
        decreases v.names.len() - j,
    {
        let ty = resolve_ast_type(v.ty.as_ref(), symtab);
        let ghost key = v.names@[j as int]@;
        let ghost mid = symtab.symbols@;
        proof {
            let p = v.names@.take(j as int);
            if v.ty is Some && v.ty->Some_0 is Named && v.ty->Some_0->Named_0.qualifier is None {
                let qn = v.ty->Some_0->Named_0.name@;
                if exists|f: int| 0 <= f < j && #[trigger] v.names@[f]@ == qn {
                    let f = choose|f: int| 0 <= f < j && #[trigger] v.names@[f]@ == qn;
                    assert(p[f]@ == qn);
                    assert(names_has(p, qn));
                    let k = choose|k: int| {
                        &&& last_index(v.names@, j as int, qn, k)
                        &&& mid[qn] matches Symbol::Var { ty }
                        &&& var_type(before, v.names@, v.ty, k, ty)
                    };
                    assert(mid[qn] is Var);
                } else {
                    assert(!names_has(p, qn)) by {
                        if names_has(p, qn) {
                            let g = choose|g: int| 0 <= g < p.len() && p[g]@ == qn;
                            assert(v.names@[g]@ == qn);
                        }
                    }
                }
            }
            assert(var_type(before, v.names@, v.ty, j as int, ty));
        }
        symtab.define(v.names[j].as_str(), Symbol::Var { ty });
        proof {
            let p = v.names@.take(j as int);
            let p1 = v.names@.take(j + 1);
            assert forall|n: Seq<char>| #[trigger] names_has(p1, n) <==> (names_has(p, n) || n == key) by {
                if n == key {
                    assert(p1[j as int]@ == n);
                }
                if names_has(p, n) {
                    let q = choose|q: int| 0 <= q < p.len() && p[q]@ == n;
                    assert(p1[q]@ == n);
                }
                if names_has(p1, n) && n != key {
                    let q = choose|q: int| 0 <= q < p1.len() && p1[q]@ == n;
                    assert(q < j);
                    assert(p[q]@ == n);
                }
            }
            assert(symtab.symbols@.dom() =~= before.dom() + Set::new(|n: Seq<char>| names_has(p1, n)));
            let j1 = j + 1;
            assert forall|n: Seq<char>| #[trigger] names_has(p1, n) implies exists|k: int| {
                &&& last_index(v.names@, j1, n, k)
                &&& symtab.symbols@[n] matches Symbol::Var { ty }
                &&& var_type(before, v.names@, v.ty, k, ty)
            } by {
                if n == key {
                    assert(last_index(v.names@, j1, n, j as int));
                } else {
                    assert(names_has(p, n));
                    let k = choose|k: int| {
                        &&& last_index(v.names@, j as int, n, k)
                        &&& mid[n] matches Symbol::Var { ty }
                        &&& var_type(before, v.names@, v.ty, k, ty)
                    };
                    assert(last_index(v.names@, j1, n, k));
                }
            }
        }
        j = j + 1;
    }
    proof {
        assert(v.names@.take(v.names@.len() as int) =~= v.names@);
    }
}

/// Define a constant of an included interface, when its value folded: as
/// an `int` constant of that value.
pub fn define_const(symtab: &mut SymbolTable, c: &ConstDecl, value: Option<ConstValue>)
    ensures
        value is None ==> *final(symtab) == *old(symtab),
        value matches Some(v) ==> final(symtab).symbols@ == old(symtab).symbols@.insert(
            c.name@,
            Symbol::Const { ty: ResolvedType::Int, value: v },
        ),
        final(symtab).modules == old(symtab).modules,
        final(symtab).include_paths == old(symtab).include_paths,
{
    if let Some(v) = value {
        symtab.define(c.name.as_str(), Symbol::Const { ty: ResolvedType::Int, value: v });
    }
}


// ── Constant folding ───────────────────────────────────────────

/// Arithmetic on real numbers, held as the bits of IEEE 754 doubles, which
/// folding needs and this library does not compute: the caller supplies it.
/// Nothing is assumed of what its methods return.
pub trait Reals {
    /// The double that the text of a real literal denotes, if it denotes one.
    fn parse_real(&self, text: &str) -> Option<u64>;

    /// `a op b` for `op` one of `+`, `-`, `*` and `/`.
    fn arith(&self, a: u64, op: BinOp, b: u64) -> u64;

    /// The double nearest to `v`.
    fn from_int(&self, v: i64) -> u64;
}

/// The folding value of a symbol's constant.
pub open spec fn const_val_of(v: ConstValue) -> ConstVal {
    match v {
        ConstValue::Int(n) => ConstVal::Int(n),
        ConstValue::Real(b) => ConstVal::Real(b),
        ConstValue::String(s) => ConstVal::Str(s),
    }
}

/// The symbol value of a folded constant.
pub open spec fn const_value_of(v: ConstVal) -> ConstValue {
    match v {
        ConstVal::Int(n) => ConstValue::Int(n),
        ConstVal::Real(b) => ConstValue::Real(b),
        ConstVal::Str(s) => ConstValue::String(s),
    }
}

/// A trigger for the quantifiers over folded values: it holds of every
/// value and says nothing else.
pub open spec fn trigger_fold(r: Option<ConstVal>) -> bool {
    true
}

/// The bits of a double with its sign flipped.
pub open spec fn negated_real(b: u64) -> u64 {
    b ^ 0x8000_0000_0000_0000u64
}

/// `r` is what folding a unary operator applied to the folded operand `x`
/// gives: integers negate with wrapping (the least stays itself), complement bitwise, and `!` gives
/// one or zero; a real negates; anything else does not fold.
pub open spec fn unary_fold(op: UnaryOp, x: Option<ConstVal>, r: Option<ConstVal>) -> bool {
    match x {
        Some(ConstVal::Int(n)) => match op {
            UnaryOp::Neg => r == Some(ConstVal::Int(if n == i64::MIN { n } else { (-n) as i64 })),
            UnaryOp::BitNot => r == Some(ConstVal::Int(!n)),
            UnaryOp::Not => r == Some(ConstVal::Int(if n == 0 { 1i64 } else { 0i64 })),
            UnaryOp::Ref => r is None,
        },
        Some(ConstVal::Real(b)) => if op == UnaryOp::Neg {
            r == Some(ConstVal::Real(negated_real(b)))
        } else {
            r is None
        },
        _ => r is None,
    }
}

/// One of the operators real constants fold under.
pub open spec fn real_op(op: BinOp) -> bool {
    op == BinOp::Add || op == BinOp::Sub || op == BinOp::Mul || op == BinOp::Div
}

/// `v` is a result that `reals` can give for `a op b`, the operands in that
/// order.
pub open spec fn real_arith<R: Reals>(reals: &R, a: u64, op: BinOp, b: u64, v: u64) -> bool {
    call_ensures(R::arith, (reals, a, op, b), v)
}

/// `v` is a result that `reals` can give for the integer `n` as a real.
pub open spec fn real_of_int<R: Reals>(reals: &R, n: i64, v: u64) -> bool {
    call_ensures(R::from_int, (reals, n), v)
}

/// `r` is what folding `x op y` gives: two strings concatenate under `+`,
/// two integers fold as `fold_int_result` says, and under `+ - * /` a pair
/// with a real gives the real that `reals` computes from the two operands
/// in their order, an integer operand first made a real by `reals`;
/// anything else does not fold.
pub open spec fn binary_fold<R: Reals>(reals: &R, x: ConstVal, op: BinOp, y: ConstVal, r: Option<ConstVal>) -> bool {
    match (x, y) {
        (ConstVal::Str(a), ConstVal::Str(b)) => if op == BinOp::Add {
            r matches Some(ConstVal::Str(c)) && c@ == a@ + b@
        } else {
            r is None
        },
        (ConstVal::Int(a), ConstVal::Int(b)) => match fold_int_result(a, op, b) {
            Ok(v) => r == Some(ConstVal::Int(v)),
            Err(_) => r is None,
        },
        (ConstVal::Real(a), ConstVal::Real(b)) => if real_op(op) {
            r matches Some(ConstVal::Real(v)) && real_arith(reals, a, op, b, v)
        } else {
            r is None
        },
        (ConstVal::Int(n), ConstVal::Real(b)) => if real_op(op) {
            r matches Some(ConstVal::Real(v)) && exists|a: u64| #[trigger] real_of_int(reals, n, a) && real_arith(
                reals,
                a,
                op,
                b,
                v,
            )
        } else {
            r is None
        },
        (ConstVal::Real(a), ConstVal::Int(n)) => if real_op(op) {
            r matches Some(ConstVal::Real(v)) && exists|b: u64| #[trigger] real_of_int(reals, n, b) && real_arith(
                reals,
                a,
                op,
                b,
                v,
            )
        } else {
            r is None
        },
        _ => r is None,
    }
}

/// `r` is what folding a cast to `ty` of the folded value `v` gives.
pub open spec fn cast_fold<R: Reals>(reals: &R, ty: Type, v: ConstVal, r: Option<ConstVal>) -> bool {
    match (ty, v) {
        (Type::Basic(BasicType::Real), ConstVal::Int(n)) => r matches Some(ConstVal::Real(b)) && real_of_int(reals, n, b),
        (Type::Basic(BasicType::Int), ConstVal::Real(b)) | (Type::Basic(BasicType::Big), ConstVal::Real(b)) | (
            Type::Basic(BasicType::Byte),
            ConstVal::Real(b),
        ) => r == Some(ConstVal::Int(real_cast(b, i64::MIN as int, i64::MAX as int) as i64)),
        (Type::Basic(BasicType::String), ConstVal::Int(n)) => r matches Some(ConstVal::Str(s)) && s@ == i64_text(n),
        _ => r == Some(v),
    }
}

/// `r` is what folding the constant expression `e` gives, with `iota` the
/// value of `iota` and `prior` the constants declared before. Literals,
/// `iota` and earlier constants fold to their values; operators fold their
/// folded operands; anything else does not fold. A real literal's value and
/// the results of real arithmetic are what the caller's `Reals` gives.
pub open spec fn fold_rel<R: Reals>(e: Expr, iota: i64, prior: Map<Seq<char>, ConstValue>, reals: &R, r: Option<ConstVal>) -> bool
    decreases e,
{
    match e {
        Expr::IntLit(v, _) => r == Some(ConstVal::Int(v)),
        Expr::CharLit(v, _) => r == Some(ConstVal::Int(v as i64)),
        Expr::RealLit(_, _) => r is None || r matches Some(ConstVal::Real(_)),
        Expr::StringLit(s, _) => r matches Some(ConstVal::Str(c)) && c@ == s@,
        Expr::Ident(n, _) => if n@ == "iota"@ {
            r == Some(ConstVal::Int(iota))
        } else if prior.dom().contains(n@) {
            r == Some(const_val_of(prior[n@]))
        } else {
            r is None
        },
        Expr::Unary(op, x, _) => exists|rx: Option<ConstVal>| #[trigger] trigger_fold(rx) && fold_rel(*x, iota, prior, reals, rx)
            && unary_fold(op, rx, r),
        Expr::Binary(x, op, y, _) => exists|rx: Option<ConstVal>, ry: Option<ConstVal>| #[trigger] trigger_fold(rx)
            && #[trigger] trigger_fold(ry) && fold_rel(*x, iota, prior, reals, rx) && fold_rel(*y, iota, prior, reals, ry) && match (rx, ry) {
            (Some(a), Some(b)) => binary_fold(reals, a, op, b, r),
            _ => r is None,
        },
        Expr::Cast(ty, x, _) => exists|rx: Option<ConstVal>| #[trigger] trigger_fold(rx) && fold_rel(*x, iota, prior, reals, rx) && match rx {
            Some(v) => cast_fold(reals, *ty, v, r),
            None => r is None,
        },
        _ => r is None,
    }
}

/// Folding `op x` folds `x` and applies `op`.
proof fn lemma_fold_unary<R: Reals>(op: UnaryOp, x: Expr, s: Span, iota: i64, prior: Map<Seq<char>, ConstValue>, reals: &R, rx: Option<ConstVal>, r: Option<ConstVal>)
    requires
        fold_rel(x, iota, prior, reals, rx),
        unary_fold(op, rx, r),
    ensures
        fold_rel(Expr::Unary(op, Box::new(x), s), iota, prior, reals, r),
{
    assert(trigger_fold(rx));
}

/// Folding `x op y`, for `op` one of `+ - * /`, where `x` folds only to the
/// real `a` and `y` only to the real `b`, gives the real that `reals`
/// computes for `a op b`: the left operand first.
pub proof fn lemma_fold_real_binary<R: Reals>(
    reals: &R,
    x: Expr,
    op: BinOp,
    y: Expr,
    s: Span,
    iota: i64,
    prior: Map<Seq<char>, ConstValue>,
    a: u64,
    b: u64,
    r: Option<ConstVal>,
)
    requires
        real_op(op),
        forall|rx: Option<ConstVal>| #[trigger] fold_rel(x, iota, prior, reals, rx) ==> rx == Some(ConstVal::Real(a)),
        forall|ry: Option<ConstVal>| #[trigger] fold_rel(y, iota, prior, reals, ry) ==> ry == Some(ConstVal::Real(b)),
        fold_rel(Expr::Binary(Box::new(x), op, Box::new(y), s), iota, prior, reals, r),
    ensures
        r matches Some(ConstVal::Real(v)) && real_arith(reals, a, op, b, v),
{
    let (rx, ry) = choose|rx: Option<ConstVal>, ry: Option<ConstVal>| #[trigger] trigger_fold(rx) && #[trigger] trigger_fold(ry)
        && fold_rel(x, iota, prior, reals, rx) && fold_rel(y, iota, prior, reals, ry) && match (rx, ry) {
        (Some(c), Some(d)) => binary_fold(reals, c, op, d, r),
        _ => r is None,
    };
    assert(rx == Some(ConstVal::Real(a)));
    assert(ry == Some(ConstVal::Real(b)));
}

/// Folding `x op y`, for `op` one of `+ - * /`, where `x` folds only to the
/// integer `n` and `y` only to the real `b`, gives the real that `reals`
/// computes for `p op b` with `p` the real that `reals` makes of `n`; and
/// with the operands the other way round, `b op p`.
pub proof fn lemma_fold_mixed_binary<R: Reals>(
    reals: &R,
    x: Expr,
    op: BinOp,
    y: Expr,
    s: Span,
    iota: i64,
    prior: Map<Seq<char>, ConstValue>,
    n: i64,
    b: u64,
    r: Option<ConstVal>,
    r2: Option<ConstVal>,
)
    requires
        real_op(op),
        forall|rx: Option<ConstVal>| #[trigger] fold_rel(x, iota, prior, reals, rx) ==> rx == Some(ConstVal::Int(n)),
        forall|ry: Option<ConstVal>| #[trigger] fold_rel(y, iota, prior, reals, ry) ==> ry == Some(ConstVal::Real(b)),
        fold_rel(Expr::Binary(Box::new(x), op, Box::new(y), s), iota, prior, reals, r),
        fold_rel(Expr::Binary(Box::new(y), op, Box::new(x), s), iota, prior, reals, r2),
    ensures
        r matches Some(ConstVal::Real(v)) && exists|p: u64| #[trigger] real_of_int(reals, n, p) && real_arith(reals, p, op, b, v),
        r2 matches Some(ConstVal::Real(v)) && exists|p: u64| #[trigger] real_of_int(reals, n, p) && real_arith(reals, b, op, p, v),
{
    let (rx, ry) = choose|rx: Option<ConstVal>, ry: Option<ConstVal>| #[trigger] trigger_fold(rx) && #[trigger] trigger_fold(ry)
        && fold_rel(x, iota, prior, reals, rx) && fold_rel(y, iota, prior, reals, ry) && match (rx, ry) {
        (Some(c), Some(d)) => binary_fold(reals, c, op, d, r),
        _ => r is None,
    };
    assert(rx == Some(ConstVal::Int(n)));
    assert(ry == Some(ConstVal::Real(b)));
    let (ry2, rx2) = choose|ry2: Option<ConstVal>, rx2: Option<ConstVal>| #[trigger] trigger_fold(ry2) && #[trigger] trigger_fold(rx2)
        && fold_rel(y, iota, prior, reals, ry2) && fold_rel(x, iota, prior, reals, rx2) && match (ry2, rx2) {
        (Some(c), Some(d)) => binary_fold(reals, c, op, d, r2),
        _ => r2 is None,
    };
    assert(rx2 == Some(ConstVal::Int(n)));
    assert(ry2 == Some(ConstVal::Real(b)));
}

fn is_iota_name(n: &String) -> (r: bool)
    ensures
        r == (n@ == "iota"@),
{
    let w = String::from_str("iota");
    *n == w
}

/// Fold the constant expression `expr`.
pub fn fold<R: Reals>(expr: &Expr, iota: i64, prior: &NameMap<ConstValue>, reals: &R) -> (r: Option<ConstVal>)
    ensures
        fold_rel(*expr, iota, prior@, reals, r),
    decreases expr,
{
    match expr {
        Expr::IntLit(v, _) => Some(ConstVal::Int(*v)),
        Expr::CharLit(v, _) => Some(ConstVal::Int(*v as i64)),
        Expr::RealLit(text, _) => match reals.parse_real(text.as_str()) {
            Some(b) => Some(ConstVal::Real(b)),
            None => None,
        },
        Expr::StringLit(s, _) => Some(ConstVal::Str(s.clone())),
        Expr::Ident(name, _) => {
            if is_iota_name(name) {
                Some(ConstVal::Int(iota))
            } else {
                match prior.get(name.as_str()) {
                    Some(v) => Some(ConstVal::from(v)),
                    None => None,
                }
            }
        },
        Expr::Unary(op, inner, _) => {
            let x = fold(inner, iota, prior, reals);
            let ghost gx = x;
            let r = match x {
                Some(ConstVal::Int(v)) => match op {
                    UnaryOp::Neg => Some(ConstVal::Int(if v == i64::MIN { v } else { -v })),
                    UnaryOp::BitNot => Some(ConstVal::Int(!v)),
                    UnaryOp::Not => Some(ConstVal::Int(if v == 0 { 1 } else { 0 })),
                    UnaryOp::Ref => None,
                },
                Some(ConstVal::Real(b)) => match op {
                    UnaryOp::Neg => Some(ConstVal::Real(b ^ 0x8000_0000_0000_0000u64)),
                    _ => None,
                },
                _ => None,
            };
            proof {
                assert(fold_rel(**inner, iota, prior@, reals, gx) && trigger_fold(gx));
                assert(unary_fold(*op, gx, r));
                lemma_fold_unary(*op, **inner, expr->Unary_2, iota, prior@, reals, gx, r);
            }
            r
        },
        Expr::Binary(lhs, op, rhs, _) => {
            let x = fold(lhs, iota, prior, reals);
            let y = fold(rhs, iota, prior, reals);
            let ghost gx = x;
            let ghost gy = y;
            let r = match (x, y) {
                (Some(a), Some(b)) => match fold_exact_binary(&a, *op, &b) {
                    Some(Ok(v)) => Some(v),
                    Some(Err(_)) => None,
                    None => {
                        // A real and a real or an integer: real arithmetic,
                        // the operands in their order.
                        let to_real = R::from_int;
                        let arith = R::arith;
                        if !(*op == BinOp::Add || *op == BinOp::Sub || *op == BinOp::Mul || *op == BinOp::Div) {
                            None
                        } else {
                            match (a, b) {
                                (ConstVal::Real(p), ConstVal::Real(q)) => Some(ConstVal::Real(arith(reals, p, *op, q))),
                                (ConstVal::Int(n), ConstVal::Real(q)) => {
                                    let p = to_real(reals, n);
                                    let v = arith(reals, p, *op, q);
                                    proof {
                                        assert(real_of_int(reals, n, p) && real_arith(reals, p, *op, q, v));
                                    }
                                    Some(ConstVal::Real(v))
                                },
                                (ConstVal::Real(p), ConstVal::Int(n)) => {
                                    let q = to_real(reals, n);
                                    let v = arith(reals, p, *op, q);
                                    proof {
                                        assert(real_of_int(reals, n, q) && real_arith(reals, p, *op, q, v));
                                    }
                                    Some(ConstVal::Real(v))
                                },
                                _ => None,
                            }
                        }
                    },
                },
                _ => None,
            };
            proof {
                assert(fold_rel(**lhs, iota, prior@, reals, gx));
                assert(fold_rel(**rhs, iota, prior@, reals, gy) && trigger_fold(gy) && trigger_fold(gx));
                assert(fold_rel(*expr, iota, prior@, reals, r));
            }
            r
        },
        Expr::Cast(ty, inner, _) => {
            let x = fold(inner, iota, prior, reals);
            let ghost gx = x;
            let r = match x {
                Some(v) => match (&**ty, v) {
                    (Type::Basic(BasicType::Real), ConstVal::Int(n)) => {
                        let to_real = R::from_int;
                        Some(ConstVal::Real(to_real(reals, n)))
                    },
                    (Type::Basic(BasicType::Int), ConstVal::Real(b)) | (Type::Basic(BasicType::Big), ConstVal::Real(b)) | (
                        Type::Basic(BasicType::Byte),
                        ConstVal::Real(b),
                    ) => Some(ConstVal::Int(real_to_i64(b))),
                    (Type::Basic(BasicType::String), ConstVal::Int(n)) => Some(ConstVal::Str(i64_decimal(n))),
                    (_, v) => Some(v),
                },
                None => None,
            };
            proof {
                assert(fold_rel(**inner, iota, prior@, reals, gx) && trigger_fold(gx));
                assert(fold_rel(*expr, iota, prior@, reals, r));
            }
            r
        },
        _ => None,
    }
}

/// Evaluate a module-interface constant expression: its folded value as a
/// symbol's value, or `None` when it is not a compile-time constant.
pub fn eval_const_expr<R: Reals>(expr: &Expr, iota: i64, prior: &NameMap<ConstValue>, reals: &R) -> (r: Option<ConstValue>)
    ensures
        exists|f: Option<ConstVal>| #[trigger] trigger_fold(f) && fold_rel(*expr, iota, prior@, reals, f) && r == match f {
            Some(v) => Some(const_value_of(v)),
            None => None,
        },
{
    let f = fold(expr, iota, prior, reals);
    let ghost g = f;
    let r = match f {
        Some(v) => Some(ConstValue::from(&v)),
        None => None,
    };
    proof {
        assert(fold_rel(*expr, iota, prior@, reals, g) && trigger_fold(g));
    }
    r
}

/// The `iota` counter's state after a name of the declaration at `span`,
/// and the value that name gets.
pub open spec fn iota_step(group: Option<Span>, value: int, span: Span) -> (Option<Span>, int, int) {
    if group == Some(span) {
        (Some(span), value + 1, value)
    } else {
        (Some(span), 1, 0)
    }
}

/// `out` holds the folded values of the constants among `ms`, in order,
/// starting from the `iota` counter state `(group, value)` and the earlier
/// constants `prior`; a constant that folds becomes visible to later ones.
pub open spec fn consts_from<R: Reals>(
    reals: &R,
    ms: Seq<ModuleMember>,
    group: Option<Span>,
    value: int,
    prior: Map<Seq<char>, ConstValue>,
    out: Seq<Option<ConstValue>>,
) -> bool
    decreases ms.len(),
{
    if ms.len() == 0 {
        out.len() == 0
    } else {
        match ms[0] {
            ModuleMember::Const(c) => {
                let (g2, v2, it) = iota_step(group, value, c.span);
                out.len() > 0 && exists|f: Option<ConstVal>| #[trigger] trigger_fold(f) && fold_rel(c.value, it as i64, prior, reals, f) && match f {
                    Some(v) => out[0] == Some(const_value_of(v)) && consts_from(
                        reals,
                        ms.drop_first(),
                        g2,
                        v2,
                        prior.insert(c.name@, const_value_of(v)),
                        out.drop_first(),
                    ),
                    None => out[0] is None && consts_from(reals, ms.drop_first(), g2, v2, prior, out.drop_first()),
                }
            },
            _ => consts_from(reals, ms.drop_first(), group, value, prior, out),
        }
    }
}

/// The folded values of the constants among `members`, in order. `iota`
/// counts up within one `con` declaration and restarts at the next, and
/// earlier constants of the same interface are visible to later ones.
pub fn module_consts<R: Reals>(members: &Vec<ModuleMember>, reals: &R) -> (r: Vec<Option<ConstValue>>)
    requires
        members@.len() < i64::MAX,
    ensures
        consts_from(reals, members@, None, 0, Map::empty(), r@),
        r@.len() == const_count(members@),
{
    let mut iota = IotaCounter::new();
    let mut prior: NameMap<ConstValue> = NameMap::new();
    let mut out: Vec<Option<ConstValue>> = Vec::new();
    let mut i: usize = 0;
    proof {
        assert forall|rest: Seq<Option<ConstValue>>| #[trigger] consts_from(
            reals,
            members@.skip(0),
            iota.current_group(),
            iota.count(),
            prior@,
            rest,
        ) implies consts_from(reals, members@, None, 0, Map::empty(), out@ + rest) by {
            assert(members@.skip(0) =~= members@);
            assert(out@ + rest =~= rest);
            assert(prior@ =~= Map::<Seq<char>, ConstValue>::empty());
        }
    }
    while i < members.len()
        invariant
            i <= members@.len() < i64::MAX,
            iota.count() <= i,
            0 <= iota.count(),
            out@.len() == const_count(members@.take(i as int)),
            forall|rest: Seq<Option<ConstValue>>| #[trigger] consts_from(
                reals,
                members@.skip(i as int),
                iota.current_group(),
                iota.count(),
                prior@,
                rest,
            ) ==> consts_from(reals, members@, None, 0, Map::empty(), out@ + rest),
        decreases members@.len() - i,
    {
        let ghost ms = members@.skip(i as int);
        let ghost before = out@;
        let ghost g0 = iota.current_group();
        let ghost c0 = iota.count();
        let ghost p0 = prior@;
        proof {
            assert(ms[0] == members@[i as int]);
            assert(ms.drop_first() =~= members@.skip(i + 1));
            assert(members@.take(i + 1).drop_last() =~= members@.take(i as int));
        }
        match &members[i] {
            ModuleMember::Const(c) => {
                let it = iota.next(c.span);
                let f = fold(&c.value, it, &prior, reals);
                let ghost gf = f;
                match f {
                    Some(v) => {
                        let v1 = ConstValue::from(&v);
                        let v2 = ConstValue::from(&v);
                        prior.insert(c.name.clone(), v1);
                        out.push(Some(v2));
                    },
                    None => {
                        out.push(None);
                    },
                }
                proof {
                    assert forall|rest: Seq<Option<ConstValue>>| #[trigger] consts_from(
                        reals,
                        members@.skip(i + 1),
                        iota.current_group(),
                        iota.count(),
                        prior@,
                        rest,
                    ) implies consts_from(reals, members@, None, 0, Map::empty(), out@ + rest) by {
                        let r2 = seq![out@.last()] + rest;
                        assert(r2.drop_first() =~= rest);
                        assert(r2[0] == out@.last());
                        assert(fold_rel(c.value, it, p0, reals, gf) && trigger_fold(gf));
                        assert(consts_from(reals, ms, g0, c0, p0, r2));
                        assert(before + r2 =~= out@ + rest);
                    }
                }
            },
            _ => {
                proof {
                    assert forall|rest: Seq<Option<ConstValue>>| #[trigger] consts_from(
                        reals,
                        members@.skip(i + 1),
                        iota.current_group(),
                        iota.count(),
                        prior@,
                        rest,
                    ) implies consts_from(reals, members@, None, 0, Map::empty(), out@ + rest) by {
                        assert(consts_from(reals, ms, g0, c0, p0, rest));
                    }
                }
            },
        }
        i = i + 1;
    }
    proof {
        assert(members@.take(i as int) =~= members@);
        assert(members@.skip(i as int).len() == 0);
        assert(consts_from(reals, members@.skip(i as int), iota.current_group(), iota.count(), prior@, Seq::empty()));
        assert(out@ + Seq::<Option<ConstValue>>::empty() =~= out@);
    }
    out
}


/// Every module declaration of `ds` has fewer members than `i64::MAX`.
pub open spec fn modules_countable(ds: Seq<Decl>) -> bool {
    forall|i: int| 0 <= i < ds.len() ==> (#[trigger] ds[i] matches Decl::Module(md) ==> md.members@.len() < i64::MAX)
}

/// Register what the declarations of a source file add to the symbol
/// table: each module declaration's interface under its name, and each
/// variable declaration's names.
pub fn register_file_decls<R: Reals>(file: &SourceFile, symtab: &mut SymbolTable, reals: &R)
    requires
        modules_countable(file.decls@),
    ensures
        forall|i: int| 0 <= i < file.decls@.len() ==> (#[trigger] file.decls@[i] matches Decl::Module(md)
            ==> final(symtab).modules@.dom().contains(md.name@)),
        old(symtab).modules@.dom().subset_of(final(symtab).modules@.dom()),
        final(symtab).include_paths == old(symtab).include_paths,
{
    let mut i: usize = 0;
    while i < file.decls.len()
        invariant
            i <= file.decls@.len(),
            modules_countable(file.decls@),
            forall|k: int| 0 <= k < i ==> (#[trigger] file.decls@[k] matches Decl::Module(md)
                ==> symtab.modules@.dom().contains(md.name@)),
            old(symtab).modules@.dom().subset_of(symtab.modules@.dom()),
            symtab.include_paths == old(symtab).include_paths,
        decreases file.decls@.len() - i,
    {
        match &file.decls[i] {
            Decl::Module(md) => {
                assert(file.decls@[i as int] matches Decl::Module(m2) && m2.members@.len() < i64::MAX);
                let consts = module_consts(&md.members, reals);
                register_module_decl(symtab, md, &consts);
            },
            Decl::Var(v) => {
                define_vars(symtab, v);
            },
            _ => {},
        }
        i = i + 1;
    }
}


/// Register what the declarations of an included file add to the symbol
/// table: as `register_file_decls` does, and each constant whose value
/// folds, with `iota` zero and no earlier constants.
pub fn register_included_decls<R: Reals>(file: &SourceFile, symtab: &mut SymbolTable, reals: &R)
    requires
        modules_countable(file.decls@),
    ensures
        forall|i: int| 0 <= i < file.decls@.len() ==> (#[trigger] file.decls@[i] matches Decl::Module(md)
            ==> final(symtab).modules@.dom().contains(md.name@)),
        old(symtab).modules@.dom().subset_of(final(symtab).modules@.dom()),
        final(symtab).include_paths == old(symtab).include_paths,
{
    let mut i: usize = 0;
    while i < file.decls.len()
        invariant
            i <= file.decls@.len(),
            modules_countable(file.decls@),
            forall|k: int| 0 <= k < i ==> (#[trigger] file.decls@[k] matches Decl::Module(md)
                ==> symtab.modules@.dom().contains(md.name@)),
            old(symtab).modules@.dom().subset_of(symtab.modules@.dom()),
            symtab.include_paths == old(symtab).include_paths,
        decreases file.decls@.len() - i,
    {
        match &file.decls[i] {
            Decl::Module(md) => {
                assert(file.decls@[i as int] matches Decl::Module(m2) && m2.members@.len() < i64::MAX);
                let consts = module_consts(&md.members, reals);
                register_module_decl(symtab, md, &consts);
            },
            Decl::Var(v) => {
                define_vars(symtab, v);
            },
            Decl::Const(c) => {
                let none: NameMap<ConstValue> = NameMap::new();
                let value = eval_const_expr(&c.value, 0, &none, reals);
                define_const(symtab, c, value);
            },
            _ => {},
        }
        i = i + 1;
    }
}

} // verus!
