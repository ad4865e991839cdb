//! Symbol table for type checking and code generation.
//!
//! Tracks types, constants, variables, and functions from both the
//! current module and included .m files.

use vstd::prelude::*;
use vstd::string::StringExecFns;
use crate::text::push_char;

verus! {

/// A resolved type in the Limbo type system.
#[derive(Debug, PartialEq)]
pub enum ResolvedType {
    Int,
    Byte,
    Big,
    Real,
    String,
    Array(Box<ResolvedType>),
    List(Box<ResolvedType>),
    Chan(Box<ResolvedType>),
    Ref(Box<ResolvedType>),
    Tuple(Vec<ResolvedType>),
    Adt(String),
    Module(String),
    Fn(FnType),
    Nil,
    Unknown,
}

/// Function type: parameter types and return type.
#[derive(Debug, PartialEq)]
pub struct FnType {
    pub params: Vec<(String, ResolvedType)>,
    pub ret: Option<Box<ResolvedType>>,
}

/// Whether a value of type `t` is a pointer in the Dis VM: every type but
/// the numeric ones (and the unknown type) is.
pub open spec fn spec_is_ptr(t: ResolvedType) -> bool {
    !(t is Int || t is Byte || t is Big || t is Real || t is Unknown)
}

/// The size in bytes that a value of type `t` takes in a Dis frame: eight
/// for `big` and `real`, four (a word or a pointer) for everything else.
pub open spec fn spec_frame_size(t: ResolvedType) -> i32 {
    if t is Big || t is Real {
        8
    } else {
        4
    }
}

/// `a` and `b` are the same type, part for part.
pub open spec fn same_type(a: ResolvedType, b: ResolvedType) -> bool
    decreases a,
{
    match a {
        ResolvedType::Array(x) => b matches ResolvedType::Array(y) && same_type(*x, *y),
        ResolvedType::List(x) => b matches ResolvedType::List(y) && same_type(*x, *y),
        ResolvedType::Chan(x) => b matches ResolvedType::Chan(y) && same_type(*x, *y),
        ResolvedType::Ref(x) => b matches ResolvedType::Ref(y) && same_type(*x, *y),
        ResolvedType::Tuple(xs) => b matches ResolvedType::Tuple(ys) && xs@.len() == ys@.len()
            && forall|i: int| 0 <= i < xs@.len() ==> same_type(#[trigger] xs@[i], ys@[i]),
        ResolvedType::Adt(s) => b matches ResolvedType::Adt(t) && s@ == t@,
        ResolvedType::Module(s) => b matches ResolvedType::Module(t) && s@ == t@,
        ResolvedType::Fn(f) => b matches ResolvedType::Fn(g) && f.params@.len() == g.params@.len()
            && (forall|i: int| 0 <= i < f.params@.len() ==> (#[trigger] f.params@[i]).0@ == g.params@[i].0@
                && same_type(f.params@[i].1, g.params@[i].1))
            && match f.ret {
                Some(x) => g.ret matches Some(y) && same_type(*x, *y),
                None => g.ret is None,
            },
        ResolvedType::Int => b is Int,
        ResolvedType::Byte => b is Byte,
        ResolvedType::Big => b is Big,
        ResolvedType::Real => b is Real,
        ResolvedType::String => b is String,
        ResolvedType::Nil => b is Nil,
        ResolvedType::Unknown => b is Unknown,
    }
}

impl ResolvedType {
    /// Is this type a pointer in the Dis VM?
    pub fn is_ptr(&self) -> (r: bool)
        ensures
            r == spec_is_ptr(*self),
    {
        !matches!(
            self,
            ResolvedType::Int | ResolvedType::Byte | ResolvedType::Big | ResolvedType::Real | ResolvedType::Unknown
        )
    }

    /// Is this an array type?
    pub fn is_array(&self) -> (r: bool)
        ensures
            r == (*self is Array),
    {
        matches!(self, ResolvedType::Array(_))
    }

    /// Size in bytes in a Dis frame.
    pub fn frame_size(&self) -> (r: i32)
        ensures
            r == spec_frame_size(*self),
    {
        match self {
            ResolvedType::Big | ResolvedType::Real => 8,
            _ => 4,
        }
    }

    /// A copy of this type, part for part.
    fn copy(&self) -> (r: ResolvedType)
        ensures
            same_type(*self, r),
        decreases self,
    {
        match self {
            ResolvedType::Int => ResolvedType::Int,
            ResolvedType::Byte => ResolvedType::Byte,
            ResolvedType::Big => ResolvedType::Big,
            ResolvedType::Real => ResolvedType::Real,
            ResolvedType::String => ResolvedType::String,
            ResolvedType::Array(x) => ResolvedType::Array(Box::new(x.copy())),
            ResolvedType::List(x) => ResolvedType::List(Box::new(x.copy())),
            ResolvedType::Chan(x) => ResolvedType::Chan(Box::new(x.copy())),
            ResolvedType::Ref(x) => ResolvedType::Ref(Box::new(x.copy())),
            ResolvedType::Tuple(xs) => ResolvedType::Tuple(copy_types(xs)),
            ResolvedType::Adt(s) => ResolvedType::Adt(s.clone()),
            ResolvedType::Module(s) => ResolvedType::Module(s.clone()),
            ResolvedType::Fn(f) => ResolvedType::Fn(copy_fn_type(f)),
            ResolvedType::Nil => ResolvedType::Nil,
            ResolvedType::Unknown => ResolvedType::Unknown,
        }
    }
}

/// Copies of the types in `xs`, part for part.
fn copy_types(xs: &Vec<ResolvedType>) -> (r: Vec<ResolvedType>)
    ensures
        r@.len() == xs@.len(),
        forall|j: int| 0 <= j < xs@.len() ==> same_type(#[trigger] xs@[j], r@[j]),
    decreases xs,
{
    let mut out: Vec<ResolvedType> = Vec::new();
    let mut i: usize = 0;
    while i < xs.len()
        invariant
            i <= xs@.len(),
            out@.len() == i,
            forall|j: int| 0 <= j < i ==> same_type(#[trigger] xs@[j], out@[j]),
        decreases xs.len() - i,
    {
        proof {
            assert(decreases_to!(xs => xs@[i as int]));
        }
        out.push(xs[i].copy());
        i = i + 1;
    }
    out
}

/// A copy of the parameter `p`.
fn copy_param(p: &(String, ResolvedType)) -> (r: (String, ResolvedType))
    ensures
        r.0@ == p.0@,
        same_type(p.1, r.1),
    decreases p,
{
    (p.0.clone(), p.1.copy())
}

/// A copy of the function type `f`, part for part.
fn copy_fn_type(f: &FnType) -> (r: FnType)
    ensures
        r.params@.len() == f.params@.len(),
        forall|i: int| 0 <= i < f.params@.len() ==> (#[trigger] f.params@[i]).0@ == r.params@[i].0@
            && same_type(f.params@[i].1, r.params@[i].1),
        match f.ret {
            Some(x) => r.ret matches Some(y) && same_type(*x, *y),
            None => r.ret is None,
        },
    decreases f,
{
    let mut params: Vec<(String, ResolvedType)> = Vec::new();
    let mut i: usize = 0;
    while i < f.params.len()
        invariant
            i <= f.params@.len(),
            params@.len() == i,
            forall|j: int| 0 <= j < i ==> (#[trigger] f.params@[j]).0@ == params@[j].0@
                && same_type(f.params@[j].1, params@[j].1),
        decreases f.params.len() - i,
    {
        proof {
            assert(decreases_to!(f.params => f.params@[i as int]));
        }
        params.push(copy_param(&f.params[i]));
        i = i + 1;
    }
    let ret = match &f.ret {
        Some(x) => Some(Box::new(x.copy())),
        None => None,
    };
    FnType { params, ret }
}

impl Clone for ResolvedType {
    fn clone(&self) -> (r: Self)
        ensures
            same_type(*self, r),
    {
        self.copy()
    }
}

impl Clone for FnType {
    fn clone(&self) -> (r: Self)
        ensures
            r.params@.len() == self.params@.len(),
            forall|i: int| 0 <= i < self.params@.len() ==> (#[trigger] self.params@[i]).0@ == r.params@[i].0@
                && same_type(self.params@[i].1, r.params@[i].1),
    {
        copy_fn_type(self)
    }
}

/// A constant value. A real constant is held as the bits of its IEEE 754
/// double-precision value.
#[derive(Clone, Debug)]
pub enum ConstValue {
    Int(i64),
    Real(u64),
    String(String),
}

/// Symbol table entry.
#[derive(Debug)]
pub enum Symbol {
    Var { ty: ResolvedType },
    Const { ty: ResolvedType, value: ConstValue },
    Func { ty: FnType },
    Type { resolved: ResolvedType },
    Module { name: String, members: NameMap<Symbol> },
}

/// A map from names to values: each name at most once, in the order in
/// which the names were first inserted.
#[derive(Debug)]
pub struct NameMap<V> {
    entries: Vec<(String, V)>,
}

impl<V> NameMap<V> {
    #[verifier::type_invariant]
    closed spec fn names_distinct(self) -> bool {
        forall|i: int, j: int| 0 <= i < j < self.entries@.len() ==> (#[trigger] self.entries@[i]).0@ != (#[trigger] self.entries@[j]).0@
    }

    /// The index of the entry for `k`.
    closed spec fn index_of(self, k: Seq<char>) -> int {
        choose|i: int| 0 <= i < self.entries@.len() && self.entries@[i].0@ == k
    }

    /// The map: each name with its value.
    pub closed spec fn view(self) -> Map<Seq<char>, V> {
        Map::new(
            |k: Seq<char>| exists|i: int| 0 <= i < self.entries@.len() && self.entries@[i].0@ == k,
            |k: Seq<char>| self.entries@[self.index_of(k)].1,
        )
    }

    /// The entry at `i` is the one for its name.
    proof fn lemma_entry(self, i: int)
        requires
            self.names_distinct(),
            0 <= i < self.entries@.len(),
        ensures
            self.view().dom().contains(self.entries@[i].0@),
            self.view()[self.entries@[i].0@] == self.entries@[i].1,
    {
        let k = self.entries@[i].0@;
        assert(self.view().dom().contains(k));
        let j = self.index_of(k);
        if j != i {
            if i < j {
                assert(self.entries@[i].0@ != self.entries@[j].0@);
            } else {
                assert(self.entries@[j].0@ != self.entries@[i].0@);
            }
        }
    }

    /// An empty map.
    pub fn new() -> (r: Self)
        ensures
            r.view() == Map::<Seq<char>, V>::empty(),
    {
        let r = NameMap { entries: Vec::new() };
        assert(r.view() =~= Map::<Seq<char>, V>::empty());
        r
    }

    /// The number of names in the map.
    pub fn len(&self) -> (r: usize)
        ensures
            r == self.view().len(),
    {
        proof {
            use_type_invariant(self);
            self.lemma_len();
        }
        self.entries.len()
    }

    /// The map has as many names as entries.
    proof fn lemma_len(self)
        requires
            self.names_distinct(),
        ensures
            self.view().len() == self.entries@.len(),
            self.view().dom().finite(),
    {
        let keys = self.entries@.map_values(|e: (String, V)| e.0@);
        assert(keys.no_duplicates()) by {
            assert forall|i: int, j: int| 0 <= i < keys.len() && 0 <= j < keys.len() && i != j implies keys[i] != keys[j] by {
                if i < j {
                    assert(self.entries@[i].0@ != self.entries@[j].0@);
                } else {
                    assert(self.entries@[j].0@ != self.entries@[i].0@);
                }
            }
        }
        assert forall|q: Seq<char>| self.view().dom().contains(q) implies keys.to_set().contains(q) by {
            let j = choose|j: int| 0 <= j < self.entries@.len() && self.entries@[j].0@ == q;
            assert(keys[j] == q);
        }
        assert forall|q: Seq<char>| keys.to_set().contains(q) implies self.view().dom().contains(q) by {
            let j = choose|j: int| 0 <= j < keys.len() && keys[j] == q;
            assert(self.entries@[j].0@ == q);
        }
        assert(self.view().dom() =~= keys.to_set());
        keys.unique_seq_to_set();
    }

    /// The position of the entry for `key`, if there is one.
    fn find(&self, key: &String) -> (r: Option<usize>)
        ensures
            r matches Some(i) ==> i < self.entries@.len() && self.entries@[i as int].0@ == key@,
            r is None ==> !self.view().dom().contains(key@),
    {
        let mut i: usize = 0;
        while i < self.entries.len()
            invariant
                i <= self.entries@.len(),
                forall|j: int| 0 <= j < i ==> (#[trigger] self.entries@[j]).0@ != key@,
            decreases self.entries.len() - i,
        {
            if self.entries[i].0 == *key {
                return Some(i);
            }
            i = i + 1;
        }
        None
    }

    /// The value for `key`, if the map has one.
    pub fn get(&self, key: &str) -> (r: Option<&V>)
        ensures
            r matches Some(v) ==> self.view().dom().contains(key@) && *v == self.view()[key@],
            r is None ==> !self.view().dom().contains(key@),
    {
        proof {
            use_type_invariant(self);
        }
        let k = String::from_str(key);
        match self.find(&k) {
            Some(i) => {
                proof {
                    self.lemma_entry(i as int);
                }
                Some(&self.entries[i].1)
            },
            None => None,
        }
    }

    /// Set the value for `key`, in place of the one it had.
    pub fn insert(&mut self, key: String, value: V)
        ensures
            final(self).view() == old(self).view().insert(key@, value),
    {
        proof {
            use_type_invariant(&*self);
        }
        let ghost before = *self;
        let ghost k = key@;
        let ghost v = value;
        let found = self.find(&key);
        let mut entries: Vec<(String, V)> = Vec::new();
        std::mem::swap(&mut entries, &mut self.entries);
        assert(entries@ == before.entries@);
        match found {
            Some(i) => {
                entries.set(i, (key, value));
                self.entries = entries;
                proof {
                    let after = *self;
                    assert forall|x: int, y: int| 0 <= x < y < after.entries@.len() implies (#[trigger] after.entries@[x]).0@ != (#[trigger] after.entries@[y]).0@ by {
                        assert(after.entries@[x].0@ == before.entries@[x].0@);
                        assert(after.entries@[y].0@ == before.entries@[y].0@);
                    }
                    assert forall|x: int| 0 <= x < after.entries@.len() implies #[trigger] after.entries@[x].0@ == before.entries@[x].0@ by {}
                    assert(after.view().dom() =~= before.view().dom().insert(k)) by {
                        assert forall|q: Seq<char>| after.view().dom().contains(q) implies before.view().dom().insert(k).contains(q) by {
                            let j = choose|j: int| 0 <= j < after.entries@.len() && after.entries@[j].0@ == q;
                            assert(before.entries@[j].0@ == q);
                        }
                        assert forall|q: Seq<char>| before.view().dom().insert(k).contains(q) implies after.view().dom().contains(q) by {
                            if q == k {
                                assert(after.entries@[i as int].0@ == k);
                            } else {
                                let j = choose|j: int| 0 <= j < before.entries@.len() && before.entries@[j].0@ == q;
                                assert(after.entries@[j].0@ == q);
                            }
                        }
                    }
                    assert forall|q: Seq<char>| #[trigger] after.view().dom().contains(q) implies after.view()[q] == before.view().insert(k, v)[q] by {
                        let j = choose|j: int| 0 <= j < after.entries@.len() && after.entries@[j].0@ == q;
                        after.lemma_entry(j);
                        if j != i {
                            assert(before.entries@[j] == after.entries@[j]);
                            before.lemma_entry(j);
                        }
                    }
                    assert(after.view() =~= before.view().insert(k, v));
                }
            },
            None => {
                entries.push((key, value));
                assert forall|x: int, y: int| 0 <= x < y < entries@.len() implies (#[trigger] entries@[x]).0@ != (#[trigger] entries@[y]).0@ by {
                    if y == before.entries@.len() {
                        assert(!before.view().dom().contains(k));
                        assert(before.entries@[x] == entries@[x]);
                        assert(before.view().dom().contains(before.entries@[x].0@));
                    } else {
                        assert(before.entries@[x] == entries@[x]);
                        assert(before.entries@[y] == entries@[y]);
                    }
                }
                self.entries = entries;
                proof {
                    let after = *self;
                    let n = before.entries@.len() as int;
                    assert forall|x: int, y: int| 0 <= x < y < after.entries@.len() implies (#[trigger] after.entries@[x]).0@ != (#[trigger] after.entries@[y]).0@ by {
                        if y == n {
                            assert(!before.view().dom().contains(k));
                            assert(before.entries@[x] == after.entries@[x]);
                        } else {
                            assert(before.entries@[x] == after.entries@[x]);
                            assert(before.entries@[y] == after.entries@[y]);
                        }
                    }
                    assert(after.view().dom() =~= before.view().dom().insert(k)) by {
                        assert forall|q: Seq<char>| after.view().dom().contains(q) implies before.view().dom().insert(k).contains(q) by {
                            let j = choose|j: int| 0 <= j < after.entries@.len() && after.entries@[j].0@ == q;
                            if j < n {
                                assert(before.entries@[j] == after.entries@[j]);
                            }
                        }
                        assert forall|q: Seq<char>| before.view().dom().insert(k).contains(q) implies after.view().dom().contains(q) by {
                            if q == k {
                                assert(after.entries@[n].0@ == k);
                            } else {
                                let j = choose|j: int| 0 <= j < before.entries@.len() && before.entries@[j].0@ == q;
                                assert(before.entries@[j] == after.entries@[j]);
                            }
                        }
                    }
                    assert forall|q: Seq<char>| #[trigger] after.view().dom().contains(q) implies after.view()[q] == before.view().insert(k, v)[q] by {
                        let j = choose|j: int| 0 <= j < after.entries@.len() && after.entries@[j].0@ == q;
                        after.lemma_entry(j);
                        if j < n {
                            assert(before.entries@[j] == after.entries@[j]);
                            before.lemma_entry(j);
                        }
                    }
                    assert(after.view() =~= before.view().insert(k, v));
                }
            },
        }
    }
}

/// What a lookup finds after an insertion: the value just inserted under
/// its name, and under every other name what was there before.
pub proof fn lemma_insert_then_get<V>(before: NameMap<V>, after: NameMap<V>, key: Seq<char>, value: V, other: Seq<char>)
    requires
        after@ == before@.insert(key, value),
    ensures
        after@.dom().contains(key),
        after@[key] == value,
        other != key ==> (after@.dom().contains(other) <==> before@.dom().contains(other)),
        other != key && before@.dom().contains(other) ==> after@[other] == before@[other],
{
}

/// The type that module `module` declares under `ty_name`, if it
/// declares one.
pub open spec fn module_type(modules: Map<Seq<char>, NameMap<Symbol>>, module: Seq<char>, ty_name: Seq<char>) -> Option<ResolvedType> {
    if modules.dom().contains(module) && modules[module]@.dom().contains(ty_name) {
        match modules[module]@[ty_name] {
            Symbol::Type { resolved } => Some(resolved),
            _ => None,
        }
    } else {
        None
    }
}

/// Module-level symbol table.
#[derive(Debug)]
pub struct SymbolTable {
    /// Symbols in scope: name -> Symbol
    pub symbols: NameMap<Symbol>,
    /// Module declarations from included .m files
    pub modules: NameMap<NameMap<Symbol>>,
    /// Include search paths
    pub include_paths: Vec<String>,
}

impl SymbolTable {
    pub fn new() -> (r: Self)
        ensures
            r.symbols@ == Map::<Seq<char>, Symbol>::empty(),
            r.modules@ == Map::<Seq<char>, NameMap<Symbol>>::empty(),
            r.include_paths@.len() == 0,
    {
        SymbolTable { symbols: NameMap::new(), modules: NameMap::new(), include_paths: Vec::new() }
    }

    pub fn add_include_path(&mut self, path: &str)
        ensures
            final(self).include_paths@.len() == old(self).include_paths@.len() + 1,
            forall|i: int| 0 <= i < old(self).include_paths@.len() ==> #[trigger] final(self).include_paths@[i] == old(self).include_paths@[i],
            final(self).include_paths@.last()@ == path@,
            final(self).symbols == old(self).symbols,
            final(self).modules == old(self).modules,
    {
        self.include_paths.push(String::from_str(path));
    }

    /// Look up a symbol by name.
    pub fn lookup(&self, name: &str) -> (r: Option<&Symbol>)
        ensures
            r matches Some(s) ==> self.symbols@.dom().contains(name@) && *s == self.symbols@[name@],
            r is None ==> !self.symbols@.dom().contains(name@),
    {
        self.symbols.get(name)
    }

    /// Look up a qualified symbol: Module->member or Module.member.
    pub fn lookup_qualified(&self, module: &str, member: &str) -> (r: Option<&Symbol>)
        ensures
            r matches Some(s) ==> self.modules@.dom().contains(module@)
                && self.modules@[module@]@.dom().contains(member@)
                && *s == self.modules@[module@]@[member@],
            r is None ==> !self.modules@.dom().contains(module@)
                || !self.modules@[module@]@.dom().contains(member@),
    {
        match self.modules.get(module) {
            Some(m) => m.get(member),
            None => None,
        }
    }

    /// Define a new symbol, in place of any symbol of that name.
    pub fn define(&mut self, name: &str, sym: Symbol)
        ensures
            final(self).symbols@ == old(self).symbols@.insert(name@, sym),
            final(self).modules == old(self).modules,
            final(self).include_paths == old(self).include_paths,
    {
        self.symbols.insert(String::from_str(name), sym);
    }

    /// Register a module's members, in place of any module of that name.
    pub fn register_module(&mut self, name: &str, members: NameMap<Symbol>)
        ensures
            final(self).modules@ == old(self).modules@.insert(name@, members),
            final(self).symbols == old(self).symbols,
            final(self).include_paths == old(self).include_paths,
    {
        self.modules.insert(String::from_str(name), members);
    }

    /// Resolve a type from a module: e.g., "Draw->Context". A type the
    /// module does not declare resolves to the ADT named `module.ty_name`.
    pub fn resolve_module_type(&self, module: &str, ty_name: &str) -> (r: ResolvedType)
        ensures
            match module_type(self.modules@, module@, ty_name@) {
                Some(t) => same_type(t, r),
                None => r matches ResolvedType::Adt(n) && n@ == module@ + seq!['.'] + ty_name@,
            },
    {
        if let Some(members) = self.modules.get(module) {
            if let Some(Symbol::Type { resolved }) = members.get(ty_name) {
                return resolved.copy();
            }
        }
        let mut n = String::from_str(module);
        push_char(&mut n, '.');
        n.append(ty_name);
        ResolvedType::Adt(n)
    }
}

impl Default for SymbolTable {
    fn default() -> (r: Self)
        ensures
            r.symbols@ == Map::<Seq<char>, Symbol>::empty(),
            r.modules@ == Map::<Seq<char>, NameMap<Symbol>>::empty(),
            r.include_paths@.len() == 0,
    {
        SymbolTable::new()
    }
}

} // verus!
