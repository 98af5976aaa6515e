//! The prelude as ordinary rows: the primitive types, the built-in generic
//! types, the language-known traits and the built-in impls, all hashed,
//! indexed and looked up exactly like user code, so no later rule needs a
//! special case for "is this one of the built-ins".
//!
//! The rows live in a synthetic module whose single path segment is the
//! name `#prelude`. It is not a legal identifier, so no user module can
//! collide with it, and the canonical encoding of a prelude head is stable
//! across builds without reserving numeric ids.
//!
//! The names are interned by the caller, in the order [`PreludeNames`]
//! lists them, before the rows are built: a name's symbol depends on the
//! interner alone, and the rows only read it.

use vstd::prelude::*;

use crate::fir::defpath::{no_decl_key, no_def, DeclKey, DeclKeyId, ModulePathId};
use crate::fir::impls::{ImplIndex, ImplRow};
use crate::fir::sig::{
    empty_row, no_bounds, no_constraints, Assoc, Conv, GParam, GParamKind, Member, Param, SigKind, SigRow,
    SigStore, NO_SLOT, VIS_PUBLIC,
};
use crate::fir::ty::{no_args, no_ty, plain, ty_never, ty_unit, PrimKind, TraitRefId, TraitRefRow, TyId, TyStore, TyTag};
use crate::fir::Fir;
use crate::index::{DeclKind, DefId, Symbol};

verus! {

/// The number of primitive scalars.
pub const PRIM_COUNT: usize = 15;

/// The number of built-in generic types.
pub const GENERIC_COUNT: usize = 11;

/// The number of trait slots; the last is reserved and declares nothing.
pub const TRAIT_COUNT: usize = 22;

/// The number of std types the prelude names without declaring them.
pub const OPAQUE_COUNT: usize = 8;

/// The number of language-known trait methods.
pub const METHOD_COUNT: usize = 18;

/// The primitive scalar at position `i`, in `PrimKind` order.
pub open spec fn spec_prim_kind(i: int) -> PrimKind {
    if i == 0 {
        PrimKind::I8
    } else if i == 1 {
        PrimKind::I16
    } else if i == 2 {
        PrimKind::I32
    } else if i == 3 {
        PrimKind::I64
    } else if i == 4 {
        PrimKind::Isize
    } else if i == 5 {
        PrimKind::U8
    } else if i == 6 {
        PrimKind::U16
    } else if i == 7 {
        PrimKind::U32
    } else if i == 8 {
        PrimKind::U64
    } else if i == 9 {
        PrimKind::Usize
    } else if i == 10 {
        PrimKind::F32
    } else if i == 11 {
        PrimKind::F64
    } else if i == 12 {
        PrimKind::Bool
    } else if i == 13 {
        PrimKind::Str
    } else {
        PrimKind::RawPtr
    }
}

fn prim_kind(i: usize) -> (r: PrimKind)
    requires
        i < 15,
    ensures
        r == spec_prim_kind(i as int),
{
    match i {
        0 => PrimKind::I8,
        1 => PrimKind::I16,
        2 => PrimKind::I32,
        3 => PrimKind::I64,
        4 => PrimKind::Isize,
        5 => PrimKind::U8,
        6 => PrimKind::U16,
        7 => PrimKind::U32,
        8 => PrimKind::U64,
        9 => PrimKind::Usize,
        10 => PrimKind::F32,
        11 => PrimKind::F64,
        12 => PrimKind::Bool,
        13 => PrimKind::Str,
        _ => PrimKind::RawPtr,
    }
}

/// The built-in generic types, by position: `Array`, `Slice`, `vector`,
/// `mask`, `Option`, `atomic`, `Own`, `Ref`, `Arena`, `Range`, `RangeIncl`.
pub const ARRAY: usize = 0;
pub const SLICE: usize = 1;
pub const VECTOR: usize = 2;
pub const MASK: usize = 3;
pub const OPTION: usize = 4;
pub const ATOMIC: usize = 5;
pub const OWN: usize = 6;
pub const REF: usize = 7;
pub const ARENA: usize = 8;
pub const RANGE: usize = 9;
pub const RANGEINCL: usize = 10;

/// The declared parameter count of built-in generic type `i`.
pub open spec fn spec_generic_arity(i: int) -> u8 {
    if i == 0 || i == 2 || i == 6 || i == 7 || i == 8 {
        2
    } else {
        1
    }
}

pub fn generic_arity(i: usize) -> (r: u8)
    requires
        i < 11,
    ensures
        r == spec_generic_arity(i as int),
{
    if i == 0 || i == 2 || i == 6 || i == 7 || i == 8 {
        2
    } else {
        1
    }
}

/// The shape of parameter `o` of built-in generic type `i`: a `usize`
/// constant for the length of `Array` and `vector` and the width of `mask`,
/// a brand for the second parameter of `Own`, `Ref` and `Arena`, a type
/// otherwise.
pub open spec fn spec_generic_param_kind(i: int, o: int, usize_ty: TyId) -> GParamKind {
    if (i == 0 && o == 1) || (i == 2 && o == 1) || (i == 3 && o == 0) {
        GParamKind::Const { ty: usize_ty }
    } else if (i == 6 || i == 7 || i == 8) && o == 1 {
        GParamKind::Brand
    } else {
        GParamKind::Type
    }
}

/// The language-known traits, by position.
pub const ADD: usize = 0;
pub const SUB: usize = 1;
pub const MUL: usize = 2;
pub const DIV: usize = 3;
pub const REM: usize = 4;
pub const NEG: usize = 5;
pub const BITAND: usize = 6;
pub const BITOR: usize = 7;
pub const BITXOR: usize = 8;
pub const SHL: usize = 9;
pub const SHR: usize = 10;
pub const EQ: usize = 11;
pub const ORD: usize = 12;
pub const ITERATOR: usize = 13;
pub const INDEX: usize = 14;
pub const INDEXMUT: usize = 15;
pub const COPYABLE: usize = 16;
pub const SHARED: usize = 17;
pub const LINEAR: usize = 18;
pub const DROPPABLE: usize = 19;
pub const ERRORFROM: usize = 20;

/// The parameter count of trait `i`, `Self` excluded.
pub open spec fn spec_trait_arity(i: int) -> u8 {
    if i == 14 || i == 15 || i == 20 {
        1
    } else {
        0
    }
}

pub fn trait_arity(i: usize) -> (r: u8)
    ensures
        r == spec_trait_arity(i as int),
{
    if i == 14 || i == 15 || i == 20 {
        1
    } else {
        0
    }
}

/// The language-known methods, by position in [`PreludeNames::methods`]:
/// the ten binary operators in trait order, then `neg`, `eq`, `lt`, `le`,
/// `next`, `at`, `at_mut`, `from`.
pub const M_NEG: usize = 10;
pub const M_EQ: usize = 11;
pub const M_LT: usize = 12;
pub const M_LE: usize = 13;
pub const M_NEXT: usize = 14;
pub const M_AT: usize = 15;
pub const M_AT_MUT: usize = 16;
pub const M_FROM: usize = 17;

/// What a prelude name denotes.
#[derive(Clone, Copy, PartialEq, Eq, Structural, Debug)]
pub enum PreludeEntity {
    /// A primitive scalar or `never`: already a type, arity 0.
    Ty(TyId),
    /// A built-in generic type: a nominal head with `arity` parameters.
    Generic { def: DefId, arity: u8 },
    /// A language-known trait: `arity` excludes `Self`.
    Trait { def: DefId, arity: u8 },
    /// A std type the prelude names in a build with no `std` source: its
    /// declaration is not in this build, so its arity and members are
    /// unknown and every rule that would need them stays silent.
    Opaque,
}

/// The interned names the prelude declares. A correct interner gives
/// distinct names distinct symbols; the rows only read them.
pub struct PreludeNames {
    /// The synthetic module's one segment, `#prelude`.
    pub module: Symbol,
    /// The primitive scalars, in `PrimKind` order: `i8` .. `rawptr`.
    pub prims: Vec<Symbol>,
    pub never: Symbol,
    /// The built-in generic types, in position order.
    pub generics: Vec<Symbol>,
    /// `T` and `N`: a built-in generic type's first and later parameters.
    pub type_param: Symbol,
    pub const_param: Symbol,
    /// `Option`'s variants.
    pub some: Symbol,
    pub none: Symbol,
    /// `Item`, `Output`, `Self`.
    pub item: Symbol,
    pub output: Symbol,
    pub self_type: Symbol,
    /// `self`, `rhs`, `i`, `e`: the language-known methods' parameters.
    pub receiver: Symbol,
    pub rhs: Symbol,
    pub index: Symbol,
    pub error: Symbol,
    /// The language-known traits, in position order, the reserved last slot
    /// excluded.
    pub traits: Vec<Symbol>,
    /// `I` and `J`: a trait's own parameters after `Self`.
    pub first_param: Symbol,
    pub second_param: Symbol,
    /// The language-known methods, in the order the `M_` positions give.
    pub methods: Vec<Symbol>,
    /// The std types named without a declaration: `Allocator`,
    /// `AllocError`, `PageAllocator`, `Buffer`, `Vec`, `Map`, `String`,
    /// `Utf8Error`.
    pub opaque: Vec<Symbol>,
}

impl PreludeNames {
    /// Every name the lookup table holds.
    pub open spec fn table_names(&self) -> Seq<Symbol> {
        self.prims@ + seq![self.never] + self.generics@ + self.traits@ + self.opaque@
    }

    /// Each list has its length, and distinct names are distinct symbols.
    pub open spec fn wf(&self) -> bool {
        &&& self.prims@.len() == 15
        &&& self.generics@.len() == 11
        &&& self.traits@.len() == 21
        &&& self.methods@.len() == 18
        &&& self.opaque@.len() == 8
        &&& self.table_names().no_duplicates()
        &&& self.methods@[12] != self.methods@[13]
    }
}

/// The table entry of every name, in the order the rows are built.
pub open spec fn spec_entries(
    n: &PreludeNames,
    prims: Seq<TyId>,
    generics: Seq<DefId>,
    traits: Seq<DefId>,
) -> Seq<(Symbol, PreludeEntity)> {
    Seq::new(15, |i: int| (n.prims@[i], PreludeEntity::Ty(prims[i]))) + seq![
        (n.never, PreludeEntity::Ty(TyId(2))),
    ] + Seq::new(
        11,
        |i: int| (n.generics@[i], PreludeEntity::Generic { def: generics[i], arity: spec_generic_arity(i) }),
    ) + Seq::new(
        21,
        |i: int| (n.traits@[i], PreludeEntity::Trait { def: traits[i], arity: spec_trait_arity(i) }),
    ) + Seq::new(8, |i: int| (n.opaque@[i], PreludeEntity::Opaque))
}

/// Keys strictly increase along `s`.
pub open spec fn keys_increase(s: Seq<(Symbol, PreludeEntity)>) -> bool {
    forall|i: int, j: int| 0 <= i < j < s.len() ==> (#[trigger] s[i]).0.0 < (#[trigger] s[j]).0.0
}

/// Every prelude row, built once per build before any user signature is
/// lowered.
pub struct PreludeDefs {
    /// The module every prelude declaration lives in.
    pub module: ModulePathId,
    /// The lookup table, sorted by name.
    pub names: Vec<(Symbol, PreludeEntity)>,
    /// The primitive scalars, in `PrimKind` order.
    pub prims: Vec<TyId>,
    /// The built-in generic types, in position order.
    pub generics: Vec<DefId>,
    /// The language-known traits, in position order; the reserved last slot
    /// holds the absent id.
    pub traits: Vec<DefId>,
    /// `Option`.
    pub option: DefId,
    pub item_name: Symbol,
    pub output_name: Symbol,
    pub self_name: Symbol,
}

impl PreludeDefs {
    /// The lookup table: each prelude name with what it denotes.
    pub closed spec fn spec_table(&self) -> Seq<(Symbol, PreludeEntity)> {
        self.names@
    }

    pub closed spec fn spec_module(&self) -> ModulePathId {
        self.module
    }

    /// The table is sorted by name, one entry per name.
    pub closed spec fn wf(&self) -> bool {
        keys_increase(self.names@)
    }

    /// What `name` denotes, or `None` when it is not a prelude name.
    pub fn lookup(&self, name: Symbol) -> (r: Option<PreludeEntity>)
        requires
            self.wf(),
        ensures
            r matches Some(e) ==> self.spec_table().contains((name, e)),
            r is None ==> forall|e: PreludeEntity| !self.spec_table().contains((name, e)),
    {
        let mut lo: usize = 0;
        let mut hi: usize = self.names.len();
        while lo < hi
            invariant
                keys_increase(self.names@),
                0 <= lo <= hi <= self.names@.len(),
                forall|i: int| 0 <= i < lo ==> (#[trigger] self.names@[i]).0.0 < name.0,
                forall|i: int| hi <= i < self.names@.len() ==> (#[trigger] self.names@[i]).0.0 > name.0,
            decreases hi - lo,
        {
            let mid = lo + (hi - lo) / 2;
            let k = self.names[mid].0.0;
            if k == name.0 {
                proof {
                    assert(self.names@[mid as int].0 == name);
                    assert(self.names@.contains((name, self.names@[mid as int].1)));
                }
                return Some(self.names[mid].1);
            } else if k < name.0 {
                lo = mid + 1;
            } else {
                hi = mid;
            }
        }
        proof {
            assert forall|e: PreludeEntity| !self.names@.contains((name, e)) by {
                if self.names@.contains((name, e)) {
                    let i = choose|i: int| 0 <= i < self.names@.len() && self.names@[i] == (name, e);
                    assert(self.names@[i].0.0 == name.0);
                }
            }
        }
        None
    }

    /// Whether `def` is one of the language-known traits, and which: the
    /// first position holding it.
    pub fn trait_index(&self, def: DefId) -> (r: Option<usize>)
        ensures
            r matches Some(i) ==> i < self.traits@.len() && self.traits@[i as int] == def && forall|j: int|
                0 <= j < i ==> self.traits@[j] != def,
            r is None ==> forall|j: int| 0 <= j < self.traits@.len() ==> self.traits@[j] != def,
    {
        position(&self.traits, def)
    }

    /// Whether `def` is one of the built-in generic types, and which: the
    /// first position holding it.
    pub fn generic_index(&self, def: DefId) -> (r: Option<usize>)
        ensures
            r matches Some(i) ==> i < self.generics@.len() && self.generics@[i as int] == def && forall|j: int|
                0 <= j < i ==> self.generics@[j] != def,
            r is None ==> forall|j: int| 0 <= j < self.generics@.len() ==> self.generics@[j] != def,
    {
        position(&self.generics, def)
    }

    /// The trait reference to trait `which` with no arguments of its own
    /// (`Self` is the subject, not an argument).
    pub fn trait_ref(&self, fir: &mut Fir, which: usize) -> (r: TraitRefId)
        requires
            which < self.traits@.len(),
            old(fir).tys.wf_core(),
            old(fir).tys.has_room(),
        ensures
            final(fir).tys.wf_core(),
            old(fir).tys.reserved() ==> final(fir).tys.reserved(),
            TyStore::grows(&old(fir).tys, &final(fir).tys),
            r.0 < final(fir).tys.spec_trait_refs().len(),
            final(fir).tys.spec_trait_refs()[r.0 as int] == (TraitRefRow {
                def: self.traits@[which as int],
                args: crate::fir::ty::ArgsId(0),
            }),
            final(fir).sigs == old(fir).sigs,
            final(fir).keys == old(fir).keys,
            final(fir).defs == old(fir).defs,
    {
        fir.tys.intern_trait_ref(self.traits[which], no_args())
    }

    /// The module every prelude declaration lives in.
    pub fn module(&self) -> (r: ModulePathId)
        ensures
            r == self.spec_module(),
    {
        self.module
    }
}

/// The first position of `x` in `v`.
fn position(v: &Vec<DefId>, x: DefId) -> (r: Option<usize>)
    ensures
        r matches Some(i) ==> i < v@.len() && v@[i as int] == x && forall|j: int| 0 <= j < i ==> v@[j] != x,
        r is None ==> forall|j: int| 0 <= j < v@.len() ==> v@[j] != x,
{
    let mut i: usize = 0;
    while i < v.len()
        invariant
            i <= v@.len(),
            forall|j: int| 0 <= j < i ==> v@[j] != x,
        decreases v@.len() - i,
    {
        if v[i] == x {
            return Some(i);
        }
        i = i + 1;
    }
    None
}

/// `v` sorted by name: the same entries, names in nondecreasing order.
fn sort_by_name(v: Vec<(Symbol, PreludeEntity)>) -> (r: Vec<(Symbol, PreludeEntity)>)
    ensures
        r@.len() == v@.len(),
        forall|e: (Symbol, PreludeEntity)| r@.contains(e) == v@.contains(e),
        forall|i: int, j: int| 0 <= i < j < r@.len() ==> (#[trigger] r@[i]).0.0 <= (#[trigger] r@[j]).0.0,
{
    let mut s = v;
    let ghost v0 = v@;
    let mut i: usize = 0;
    while i < s.len()
        invariant
            i <= s@.len(),
            s@.len() == v0.len(),
            forall|e: (Symbol, PreludeEntity)| s@.contains(e) == v0.contains(e),
            forall|a: int, b: int| 0 <= a < b < i ==> (#[trigger] s@[a]).0.0 <= (#[trigger] s@[b]).0.0,
            forall|a: int, b: int| 0 <= a < i <= b < s@.len() ==> (#[trigger] s@[a]).0.0 <= (#[trigger] s@[b]).0.0,
        decreases s@.len() - i,
    {
        let mut m: usize = i;
        let mut j: usize = i + 1;
        while j < s.len()
            invariant
                i <= m < s@.len(),
                i < j <= s@.len(),
                forall|b: int| i <= b < j ==> s@[m as int].0.0 <= (#[trigger] s@[b]).0.0,
            decreases s@.len() - j,
        {
            if s[j].0.0 < s[m].0.0 {
                m = j;
            }
            j = j + 1;
        }
        let ghost s0 = s@;
        let a = s[i];
        let b = s[m];
        s.set(i, b);
        s.set(m, a);
        proof {
            assert forall|e: (Symbol, PreludeEntity)| s@.contains(e) == s0.contains(e) by {
                if s@.contains(e) {
                    let k = choose|k: int| 0 <= k < s@.len() && s@[k] == e;
                    let k2 = if k == i { m as int } else if k == m { i as int } else { k };
                    assert(s0[k2] == e);
                }
                if s0.contains(e) {
                    let k = choose|k: int| 0 <= k < s0.len() && s0[k] == e;
                    let k2 = if k == i { m as int } else if k == m { i as int } else { k };
                    assert(s@[k2] == e);
                }
            }
            assert forall|a: int, b: int| 0 <= a < i + 1 <= b < s@.len() implies (#[trigger] s@[a]).0.0
                <= (#[trigger] s@[b]).0.0 by {
                if a < i {
                    let b0 = if b == m { i as int } else { b };
                    assert(s0[a].0.0 <= s0[b0].0.0);
                } else {
                    let b0 = if b == m { i as int } else { b };
                    assert(s0[m as int].0.0 <= s0[b0].0.0);
                }
            }
            assert forall|a: int, b: int| 0 <= a < b < i + 1 implies (#[trigger] s@[a]).0.0 <= (#[trigger] s@[b]).0.0 by {
                if b < i {
                    assert(s0[a].0.0 <= s0[b].0.0);
                } else {
                    assert(s0[a].0.0 <= s0[m as int].0.0);
                }
            }
        }
        i = i + 1;
    }
    s
}

/// `v` without the later of two adjacent entries with one name: on a
/// sorted table, one entry per name.
fn dedup_by_name(v: &Vec<(Symbol, PreludeEntity)>) -> (r: Vec<(Symbol, PreludeEntity)>)
    requires
        forall|i: int, j: int| 0 <= i < j < v@.len() ==> (#[trigger] v@[i]).0.0 <= (#[trigger] v@[j]).0.0,
    ensures
        keys_increase(r@),
        forall|e: (Symbol, PreludeEntity)| r@.contains(e) ==> v@.contains(e),
        forall|k: int| 0 <= k < v@.len() ==> exists|q: int| 0 <= q < r@.len() && #[trigger] r@[q].0 == (#[trigger] v@[k]).0,
{
    let mut out: Vec<(Symbol, PreludeEntity)> = Vec::new();
    let ghost mut pos: Seq<int> = Seq::empty();
    let mut i: usize = 0;
    while i < v.len()
        invariant
            i <= v@.len(),
            forall|a: int, b: int| 0 <= a < b < v@.len() ==> (#[trigger] v@[a]).0.0 <= (#[trigger] v@[b]).0.0,
            keys_increase(out@),
            i > 0 ==> out@.len() > 0 && out@.last().0 == v@[i - 1].0,
            i == 0 ==> out@.len() == 0,
            forall|e: (Symbol, PreludeEntity)| out@.contains(e) ==> v@.contains(e),
            pos.len() == i,
            forall|k: int| 0 <= k < i ==> 0 <= #[trigger] pos[k] < out@.len() && out@[pos[k]].0 == v@[k].0,
        decreases v@.len() - i,
    {
        let e = v[i];
        let keep = out.len() == 0 || out[out.len() - 1].0.0 != e.0.0;
        let ghost o0 = out@;
        if keep {
            proof {
                if o0.len() > 0 {
                    assert(v@[i - 1].0.0 <= v@[i as int].0.0);
                    assert forall|a: int, b: int| 0 <= a < b < o0.len() + 1 implies (#[trigger] o0.push(e)[a]).0.0
                        < (#[trigger] o0.push(e)[b]).0.0 by {
                        if b == o0.len() {
                            if a < o0.len() - 1 {
                                assert(o0[a].0.0 < o0[o0.len() - 1].0.0);
                            }
                        } else {
                            assert(o0[a].0.0 < o0[b].0.0);
                        }
                    }
                }
            }
            out.push(e);
            proof {
                pos = pos.push(o0.len() as int);
                assert forall|f: (Symbol, PreludeEntity)| out@.contains(f) implies v@.contains(f) by {
                    let q = choose|q: int| 0 <= q < out@.len() && out@[q] == f;
                    if q < o0.len() {
                        assert(o0.contains(f));
                    } else {
                        assert(v@[i as int] == f);
                    }
                }
                assert forall|k: int| 0 <= k < i + 1 implies 0 <= #[trigger] pos[k] < out@.len() && out@[pos[k]].0
                    == v@[k].0 by {
                    if k < i {
                        assert(out@[pos[k]] == o0[pos[k]]);
                    }
                }
            }
        } else {
            proof {
                pos = pos.push(o0.len() - 1);
                assert forall|k: int| 0 <= k < i + 1 implies 0 <= #[trigger] pos[k] < out@.len() && out@[pos[k]].0
                    == v@[k].0 by {}
            }
        }
        i = i + 1;
    }
    proof {
        assert forall|k: int| 0 <= k < v@.len() implies exists|q: int| 0 <= q < out@.len() && #[trigger] out@[q].0
            == (#[trigger] v@[k]).0 by {
            assert(out@[pos[k]].0 == v@[k].0);
        }
    }
    out
}

/// Every table of `f` is well formed.
pub open spec fn fir_ok(f: &Fir) -> bool {
    &&& f.tys.wf()
    &&& f.keys.wf()
    &&& f.aligned()
    &&& f.sigs.generics_store.wf()
    &&& f.sigs.fn_sigs.wf()
    &&& f.sigs.member_store.wf()
    &&& f.sigs.assocs.wf()
    &&& f.sigs.bounds.wf()
}

/// Room for `k` more entries in every table of `f`.
pub open spec fn fir_room(f: &Fir, k: nat) -> bool {
    &&& f.tys.has_room_for(k)
    &&& f.keys.spec_keys().len() + k < u32::MAX
    &&& f.keys.spec_keys().len() + k < usize::MAX / 64
    &&& f.keys.spec_path_table().spec_paths().len() + k < u32::MAX
    &&& f.keys.spec_path_table().spec_paths().len() + k < usize::MAX / 64
    &&& f.sigs.spec_rows().len() + k < u32::MAX
    &&& f.sigs.generics_store.spec_params().len() + k < u32::MAX
    &&& f.sigs.generics_store.params_len() + k <= u32::MAX
    &&& f.sigs.fn_sigs.spec_params().len() + k < u32::MAX
    &&& f.sigs.fn_sigs.params_len() + k <= u32::MAX
    &&& f.sigs.member_store.spec_lists().len() + k < u32::MAX
    &&& f.sigs.member_store.members_len() + k <= u32::MAX
    &&& f.sigs.assocs.spec_lists().len() + k < u32::MAX
    &&& f.sigs.assocs.entries_len() + k <= u32::MAX
    &&& f.sigs.bounds@.len() + k < u32::MAX
    &&& f.sigs.bounds@.len() + k < usize::MAX / 64
    &&& f.sigs.bounds.items_len() + k <= u32::MAX
}

/// No table of `b` holds more than `k` entries beyond `a`'s, and what `a`'s
/// type store and pools held `b`'s still hold.
pub open spec fn fir_grew(a: &Fir, b: &Fir, k: nat) -> bool {
    &&& TyStore::grows(&a.tys, &b.tys)
    &&& TyStore::grew_at_most(&a.tys, &b.tys, k)
    &&& b.keys.spec_keys().len() <= a.keys.spec_keys().len() + k
    &&& b.keys.spec_path_table().spec_paths().len() <= a.keys.spec_path_table().spec_paths().len() + k
    &&& b.sigs.spec_rows().len() <= a.sigs.spec_rows().len() + k
    &&& b.sigs.generics_store.spec_params().len() <= a.sigs.generics_store.spec_params().len() + k
    &&& b.sigs.generics_store.params_len() <= a.sigs.generics_store.params_len() + k
    &&& b.sigs.fn_sigs.spec_params().len() <= a.sigs.fn_sigs.spec_params().len() + k
    &&& b.sigs.fn_sigs.params_len() <= a.sigs.fn_sigs.params_len() + k
    &&& b.sigs.member_store.spec_lists().len() <= a.sigs.member_store.spec_lists().len() + k
    &&& b.sigs.member_store.members_len() <= a.sigs.member_store.members_len() + k
    &&& b.sigs.assocs.spec_lists().len() <= a.sigs.assocs.spec_lists().len() + k
    &&& b.sigs.assocs.entries_len() <= a.sigs.assocs.entries_len() + k
    &&& b.sigs.bounds@.len() <= a.sigs.bounds@.len() + k
    &&& b.sigs.bounds.items_len() <= a.sigs.bounds.items_len() + k
}

/// Row `x` is the row of key `x`: what declaring into empty key and row
/// tables keeps.
pub open spec fn fresh_map(f: &Fir) -> bool {
    &&& f.sigs.spec_rows().len() == f.keys.spec_keys().len()
    &&& forall|k: DeclKeyId| #[trigger] f.defs.def_at(k) == if (k.0 as int) < f.keys.spec_keys().len() {
        DefId(k.0)
    } else {
        DefId(0xFFFF_FFFFu32)
    }
}

/// The key of a top-level prelude declaration.
pub open spec fn top_key(module: ModulePathId, kind: DeclKind, name: Symbol) -> DeclKey {
    DeclKey { parent: DeclKeyId(0xFFFF_FFFFu32), module, kind, name: Some(name), disamb: 0 }
}

/// Declares the top-level item `name` of `kind` in `module`.
fn decl(fir: &mut Fir, module: ModulePathId, kind: DeclKind, name: Symbol, sig: SigKind) -> (r: DefId)
    requires
        fir_ok(old(fir)),
        fir_room(old(fir), 1),
        fresh_map(old(fir)),
        !old(fir).keys.spec_keys().contains(top_key(module, kind, name)),
    ensures
        fir_ok(final(fir)),
        fresh_map(final(fir)),
        fir_grew(old(fir), final(fir), 1),
        final(fir).tys == old(fir).tys,
        final(fir).keys.spec_path_table() == old(fir).keys.spec_path_table(),
        final(fir).keys.spec_keys() == old(fir).keys.spec_keys().push(top_key(module, kind, name)),
        r.0 == old(fir).keys.spec_keys().len(),
        final(fir).sigs.spec_rows() == old(fir).sigs.spec_rows().push(empty_row(sig)),
        SigStore::same_pools(&old(fir).sigs, &final(fir).sigs),
{
    let key = fir.keys.intern(DeclKey { parent: no_decl_key(), module, kind, name: Some(name), disamb: 0 });
    proof {
        TyStore::lemma_grows_refl(&fir.tys);
    }
    fir.declare(key, sig)
}

/// Declares the language-known method `name` of the trait keyed `owner_key`.
fn method(
    fir: &mut Fir,
    module: ModulePathId,
    owner_key: DeclKeyId,
    name: Symbol,
    params: &[Param],
    result: TyId,
    receiver: bool,
    scoped: u8,
) -> (r: DefId)
    requires
        fir_ok(old(fir)),
        fir_room(old(fir), 4),
        fresh_map(old(fir)),
        params@.len() <= 2,
    ensures
        fir_ok(final(fir)),
        fresh_map(final(fir)),
        fir_grew(old(fir), final(fir), 2),
        final(fir).tys == old(fir).tys,
        final(fir).keys.spec_path_table() == old(fir).keys.spec_path_table(),
        old(fir).keys.spec_keys().len() <= final(fir).keys.spec_keys().len(),
        final(fir).keys.spec_keys().subrange(0, old(fir).keys.spec_keys().len() as int) == old(fir).keys.spec_keys(),
        r.0 < final(fir).keys.spec_keys().len(),
        final(fir).keys.spec_keys()[r.0 as int].kind == DeclKind::Fn,
        forall|x: int|
            old(fir).keys.spec_keys().len() <= x < final(fir).keys.spec_keys().len() ==> (#[trigger] final(fir).keys.spec_keys()[x]).kind
                == DeclKind::Fn,
        forall|x: int|
            0 <= x < old(fir).sigs.spec_rows().len() && old(fir).keys.spec_keys()[x].kind != DeclKind::Fn
                ==> #[trigger] final(fir).sigs.spec_rows()[x] == old(fir).sigs.spec_rows()[x],
        final(fir).sigs.generics_store == old(fir).sigs.generics_store,
        final(fir).sigs.member_store == old(fir).sigs.member_store,
        final(fir).sigs.assocs == old(fir).sigs.assocs,
        final(fir).sigs.bounds == old(fir).sigs.bounds,
{
    let ghost f0 = *fir;
    let key = fir.keys.intern(DeclKey { parent: owner_key, module, kind: DeclKind::Fn, name: Some(name), disamb: 0 });
    let ghost f1 = *fir;
    proof {
        TyStore::lemma_grows_refl(&fir.tys);
        if f0.keys.spec_keys().contains(f1.keys.spec_keys()[key.0 as int]) {
            let q = choose|q: int| 0 <= q < f0.keys.spec_keys().len() && f0.keys.spec_keys()[q] == f1.keys.spec_keys()[key.0 as int];
            f1.keys.lemma_keys_unique(q, key.0 as int);
        }
    }
    let def = fir.declare(key, SigKind::Fn);
    let sig = fir.sigs.fn_sigs.push(
        params,
        result,
        no_ty(),
        scoped,
        if receiver {
            0
        } else {
            NO_SLOT
        },
        (0xFFFF_FFFFu32, 0xFFFF_FFFFu32),
        0,
    );
    fir.sigs.set_fn_sig(def, sig);
    proof {
        assert(fir.keys.spec_keys().subrange(0, f0.keys.spec_keys().len() as int) =~= f0.keys.spec_keys());
    }
    def
}

/// The key of built-in generic type `i`.
pub open spec fn generic_key(module: ModulePathId, n: &PreludeNames, i: int) -> DeclKey {
    top_key(module, if i == 4 { DeclKind::Enum } else { DeclKind::Struct }, n.generics@[i])
}

/// The key of language-known trait `t`.
pub open spec fn trait_key(module: ModulePathId, n: &PreludeNames, t: int) -> DeclKey {
    top_key(module, DeclKind::Trait, n.traits@[t])
}

/// The row kind of built-in generic type `i`.
pub open spec fn generic_sig(i: int) -> SigKind {
    if i == 4 {
        SigKind::Enum
    } else {
        SigKind::Struct
    }
}

/// The parameters of built-in generic type `i`.
pub open spec fn generic_params(n: &PreludeNames, i: int, usize_ty: TyId) -> Seq<GParam> {
    Seq::new(
        spec_generic_arity(i) as nat,
        |o: int|
            GParam {
                name: if o == 0 {
                    n.type_param
                } else {
                    n.const_param
                },
                kind: spec_generic_param_kind(i, o, usize_ty),
                bounds: crate::fir::sig::TraitRefListId(0),
            },
    )
}

/// Distinct names are distinct symbols within each list of the table.
proof fn lemma_names_distinct(n: &PreludeNames)
    requires
        n.wf(),
    ensures
        forall|i: int, j: int| 0 <= i < j < 11 ==> n.generics@[i] != n.generics@[j],
        forall|i: int, j: int| 0 <= i < j < 21 ==> n.traits@[i] != n.traits@[j],
{
    let t = n.table_names();
    assert forall|i: int, j: int| 0 <= i < j < 11 implies n.generics@[i] != n.generics@[j] by {
        assert(t[16 + i] == n.generics@[i]);
        assert(t[16 + j] == n.generics@[j]);
    }
    assert forall|i: int, j: int| 0 <= i < j < 21 implies n.traits@[i] != n.traits@[j] by {
        assert(t[27 + i] == n.traits@[i]);
        assert(t[27 + j] == n.traits@[j]);
    }
}

/// The primitive scalars' types, in `PrimKind` order.
fn build_prims(fir: &mut Fir) -> (prims: Vec<TyId>)
    requires
        fir_ok(old(fir)),
        fir_room(old(fir), 20),
    ensures
        fir_ok(final(fir)),
        fir_grew(old(fir), final(fir), 15),
        final(fir).keys == old(fir).keys,
        final(fir).sigs == old(fir).sigs,
        final(fir).defs == old(fir).defs,
        prims@.len() == 15,
        forall|i: int|
            0 <= i < 15 ==> (#[trigger] prims@[i]).0 < final(fir).tys.spec_rows().len()
                && final(fir).tys.spec_rows()[prims@[i].0 as int] == plain(
                TyTag::Prim,
                spec_prim_kind(i).code() as u32,
                0,
            ),
{
    let ghost f0 = *fir;
    proof {
        TyStore::lemma_grows_refl(&fir.tys);
    }
    let mut prims: Vec<TyId> = Vec::new();
    let mut i: usize = 0;
    while i < 15
        invariant
            i <= 15,
            fir_ok(fir),
            fir_room(&f0, 20),
            fir_grew(&f0, fir, i as nat),
            fir.keys == f0.keys,
            fir.sigs == f0.sigs,
            fir.defs == f0.defs,
            prims@.len() == i,
            forall|j: int|
                0 <= j < i ==> (#[trigger] prims@[j]).0 < fir.tys.spec_rows().len()
                    && fir.tys.spec_rows()[prims@[j].0 as int] == plain(TyTag::Prim, spec_prim_kind(j).code() as u32, 0),
        decreases 15 - i,
    {
        let ghost t0 = fir.tys;
        let k = prim_kind(i);
        let t = fir.tys.prim(k);
        proof {
            crate::fir::ty::lemma_grows_trans(&f0.tys, &t0, &fir.tys);
            assert forall|j: int| 0 <= j < i implies (#[trigger] prims@[j]).0 < fir.tys.spec_rows().len()
                && fir.tys.spec_rows()[prims@[j].0 as int] == plain(TyTag::Prim, spec_prim_kind(j).code() as u32, 0) by {
                assert(fir.tys.spec_rows().subrange(0, t0.spec_rows().len() as int)[prims@[j].0 as int]
                    == fir.tys.spec_rows()[prims@[j].0 as int]);
            }
        }
        prims.push(t);
        i = i + 1;
    }
    prims
}

/// Declares the built-in generic types: type `i` is row `i` of empty
/// tables.
fn build_generic_decls(fir: &mut Fir, module: ModulePathId, n: &PreludeNames) -> (gs: Vec<DefId>)
    requires
        fir_ok(old(fir)),
        fir_room(old(fir), 11),
        fresh_map(old(fir)),
        old(fir).keys.spec_keys().len() == 0,
        n.wf(),
    ensures
        fir_ok(final(fir)),
        fresh_map(final(fir)),
        fir_grew(old(fir), final(fir), 11),
        final(fir).tys == old(fir).tys,
        final(fir).keys.spec_path_table() == old(fir).keys.spec_path_table(),
        final(fir).keys.spec_keys() == Seq::new(11, |i: int| generic_key(module, n, i)),
        final(fir).sigs.spec_rows() == Seq::new(11, |i: int| empty_row(generic_sig(i))),
        SigStore::same_pools(&old(fir).sigs, &final(fir).sigs),
        gs@ == Seq::new(11, |i: int| DefId(i as u32)),
{
    let ghost f0 = *fir;
    proof {
        TyStore::lemma_grows_refl(&fir.tys);
        lemma_names_distinct(n);
        assert(fir.keys.spec_keys() =~= Seq::new(0, |i: int| generic_key(module, n, i)));
        assert(fir.sigs.spec_rows() =~= Seq::new(0, |i: int| empty_row(generic_sig(i))));
    }
    let mut gs: Vec<DefId> = Vec::new();
    let mut i: usize = 0;
    while i < 11
        invariant
            i <= 11,
            n.wf(),
            forall|a: int, b: int| 0 <= a < b < 11 ==> n.generics@[a] != n.generics@[b],
            fir_ok(fir),
            fresh_map(fir),
            fir_room(&f0, 11),
            fir_grew(&f0, fir, i as nat),
            fir.tys == f0.tys,
            fir.keys.spec_path_table() == f0.keys.spec_path_table(),
            fir.keys.spec_keys() == Seq::new(i as nat, |j: int| generic_key(module, n, j)),
            fir.sigs.spec_rows() == Seq::new(i as nat, |j: int| empty_row(generic_sig(j))),
            SigStore::same_pools(&f0.sigs, &fir.sigs),
            gs@ == Seq::new(i as nat, |j: int| DefId(j as u32)),
        decreases 11 - i,
    {
        let ghost k0 = fir.keys.spec_keys();
        proof {
            if k0.contains(generic_key(module, n, i as int)) {
                let q = choose|q: int| 0 <= q < k0.len() && k0[q] == generic_key(module, n, i as int);
                assert(n.generics@[q] == n.generics@[i as int]);
            }
        }
        let kind = if i == OPTION {
            DeclKind::Enum
        } else {
            DeclKind::Struct
        };
        let sig = if i == OPTION {
            SigKind::Enum
        } else {
            SigKind::Struct
        };
        let ghost s0 = fir.sigs;
        let def = decl(fir, module, kind, n.generics[i], sig);
        proof {
            assert(fir.keys.spec_keys() =~= Seq::new((i + 1) as nat, |j: int| generic_key(module, n, j)));
            assert(fir.sigs.spec_rows() =~= Seq::new((i + 1) as nat, |j: int| empty_row(generic_sig(j))));
        }
        gs.push(def);
        proof {
            assert(gs@ =~= Seq::new((i + 1) as nat, |j: int| DefId(j as u32)));
        }
        i = i + 1;
    }
    gs
}

/// The shape of parameter `o` of built-in generic type `i`.
fn generic_param_kind(i: usize, o: u8, usize_ty: TyId) -> (r: GParamKind)
    ensures
        r == spec_generic_param_kind(i as int, o as int, usize_ty),
{
    if (i == ARRAY && o == 1) || (i == VECTOR && o == 1) || (i == MASK && o == 0) {
        GParamKind::Const { ty: usize_ty }
    } else if (i == OWN || i == REF || i == ARENA) && o == 1 {
        GParamKind::Brand
    } else {
        GParamKind::Type
    }
}

/// Gives each built-in generic type its parameters: a type parameter
/// unless the name says otherwise.
fn build_generic_params(fir: &mut Fir, n: &PreludeNames, usize_ty: TyId)
    requires
        fir_ok(old(fir)),
        fir_room(old(fir), 24),
        old(fir).sigs.spec_rows().len() >= 11,
    ensures
        fir_ok(final(fir)),
        fir_grew(old(fir), final(fir), 22),
        final(fir).tys == old(fir).tys,
        final(fir).keys == old(fir).keys,
        final(fir).defs == old(fir).defs,
        final(fir).sigs.fn_sigs == old(fir).sigs.fn_sigs,
        final(fir).sigs.member_store == old(fir).sigs.member_store,
        final(fir).sigs.assocs == old(fir).sigs.assocs,
        final(fir).sigs.bounds == old(fir).sigs.bounds,
        final(fir).sigs.spec_rows().len() == old(fir).sigs.spec_rows().len(),
        final(fir).sigs.generics_store.spec_params().len() == old(fir).sigs.generics_store.spec_params().len() + 11,
        final(fir).sigs.generics_store.spec_params().subrange(0, old(fir).sigs.generics_store.spec_params().len() as int)
            == old(fir).sigs.generics_store.spec_params(),
        forall|x: int|
            0 <= x < 11 ==> #[trigger] final(fir).sigs.spec_rows()[x] == (SigRow {
                generics: crate::fir::sig::GenericsId((old(fir).sigs.generics_store.spec_params().len() + x) as u32),
                ..old(fir).sigs.spec_rows()[x]
            }) && final(fir).sigs.generics_store.spec_params()[old(fir).sigs.generics_store.spec_params().len() + x]
                == generic_params(n, x, usize_ty),
        forall|x: int|
            11 <= x < old(fir).sigs.spec_rows().len() ==> #[trigger] final(fir).sigs.spec_rows()[x] == old(
                fir,
            ).sigs.spec_rows()[x],
{
    let ghost f0 = *fir;
    let ghost g0 = fir.sigs.generics_store.spec_params().len();
    proof {
        TyStore::lemma_grows_refl(&fir.tys);
        assert(fir.sigs.generics_store.spec_params().subrange(0, g0 as int) =~= f0.sigs.generics_store.spec_params());
    }
    let mut i: usize = 0;
    while i < 11
        invariant
            i <= 11,
            fir_ok(fir),
            fir_room(&f0, 24),
            fir_grew(&f0, fir, 2 * i as nat),
            g0 == f0.sigs.generics_store.spec_params().len(),
            fir.tys == f0.tys,
            fir.keys == f0.keys,
            fir.defs == f0.defs,
            fir.sigs.fn_sigs == f0.sigs.fn_sigs,
            fir.sigs.member_store == f0.sigs.member_store,
            fir.sigs.assocs == f0.sigs.assocs,
            fir.sigs.bounds == f0.sigs.bounds,
            fir.sigs.spec_rows().len() == f0.sigs.spec_rows().len(),
            f0.sigs.spec_rows().len() >= 11,
            fir.sigs.generics_store.spec_params().len() == g0 + i,
            fir.sigs.generics_store.spec_params().subrange(0, g0 as int) == f0.sigs.generics_store.spec_params(),
            forall|x: int|
                0 <= x < i ==> #[trigger] fir.sigs.spec_rows()[x] == (SigRow {
                    generics: crate::fir::sig::GenericsId((g0 + x) as u32),
                    ..f0.sigs.spec_rows()[x]
                }) && fir.sigs.generics_store.spec_params()[g0 + x] == generic_params(n, x, usize_ty),
            forall|x: int| i <= x < f0.sigs.spec_rows().len() ==> #[trigger] fir.sigs.spec_rows()[x] == f0.sigs.spec_rows()[x],
        decreases 11 - i,
    {
        let arity = generic_arity(i);
        let mut ps: Vec<GParam> = Vec::new();
        let mut o: u8 = 0;
        while o < arity
            invariant
                o <= arity,
                arity == spec_generic_arity(i as int),
                ps@ == generic_params(n, i as int, usize_ty).take(o as int),
            decreases arity - o,
        {
            let pname = if o == 0 {
                n.type_param
            } else {
                n.const_param
            };
            let kind = generic_param_kind(i, o, usize_ty);
            ps.push(GParam { name: pname, kind, bounds: no_bounds() });
            proof {
                assert(ps@ =~= generic_params(n, i as int, usize_ty).take(o + 1));
            }
            o = o + 1;
        }
        proof {
            assert(ps@ =~= generic_params(n, i as int, usize_ty));
        }
        let ghost s0 = fir.sigs;
        let g = fir.sigs.generics_store.push(ps.as_slice(), no_constraints());
        fir.sigs.set_generics(DefId(i as u32), g);
        proof {
            assert(fir.sigs.generics_store.spec_params().subrange(0, g0 as int) =~= s0.generics_store.spec_params().subrange(
                0,
                g0 as int,
            ));
            assert(fir.sigs.generics_store.spec_params()[g0 + i] == ps@);
            assert forall|x: int| 0 <= x < i + 1 implies #[trigger] fir.sigs.spec_rows()[x] == (SigRow {
                generics: crate::fir::sig::GenericsId((g0 + x) as u32),
                ..f0.sigs.spec_rows()[x]
            }) && fir.sigs.generics_store.spec_params()[g0 + x] == generic_params(n, x, usize_ty) by {
                if x < i {
                    assert(s0.spec_rows()[x] == (SigRow {
                        generics: crate::fir::sig::GenericsId((g0 + x) as u32),
                        ..f0.sigs.spec_rows()[x]
                    }));
                    assert(fir.sigs.generics_store.spec_params()[g0 + x] == s0.generics_store.spec_params()[g0 + x]);
                }
            }
        }
        i = i + 1;
    }
    proof {
        assert(fir.sigs.generics_store.spec_params().subrange(0, g0 as int) =~= f0.sigs.generics_store.spec_params());
    }
}

/// `Option[T]`'s variants: `some(T)` and `none`.
fn build_option(fir: &mut Fir, n: &PreludeNames, option: DefId)
    requires
        fir_ok(old(fir)),
        fir_room(old(fir), 8),
        option.0 < old(fir).sigs.spec_rows().len(),
    ensures
        fir_ok(final(fir)),
        fir_grew(old(fir), final(fir), 2),
        final(fir).keys == old(fir).keys,
        final(fir).defs == old(fir).defs,
        final(fir).sigs.generics_store == old(fir).sigs.generics_store,
        final(fir).sigs.fn_sigs == old(fir).sigs.fn_sigs,
        final(fir).sigs.assocs == old(fir).sigs.assocs,
        final(fir).sigs.bounds == old(fir).sigs.bounds,
        final(fir).sigs.spec_rows().len() == old(fir).sigs.spec_rows().len(),
        forall|x: int|
            0 <= x < old(fir).sigs.spec_rows().len() ==> (#[trigger] final(fir).sigs.spec_rows()[x]).kind == old(
                fir,
            ).sigs.spec_rows()[x].kind && final(fir).sigs.spec_rows()[x].generics == old(fir).sigs.spec_rows()[x].generics
                && final(fir).sigs.spec_rows()[x].assoc == old(fir).sigs.spec_rows()[x].assoc,
{
    let ghost f0 = *fir;
    let t0 = fir.tys.param(option, 0);
    let ghost t1 = fir.tys;
    let args = fir.tys.intern_args(&[t0]);
    proof {
        crate::fir::ty::lemma_grows_trans(&f0.tys, &t1, &fir.tys);
    }
    let vs = fir.sigs.member_store.push(&[Member::tuple_variant(n.some, args), Member::unit_variant(n.none)]);
    fir.sigs.set_members(option, vs);
    proof {
        assert forall|x: int| 0 <= x < f0.sigs.spec_rows().len() implies (#[trigger] fir.sigs.spec_rows()[x]).kind
            == f0.sigs.spec_rows()[x].kind && fir.sigs.spec_rows()[x].generics == f0.sigs.spec_rows()[x].generics
            && fir.sigs.spec_rows()[x].assoc == f0.sigs.spec_rows()[x].assoc by {}
    }
}

/// Declares the language-known traits: trait `t` is row `11 + t`; the
/// reserved last slot declares nothing and holds the absent id.
fn build_trait_decls(fir: &mut Fir, module: ModulePathId, n: &PreludeNames) -> (ts: Vec<DefId>)
    requires
        fir_ok(old(fir)),
        fir_room(old(fir), 21),
        fresh_map(old(fir)),
        old(fir).keys.spec_keys() == Seq::new(11, |i: int| generic_key(module, n, i)),
        n.wf(),
    ensures
        fir_ok(final(fir)),
        fresh_map(final(fir)),
        fir_grew(old(fir), final(fir), 21),
        final(fir).tys == old(fir).tys,
        final(fir).keys.spec_path_table() == old(fir).keys.spec_path_table(),
        final(fir).keys.spec_keys() == old(fir).keys.spec_keys() + Seq::new(21, |t: int| trait_key(module, n, t)),
        final(fir).sigs.spec_rows() == old(fir).sigs.spec_rows() + Seq::new(21, |t: int| empty_row(SigKind::Trait)),
        SigStore::same_pools(&old(fir).sigs, &final(fir).sigs),
        ts@ == Seq::new(21, |t: int| DefId((11 + t) as u32)).push(DefId(0xFFFF_FFFFu32)),
{
    let ghost f0 = *fir;
    let ghost k0 = fir.keys.spec_keys();
    let ghost r0 = fir.sigs.spec_rows();
    proof {
        TyStore::lemma_grows_refl(&fir.tys);
        lemma_names_distinct(n);
        assert(fir.keys.spec_keys() =~= k0 + Seq::new(0, |t: int| trait_key(module, n, t)));
        assert(fir.sigs.spec_rows() =~= r0 + Seq::new(0, |t: int| empty_row(SigKind::Trait)));
    }
    let mut ts: Vec<DefId> = Vec::new();
    let mut t: usize = 0;
    while t < 21
        invariant
            t <= 21,
            n.wf(),
            forall|a: int, b: int| 0 <= a < b < 21 ==> n.traits@[a] != n.traits@[b],
            fir_ok(fir),
            fresh_map(fir),
            fir_room(&f0, 21),
            fir_grew(&f0, fir, t as nat),
            fir.tys == f0.tys,
            fir.keys.spec_path_table() == f0.keys.spec_path_table(),
            k0 == Seq::new(11, |i: int| generic_key(module, n, i)),
            r0.len() == 11,
            fir.keys.spec_keys() == k0 + Seq::new(t as nat, |j: int| trait_key(module, n, j)),
            fir.sigs.spec_rows() == r0 + Seq::new(t as nat, |j: int| empty_row(SigKind::Trait)),
            SigStore::same_pools(&f0.sigs, &fir.sigs),
            ts@ == Seq::new(t as nat, |j: int| DefId((11 + j) as u32)),
        decreases 21 - t,
    {
        let ghost kk = fir.keys.spec_keys();
        proof {
            if kk.contains(trait_key(module, n, t as int)) {
                let q = choose|q: int| 0 <= q < kk.len() && kk[q] == trait_key(module, n, t as int);
                if q >= 11 {
                    assert(n.traits@[q - 11] == n.traits@[t as int]);
                } else {
                    assert(kk[q] == generic_key(module, n, q));
                }
            }
        }
        let def = decl(fir, module, DeclKind::Trait, n.traits[t], SigKind::Trait);
        proof {
            assert(fir.keys.spec_keys() =~= k0 + Seq::new((t + 1) as nat, |j: int| trait_key(module, n, j)));
            assert(fir.sigs.spec_rows() =~= r0 + Seq::new((t + 1) as nat, |j: int| empty_row(SigKind::Trait)));
        }
        ts.push(def);
        proof {
            assert(ts@ =~= Seq::new((t + 1) as nat, |j: int| DefId((11 + j) as u32)));
        }
        t = t + 1;
    }
    ts.push(no_def());
    ts
}

/// Gives each language-known trait its parameter list `[Self, P1, ..]`:
/// `Self`'s one bound is the trait itself with its own parameters.
fn build_trait_params(fir: &mut Fir, n: &PreludeNames)
    requires
        fir_ok(old(fir)),
        fir_room(old(fir), 140),
        old(fir).sigs.spec_rows().len() >= 32,
    ensures
        fir_ok(final(fir)),
        fir_grew(old(fir), final(fir), 126),
        final(fir).keys == old(fir).keys,
        final(fir).defs == old(fir).defs,
        final(fir).sigs.fn_sigs == old(fir).sigs.fn_sigs,
        final(fir).sigs.member_store == old(fir).sigs.member_store,
        final(fir).sigs.assocs == old(fir).sigs.assocs,
        final(fir).sigs.spec_rows().len() == old(fir).sigs.spec_rows().len(),
        final(fir).sigs.generics_store.spec_params().len() == old(fir).sigs.generics_store.spec_params().len() + 21,
        final(fir).sigs.generics_store.spec_params().subrange(0, old(fir).sigs.generics_store.spec_params().len() as int)
            == old(fir).sigs.generics_store.spec_params(),
        forall|t: int|
            0 <= t < 21 ==> #[trigger] final(fir).sigs.spec_rows()[11 + t] == (SigRow {
                generics: crate::fir::sig::GenericsId((old(fir).sigs.generics_store.spec_params().len() + t) as u32),
                ..old(fir).sigs.spec_rows()[11 + t]
            }) && final(fir).sigs.generics_store.spec_params()[old(fir).sigs.generics_store.spec_params().len() + t].len()
                == spec_trait_arity(t) + 1,
        forall|x: int|
            0 <= x < old(fir).sigs.spec_rows().len() && !(11 <= x < 32) ==> #[trigger] final(fir).sigs.spec_rows()[x]
                == old(fir).sigs.spec_rows()[x],
{
    let ghost f0 = *fir;
    let ghost g0 = fir.sigs.generics_store.spec_params().len();
    proof {
        TyStore::lemma_grows_refl(&fir.tys);
        assert(fir.sigs.generics_store.spec_params().subrange(0, g0 as int) =~= f0.sigs.generics_store.spec_params());
    }
    let mut t: usize = 0;
    while t < 21
        invariant
            t <= 21,
            fir_ok(fir),
            fir_room(&f0, 140),
            fir_grew(&f0, fir, 6 * t as nat),
            g0 == f0.sigs.generics_store.spec_params().len(),
            fir.keys == f0.keys,
            fir.defs == f0.defs,
            fir.sigs.fn_sigs == f0.sigs.fn_sigs,
            fir.sigs.member_store == f0.sigs.member_store,
            fir.sigs.assocs == f0.sigs.assocs,
            fir.sigs.spec_rows().len() == f0.sigs.spec_rows().len(),
            f0.sigs.spec_rows().len() >= 32,
            fir.sigs.generics_store.spec_params().len() == g0 + t,
            fir.sigs.generics_store.spec_params().subrange(0, g0 as int) == f0.sigs.generics_store.spec_params(),
            forall|u: int|
                0 <= u < t ==> #[trigger] fir.sigs.spec_rows()[11 + u] == (SigRow {
                    generics: crate::fir::sig::GenericsId((g0 + u) as u32),
                    ..f0.sigs.spec_rows()[11 + u]
                }) && fir.sigs.generics_store.spec_params()[g0 + u].len() == spec_trait_arity(u) + 1,
            forall|x: int|
                0 <= x < f0.sigs.spec_rows().len() && !(11 <= x < 11 + t) ==> #[trigger] fir.sigs.spec_rows()[x]
                    == f0.sigs.spec_rows()[x],
        decreases 21 - t,
    {
        let ghost fa = *fir;
        proof {
            TyStore::lemma_grows_refl(&fir.tys);
        }
        let def = DefId((11 + t) as u32);
        let arity = trait_arity(t);
        let mut own_args: Vec<TyId> = Vec::new();
        let mut o: u8 = 0;
        while o < arity
            invariant
                o <= arity,
                arity <= 1,
                t < 21,
                fir.tys.wf(),
                fir_ok(&fa),
                fir.sigs == fa.sigs,
                fir.keys == fa.keys,
                fir.defs == fa.defs,
                fir_room(&f0, 140),
                fir_grew(&f0, &fa, 6 * t as nat),
                TyStore::grows(&fa.tys, &fir.tys),
                TyStore::grew_at_most(&fa.tys, &fir.tys, o as nat),
                own_args@.len() == o,
            decreases arity - o,
        {
            let ghost t1 = fir.tys;
            let p = fir.tys.param(def, (o + 1) as u16);
            proof {
                crate::fir::ty::lemma_grows_trans(&fa.tys, &t1, &fir.tys);
            }
            own_args.push(p);
            o = o + 1;
        }
        let ghost t2 = fir.tys;
        let a = fir.tys.intern_args(own_args.as_slice());
        let ghost t3 = fir.tys;
        let tr = fir.tys.intern_trait_ref(def, a);
        proof {
            crate::fir::ty::lemma_grows_trans(&fa.tys, &t2, &t3);
            crate::fir::ty::lemma_grows_trans(&fa.tys, &t3, &fir.tys);
            crate::fir::ty::lemma_grows_trans(&f0.tys, &fa.tys, &fir.tys);
        }
        let one = [tr];
        proof {
            one@.lemma_cardinality_of_set();
        }
        let self_bounds = fir.sigs.bounds.intern(&one);
        let mut ps: Vec<GParam> = Vec::new();
        ps.push(GParam { name: n.receiver, kind: GParamKind::Type, bounds: self_bounds });
        let mut o2: u8 = 0;
        while o2 < arity
            invariant
                o2 <= arity,
                ps@.len() == 1 + o2,
            decreases arity - o2,
        {
            let pname = if o2 == 0 {
                n.first_param
            } else {
                n.second_param
            };
            ps.push(GParam { name: pname, kind: GParamKind::Type, bounds: no_bounds() });
            o2 = o2 + 1;
        }
        let ghost s0 = fir.sigs;
        let g = fir.sigs.generics_store.push(ps.as_slice(), no_constraints());
        fir.sigs.set_generics(def, g);
        proof {
            assert(fir.sigs.generics_store.spec_params().subrange(0, g0 as int) =~= s0.generics_store.spec_params().subrange(
                0,
                g0 as int,
            ));
            assert forall|u: int| 0 <= u < t + 1 implies #[trigger] fir.sigs.spec_rows()[11 + u] == (SigRow {
                generics: crate::fir::sig::GenericsId((g0 + u) as u32),
                ..f0.sigs.spec_rows()[11 + u]
            }) && fir.sigs.generics_store.spec_params()[g0 + u].len() == spec_trait_arity(u) + 1 by {
                if u < t {
                    assert(s0.spec_rows()[11 + u] == (SigRow {
                        generics: crate::fir::sig::GenericsId((g0 + u) as u32),
                        ..f0.sigs.spec_rows()[11 + u]
                    }));
                    assert(fir.sigs.generics_store.spec_params()[g0 + u] == s0.generics_store.spec_params()[g0 + u]);
                } else {
                    assert(s0.spec_rows()[11 + u] == f0.sigs.spec_rows()[11 + u]);
                }
            }
            assert forall|x: int|
                0 <= x < f0.sigs.spec_rows().len() && !(11 <= x < 11 + t + 1) implies #[trigger] fir.sigs.spec_rows()[x]
                == f0.sigs.spec_rows()[x] by {
                assert(s0.spec_rows()[x] == f0.sigs.spec_rows()[x]);
            }
        }
        t = t + 1;
    }
    proof {
        assert(fir.sigs.generics_store.spec_params().subrange(0, g0 as int) =~= f0.sigs.generics_store.spec_params());
    }
}

/// What the language-known items of one trait keep: the type store and the
/// key table only grow, every new key is a method's, and a row whose key is
/// not a method's keeps its kind and its parameters.
pub open spec fn items_frame(a: &Fir, b: &Fir) -> bool {
    &&& a.keys.spec_keys().len() <= b.keys.spec_keys().len()
    &&& b.keys.spec_keys().subrange(0, a.keys.spec_keys().len() as int) == a.keys.spec_keys()
    &&& forall|x: int|
        a.keys.spec_keys().len() <= x < b.keys.spec_keys().len() ==> (#[trigger] b.keys.spec_keys()[x]).kind
            == DeclKind::Fn
    &&& b.keys.spec_path_table() == a.keys.spec_path_table()
    &&& a.sigs.spec_rows().len() <= b.sigs.spec_rows().len()
    &&& forall|x: int|
        0 <= x < a.sigs.spec_rows().len() && a.keys.spec_keys()[x].kind != DeclKind::Fn ==> (#[trigger] b.sigs.spec_rows()[x]).kind
            == a.sigs.spec_rows()[x].kind && b.sigs.spec_rows()[x].generics == a.sigs.spec_rows()[x].generics
    &&& b.sigs.generics_store == a.sigs.generics_store
    &&& b.sigs.member_store == a.sigs.member_store
}

proof fn lemma_items_frame_refl(a: &Fir)
    requires
        fresh_map(a),
    ensures
        items_frame(a, a),
{
    assert(a.keys.spec_keys().subrange(0, a.keys.spec_keys().len() as int) =~= a.keys.spec_keys());
}

proof fn lemma_items_frame_trans(a: &Fir, b: &Fir, c: &Fir)
    requires
        fresh_map(a),
        fresh_map(b),
        items_frame(a, b),
        items_frame(b, c),
    ensures
        items_frame(a, c),
{
    let la = a.keys.spec_keys().len() as int;
    let lb = b.keys.spec_keys().len() as int;
    assert(c.keys.spec_keys().subrange(0, la) =~= b.keys.spec_keys().subrange(0, la));
    assert forall|x: int| la <= x < c.keys.spec_keys().len() implies (#[trigger] c.keys.spec_keys()[x]).kind
        == DeclKind::Fn by {
        if x < lb {
            assert(c.keys.spec_keys().subrange(0, lb)[x] == b.keys.spec_keys()[x]);
        }
    }
    assert forall|x: int|
        0 <= x < a.sigs.spec_rows().len() && a.keys.spec_keys()[x].kind != DeclKind::Fn implies (#[trigger] c.sigs.spec_rows()[x]).kind
        == a.sigs.spec_rows()[x].kind && c.sigs.spec_rows()[x].generics == a.sigs.spec_rows()[x].generics by {
        assert(b.keys.spec_keys().subrange(0, la)[x] == b.keys.spec_keys()[x]);
        assert(b.sigs.spec_rows()[x].kind == a.sigs.spec_rows()[x].kind);
    }
}

/// A binary operator trait's method position, if trait `t` is one.
fn binary_method(t: usize) -> (r: Option<usize>)
    ensures
        r matches Some(m) ==> m < 10,
        r is Some <==> (t < 5 || (6 <= t && t <= 10)),
{
    if t < 5 {
        Some(t)
    } else if 6 <= t && t <= 10 {
        Some(t - 1)
    } else {
        None
    }
}

/// The language-known items of trait `t` (row `def`, key `key`): its
/// methods' rows, its associated types, and the members listing them.
fn trait_items(
    fir: &mut Fir,
    module: ModulePathId,
    n: &PreludeNames,
    t: usize,
    def: DefId,
    key: DeclKeyId,
    option: DefId,
    bool_ty: TyId,
    droppable: DefId,
    index_trait: DefId,
) -> (ms: Vec<Member>)
    requires
        fir_ok(old(fir)),
        fresh_map(old(fir)),
        fir_room(old(fir), 24),
        def.0 < old(fir).sigs.spec_rows().len(),
        bool_ty.0 < old(fir).tys.spec_rows().len(),
        n.methods@.len() == 18,
    ensures
        fir_ok(final(fir)),
        fresh_map(final(fir)),
        fir_grew(old(fir), final(fir), 16),
        items_frame(old(fir), final(fir)),
        ms@.len() <= 2,
{
    let ghost f0 = *fir;
    proof {
        TyStore::lemma_grows_refl(&fir.tys);
        lemma_items_frame_refl(&f0);
    }
    let self_ty = fir.tys.param(def, 0);
    let ghost f1 = *fir;
    proof {
        lemma_items_frame_refl(&f1);
        assert(items_frame(&f0, &f1));
        assert(fir.tys.spec_rows().subrange(0, f0.tys.spec_rows().len() as int)[bool_ty.0 as int]
            == fir.tys.spec_rows()[bool_ty.0 as int]);
    }
    let mut ms: Vec<Member> = Vec::new();
    match binary_method(t) {
        Some(m) => {
            let mn = n.methods[m];
            let ps = [
                Param { name: n.receiver, conv: Conv::Let, ty: self_ty },
                Param { name: n.rhs, conv: Conv::Let, ty: self_ty },
            ];
            let d = method(fir, module, key, mn, &ps, self_ty, true, NO_SLOT);
            ms.push(Member::item(mn, VIS_PUBLIC, d));
            proof {
                lemma_items_frame_trans(&f0, &f1, fir);
            }
        },
        None => {},
    }
    let ghost f2 = *fir;
    proof {
        lemma_items_frame_refl(&f2);
    }
    if t == NEG {
        let mn = n.methods[M_NEG];
        let ps = [Param { name: n.receiver, conv: Conv::Let, ty: self_ty }];
        let d = method(fir, module, key, mn, &ps, self_ty, true, NO_SLOT);
        ms.push(Member::item(mn, VIS_PUBLIC, d));
    } else if t == EQ {
        let mn = n.methods[M_EQ];
        let ps = [
            Param { name: n.receiver, conv: Conv::Let, ty: self_ty },
            Param { name: n.rhs, conv: Conv::Let, ty: self_ty },
        ];
        let d = method(fir, module, key, mn, &ps, bool_ty, true, NO_SLOT);
        ms.push(Member::item(mn, VIS_PUBLIC, d));
    } else if t == ORD {
        let mn = n.methods[M_LT];
        let ps = [
            Param { name: n.receiver, conv: Conv::Let, ty: self_ty },
            Param { name: n.rhs, conv: Conv::Let, ty: self_ty },
        ];
        let d = method(fir, module, key, mn, &ps, bool_ty, true, NO_SLOT);
        ms.push(Member::item(mn, VIS_PUBLIC, d));
        let ghost f3 = *fir;
        let mn2 = n.methods[M_LE];
        let d2 = method(fir, module, key, mn2, &ps, bool_ty, true, NO_SLOT);
        ms.push(Member::item(mn2, VIS_PUBLIC, d2));
        proof {
            lemma_items_frame_trans(&f2, &f3, fir);
        }
    } else if t == ITERATOR {
        let ghost ta = fir.tys;
        let dr = fir.tys.intern_trait_ref(droppable, no_args());
        let one = [dr];
        proof {
            one@.lemma_cardinality_of_set();
        }
        let bounds = fir.sigs.bounds.intern(&one);
        let a = fir.sigs.assocs.push(&[Assoc { name: n.item, bounds, rhs: no_ty() }]);
        fir.sigs.set_assoc(def, a);
        let ghost tb = fir.tys;
        proof {
            assert(fir.tys.spec_rows().subrange(0, f1.tys.spec_rows().len() as int)[self_ty.0 as int]
                == fir.tys.spec_rows()[self_ty.0 as int]);
        }
        let item = fir.tys.proj_of(self_ty, def, &[], n.item);
        let ghost tc = fir.tys;
        let opt = fir.tys.nominal_of(option, &[item]);
        proof {
            crate::fir::ty::lemma_grows_trans(&ta, &tb, &tc);
            crate::fir::ty::lemma_grows_trans(&ta, &tc, &fir.tys);
            crate::fir::ty::lemma_grows_trans(&f0.tys, &ta, &fir.tys);
            lemma_items_frame_refl(fir);
        }
        let ghost f3 = *fir;
        let mn = n.methods[M_NEXT];
        let ps = [Param { name: n.receiver, conv: Conv::Inout, ty: self_ty }];
        let d = method(fir, module, key, mn, &ps, opt, true, NO_SLOT);
        ms.push(Member::item(mn, VIS_PUBLIC, d));
        proof {
            assert(items_frame(&f2, &f3));
            lemma_items_frame_trans(&f2, &f3, fir);
        }
    } else if t == INDEX || t == INDEXMUT {
        let ghost ta = fir.tys;
        if t == INDEX {
            let a = fir.sigs.assocs.push(&[Assoc { name: n.output, bounds: no_bounds(), rhs: no_ty() }]);
            fir.sigs.set_assoc(def, a);
        }
        let i_ty = fir.tys.param(def, 1);
        let ghost tb = fir.tys;
        proof {
            assert(fir.tys.spec_rows().subrange(0, f1.tys.spec_rows().len() as int)[self_ty.0 as int]
                == fir.tys.spec_rows()[self_ty.0 as int]);
        }
        let tr_def = if t == INDEX {
            def
        } else {
            index_trait
        };
        let out = fir.tys.proj_of(self_ty, tr_def, &[i_ty], n.output);
        proof {
            crate::fir::ty::lemma_grows_trans(&ta, &tb, &fir.tys);
            crate::fir::ty::lemma_grows_trans(&f0.tys, &ta, &fir.tys);
            lemma_items_frame_refl(fir);
        }
        let ghost f3 = *fir;
        let (mn, conv) = if t == INDEX {
            (n.methods[M_AT], Conv::Let)
        } else {
            (n.methods[M_AT_MUT], Conv::Inout)
        };
        let ps = [Param { name: n.receiver, conv, ty: self_ty }, Param { name: n.index, conv: Conv::Let, ty: i_ty }];
        let d = method(fir, module, key, mn, &ps, out, true, 0);
        ms.push(Member::item(mn, VIS_PUBLIC, d));
        proof {
            assert(items_frame(&f2, &f3));
            lemma_items_frame_trans(&f2, &f3, fir);
        }
    } else if t == ERRORFROM {
        let ghost ta = fir.tys;
        let e_ty = fir.tys.param(def, 1);
        proof {
            crate::fir::ty::lemma_grows_trans(&f0.tys, &ta, &fir.tys);
            lemma_items_frame_refl(fir);
        }
        let ghost f3 = *fir;
        let mn = n.methods[M_FROM];
        let ps = [Param { name: n.error, conv: Conv::Let, ty: e_ty }];
        let d = method(fir, module, key, mn, &ps, self_ty, false, NO_SLOT);
        ms.push(Member::item(mn, VIS_PUBLIC, d));
        proof {
            assert(items_frame(&f2, &f3));
            lemma_items_frame_trans(&f2, &f3, fir);
        }
    }
    proof {
        lemma_items_frame_trans(&f0, &f2, fir);
    }
    ms
}

/// The language-known items of every trait, then each trait's member list.
fn build_trait_items(
    fir: &mut Fir,
    module: ModulePathId,
    n: &PreludeNames,
    traits: &Vec<DefId>,
    option: DefId,
    bool_ty: TyId,
)
    requires
        fir_ok(old(fir)),
        fresh_map(old(fir)),
        fir_room(old(fir), 420),
        traits@ == Seq::new(21, |t: int| DefId((11 + t) as u32)).push(DefId(0xFFFF_FFFFu32)),
        old(fir).sigs.spec_rows().len() >= 32,
        bool_ty.0 < old(fir).tys.spec_rows().len(),
        n.methods@.len() == 18,
    ensures
        fir_ok(final(fir)),
        fresh_map(final(fir)),
        fir_grew(old(fir), final(fir), 400),
        old(fir).keys.spec_keys().len() <= final(fir).keys.spec_keys().len(),
        final(fir).keys.spec_keys().subrange(0, old(fir).keys.spec_keys().len() as int) == old(fir).keys.spec_keys(),
        final(fir).keys.spec_path_table() == old(fir).keys.spec_path_table(),
        final(fir).sigs.generics_store == old(fir).sigs.generics_store,
        forall|x: int|
            0 <= x < old(fir).sigs.spec_rows().len() && old(fir).keys.spec_keys()[x].kind != DeclKind::Fn ==> (
            #[trigger] final(fir).sigs.spec_rows()[x]).kind == old(fir).sigs.spec_rows()[x].kind
                && final(fir).sigs.spec_rows()[x].generics == old(fir).sigs.spec_rows()[x].generics,
{
    let ghost f0 = *fir;
    proof {
        TyStore::lemma_grows_refl(&fir.tys);
        lemma_items_frame_refl(&f0);
    }
    let mut items: Vec<(usize, Vec<Member>)> = Vec::new();
    let mut i: usize = 0;
    while i < 22
        invariant
            i <= 22,
            fir_ok(fir),
            fresh_map(fir),
            fresh_map(&f0),
            fir_room(&f0, 420),
            fir_grew(&f0, fir, 16 * i as nat),
            items_frame(&f0, fir),
            traits@ == Seq::new(21, |t: int| DefId((11 + t) as u32)).push(DefId(0xFFFF_FFFFu32)),
            f0.sigs.spec_rows().len() >= 32,
            bool_ty.0 < f0.tys.spec_rows().len(),
            n.methods@.len() == 18,
            items@.len() <= i,
            forall|q: int| 0 <= q < items@.len() ==> (#[trigger] items@[q]).0 < 21 && items@[q].1@.len() <= 2,
        decreases 22 - i,
    {
        if traits[i] != no_def() {
            let def = traits[i];
            let key = fir.defs.key_of(def);
            let ghost fa = *fir;
            proof {
                assert(fir.tys.spec_rows().subrange(0, f0.tys.spec_rows().len() as int)[bool_ty.0 as int]
                    == fir.tys.spec_rows()[bool_ty.0 as int]);
            }
            let ms = trait_items(fir, module, n, i, def, key, option, bool_ty, traits[DROPPABLE], traits[INDEX]);
            proof {
                crate::fir::ty::lemma_grows_trans(&f0.tys, &fa.tys, &fir.tys);
                lemma_items_frame_trans(&f0, &fa, fir);
            }
            items.push((i, ms));
        }
        i = i + 1;
    }
    let ghost f1 = *fir;
    let mut q: usize = 0;
    while q < items.len()
        invariant
            q <= items@.len(),
            items@.len() <= 22,
            forall|r: int| 0 <= r < items@.len() ==> (#[trigger] items@[r]).0 < 21 && items@[r].1@.len() <= 2,
            traits@ == Seq::new(21, |t: int| DefId((11 + t) as u32)).push(DefId(0xFFFF_FFFFu32)),
            fir_ok(fir),
            fresh_map(fir),
            fir_room(&f0, 420),
            fir_grew(&f0, &f1, 352),
            TyStore::grows(&f0.tys, &fir.tys),
            fir.tys == f1.tys,
            fir.keys == f1.keys,
            fir.defs == f1.defs,
            fir.sigs.generics_store == f1.sigs.generics_store,
            fir.sigs.fn_sigs == f1.sigs.fn_sigs,
            fir.sigs.assocs == f1.sigs.assocs,
            fir.sigs.bounds == f1.sigs.bounds,
            fir.sigs.spec_rows().len() == f1.sigs.spec_rows().len(),
            f1.sigs.spec_rows().len() >= 32,
            fir.sigs.member_store.spec_lists().len() <= f1.sigs.member_store.spec_lists().len() + q,
            fir.sigs.member_store.members_len() <= f1.sigs.member_store.members_len() + 2 * q,
            forall|x: int|
                0 <= x < f1.sigs.spec_rows().len() ==> (#[trigger] fir.sigs.spec_rows()[x]).kind == f1.sigs.spec_rows()[x].kind
                    && fir.sigs.spec_rows()[x].generics == f1.sigs.spec_rows()[x].generics,
        decreases items@.len() - q,
    {
        let entry = &items[q];
        if entry.1.len() > 0 {
            let ghost s0 = fir.sigs;
            let l = fir.sigs.member_store.push(entry.1.as_slice());
            fir.sigs.set_members(traits[entry.0], l);
            proof {
                assert forall|x: int| 0 <= x < f1.sigs.spec_rows().len() implies (#[trigger] fir.sigs.spec_rows()[x]).kind
                    == f1.sigs.spec_rows()[x].kind && fir.sigs.spec_rows()[x].generics == f1.sigs.spec_rows()[x].generics by {
                    assert(s0.spec_rows()[x].kind == f1.sigs.spec_rows()[x].kind);
                }
            }
        }
        q = q + 1;
    }
}

proof fn lemma_fir_grew_trans(a: &Fir, b: &Fir, c: &Fir, k1: nat, k2: nat)
    requires
        fir_grew(a, b, k1),
        fir_grew(b, c, k2),
    ensures
        fir_grew(a, c, k1 + k2),
{
    crate::fir::ty::lemma_grows_trans(&a.tys, &b.tys, &c.tys);
}

/// The names of the lookup table's entries are the table names, in order.
proof fn lemma_entry_names(n: &PreludeNames, prims: Seq<TyId>, generics: Seq<DefId>, traits: Seq<DefId>)
    requires
        n.wf(),
    ensures
        spec_entries(n, prims, generics, traits).len() == 56,
        forall|k: int| 0 <= k < 56 ==> #[trigger] spec_entries(n, prims, generics, traits)[k].0 == n.table_names()[k],
{
    let e = spec_entries(n, prims, generics, traits);
    let t = n.table_names();
    assert forall|k: int| 0 <= k < 56 implies #[trigger] e[k].0 == t[k] by {
        if k < 15 {
        } else if k < 16 {
        } else if k < 27 {
        } else if k < 48 {
        } else {
        }
    }
}

/// Builds every prelude row into `fir`. Runs once per build, before any
/// user declaration is lowered, so prelude ids are the lowest rows and are
/// reproducible: the key and signature tables start empty.
pub fn build(fir: &mut Fir, names: &PreludeNames) -> (p: PreludeDefs)
    requires
        fir_ok(old(fir)),
        fir_room(old(fir), 1024),
        old(fir).keys.spec_keys().len() == 0,
        old(fir).sigs.spec_rows().len() == 0,
        forall|k: DeclKeyId| #[trigger] old(fir).defs.def_at(k) == DefId(0xFFFF_FFFFu32),
        names.wf(),
    ensures
        fir_ok(final(fir)),
        fir_grew(old(fir), final(fir), 1000),
        p.wf(),
        p.spec_module().0 < final(fir).keys.spec_path_table().spec_paths().len(),
        final(fir).keys.spec_path_table().spec_paths()[p.spec_module().0 as int] == seq![names.module],
        p.prims@.len() == 15,
        forall|i: int|
            0 <= i < 15 ==> (#[trigger] p.prims@[i]).0 < final(fir).tys.spec_rows().len()
                && final(fir).tys.spec_rows()[p.prims@[i].0 as int] == plain(
                TyTag::Prim,
                spec_prim_kind(i).code() as u32,
                0,
            ),
        p.generics@.len() == 11,
        p.option == p.generics@[4],
        forall|i: int|
            0 <= i < 11 ==> {
                let row = final(fir).sigs.spec_rows()[(#[trigger] p.generics@[i]).0 as int];
                &&& p.generics@[i].0 < final(fir).sigs.spec_rows().len()
                &&& row.kind == generic_sig(i)
                &&& row.generics.0 < final(fir).sigs.generics_store.spec_params().len()
                &&& final(fir).sigs.generics_store.spec_params()[row.generics.0 as int] == generic_params(
                    names,
                    i,
                    p.prims@[9],
                )
            },
        p.traits@.len() == 22,
        p.traits@[21] == DefId(0xFFFF_FFFFu32),
        forall|t: int|
            0 <= t < 21 ==> {
                let row = final(fir).sigs.spec_rows()[(#[trigger] p.traits@[t]).0 as int];
                &&& p.traits@[t].0 < final(fir).sigs.spec_rows().len()
                &&& row.kind == SigKind::Trait
                &&& row.generics.0 < final(fir).sigs.generics_store.spec_params().len()
                &&& final(fir).sigs.generics_store.spec_params()[row.generics.0 as int].len() == spec_trait_arity(t) + 1
            },
        forall|e: (Symbol, PreludeEntity)|
            p.spec_table().contains(e) <==> spec_entries(names, p.prims@, p.generics@, p.traits@).contains(e),
        p.item_name == names.item,
        p.output_name == names.output,
        p.self_name == names.self_type,
{
    let ghost f0 = *fir;
    let module = fir.keys.intern_path(&[names.module]);
    let ghost f1 = *fir;
    proof {
        TyStore::lemma_grows_refl(&fir.tys);
        assert(fir_grew(&f0, &f1, 1));
        assert(fresh_map(&f1));
    }
    let prims = build_prims(fir);
    let ghost f2 = *fir;
    proof {
        lemma_fir_grew_trans(&f0, &f1, &f2, 1, 15);
    }
    let gs = build_generic_decls(fir, module, names);
    let ghost f3 = *fir;
    proof {
        lemma_fir_grew_trans(&f0, &f2, &f3, 16, 11);
        assert(prims@[9].0 < fir.tys.spec_rows().len());
    }
    let usize_ty = prims[9];
    build_generic_params(fir, names, usize_ty);
    let ghost f4 = *fir;
    proof {
        lemma_fir_grew_trans(&f0, &f3, &f4, 27, 22);
    }
    let option = gs[OPTION];
    build_option(fir, names, option);
    let ghost f5 = *fir;
    proof {
        lemma_fir_grew_trans(&f0, &f4, &f5, 49, 2);
    }
    let ts = build_trait_decls(fir, module, names);
    let ghost f6 = *fir;
    proof {
        lemma_fir_grew_trans(&f0, &f5, &f6, 51, 21);
    }
    build_trait_params(fir, names);
    let ghost f7 = *fir;
    proof {
        lemma_fir_grew_trans(&f0, &f6, &f7, 72, 126);
        assert(fresh_map(&f7));
        assert(fir.tys.spec_rows().subrange(0, f2.tys.spec_rows().len() as int)[prims@[12].0 as int]
            == fir.tys.spec_rows()[prims@[12].0 as int]);
    }
    build_trait_items(fir, module, names, &ts, option, prims[12]);
    let ghost f8 = *fir;
    proof {
        lemma_fir_grew_trans(&f0, &f7, &f8, 198, 400);
    }
    // The lookup table, in the order the rows were built.
    let mut tbl: Vec<(Symbol, PreludeEntity)> = Vec::new();
    let mut i: usize = 0;
    while i < 15
        invariant
            i <= 15,
            prims@.len() == 15,
            names.wf(),
            tbl@ == Seq::new(i as nat, |k: int| (names.prims@[k], PreludeEntity::Ty(prims@[k]))),
        decreases 15 - i,
    {
        tbl.push((names.prims[i], PreludeEntity::Ty(prims[i])));
        proof {
            assert(tbl@ =~= Seq::new((i + 1) as nat, |k: int| (names.prims@[k], PreludeEntity::Ty(prims@[k]))));
        }
        i = i + 1;
    }
    tbl.push((names.never, PreludeEntity::Ty(ty_never())));
    let ghost a1 = tbl@;
    let mut i: usize = 0;
    while i < 11
        invariant
            i <= 11,
            gs@ == Seq::new(11, |k: int| DefId(k as u32)),
            names.wf(),
            tbl@ == a1 + Seq::new(
                i as nat,
                |k: int| (names.generics@[k], PreludeEntity::Generic { def: gs@[k], arity: spec_generic_arity(k) }),
            ),
        decreases 11 - i,
    {
        tbl.push((names.generics[i], PreludeEntity::Generic { def: gs[i], arity: generic_arity(i) }));
        proof {
            assert(tbl@ =~= a1 + Seq::new(
                (i + 1) as nat,
                |k: int| (names.generics@[k], PreludeEntity::Generic { def: gs@[k], arity: spec_generic_arity(k) }),
            ));
        }
        i = i + 1;
    }
    let ghost a2 = tbl@;
    let mut t: usize = 0;
    while t < 21
        invariant
            t <= 21,
            ts@ == Seq::new(21, |k: int| DefId((11 + k) as u32)).push(DefId(0xFFFF_FFFFu32)),
            names.wf(),
            tbl@ == a2 + Seq::new(
                t as nat,
                |k: int| (names.traits@[k], PreludeEntity::Trait { def: ts@[k], arity: spec_trait_arity(k) }),
            ),
        decreases 21 - t,
    {
        tbl.push((names.traits[t], PreludeEntity::Trait { def: ts[t], arity: trait_arity(t) }));
        proof {
            assert(tbl@ =~= a2 + Seq::new(
                (t + 1) as nat,
                |k: int| (names.traits@[k], PreludeEntity::Trait { def: ts@[k], arity: spec_trait_arity(k) }),
            ));
        }
        t = t + 1;
    }
    let ghost a3 = tbl@;
    let mut i: usize = 0;
    while i < 8
        invariant
            i <= 8,
            names.wf(),
            tbl@ == a3 + Seq::new(i as nat, |k: int| (names.opaque@[k], PreludeEntity::Opaque)),
        decreases 8 - i,
    {
        tbl.push((names.opaque[i], PreludeEntity::Opaque));
        proof {
            assert(tbl@ =~= a3 + Seq::new((i + 1) as nat, |k: int| (names.opaque@[k], PreludeEntity::Opaque)));
        }
        i = i + 1;
    }
    let ghost entries = spec_entries(names, prims@, gs@, ts@);
    proof {
        assert(tbl@ =~= entries);
        lemma_entry_names(names, prims@, gs@, ts@);
    }
    let sorted = sort_by_name(tbl);
    let table = dedup_by_name(&sorted);
    proof {
        let tn = names.table_names();
        assert forall|e: (Symbol, PreludeEntity)| table@.contains(e) <==> entries.contains(e) by {
            if entries.contains(e) {
                let k = choose|k: int| 0 <= k < entries.len() && entries[k] == e;
                assert(sorted@.contains(e));
                let k2 = choose|k2: int| 0 <= k2 < sorted@.len() && sorted@[k2] == e;
                let q = choose|q: int| 0 <= q < table@.len() && #[trigger] table@[q].0 == (#[trigger] sorted@[k2]).0;
                assert(table@.contains(table@[q]));
                assert(entries.contains(table@[q]));
                let k3 = choose|k3: int| 0 <= k3 < entries.len() && entries[k3] == table@[q];
                assert(tn[k3] == tn[k]);
                assert(k3 == k);
            }
        }
        // Generic rows: kind and parameters survive every later phase.
        assert forall|i: int| 0 <= i < 11 implies {
            let row = fir.sigs.spec_rows()[(#[trigger] gs@[i]).0 as int];
            &&& gs@[i].0 < fir.sigs.spec_rows().len()
            &&& row.kind == generic_sig(i)
            &&& row.generics.0 < fir.sigs.generics_store.spec_params().len()
            &&& fir.sigs.generics_store.spec_params()[row.generics.0 as int] == generic_params(names, i, prims@[9])
        } by {
            assert(f7.keys.spec_keys()[i] == generic_key(module, names, i));
            assert(f6.sigs.spec_rows()[i] == f5.sigs.spec_rows()[i]);
            assert(f4.sigs.spec_rows()[i].kind == generic_sig(i));
            let g = f4.sigs.spec_rows()[i].generics.0 as int;
            assert(f7.sigs.generics_store.spec_params().subrange(0, f6.sigs.generics_store.spec_params().len() as int)[g]
                == f7.sigs.generics_store.spec_params()[g]);
        }
        assert forall|t: int| 0 <= t < 21 implies {
            let row = fir.sigs.spec_rows()[(#[trigger] ts@[t]).0 as int];
            &&& ts@[t].0 < fir.sigs.spec_rows().len()
            &&& row.kind == SigKind::Trait
            &&& row.generics.0 < fir.sigs.generics_store.spec_params().len()
            &&& fir.sigs.generics_store.spec_params()[row.generics.0 as int].len() == spec_trait_arity(t) + 1
        } by {
            assert(f7.keys.spec_keys()[11 + t] == trait_key(module, names, t));
            assert(f6.sigs.spec_rows()[11 + t] == empty_row(SigKind::Trait));
        }
        assert forall|i: int| 0 <= i < 15 implies (#[trigger] prims@[i]).0 < fir.tys.spec_rows().len()
            && fir.tys.spec_rows()[prims@[i].0 as int] == plain(TyTag::Prim, spec_prim_kind(i).code() as u32, 0) by {
            assert(fir.tys.spec_rows().subrange(0, f2.tys.spec_rows().len() as int)[prims@[i].0 as int]
                == fir.tys.spec_rows()[prims@[i].0 as int]);
        }
    }
    PreludeDefs {
        module,
        names: table,
        prims,
        generics: gs,
        traits: ts,
        option,
        item_name: names.item,
        output_name: names.output,
        self_name: names.self_type,
    }
}

/// The arithmetic, bitwise, comparison and copy traits every integer type
/// implements, by position `w < 13`.
pub open spec fn int_trait(w: int) -> int {
    if w < 5 {
        w
    } else if w < 10 {
        w + 1
    } else if w == 10 {
        11
    } else if w == 11 {
        12
    } else {
        16
    }
}

/// The traits every float type implements, by position `w < 9`.
pub open spec fn float_trait(w: int) -> int {
    if w < 6 {
        w
    } else if w == 6 {
        11
    } else if w == 7 {
        12
    } else {
        16
    }
}

/// The self type of built-in impl `k`: a primitive's code, 15 for the unit
/// type, 16 for `never`.
pub open spec fn impl_self(k: int) -> int {
    if k < 130 {
        k / 13
    } else if k < 135 {
        k - 130
    } else if k < 153 {
        10 + (k - 135) / 9
    } else if k < 155 {
        12
    } else if k < 157 {
        13
    } else if k < 159 {
        14
    } else if k == 159 {
        15
    } else {
        16
    }
}

/// The trait position of built-in impl `k`.
pub open spec fn impl_trait(k: int) -> int {
    if k < 130 {
        int_trait(k % 13)
    } else if k < 135 {
        5
    } else if k < 153 {
        float_trait((k - 135) % 9)
    } else if k == 153 || k == 156 || k == 158 {
        11
    } else {
        16
    }
}

/// The number of built-in impls.
pub const BUILTIN_IMPLS: u32 = 161;

/// `t` is the type built-in impl self code `c` names.
pub open spec fn is_impl_self(tys: &TyStore, t: TyId, c: int) -> bool {
    &&& t.0 < tys.spec_rows().len()
    &&& if c < 15 {
        tys.spec_rows()[t.0 as int] == plain(TyTag::Prim, c as u32, 0)
    } else if c == 15 {
        t == TyId(1)
    } else {
        t == TyId(2)
    }
}

/// Built-in impl `k` as pushed in `rows` at `base + k`.
pub open spec fn builtin_row_ok(tys: &TyStore, traits: Seq<DefId>, rows: Seq<ImplRow>, base: int, k: int) -> bool {
    let r = rows[base + k];
    &&& r.trait_def == traits[impl_trait(k)]
    &&& !r.inherent
    &&& r.trait_args == crate::fir::ty::ArgsId(0)
    &&& is_impl_self(tys, r.self_ty, impl_self(k))
    &&& r.head == crate::fir::ty::spec_head_key(tys.universe(), tys.spec_rows()[r.self_ty.0 as int])
    &&& r.order == k
}

/// One built-in impl: `self_ty` implements trait `which`, declared as the
/// `order`-th impl of the prelude module.
fn add_impl(
    fir: &mut Fir,
    p: &PreludeDefs,
    index: &mut ImplIndex,
    self_ty: TyId,
    which: usize,
    order: u32,
)
    requires
        fir_ok(old(fir)),
        fir_room(old(fir), 4),
        old(index).wf(),
        old(index).spec_rows().len() < u32::MAX,
        which < p.traits@.len(),
        self_ty.0 < old(fir).tys.spec_rows().len(),
    ensures
        fir_ok(final(fir)),
        fir_grew(old(fir), final(fir), 1),
        final(index).wf(),
        final(index).spec_rows().len() == old(index).spec_rows().len() + 1,
        final(index).spec_rows().subrange(0, old(index).spec_rows().len() as int) == old(index).spec_rows(),
        final(index).spec_rows().last() == (ImplRow {
            def: final(index).spec_rows().last().def,
            trait_def: p.traits@[which as int],
            inherent: false,
            trait_args: crate::fir::ty::ArgsId(0),
            self_ty,
            head: crate::fir::ty::spec_head_key(final(fir).tys.universe(), final(fir).tys.spec_rows()[self_ty.0 as int]),
            order,
        }),
{
    let ghost f0 = *fir;
    let key = fir.keys.intern(DeclKey { parent: no_decl_key(), module: p.module, kind: DeclKind::Impl, name: None, disamb: order });
    proof {
        TyStore::lemma_grows_refl(&fir.tys);
    }
    let def = fir.declare(key, SigKind::Impl);
    fir.sigs.set_self_ty(def, self_ty);
    let tref = fir.tys.intern_trait_ref(p.traits[which], no_args());
    fir.sigs.set_trait_ref(def, tref);
    proof {
        assert(fir.tys.spec_rows() == f0.tys.spec_rows());
    }
    let head = fir.tys.head_key(self_ty);
    let ghost i0 = index.spec_rows();
    index.push(ImplRow {
        def,
        trait_def: p.traits[which],
        inherent: false,
        trait_args: no_args(),
        self_ty,
        head,
        order,
    });
    proof {
        assert(index.spec_rows().subrange(0, i0.len() as int) =~= i0);
    }
}

/// The built-in impls, as ordinary impl index rows: they make "does `i32`
/// implement `Add`" a probe rather than a special case. Built-in impl `k`
/// has source order `k`; `impl_self` and `impl_trait` give its self type
/// and its trait.
pub fn push_builtin_impls(fir: &mut Fir, p: &PreludeDefs, index: &mut ImplIndex)
    requires
        fir_ok(old(fir)),
        fir_room(old(fir), 400),
        old(index).wf(),
        old(index).spec_rows().len() + 161 < u32::MAX,
        p.traits@.len() == 22,
    ensures
        fir_ok(final(fir)),
        fir_grew(old(fir), final(fir), 340),
        final(index).wf(),
        final(index).spec_rows().len() == old(index).spec_rows().len() + 161,
        final(index).spec_rows().subrange(0, old(index).spec_rows().len() as int) == old(index).spec_rows(),
        forall|k: int|
            0 <= k < 161 ==> #[trigger] builtin_row_ok(
                &final(fir).tys,
                p.traits@,
                final(index).spec_rows(),
                old(index).spec_rows().len() as int,
                k,
            ),
{
    let ghost f0 = *fir;
    let ghost base = index.spec_rows().len() as int;
    let ghost i0 = index.spec_rows();
    proof {
        TyStore::lemma_grows_refl(&fir.tys);
        assert(index.spec_rows().subrange(0, base) =~= i0);
    }
    let mut order: u32 = 0;
    while order < 161
        invariant
            order <= 161,
            fir_ok(fir),
            fir_room(&f0, 400),
            fir_grew(&f0, fir, 2 * order as nat),
            index.wf(),
            base == i0.len(),
            base + 161 < u32::MAX,
            p.traits@.len() == 22,
            index.spec_rows().len() == base + order,
            index.spec_rows().subrange(0, base) == i0,
            forall|k: int| 0 <= k < order ==> #[trigger] builtin_row_ok(&fir.tys, p.traits@, index.spec_rows(), base, k),
        decreases 161 - order,
    {
        let k = order;
        // The self type and the trait of impl `k`.
        let (code, which): (u32, usize) = if k < 130 {
            let w = k % 13;
            let t: usize = if w < 5 {
                w as usize
            } else if w < 10 {
                (w + 1) as usize
            } else if w == 10 {
                11
            } else if w == 11 {
                12
            } else {
                16
            };
            (k / 13, t)
        } else if k < 135 {
            (k - 130, 5)
        } else if k < 153 {
            let w = (k - 135) % 9;
            let t: usize = if w < 6 {
                w as usize
            } else if w == 6 {
                11
            } else if w == 7 {
                12
            } else {
                16
            };
            (10 + (k - 135) / 9, t)
        } else if k < 155 {
            (12, if k == 153 { 11 } else { 16 })
        } else if k < 157 {
            (13, if k == 156 { 11 } else { 16 })
        } else if k < 159 {
            (14, if k == 158 { 11 } else { 16 })
        } else if k == 159 {
            (15, 16)
        } else {
            (16, 16)
        };
        proof {
            assert(code as int == impl_self(k as int) && which as int == impl_trait(k as int));
        }
        let ghost fa = *fir;
        proof {
            TyStore::lemma_grows_refl(&fa.tys);
        }
        let self_ty = if code < 15 {
            let pk = prim_kind(code as usize);
            proof {
                assert(pk.code() == code) by {
                    lemma_prim_kind_code(code as int);
                }
            }
            fir.tys.prim(pk)
        } else if code == 15 {
            ty_unit()
        } else {
            ty_never()
        };
        let ghost fb = *fir;
        proof {
            crate::fir::ty::lemma_grows_trans(&f0.tys, &fa.tys, &fb.tys);
            fir.tys.lemma_columns();
        }
        let ghost rows_b = index.spec_rows();
        add_impl(fir, p, index, self_ty, which, order);
        proof {
            crate::fir::ty::lemma_grows_trans(&f0.tys, &fb.tys, &fir.tys);
            crate::fir::ty::lemma_grows_trans(&fa.tys, &fb.tys, &fir.tys);
            assert(index.spec_rows().subrange(0, base) =~= i0) by {
                assert(index.spec_rows().subrange(0, rows_b.len() as int).subrange(0, base) =~= rows_b.subrange(0, base));
            }
            assert forall|q: int| 0 <= q < order + 1 implies #[trigger] builtin_row_ok(&fir.tys, p.traits@, index.spec_rows(), base, q) by {
                if q < order {
                    assert(builtin_row_ok(&fa.tys, p.traits@, rows_b, base, q));
                    assert(index.spec_rows()[base + q] == index.spec_rows().subrange(0, rows_b.len() as int)[base + q]);
                    let t = rows_b[base + q].self_ty;
                    assert(fir.tys.spec_rows().subrange(0, fa.tys.spec_rows().len() as int)[t.0 as int] == fir.tys.spec_rows()[t.0 as int]);
                    lemma_head_key_stable(&fa.tys, &fir.tys, t);
                } else {
                    assert(index.spec_rows()[base + q] == index.spec_rows().last());
                    assert(fir.tys.spec_rows().subrange(0, fb.tys.spec_rows().len() as int)[self_ty.0 as int] == fir.tys.spec_rows()[self_ty.0 as int]);
                }
            }
        }
        order = order + 1;
    }
}

proof fn lemma_prim_kind_code(c: int)
    requires
        0 <= c < 15,
    ensures
        spec_prim_kind(c).code() == c,
{
}

/// A type's head does not change as the store grows.
proof fn lemma_head_key_stable(s: &TyStore, w: &TyStore, t: TyId)
    requires
        s.wf_core(),
        TyStore::grows(s, w),
        t.0 < s.spec_rows().len(),
    ensures
        crate::fir::ty::spec_head_key(s.universe(), s.spec_rows()[t.0 as int]) == crate::fir::ty::spec_head_key(
            w.universe(),
            w.spec_rows()[t.0 as int],
        ),
{
    let u = s.universe();
    let v = w.universe();
    s.lemma_row_order(t.0 as int);
    assert(v.rows.subrange(0, u.rows.len() as int)[t.0 as int] == v.rows[t.0 as int]);
    let k = u.rows[t.0 as int];
    if k.tag == TyTag::Tuple {
        assert(v.args.subrange(0, u.args.len() as int)[k.b as int] == v.args[k.b as int]);
    }
    if k.tag == TyTag::Dyn {
        assert(v.trait_refs.subrange(0, u.trait_refs.len() as int)[k.a as int] == v.trait_refs[k.a as int]);
    }
}

} // verus!
