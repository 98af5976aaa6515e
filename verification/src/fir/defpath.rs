//! Declaration identity: the name-based key ids a query is keyed on.

use vstd::prelude::*;

use crate::fir::cons::{spec_key_words, widen, ConsTable};
use crate::fir::pool::{Interns, Pool};
use crate::fir::ty::{spec_key3, PrimKind};
use crate::index::{DeclKind, DefId, Symbol};

verus! {

/// One interned declaration key.
#[derive(Clone, Copy, PartialEq, Eq, Structural, PartialOrd, Ord, Hash, Debug)]
pub struct DeclKeyId(pub u32);

/// One interned module path.
#[derive(Clone, Copy, PartialEq, Eq, Structural, PartialOrd, Ord, Hash, Debug)]
pub struct ModulePathId(pub u32);

impl DeclKeyId {
    pub fn index(self) -> (r: usize)
        ensures
            r == self.0,
    {
        self.0 as usize
    }
}

/// No declaration key.
pub fn no_decl_key() -> (r: DeclKeyId)
    ensures
        r == DeclKeyId(0xFFFF_FFFFu32),
{
    DeclKeyId(0xFFFF_FFFFu32)
}

/// No `DefId`.
pub fn no_def() -> (r: DefId)
    ensures
        r == DefId(0xFFFF_FFFFu32),
{
    DefId(0xFFFF_FFFFu32)
}

/// The head of a type after stripping qualifiers: the first column of an
/// impl bucket's sort key.
#[derive(Clone, Copy, PartialEq, Eq, Structural, PartialOrd, Ord, Hash, Debug)]
pub enum HeadKey {
    Prim(PrimKind),
    Nominal(DefId),
    Tuple(u16),
    Fn,
    Dyn(DefId),
    Param,
    Proj,
    Never,
    Unit,
    /// A poisoned type still answers `head_key`; its bucket is always empty.
    Error,
    /// A closed const argument in type position.
    ConstVal,
    Brand,
}

impl HeadKey {
    /// The variant's number and its payload.
    pub open spec fn parts(self) -> (u64, u64) {
        match self {
            HeadKey::Prim(k) => (1, k.code() as u64),
            HeadKey::Nominal(d) => (2, d.0 as u64),
            HeadKey::Tuple(n) => (3, n as u64),
            HeadKey::Fn => (4, 0),
            HeadKey::Dyn(d) => (5, d.0 as u64),
            HeadKey::Param => (6, 0),
            HeadKey::Proj => (7, 0),
            HeadKey::Never => (8, 0),
            HeadKey::Unit => (9, 0),
            HeadKey::Error => (10, 0),
            HeadKey::ConstVal => (11, 0),
            HeadKey::Brand => (12, 0),
        }
    }

    /// A total, build-independent ordering column: the variant's number in
    /// the high bits, so the payload never crosses variants.
    pub fn as_u64(self) -> (r: u64)
        ensures
            r == self.parts().0 * 0x100_0000_0000 + self.parts().1,
    {
        let (d, p): (u64, u64) = match self {
            HeadKey::Prim(k) => (1, k.to_u8() as u64),
            HeadKey::Nominal(d) => (2, d.0 as u64),
            HeadKey::Tuple(n) => (3, n as u64),
            HeadKey::Fn => (4, 0),
            HeadKey::Dyn(d) => (5, d.0 as u64),
            HeadKey::Param => (6, 0),
            HeadKey::Proj => (7, 0),
            HeadKey::Never => (8, 0),
            HeadKey::Unit => (9, 0),
            HeadKey::Error => (10, 0),
            HeadKey::ConstVal => (11, 0),
            HeadKey::Brand => (12, 0),
        };
        assert((d << 40u64) | p == d * 0x100_0000_0000 + p) by (bit_vector)
            requires
                d <= 12,
                p < 0x1_0000_0000,
        ;
        (d << 40u64) | p
    }
}

/// The empty module path, interned first.
pub fn root_path() -> (r: ModulePathId)
    ensures
        r == ModulePathId(0),
{
    ModulePathId(0)
}

pub const SALT_PATH: u64 = 0x5041_5448_5041_5448u64;
pub const SALT_KEY: u64 = 0x4445_434b_4b45_5900u64;

/// A module path's segments.
pub struct SegList(pub Vec<Symbol>);

pub open spec fn sym_ids(xs: Seq<Symbol>) -> Seq<u32> {
    xs.map_values(|s: Symbol| s.0)
}

impl View for SegList {
    type V = Seq<Symbol>;

    open spec fn view(&self) -> Seq<Symbol> {
        self.0@
    }
}

fn raw_syms(xs: &[Symbol]) -> (r: Vec<u32>)
    ensures
        r@ == sym_ids(xs@),
{
    let mut v: Vec<u32> = Vec::new();
    let mut i: usize = 0;
    while i < xs.len()
        invariant
            i <= xs@.len(),
            v@ == sym_ids(xs@.subrange(0, i as int)),
        decreases xs@.len() - i,
    {
        v.push(xs[i].0);
        i = i + 1;
        assert(v@ =~= sym_ids(xs@.subrange(0, i as int)));
    }
    assert(xs@.subrange(0, i as int) =~= xs@);
    v
}

fn same_syms(a: &[Symbol], b: &[Symbol]) -> (r: bool)
    ensures
        r == (a@ == b@),
{
    if a.len() != b.len() {
        return false;
    }
    let mut i: usize = 0;
    while i < a.len()
        invariant
            i <= a@.len(),
            a@.len() == b@.len(),
            forall|j: int| 0 <= j < i ==> a@[j] == b@[j],
        decreases a@.len() - i,
    {
        if a[i] != b[i] {
            return false;
        }
        i = i + 1;
    }
    assert(a@ =~= b@);
    true
}

impl Interns for SegList {
    /// A path has at most `u16::MAX` segments.
    open spec fn storable(v: Seq<Symbol>) -> bool {
        v.len() <= 0xFFFF
    }

    open spec fn key_of(v: Seq<Symbol>) -> u64 {
        spec_key_words(SALT_PATH, v.len() as u64, widen(sym_ids(v)))
    }

    fn key(&self) -> (k: u64) {
        let raw = raw_syms(self.0.as_slice());
        ConsTable::key_slice(SALT_PATH, raw.as_slice())
    }

    fn same(&self, other: &Self) -> (b: bool) {
        same_syms(self.0.as_slice(), other.0.as_slice())
    }
}

/// Interned dotted module paths. A key's hash and its canonical encoding use
/// the segment bytes, not the symbols, because symbols depend on intern
/// order; the table itself compares symbols.
pub struct ModulePathTable {
    pool: Pool<SegList>,
}

impl ModulePathTable {
    /// Each path's segments, in id order.
    pub closed spec fn spec_paths(&self) -> Seq<Seq<Symbol>> {
        self.pool.rows()
    }

    pub closed spec fn wf(&self) -> bool {
        self.pool.wf()
    }

    /// Room for one more path.
    pub open spec fn has_room(&self) -> bool {
        self.spec_paths().len() + 1 < u32::MAX && self.spec_paths().len() + 1 < usize::MAX / 64
    }

    /// A table holding only the root path, at id 0.
    pub fn new() -> (t: ModulePathTable)
        ensures
            t.wf(),
            t.spec_paths() == seq![Seq::<Symbol>::empty()],
    {
        let mut pool: Pool<SegList> = Pool::new();
        let root = pool.intern(SegList(Vec::new()));
        assert(pool.rows() =~= seq![Seq::<Symbol>::empty()]);
        ModulePathTable { pool }
    }

    /// The id of the path `segments`, interning it if new: equal paths are
    /// one id.
    pub fn intern(&mut self, segments: &[Symbol]) -> (r: ModulePathId)
        requires
            old(self).wf(),
            old(self).has_room(),
            segments@.len() <= 0xFFFF,
        ensures
            final(self).wf(),
            r.0 < final(self).spec_paths().len(),
            final(self).spec_paths()[r.0 as int] == segments@,
            old(self).spec_paths().contains(segments@) ==> final(self).spec_paths() == old(self).spec_paths(),
            !old(self).spec_paths().contains(segments@) ==> final(self).spec_paths() == old(
                self,
            ).spec_paths().push(segments@) && r.0 == old(self).spec_paths().len(),
    {
        let mut v: Vec<Symbol> = Vec::new();
        let mut i: usize = 0;
        while i < segments.len()
            invariant
                i <= segments@.len(),
                v@ == segments@.subrange(0, i as int),
            decreases segments@.len() - i,
        {
            v.push(segments[i]);
            i = i + 1;
        }
        assert(segments@.subrange(0, i as int) =~= segments@);
        ModulePathId(self.pool.intern(SegList(v)))
    }

    /// The segments of path `id`.
    pub fn segments(&self, id: ModulePathId) -> (r: &[Symbol])
        requires
            id.0 < self.spec_paths().len(),
        ensures
            r@ == self.spec_paths()[id.0 as int],
    {
        self.pool.get(id.0 as usize).0.as_slice()
    }

    pub fn len(&self) -> (r: usize)
        ensures
            r == self.spec_paths().len(),
    {
        self.pool.len()
    }

    pub fn is_empty(&self) -> (r: bool)
        ensures
            r == (self.spec_paths().len() == 0),
    {
        self.pool.len() == 0
    }
}

/// One declaration key, as callers build and read it.
#[derive(Clone, Copy, PartialEq, Eq, Structural, Debug)]
pub struct DeclKey {
    /// The absent key for a top-level item; the enclosing impl or trait for
    /// a method or associated item.
    pub parent: DeclKeyId,
    pub module: ModulePathId,
    pub kind: DeclKind,
    /// `None` for an impl, which has no name.
    pub name: Option<Symbol>,
    /// For an impl: a fold of its header, plus one per duplicate in source
    /// order. Zero for everything else.
    pub disamb: u32,
}

impl View for DeclKey {
    type V = DeclKey;

    open spec fn view(&self) -> DeclKey {
        *self
    }
}

/// A key's name column: the absent symbol number for no name.
pub open spec fn name_code(n: Option<Symbol>) -> u32 {
    match n {
        Some(s) => s.0,
        None => 0xFFFF_FFFFu32,
    }
}

impl Interns for DeclKey {
    open spec fn storable(v: DeclKey) -> bool {
        true
    }

    open spec fn key_of(v: DeclKey) -> u64 {
        spec_key3(
            SALT_KEY,
            ((v.parent.0 as u64) << 32u64) | (v.module.0 as u64),
            ((v.kind.code() as u64) << 32u64) | (name_code(v.name) as u64),
            v.disamb as u64,
        )
    }

    fn key(&self) -> (k: u64) {
        let n: u32 = match self.name {
            Some(s) => s.0,
            None => 0xFFFF_FFFFu32,
        };
        ConsTable::key3(
            SALT_KEY,
            ((self.parent.0 as u64) << 32u64) | (self.module.0 as u64),
            ((self.kind.to_u8() as u64) << 32u64) | (n as u64),
            self.disamb as u64,
        )
    }

    fn same(&self, other: &Self) -> (b: bool) {
        *self == *other
    }
}

/// Interned declaration keys: equal keys are the same id, so comparing two
/// keys is one integer comparison.
pub struct DeclKeyTable {
    pool: Pool<DeclKey>,
    pub paths: ModulePathTable,
}

impl DeclKeyTable {
    /// The keys, in id order.
    pub closed spec fn spec_keys(&self) -> Seq<DeclKey> {
        self.pool.rows()
    }

    /// The module path table keys refer into.
    pub closed spec fn spec_path_table(&self) -> ModulePathTable {
        self.paths
    }

    pub closed spec fn wf(&self) -> bool {
        self.pool.wf() && self.paths.wf()
    }

    /// Room for one more key.
    pub open spec fn has_room(&self) -> bool {
        self.spec_keys().len() + 1 < u32::MAX && self.spec_keys().len() + 1 < usize::MAX / 64
    }

    /// No keys, and a path table holding only the root path.
    pub fn new() -> (t: DeclKeyTable)
        ensures
            t.wf(),
            t.spec_keys() == Seq::<DeclKey>::empty(),
            t.spec_path_table().wf(),
            t.spec_path_table().spec_paths() == seq![Seq::<Symbol>::empty()],
    {
        DeclKeyTable { pool: Pool::new(), paths: ModulePathTable::new() }
    }

    /// The id of `key`, interning it if new: equal keys are one id.
    pub fn intern(&mut self, key: DeclKey) -> (r: DeclKeyId)
        requires
            old(self).wf(),
            old(self).has_room(),
        ensures
            final(self).wf(),
            final(self).spec_path_table() == old(self).spec_path_table(),
            r.0 < final(self).spec_keys().len(),
            final(self).spec_keys()[r.0 as int] == key,
            old(self).spec_keys().contains(key) ==> final(self).spec_keys() == old(self).spec_keys(),
            !old(self).spec_keys().contains(key) ==> final(self).spec_keys() == old(self).spec_keys().push(key)
                && r.0 == old(self).spec_keys().len(),
    {
        DeclKeyId(self.pool.intern(key))
    }

    /// The id of the module path `segments` in the keys' path table.
    pub fn intern_path(&mut self, segments: &[Symbol]) -> (r: ModulePathId)
        requires
            old(self).wf(),
            old(self).spec_path_table().has_room(),
            segments@.len() <= 0xFFFF,
        ensures
            final(self).wf(),
            final(self).spec_keys() == old(self).spec_keys(),
            r.0 < final(self).spec_path_table().spec_paths().len(),
            final(self).spec_path_table().spec_paths()[r.0 as int] == segments@,
            final(self).spec_path_table().spec_paths().len() <= old(self).spec_path_table().spec_paths().len() + 1,
    {
        self.paths.intern(segments)
    }

    pub fn row(&self, id: DeclKeyId) -> (r: DeclKey)
        requires
            id.0 < self.spec_keys().len(),
        ensures
            r == self.spec_keys()[id.0 as int],
    {
        *self.pool.get(id.0 as usize)
    }

    pub fn parent_of(&self, id: DeclKeyId) -> (r: DeclKeyId)
        requires
            id.0 < self.spec_keys().len(),
        ensures
            r == self.spec_keys()[id.0 as int].parent,
    {
        self.pool.get(id.0 as usize).parent
    }

    pub fn len(&self) -> (r: usize)
        ensures
            r == self.spec_keys().len(),
    {
        self.pool.len()
    }

    pub fn is_empty(&self) -> (r: bool)
        ensures
            r == (self.spec_keys().len() == 0),
    {
        self.pool.len() == 0
    }

    /// Interning is a function of the key: two keys get one id exactly when
    /// they are equal.
    pub proof fn lemma_keys_unique(&self, i: int, j: int)
        requires
            self.wf(),
            0 <= i < self.spec_keys().len(),
            0 <= j < self.spec_keys().len(),
        ensures
            (self.spec_keys()[i] == self.spec_keys()[j]) == (i == j),
    {
        if self.spec_keys()[i] == self.spec_keys()[j] {
            self.pool.lemma_unique(i, j);
        }
    }
}

/// Entry `i` of `s`, or `absent` past its end.
pub open spec fn at_or<T>(s: Seq<T>, i: int, absent: T) -> T {
    if 0 <= i < s.len() {
        s[i]
    } else {
        absent
    }
}

/// The two-way map between a build's `DefId` row numbers and the name-based
/// key ids a query is keyed on.
pub struct DefKeys {
    key: Vec<DeclKeyId>,
    def: Vec<DefId>,
}

impl DefKeys {
    /// Each row's key, the absent key where none was bound.
    pub closed spec fn spec_key(&self) -> Seq<DeclKeyId> {
        self.key@
    }

    /// Each key's row, the absent row where none was bound.
    pub closed spec fn spec_def(&self) -> Seq<DefId> {
        self.def@
    }

    /// The key bound to `def`.
    pub open spec fn key_at(&self, def: DefId) -> DeclKeyId {
        at_or(self.spec_key(), def.0 as int, DeclKeyId(0xFFFF_FFFFu32))
    }

    /// The row bound to `key`.
    pub open spec fn def_at(&self, key: DeclKeyId) -> DefId {
        at_or(self.spec_def(), key.0 as int, DefId(0xFFFF_FFFFu32))
    }

    pub fn new() -> (d: DefKeys)
        ensures
            d.spec_key() == Seq::<DeclKeyId>::empty(),
            d.spec_def() == Seq::<DefId>::empty(),
    {
        DefKeys { key: Vec::new(), def: Vec::new() }
    }

    /// Binds `def` and `key` to each other, growing either column with
    /// absent entries as far as it needs.
    pub fn bind(&mut self, def: DefId, key: DeclKeyId)
        requires
            def.0 < usize::MAX,
            key.0 < usize::MAX,
        ensures
            final(self).spec_key().len() == if old(self).spec_key().len() <= def.0 {
                def.0 + 1
            } else {
                old(self).spec_key().len() as int
            },
            final(self).spec_def().len() == if old(self).spec_def().len() <= key.0 {
                key.0 + 1
            } else {
                old(self).spec_def().len() as int
            },
            forall|d: DefId| #[trigger] final(self).key_at(d) == if d == def {
                key
            } else {
                old(self).key_at(d)
            },
            forall|k: DeclKeyId| #[trigger] final(self).def_at(k) == if k == key {
                def
            } else {
                old(self).def_at(k)
            },
    {
        let ghost k0 = self.key@;
        let ghost d0 = self.def@;
        while self.key.len() <= def.index()
            invariant
                def.0 < usize::MAX,
                k0.len() <= self.key@.len(),
                self.key@.len() <= if k0.len() <= def.0 {
                    def.0 + 1
                } else {
                    k0.len() as int
                },
                forall|i: int| 0 <= i < self.key@.len() ==> #[trigger] self.key@[i] == at_or(k0, i, DeclKeyId(0xFFFF_FFFFu32)),
                self.def@ == d0,
            decreases def.0 + 1 - self.key@.len(),
        {
            self.key.push(no_decl_key());
        }
        while self.def.len() <= key.index()
            invariant
                key.0 < usize::MAX,
                d0.len() <= self.def@.len(),
                self.def@.len() <= if d0.len() <= key.0 {
                    key.0 + 1
                } else {
                    d0.len() as int
                },
                forall|i: int| 0 <= i < self.def@.len() ==> #[trigger] self.def@[i] == at_or(d0, i, DefId(0xFFFF_FFFFu32)),
                def.0 < self.key@.len(),
                self.key@.len() == if k0.len() <= def.0 {
                    def.0 + 1
                } else {
                    k0.len() as int
                },
                forall|i: int| 0 <= i < self.key@.len() ==> #[trigger] self.key@[i] == at_or(k0, i, DeclKeyId(0xFFFF_FFFFu32)),
            decreases key.0 + 1 - self.def@.len(),
        {
            self.def.push(no_def());
        }
        self.key.set(def.index(), key);
        self.def.set(key.index(), def);
        proof {
            assert forall|d: DefId| #[trigger] self.key_at(d) == if d == def {
                key
            } else {
                at_or(k0, d.0 as int, DeclKeyId(0xFFFF_FFFFu32))
            } by {
                if d.0 as int == def.0 as int {
                    assert(d == def);
                }
            }
            assert forall|k: DeclKeyId| #[trigger] self.def_at(k) == if k == key {
                def
            } else {
                at_or(d0, k.0 as int, DefId(0xFFFF_FFFFu32))
            } by {
                if k.0 as int == key.0 as int {
                    assert(k == key);
                }
            }
        }
    }

    /// The key bound to `def`, or the absent key.
    pub fn key_of(&self, def: DefId) -> (r: DeclKeyId)
        ensures
            r == self.key_at(def),
    {
        if def.index() < self.key.len() {
            self.key[def.index()]
        } else {
            no_decl_key()
        }
    }

    /// The row bound to `key`, or the absent row.
    pub fn def_of(&self, key: DeclKeyId) -> (r: DefId)
        ensures
            r == self.def_at(key),
    {
        if key.index() < self.def.len() {
            self.def[key.index()]
        } else {
            no_def()
        }
    }

    /// The row for `key`, allocating the next free row number if this build
    /// has not seen that declaration.
    pub fn def_for_key(&mut self, key: DeclKeyId) -> (r: DefId)
        requires
            old(self).spec_key().len() < u32::MAX,
            key.0 < usize::MAX,
        ensures
            old(self).def_at(key) != DefId(0xFFFF_FFFFu32) ==> r == old(self).def_at(key) && *final(self)
                == *old(self),
            old(self).def_at(key) == DefId(0xFFFF_FFFFu32) ==> {
                &&& r.0 == old(self).spec_key().len()
                &&& final(self).spec_key().len() == old(self).spec_key().len() + 1
                &&& forall|d: DefId| #[trigger] final(self).key_at(d) == if d == r {
                    key
                } else {
                    old(self).key_at(d)
                }
                &&& forall|k: DeclKeyId| #[trigger] final(self).def_at(k) == if k == key {
                    r
                } else {
                    old(self).def_at(k)
                }
            },
    {
        let existing = self.def_of(key);
        if existing != no_def() {
            return existing;
        }
        let def = DefId(self.key.len() as u32);
        self.bind(def, key);
        def
    }

    /// The number of rows the map covers.
    pub fn defs(&self) -> (r: usize)
        ensures
            r == self.spec_key().len(),
    {
        self.key.len()
    }
}

} // verus!
