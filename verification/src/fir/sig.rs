//! Signatures' ids, kinds and conventions, and the interned pools that hang
//! off a signature row: bound lists and constraint entries.

use vstd::prelude::*;

use crate::fir::cons::{spec_key_words, widen, ConsTable};
use crate::fir::ty::{no_args, no_const, no_ty, ArgsId, ConstId, TraitRefId, TyId};
use crate::fir::defpath::no_def;
use crate::index::{DefId, Symbol};

verus! {

/// One generics row.
#[derive(Clone, Copy, PartialEq, Eq, Structural, PartialOrd, Ord, Hash, Debug)]
pub struct GenericsId(pub u32);

/// One function-signature row.
#[derive(Clone, Copy, PartialEq, Eq, Structural, PartialOrd, Ord, Hash, Debug)]
pub struct FnSigId(pub u32);

/// One member list.
#[derive(Clone, Copy, PartialEq, Eq, Structural, PartialOrd, Ord, Hash, Debug)]
pub struct MemberListId(pub u32);

/// One associated-item list.
#[derive(Clone, Copy, PartialEq, Eq, Structural, PartialOrd, Ord, Hash, Debug)]
pub struct AssocListId(pub u32);

/// One interned bound list.
#[derive(Clone, Copy, PartialEq, Eq, Structural, PartialOrd, Ord, Hash, Debug)]
pub struct TraitRefListId(pub u32);

/// One constraint-entry list.
#[derive(Clone, Copy, PartialEq, Eq, Structural, PartialOrd, Ord, Hash, Debug)]
pub struct ConstraintListId(pub u32);

impl FnSigId {
    pub fn index(self) -> (r: usize)
        ensures
            r == self.0,
    {
        self.0 as usize
    }
}

impl TraitRefListId {
    pub fn index(self) -> (r: usize)
        ensures
            r == self.0,
    {
        self.0 as usize
    }
}

impl ConstraintListId {
    pub fn index(self) -> (r: usize)
        ensures
            r == self.0,
    {
        self.0 as usize
    }
}

/// The empty bound list, interned first so its id is always 0.
pub fn no_bounds() -> (r: TraitRefListId)
    ensures
        r == TraitRefListId(0),
{
    TraitRefListId(0)
}

/// The empty constraint list, pushed first so its id is always 0.
pub fn no_constraints() -> (r: ConstraintListId)
    ensures
        r == ConstraintListId(0),
{
    ConstraintListId(0)
}

/// `receiver`/`scoped` sentinel: no parameter is designated.
pub const NO_SLOT: u8 = 0xFFu8;

/// What a declaration row is.
#[derive(Clone, Copy, PartialEq, Eq, Structural, Debug)]
pub enum SigKind {
    Fn,
    ExternFn,
    Struct,
    Enum,
    Trait,
    Impl,
    Const,
    /// Lowering failed and reported; every use recovers silently.
    Poisoned,
    /// Named but never declared anywhere in the build.
    Absent,
}

impl SigKind {
    /// The kind's byte in declaration order.
    pub open spec fn code(self) -> u8 {
        match self {
            SigKind::Fn => 0,
            SigKind::ExternFn => 1,
            SigKind::Struct => 2,
            SigKind::Enum => 3,
            SigKind::Trait => 4,
            SigKind::Impl => 5,
            SigKind::Const => 6,
            SigKind::Poisoned => 7,
            SigKind::Absent => 8,
        }
    }

    pub fn from_u8(v: u8) -> (r: Option<SigKind>)
        ensures
            r is Some <==> v < 9,
            r matches Some(k) ==> k.code() == v,
    {
        match v {
            0 => Some(SigKind::Fn),
            1 => Some(SigKind::ExternFn),
            2 => Some(SigKind::Struct),
            3 => Some(SigKind::Enum),
            4 => Some(SigKind::Trait),
            5 => Some(SigKind::Impl),
            6 => Some(SigKind::Const),
            7 => Some(SigKind::Poisoned),
            8 => Some(SigKind::Absent),
            _ => None,
        }
    }
}

/// Parameter conventions. Function-type equality is pairwise on these.
#[derive(Clone, Copy, PartialEq, Eq, Structural, Debug)]
pub enum Conv {
    Let,
    Inout,
    Sink,
    /// The callee sets the parameter (it arrives uninitialised).
    Out,
}

impl Conv {
    /// The convention's byte in declaration order.
    pub open spec fn code(self) -> u8 {
        match self {
            Conv::Let => 0,
            Conv::Inout => 1,
            Conv::Sink => 2,
            Conv::Out => 3,
        }
    }

    pub fn from_u8(v: u8) -> (r: Option<Conv>)
        ensures
            r is Some <==> v < 4,
            r matches Some(c) ==> c.code() == v,
    {
        match v {
            0 => Some(Conv::Let),
            1 => Some(Conv::Inout),
            2 => Some(Conv::Sink),
            3 => Some(Conv::Out),
            _ => None,
        }
    }
}

/// The classification of a generic parameter.
#[derive(Clone, Copy, PartialEq, Eq, Structural, Debug)]
pub enum GParamKind {
    Type,
    Const { ty: TyId },
    Brand,
    Callable { fn_ty: TyId },
}

impl GParamKind {
    /// The byte that identifies the shape in the canonical encoding.
    pub fn tag(self) -> (r: u8)
        ensures
            r == match self {
                GParamKind::Type => 0u8,
                GParamKind::Const { .. } => 1u8,
                GParamKind::Brand => 2u8,
                GParamKind::Callable { .. } => 3u8,
            },
    {
        match self {
            GParamKind::Type => 0,
            GParamKind::Const { .. } => 1,
            GParamKind::Brand => 2,
            GParamKind::Callable { .. } => 3,
        }
    }
}

/// What a member row is.
#[derive(Clone, Copy, PartialEq, Eq, Structural, Debug)]
pub enum MemberKind {
    Field,
    Variant,
    /// A trait item, an impl item, an inherent method or an associated function.
    Item,
}

impl MemberKind {
    pub open spec fn code(self) -> u8 {
        match self {
            MemberKind::Field => 0,
            MemberKind::Variant => 1,
            MemberKind::Item => 2,
        }
    }

    pub fn from_u8(v: u8) -> (r: Option<MemberKind>)
        ensures
            r is Some <==> v < 3,
            r matches Some(k) ==> k.code() == v,
    {
        match v {
            0 => Some(MemberKind::Field),
            1 => Some(MemberKind::Variant),
            2 => Some(MemberKind::Item),
            _ => None,
        }
    }
}

/// A variant's payload shape.
#[derive(Clone, Copy, PartialEq, Eq, Structural, Debug)]
pub enum PayloadKind {
    /// A unit variant.
    Unit,
    /// `V(T, U)`: the types are in the member's argument list.
    Tuple,
    /// `V { a: T }`: the fields are a nested member list.
    Record,
}

impl PayloadKind {
    pub open spec fn code(self) -> u8 {
        match self {
            PayloadKind::Unit => 0,
            PayloadKind::Tuple => 1,
            PayloadKind::Record => 2,
        }
    }

    pub fn from_u8(v: u8) -> (r: Option<PayloadKind>)
        ensures
            r is Some <==> v < 3,
            r matches Some(k) ==> k.code() == v,
    {
        match v {
            0 => Some(PayloadKind::Unit),
            1 => Some(PayloadKind::Tuple),
            2 => Some(PayloadKind::Record),
            _ => None,
        }
    }
}

pub const VIS_PRIVATE: u8 = 0;
pub const VIS_PUBLIC: u8 = 1;

// ---------------------------------------------------------------------------
// Interned bound lists.

/// The salt that keeps bound-list keys apart from every other pool's keys.
pub const SALT_BOUNDS: u64 = 0x424f_554e_4453_0000u64;

/// Each trait reference id strictly below the next.
pub open spec fn strictly_increasing(s: Seq<TraitRefId>) -> bool {
    forall|i: int, j: int| 0 <= i < j < s.len() ==> s[i].0 < s[j].0
}

/// The raw ids of a bound list.
pub open spec fn raw_ids(s: Seq<TraitRefId>) -> Seq<u32> {
    s.map_values(|t: TraitRefId| t.0)
}

/// The table key of a bound list.
pub open spec fn bounds_key(s: Seq<TraitRefId>) -> u64 {
    spec_key_words(SALT_BOUNDS, s.len() as u64, widen(raw_ids(s)))
}

/// `s` is the canonical form of `bounds`: the same trait references, each
/// once, in increasing id order.
pub open spec fn canonical_bounds(s: Seq<TraitRefId>, bounds: Seq<TraitRefId>) -> bool {
    strictly_increasing(s) && s.to_set() == bounds.to_set()
}

/// Interned lists of trait references: a generic parameter's bounds, an
/// associated type's bounds, a constraint entry's bounds. A list is stored
/// sorted by id without repeats, so two bound lists naming the same trait
/// references in any order, with any repeats, share one id.
pub struct TraitRefLists {
    items: Vec<TraitRefId>,
    start: Vec<u32>,
    len: Vec<u16>,
    cons: ConsTable,
}

impl TraitRefLists {
    spec fn list(&self, i: int) -> Seq<TraitRefId> {
        self.items@.subrange(self.start@[i] as int, self.start@[i] + self.len@[i])
    }

    pub closed spec fn wf(&self) -> bool {
        &&& self.start@.len() == self.len@.len()
        &&& self.start@.len() <= u32::MAX
        &&& self.items@.len() <= u32::MAX
        &&& forall|i: int| 0 <= i < self.start@.len() ==> #[trigger] self.start@[i] + self.len@[i] <= self.items@.len()
        &&& self.cons.wf()
        &&& self.cons.spec_len() == self.start@.len()
        &&& forall|i: int| 0 <= i < self.start@.len() ==> #[trigger] self.cons.holds(bounds_key(self.list(i)), i as u32)
        &&& forall|k: u64, v: u32| #[trigger] self.cons.holds(k, v) ==> v < self.start@.len()
        &&& forall|i: int| 0 <= i < self.start@.len() ==> strictly_increasing(#[trigger] self.list(i))
        &&& forall|i: int, j: int| 0 <= i < j < self.start@.len() ==> #[trigger] self.list(i) != #[trigger] self.list(j)
    }

    /// How many trait references the stored lists hold in all.
    pub closed spec fn items_len(&self) -> nat {
        self.items@.len()
    }
}

impl View for TraitRefLists {
    type V = Seq<Seq<TraitRefId>>;

    /// The lists, in id order.
    closed spec fn view(&self) -> Seq<Seq<TraitRefId>> {
        Seq::new(self.start@.len(), |i: int| self.list(i))
    }
}

impl Default for TraitRefLists {
    /// A store with no list at all, not even the empty one.
    fn default() -> (t: TraitRefLists)
        ensures
            t.wf(),
            t@.len() == 0,
            t.items_len() == 0,
    {
        let t = TraitRefLists { items: Vec::new(), start: Vec::new(), len: Vec::new(), cons: ConsTable::new() };
        assert forall|k: u64, v: u32| #[trigger] t.cons.holds(k, v) implies v < t.start@.len() by {
            assert(t.cons@.contains((k, v)));
        }
        t
    }
}

/// Sorts and de-duplicates a bound list.
fn canonicalize_bounds(bounds: &[TraitRefId]) -> (r: Vec<TraitRefId>)
    ensures
        canonical_bounds(r@, bounds@),
{
    let mut out: Vec<TraitRefId> = Vec::new();
    let mut i: usize = 0;
    assert(bounds@.subrange(0, 0).to_set() =~= out@.to_set());
    while i < bounds.len()
        invariant
            i <= bounds@.len(),
            canonical_bounds(out@, bounds@.subrange(0, i as int)),
        decreases bounds@.len() - i,
    {
        let x = bounds[i];
        let mut p: usize = 0;
        while p < out.len() && out[p].0 < x.0
            invariant
                p <= out@.len(),
                forall|k: int| 0 <= k < p ==> out@[k].0 < x.0,
            decreases out@.len() - p,
        {
            p += 1;
        }
        let ghost before = out@;
        if p < out.len() && out[p].0 == x.0 {
            proof {
                assert(out@[p as int] == x);
                assert(bounds@.subrange(0, i + 1).to_set() =~= bounds@.subrange(0, i as int).to_set().insert(x)) by {
                    assert(bounds@.subrange(0, i + 1) =~= bounds@.subrange(0, i as int).push(x));
                    lemma_push_to_set(bounds@.subrange(0, i as int), x);
                }
                assert(out@.to_set() =~= out@.to_set().insert(x)) by {
                    assert(out@.contains(x));
                }
            }
        } else {
            out.insert(p, x);
            proof {
                assert(out@ =~= before.subrange(0, p as int).push(x) + before.subrange(p as int, before.len() as int));
                assert forall|a: int, b: int| 0 <= a < b < out@.len() implies out@[a].0 < out@[b].0 by {
                    if b < p {
                    } else if b == p {
                    } else if a < p {
                        assert(before[b - 1].0 >= x.0 || b - 1 >= p);
                        if p < before.len() {
                            assert(before[p as int].0 > x.0);
                            assert(before[p as int].0 <= before[b - 1].0 || p == b - 1);
                        }
                    } else if a == p {
                        assert(before[p as int].0 > x.0);
                        assert(before[p as int].0 <= before[b - 1].0 || p == b - 1);
                    } else {
                        assert(before[a - 1].0 < before[b - 1].0);
                    }
                }
                assert(bounds@.subrange(0, i + 1) =~= bounds@.subrange(0, i as int).push(x));
                lemma_push_to_set(bounds@.subrange(0, i as int), x);
                assert forall|y: TraitRefId| out@.to_set().contains(y) == before.to_set().insert(x).contains(y) by {
                    if out@.contains(y) {
                        let k = choose|k: int| 0 <= k < out@.len() && out@[k] == y;
                        if k < p {
                            assert(before[k] == y);
                        } else if k > p {
                            assert(before[k - 1] == y);
                        }
                    }
                    if before.contains(y) {
                        let k = choose|k: int| 0 <= k < before.len() && before[k] == y;
                        if k < p {
                            assert(out@[k] == y);
                        } else {
                            assert(out@[k + 1] == y);
                        }
                    }
                    if y == x {
                        assert(out@[p as int] == x);
                    }
                }
                assert(out@.to_set() =~= before.to_set().insert(x));
            }
        }
        i += 1;
    }
    assert(bounds@.subrange(0, i as int) =~= bounds@);
    out
}

proof fn lemma_push_to_set(s: Seq<TraitRefId>, x: TraitRefId)
    ensures
        s.push(x).to_set() == s.to_set().insert(x),
{
    assert forall|y: TraitRefId| s.push(x).to_set().contains(y) == s.to_set().insert(x).contains(y) by {
        if s.push(x).contains(y) {
            let k = choose|k: int| 0 <= k < s.push(x).len() && s.push(x)[k] == y;
            if k < s.len() {
                assert(s[k] == y);
            }
        }
        if s.contains(y) {
            let k = choose|k: int| 0 <= k < s.len() && s[k] == y;
            assert(s.push(x)[k] == y);
        }
        if y == x {
            assert(s.push(x)[s.len() as int] == x);
        }
    }
    assert(s.push(x).to_set() =~= s.to_set().insert(x));
}


/// Two canonical lists of the same trait references are the same list.
pub proof fn lemma_canonical_bounds_unique(a: Seq<TraitRefId>, b: Seq<TraitRefId>)
    requires
        strictly_increasing(a),
        strictly_increasing(b),
        a.to_set() == b.to_set(),
    ensures
        a == b,
    decreases a.len(),
{
    if a.len() == 0 {
        if b.len() > 0 {
            assert(b.to_set().contains(b[0]));
        }
        assert(a =~= b);
    } else {
        assert(a.to_set().contains(a[0]));
        assert(b.len() > 0) by {
            assert(b.contains(a[0]));
        }
        assert(a[0] == b[0]) by {
            assert(b.contains(a[0]));
            assert(a.contains(b[0])) by {
                assert(a.to_set().contains(b[0]));
            }
            let i = choose|i: int| 0 <= i < b.len() && b[i] == a[0];
            let j = choose|j: int| 0 <= j < a.len() && a[j] == b[0];
            if a[0] != b[0] {
                assert(i > 0 && j > 0);
                assert(b[0].0 < b[i].0);
                assert(a[0].0 < a[j].0);
            }
        }
        let a1 = a.drop_first();
        let b1 = b.drop_first();
        assert forall|y: TraitRefId| a1.to_set().contains(y) == b1.to_set().contains(y) by {
            if a1.contains(y) {
                let k = choose|k: int| 0 <= k < a1.len() && a1[k] == y;
                assert(a[k + 1] == y && y.0 > a[0].0);
                assert(b.contains(y)) by {
                    assert(a.contains(y));
                    assert(a.to_set().contains(y));
                }
                let m = choose|m: int| 0 <= m < b.len() && b[m] == y;
                assert(m > 0);
                assert(b1[m - 1] == y);
            }
            if b1.contains(y) {
                let k = choose|k: int| 0 <= k < b1.len() && b1[k] == y;
                assert(b[k + 1] == y && y.0 > b[0].0);
                assert(a.contains(y)) by {
                    assert(b.contains(y));
                    assert(b.to_set().contains(y));
                }
                let m = choose|m: int| 0 <= m < a.len() && a[m] == y;
                assert(m > 0);
                assert(a1[m - 1] == y);
            }
        }
        assert(a1.to_set() =~= b1.to_set());
        lemma_canonical_bounds_unique(a1, b1);
        assert(a =~= b) by {
            assert forall|k: int| 0 <= k < a.len() implies a[k] == b[k] by {
                if k > 0 {
                    assert(a1[k - 1] == b1[k - 1]);
                }
            }
        }
    }
}

/// Bound lists naming the same trait references, in any order and with any
/// repeats, intern to the same id of a table.
pub proof fn lemma_bound_lists_order_insensitive(
    t: TraitRefLists,
    a: Seq<TraitRefId>,
    b: Seq<TraitRefId>,
    ra: TraitRefListId,
    rb: TraitRefListId,
)
    requires
        t.wf(),
        ra.0 < t@.len(),
        rb.0 < t@.len(),
        canonical_bounds(t@[ra.0 as int], a),
        canonical_bounds(t@[rb.0 as int], b),
        a.to_set() == b.to_set(),
    ensures
        ra == rb,
{
    lemma_canonical_bounds_unique(t@[ra.0 as int], t@[rb.0 as int]);
    if ra.0 < rb.0 {
        assert(t.list(ra.0 as int) != t.list(rb.0 as int));
    } else if rb.0 < ra.0 {
        assert(t.list(rb.0 as int) != t.list(ra.0 as int));
    }
}

impl TraitRefLists {
    /// Id `v` names a list, and that list is `s`.
    pub open spec fn is_list(&self, v: u32, s: Seq<TraitRefId>) -> bool {
        v < self@.len() && self@[v as int] == s
    }

    /// Is list `v` exactly `s`? An id past the end is no list.
    fn has_list(&self, v: u32, s: &[TraitRefId]) -> (r: bool)
        requires
            self.wf(),
        ensures
            r == self.is_list(v, s@),
    {
        let k = v as usize;
        if k >= self.start.len() {
            return false;
        }
        let cur = self.get(TraitRefListId(v));
        if cur.len() != s.len() {
            return false;
        }
        let mut i: usize = 0;
        while i < cur.len()
            invariant
                cur@.len() == s@.len(),
                cur@ == self@[v as int],
                v < self@.len(),
                i <= cur@.len(),
                forall|j: int| 0 <= j < i ==> cur@[j] == s@[j],
            decreases cur@.len() - i,
        {
            if cur[i] != s[i] {
                return false;
            }
            i += 1;
        }
        assert(cur@ =~= s@);
        true
    }

    /// Interns `bounds` after sorting and de-duplicating them: the id of the
    /// stored list with the same trait references, or a new one.
    #[verifier::rlimit(60)]
    pub fn intern(&mut self, bounds: &[TraitRefId]) -> (r: TraitRefListId)
        requires
            old(self).wf(),
            old(self)@.len() < u32::MAX,
            old(self)@.len() < usize::MAX / 64,
            old(self).items_len() + bounds@.len() <= u32::MAX,
            bounds@.to_set().len() <= 0xFFFF,
        ensures
            final(self).wf(),
            r.0 < final(self)@.len(),
            canonical_bounds(final(self)@[r.0 as int], bounds@),
            final(self)@.subrange(0, old(self)@.len() as int) == old(self)@,
            final(self)@.len() <= old(self)@.len() + 1,
            final(self)@.len() == old(self)@.len() + 1 ==> r.0 == old(self)@.len(),
            final(self).items_len() <= old(self).items_len() + bounds@.len(),
    {
        let sorted = canonicalize_bounds(bounds);
        proof {
            sorted@.unique_seq_to_set();
            assert(sorted@.no_duplicates()) by {
                assert forall|i: int, j: int| 0 <= i < sorted@.len() && 0 <= j < sorted@.len() && i != j implies sorted@[i]
                    != sorted@[j] by {
                    if i < j {
                        assert(sorted@[i].0 < sorted@[j].0);
                    } else {
                        assert(sorted@[j].0 < sorted@[i].0);
                    }
                }
            }
            sorted@.unique_seq_to_set();
            bounds@.lemma_cardinality_of_set();
            assert(sorted@.len() <= bounds@.len());
        }
        let mut raw: Vec<u32> = Vec::new();
        let mut i: usize = 0;
        while i < sorted.len()
            invariant
                i <= sorted@.len(),
                raw@ == raw_ids(sorted@.subrange(0, i as int)),
            decreases sorted@.len() - i,
        {
            raw.push(sorted[i].0);
            assert(raw_ids(sorted@.subrange(0, i + 1)) =~= raw_ids(sorted@.subrange(0, i as int)).push(sorted@[i as int].0));
            i += 1;
        }
        assert(sorted@.subrange(0, i as int) =~= sorted@);
        let key = ConsTable::key_slice(SALT_BOUNDS, raw.as_slice());
        let same_list = |v: u32| -> (b: bool)
            ensures
                b == self.is_list(v, sorted@),
            { self.has_list(v, sorted.as_slice()) };
        let found = self.cons.lookup(key, same_list);
        match found {
            Some(id) => {
                return TraitRefListId(id);
            },
            None => {},
        }
        let ghost old_self = *self;
        proof {
            assert forall|i: int| 0 <= i < old_self.start@.len() implies #[trigger] old_self.list(i) != sorted@ by {
                if old_self.list(i) == sorted@ {
                    assert(old_self.cons.holds(bounds_key(old_self.list(i)), i as u32));
                    assert(old_self@[i] == old_self.list(i));
                }
            }
        }
        let id = TraitRefListId(self.start.len() as u32);
        self.start.push(self.items.len() as u32);
        self.len.push(sorted.len() as u16);
        let ghost pushed = *self;
        let mut j: usize = 0;
        while j < sorted.len()
            invariant
                j <= sorted@.len(),
                self.items@ == old_self.items@ + sorted@.subrange(0, j as int),
                self.start == pushed.start,
                self.len == pushed.len,
                self.cons == old_self.cons,
            decreases sorted@.len() - j,
        {
            self.items.push(sorted[j]);
            assert(sorted@.subrange(0, j + 1) =~= sorted@.subrange(0, j as int).push(sorted@[j as int]));
            j += 1;
        }
        proof {
            assert(sorted@.subrange(0, j as int) =~= sorted@);
            assert(bounds_key(sorted@) == key);
            assert(!self.cons@.contains((key, id.0)));
        }
        self.cons.insert(key, id.0);
        proof {
            lemma_pushed(old_self, *self, sorted@, key);
        }
        id
    }

    /// The list an id names.
    pub fn get(&self, id: TraitRefListId) -> (r: &[TraitRefId])
        requires
            self.wf(),
            id.0 < self@.len(),
        ensures
            r@ == self@[id.0 as int],
    {
        let s = self.start[id.0 as usize] as usize;
        let l = self.len[id.0 as usize] as usize;
        &self.items.as_slice()[s..s + l]
    }

    pub fn len(&self) -> (r: usize)
        ensures
            r == self@.len(),
    {
        self.start.len()
    }

    pub fn is_empty(&self) -> (r: bool)
        ensures
            r == (self@.len() == 0),
    {
        self.start.len() == 0
    }

    /// A store whose list 0 is the empty list, the absent bound list.
    pub fn new() -> (t: TraitRefLists)
        ensures
            t.wf(),
            t@.len() == 1,
            t@[no_bounds_id()] == Seq::<TraitRefId>::empty(),
            t.items_len() == 0,
    {
        let mut t = TraitRefLists::default();
        let empty: Vec<TraitRefId> = Vec::new();
        proof {
            assert(empty@.to_set() =~= Set::<TraitRefId>::empty());
        }
        let id = t.intern(empty.as_slice());
        proof {
            assert(empty@.to_set().len() == 0);
            if t@[id.0 as int].len() > 0 {
                assert(t@[id.0 as int].to_set().contains(t@[id.0 as int][0]));
            }
        }
        t
    }
}

/// The index of the absent bound list.
pub open spec fn no_bounds_id() -> int {
    0
}


proof fn lemma_pushed(old_t: TraitRefLists, t: TraitRefLists, sorted: Seq<TraitRefId>, key: u64)
    requires
        old_t.wf(),
        t.start@ == old_t.start@.push(old_t.items@.len() as u32),
        t.len@ == old_t.len@.push(sorted.len() as u16),
        t.items@ == old_t.items@ + sorted,
        sorted.len() <= 0xFFFF,
        old_t.items@.len() + sorted.len() <= u32::MAX,
        old_t.start@.len() < u32::MAX,
        strictly_increasing(sorted),
        key == bounds_key(sorted),
        t.cons.wf(),
        t.cons@ == old_t.cons@.insert((key, old_t.start@.len() as u32)),
        t.cons.spec_len() == old_t.cons.spec_len() + 1,
        forall|i: int| 0 <= i < old_t.start@.len() ==> #[trigger] old_t.list(i) != sorted,
    ensures
        t.wf(),
        t@ == old_t@.push(sorted),
{
    let n = old_t.start@.len() as int;
    assert forall|i: int| 0 <= i < n implies #[trigger] t.list(i) == old_t.list(i) by {
        assert(t.list(i) =~= old_t.list(i));
    }
    assert(t.list(n) =~= sorted);
    assert forall|i: int| 0 <= i < n + 1 implies #[trigger] t.start@[i] + t.len@[i] <= t.items@.len() by {
        if i < n {
            assert(old_t.start@[i] + old_t.len@[i] <= old_t.items@.len());
        }
    }
    assert forall|i: int| 0 <= i < n + 1 implies #[trigger] t.cons.holds(bounds_key(t.list(i)), i as u32) by {
        if i < n {
            assert(old_t.cons.holds(bounds_key(old_t.list(i)), i as u32));
            assert(t.cons@.contains((bounds_key(old_t.list(i)), i as u32)));
        } else {
            assert(t.cons@.contains((key, n as u32)));
        }
    }
    assert forall|k: u64, v: u32| #[trigger] t.cons.holds(k, v) implies v < n + 1 by {
        assert(t.cons@.contains((k, v)));
        if (k, v) != (key, n as u32) {
            assert(old_t.cons@.contains((k, v)));
            assert(old_t.cons.holds(k, v));
        }
    }
    assert forall|i: int| 0 <= i < n + 1 implies strictly_increasing(#[trigger] t.list(i)) by {
        if i < n {
            assert(strictly_increasing(old_t.list(i)));
        }
    }
    assert forall|i: int, j: int| 0 <= i < j < n + 1 implies #[trigger] t.list(i) != #[trigger] t.list(j) by {
        if j < n {
            assert(old_t.list(i) != old_t.list(j));
        } else {
            assert(old_t.list(i) != sorted);
        }
    }
    assert(t@ =~= old_t@.push(sorted));
}


// ---------------------------------------------------------------------------
// Constraint entries.

/// Lists of `(subject type, bound list)` constraint entries, one list per
/// declaration that has a `where`-style constraint block.
pub struct ConstraintStore {
    start: Vec<u32>,
    len: Vec<u16>,
    subject: Vec<TyId>,
    bounds: Vec<TraitRefListId>,
}

impl ConstraintStore {
    spec fn entries_of(&self, i: int) -> Seq<(TyId, TraitRefListId)> {
        Seq::new(
            self.len@[i] as nat,
            |k: int| (self.subject@[self.start@[i] + k], self.bounds@[self.start@[i] + k]),
        )
    }

    pub closed spec fn wf(&self) -> bool {
        &&& self.start@.len() == self.len@.len()
        &&& self.subject@.len() == self.bounds@.len()
        &&& self.start@.len() <= u32::MAX
        &&& self.subject@.len() <= u32::MAX
        &&& forall|i: int| 0 <= i < self.start@.len() ==> #[trigger] self.start@[i] + self.len@[i] <= self.subject@.len()
    }

    /// How many entries the lists hold in all.
    pub closed spec fn entries_len(&self) -> nat {
        self.subject@.len()
    }
}

impl View for ConstraintStore {
    type V = Seq<Seq<(TyId, TraitRefListId)>>;

    /// The constraint lists, in id order.
    closed spec fn view(&self) -> Seq<Seq<(TyId, TraitRefListId)>> {
        Seq::new(self.start@.len(), |i: int| self.entries_of(i))
    }
}

impl Default for ConstraintStore {
    /// A store with no list at all, not even the empty one.
    fn default() -> (c: ConstraintStore)
        ensures
            c.wf(),
            c@.len() == 0,
            c.entries_len() == 0,
    {
        ConstraintStore { start: Vec::new(), len: Vec::new(), subject: Vec::new(), bounds: Vec::new() }
    }
}

impl ConstraintStore {
    /// A store whose list 0 is the empty list, the absent constraint list.
    pub fn new() -> (c: ConstraintStore)
        ensures
            c.wf(),
            c@.len() == 1,
            c@[0] == Seq::<(TyId, TraitRefListId)>::empty(),
            c.entries_len() == 0,
    {
        let mut c = ConstraintStore::default();
        let empty: Vec<(TyId, TraitRefListId)> = Vec::new();
        c.push(empty.as_slice());
        c
    }

    /// Appends a list. Not interned: every declaration owns its own list.
    pub fn push(&mut self, entries: &[(TyId, TraitRefListId)]) -> (r: ConstraintListId)
        requires
            old(self).wf(),
            entries@.len() <= 0xFFFF,
            old(self)@.len() < u32::MAX,
            old(self).entries_len() + entries@.len() <= u32::MAX,
        ensures
            final(self).wf(),
            r.0 == old(self)@.len(),
            final(self)@ == old(self)@.push(entries@),
            final(self).entries_len() == old(self).entries_len() + entries@.len(),
    {
        let id = ConstraintListId(self.start.len() as u32);
        let ghost old_self = *self;
        self.start.push(self.subject.len() as u32);
        self.len.push(entries.len() as u16);
        let mut i: usize = 0;
        while i < entries.len()
            invariant
                i <= entries@.len(),
                self.start@ == old_self.start@.push(old_self.subject@.len() as u32),
                self.len@ == old_self.len@.push(entries@.len() as u16),
                self.subject@.len() == old_self.subject@.len() + i,
                self.bounds@.len() == old_self.bounds@.len() + i,
                self.subject@.subrange(0, old_self.subject@.len() as int) == old_self.subject@,
                self.bounds@.subrange(0, old_self.bounds@.len() as int) == old_self.bounds@,
                forall|k: int| 0 <= k < i ==> self.subject@[old_self.subject@.len() + k] == entries@[k].0
                    && self.bounds@[old_self.bounds@.len() + k] == entries@[k].1,
            decreases entries@.len() - i,
        {
            let (s, b) = entries[i];
            self.subject.push(s);
            self.bounds.push(b);
            proof {
                assert(self.subject@.subrange(0, old_self.subject@.len() as int) =~= old_self.subject@);
                assert(self.bounds@.subrange(0, old_self.bounds@.len() as int) =~= old_self.bounds@);
            }
            i += 1;
        }
        proof {
            let n = old_self.start@.len() as int;
            assert forall|x: int| 0 <= x < old_self.subject@.len() implies #[trigger] self.subject@[x] == old_self.subject@[x]
                && self.bounds@[x] == old_self.bounds@[x] by {
                assert(self.subject@.subrange(0, old_self.subject@.len() as int)[x] == self.subject@[x]);
                assert(self.bounds@.subrange(0, old_self.bounds@.len() as int)[x] == self.bounds@[x]);
            }
            assert forall|j: int| 0 <= j < n implies #[trigger] self.entries_of(j) == old_self.entries_of(j) by {
                assert(old_self.start@[j] + old_self.len@[j] <= old_self.subject@.len());
                assert(self.entries_of(j) =~= old_self.entries_of(j));
            }
            assert(self.entries_of(n) =~= entries@);
            assert forall|j: int| 0 <= j < n + 1 implies #[trigger] self.start@[j] + self.len@[j] <= self.subject@.len() by {
                if j < n {
                    assert(old_self.start@[j] + old_self.len@[j] <= old_self.subject@.len());
                }
            }
            assert(self@ =~= old_self@.push(entries@));
        }
        id
    }

    /// How many entries list `id` holds.
    pub fn count(&self, id: ConstraintListId) -> (r: usize)
        requires
            self.wf(),
            id.0 < self@.len(),
        ensures
            r == self@[id.0 as int].len(),
    {
        self.len[id.0 as usize] as usize
    }

    /// Entry `i` of list `id`.
    pub fn entry(&self, id: ConstraintListId, i: usize) -> (r: (TyId, TraitRefListId))
        requires
            self.wf(),
            id.0 < self@.len(),
            i < self@[id.0 as int].len(),
        ensures
            r == self@[id.0 as int][i as int],
    {
        let at = self.start[id.0 as usize] as usize + i;
        (self.subject[at], self.bounds[at])
    }

    pub fn len(&self) -> (r: usize)
        ensures
            r == self@.len(),
    {
        self.start.len()
    }

    pub fn is_empty(&self) -> (r: bool)
        ensures
            r == (self@.len() == 0),
    {
        self.start.len() == 0
    }
}

// ---------------------------------------------------------------------------
// Lists stored back to back.

/// Lists of `T` stored back to back: list `i` is the `len[i]` items from
/// `start[i]`. A list is appended whole and never changes afterwards.
pub struct ListPool<T> {
    start: Vec<u32>,
    len: Vec<u32>,
    items: Vec<T>,
}

impl<T: Copy> ListPool<T> {
    spec fn list(&self, i: int) -> Seq<T> {
        self.items@.subrange(self.start@[i] as int, self.start@[i] + self.len@[i])
    }

    pub closed spec fn wf(&self) -> bool {
        &&& self.start@.len() == self.len@.len()
        &&& self.start@.len() <= u32::MAX
        &&& self.items@.len() <= u32::MAX
        &&& forall|i: int| 0 <= i < self.start@.len() ==> #[trigger] self.start@[i] + self.len@[i] <= self.items@.len()
    }

    /// How many items the lists hold in all.
    pub closed spec fn items_len(&self) -> nat {
        self.items@.len()
    }
}

impl<T: Copy> View for ListPool<T> {
    type V = Seq<Seq<T>>;

    /// The lists, in id order.
    closed spec fn view(&self) -> Seq<Seq<T>> {
        Seq::new(self.start@.len(), |i: int| self.list(i))
    }
}

impl<T: Copy> ListPool<T> {
    pub fn new() -> (p: ListPool<T>)
        ensures
            p.wf(),
            p@ == Seq::<Seq<T>>::empty(),
            p.items_len() == 0,
    {
        let p = ListPool { start: Vec::new(), len: Vec::new(), items: Vec::new() };
        assert(p@ =~= Seq::<Seq<T>>::empty());
        p
    }

    /// Appends `xs` as a new list and returns its index.
    pub fn push(&mut self, xs: &[T]) -> (r: u32)
        requires
            old(self).wf(),
            old(self)@.len() < u32::MAX,
            old(self).items_len() + xs@.len() <= u32::MAX,
        ensures
            final(self).wf(),
            r == old(self)@.len(),
            final(self)@ == old(self)@.push(xs@),
            final(self).items_len() == old(self).items_len() + xs@.len(),
    {
        let ghost s0 = *self;
        let id = self.start.len() as u32;
        self.start.push(self.items.len() as u32);
        self.len.push(xs.len() as u32);
        let mut i: usize = 0;
        while i < xs.len()
            invariant
                i <= xs@.len(),
                self.start@ == s0.start@.push(s0.items@.len() as u32),
                self.len@ == s0.len@.push(xs@.len() as u32),
                self.items@ == s0.items@ + xs@.subrange(0, i as int),
            decreases xs@.len() - i,
        {
            self.items.push(xs[i]);
            i = i + 1;
            proof {
                assert(self.items@ =~= s0.items@ + xs@.subrange(0, i as int));
            }
        }
        proof {
            assert(self.items@ =~= s0.items@ + xs@);
            let n = s0.start@.len() as int;
            assert forall|j: int| 0 <= j < n implies #[trigger] self.list(j) == s0.list(j) by {
                assert(s0.start@[j] + s0.len@[j] <= s0.items@.len());
                assert(self.list(j) =~= s0.list(j));
            }
            assert(self.list(n) =~= xs@);
            assert forall|j: int| 0 <= j < n + 1 implies #[trigger] self.start@[j] + self.len@[j] <= self.items@.len() by {
                if j < n {
                    assert(s0.start@[j] + s0.len@[j] <= s0.items@.len());
                }
            }
            assert(self@ =~= s0@.push(xs@));
        }
        id
    }

    /// How many items list `id` holds.
    pub fn count(&self, id: u32) -> (r: usize)
        requires
            self.wf(),
            id < self@.len(),
        ensures
            r == self@[id as int].len(),
    {
        proof {
            assert(self.start@[id as int] + self.len@[id as int] <= self.items@.len());
        }
        self.len[id as usize] as usize
    }

    /// Item `i` of list `id`.
    pub fn get(&self, id: u32, i: usize) -> (r: T)
        requires
            self.wf(),
            id < self@.len(),
            i < self@[id as int].len(),
        ensures
            r == self@[id as int][i as int],
    {
        proof {
            assert(self.start@[id as int] + self.len@[id as int] <= self.items@.len());
        }
        self.items[self.start[id as usize] as usize + i]
    }

    pub fn len(&self) -> (r: usize)
        requires
            self.wf(),
        ensures
            r == self@.len(),
    {
        self.start.len()
    }
}

// ---------------------------------------------------------------------------
// Generic parameters.

/// The generics row of a declaration without generic parameters.
pub fn no_generics() -> (r: GenericsId)
    ensures
        r == GenericsId(0),
{
    GenericsId(0)
}

/// One generic parameter as callers build and read it.
#[derive(Clone, Copy, PartialEq, Eq, Structural, Debug)]
pub struct GParam {
    pub name: Symbol,
    pub kind: GParamKind,
    pub bounds: TraitRefListId,
}

/// A declaration's own generic parameters plus its constraint list.
pub struct GenericsStore {
    params: ListPool<GParam>,
    constraints: Vec<ConstraintListId>,
}

impl GenericsStore {
    pub closed spec fn wf(&self) -> bool {
        self.params.wf() && self.params@.len() == self.constraints@.len()
    }

    /// Each row's parameters, in id order.
    pub closed spec fn spec_params(&self) -> Seq<Seq<GParam>> {
        self.params@
    }

    /// Each row's constraint list, in id order.
    pub closed spec fn spec_constraints(&self) -> Seq<ConstraintListId> {
        self.constraints@
    }

    /// How many parameters the rows hold in all.
    pub closed spec fn params_len(&self) -> nat {
        self.params.items_len()
    }

    /// A store whose row 0 is the empty row with the empty constraint list.
    pub fn new() -> (g: GenericsStore)
        ensures
            g.wf(),
            g.spec_params() == seq![Seq::<GParam>::empty()],
            g.spec_constraints() == seq![ConstraintListId(0)],
            g.params_len() == 0,
    {
        let mut g = GenericsStore { params: ListPool::new(), constraints: Vec::new() };
        let none: Vec<GParam> = Vec::new();
        g.push(none.as_slice(), no_constraints());
        assert(g.spec_params() =~= seq![Seq::<GParam>::empty()]);
        assert(g.spec_constraints() =~= seq![ConstraintListId(0)]);
        g
    }

    /// Appends a generics row. Not interned: a declaration has exactly one,
    /// and two declarations that share a shape still own different
    /// parameters.
    pub fn push(&mut self, params: &[GParam], constraints: ConstraintListId) -> (r: GenericsId)
        requires
            old(self).wf(),
            params@.len() <= 0xFFFF,
            old(self).spec_params().len() < u32::MAX,
            old(self).params_len() + params@.len() <= u32::MAX,
        ensures
            final(self).wf(),
            r.0 == old(self).spec_params().len(),
            final(self).spec_params() == old(self).spec_params().push(params@),
            final(self).spec_constraints() == old(self).spec_constraints().push(constraints),
            final(self).params_len() == old(self).params_len() + params@.len(),
    {
        let id = self.params.push(params);
        self.constraints.push(constraints);
        GenericsId(id)
    }

    pub fn count(&self, id: GenericsId) -> (r: usize)
        requires
            self.wf(),
            id.0 < self.spec_params().len(),
        ensures
            r == self.spec_params()[id.0 as int].len(),
    {
        self.params.count(id.0)
    }

    /// Parameter `ordinal` of row `id`.
    pub fn param(&self, id: GenericsId, ordinal: usize) -> (r: GParam)
        requires
            self.wf(),
            id.0 < self.spec_params().len(),
            ordinal < self.spec_params()[id.0 as int].len(),
        ensures
            r == self.spec_params()[id.0 as int][ordinal as int],
    {
        self.params.get(id.0, ordinal)
    }

    pub fn constraints(&self, id: GenericsId) -> (r: ConstraintListId)
        requires
            self.wf(),
            id.0 < self.spec_params().len(),
        ensures
            r == self.spec_constraints()[id.0 as int],
    {
        self.constraints[id.0 as usize]
    }

    pub fn len(&self) -> (r: usize)
        requires
            self.wf(),
        ensures
            r == self.spec_params().len(),
    {
        self.params.len()
    }

    pub fn is_empty(&self) -> (r: bool)
        requires
            self.wf(),
        ensures
            r == (self.spec_params().len() == 0),
    {
        self.params.len() == 0
    }
}

// ---------------------------------------------------------------------------
// Function signatures.

/// The absent function signature.
pub fn no_fn_sig() -> (r: FnSigId)
    ensures
        r == FnSigId(0xFFFF_FFFFu32),
{
    FnSigId(0xFFFF_FFFFu32)
}

/// One value parameter. Its name is part of the signature: a named
/// argument's label is observable.
#[derive(Clone, Copy, PartialEq, Eq, Structural, Debug)]
pub struct Param {
    pub name: Symbol,
    pub conv: Conv,
    pub ty: TyId,
}

/// The per-signature columns besides the parameters.
#[derive(Clone, Copy, Debug)]
pub struct FnSigRow {
    pub result: TyId,
    /// The absent type for a non-raising signature.
    pub raises: TyId,
    /// [`NO_SLOT`], or the designated parameter index.
    pub scoped: u8,
    /// [`NO_SLOT`] for an associated function; else 0, and the receiver's
    /// convention is the first parameter's.
    pub receiver: u8,
    /// The contract clauses' node range, re-visited to check a clause in
    /// the declaration's own context.
    pub contract_nodes: (u32, u32),
    /// The contract clauses' token hash, which enters the signature encoding.
    pub contract_hash: u128,
}

pub struct FnSigStore {
    params: ListPool<Param>,
    rows: Vec<FnSigRow>,
}

impl FnSigStore {
    pub closed spec fn wf(&self) -> bool {
        self.params.wf() && self.params@.len() == self.rows@.len()
    }

    /// Each signature's parameters, in id order.
    pub closed spec fn spec_params(&self) -> Seq<Seq<Param>> {
        self.params@
    }

    /// Each signature's other columns, in id order.
    pub closed spec fn spec_rows(&self) -> Seq<FnSigRow> {
        self.rows@
    }

    /// How many parameters the signatures hold in all.
    pub closed spec fn params_len(&self) -> nat {
        self.params.items_len()
    }

    pub fn new() -> (f: FnSigStore)
        ensures
            f.wf(),
            f.spec_params().len() == 0,
            f.params_len() == 0,
    {
        FnSigStore { params: ListPool::new(), rows: Vec::new() }
    }

    pub fn push(
        &mut self,
        params: &[Param],
        result: TyId,
        raises: TyId,
        scoped: u8,
        receiver: u8,
        contract_nodes: (u32, u32),
        contract_hash: u128,
    ) -> (r: FnSigId)
        requires
            old(self).wf(),
            params@.len() <= 255,
            old(self).spec_params().len() < u32::MAX,
            old(self).params_len() + params@.len() <= u32::MAX,
        ensures
            final(self).wf(),
            r.0 == old(self).spec_params().len(),
            final(self).spec_params() == old(self).spec_params().push(params@),
            final(self).spec_rows() == old(self).spec_rows().push(
                FnSigRow { result, raises, scoped, receiver, contract_nodes, contract_hash },
            ),
            final(self).params_len() == old(self).params_len() + params@.len(),
    {
        let id = self.params.push(params);
        self.rows.push(FnSigRow { result, raises, scoped, receiver, contract_nodes, contract_hash });
        FnSigId(id)
    }

    pub fn count(&self, id: FnSigId) -> (r: usize)
        requires
            self.wf(),
            id.0 < self.spec_params().len(),
        ensures
            r == self.spec_params()[id.0 as int].len(),
    {
        self.params.count(id.0)
    }

    /// Parameter `i` of signature `id`.
    pub fn param(&self, id: FnSigId, i: usize) -> (r: Param)
        requires
            self.wf(),
            id.0 < self.spec_params().len(),
            i < self.spec_params()[id.0 as int].len(),
        ensures
            r == self.spec_params()[id.0 as int][i as int],
    {
        self.params.get(id.0, i)
    }

    pub fn result(&self, id: FnSigId) -> (r: TyId)
        requires
            self.wf(),
            id.0 < self.spec_rows().len(),
        ensures
            r == self.spec_rows()[id.0 as int].result,
    {
        self.rows[id.0 as usize].result
    }

    pub fn raises(&self, id: FnSigId) -> (r: TyId)
        requires
            self.wf(),
            id.0 < self.spec_rows().len(),
        ensures
            r == self.spec_rows()[id.0 as int].raises,
    {
        self.rows[id.0 as usize].raises
    }

    pub fn scoped(&self, id: FnSigId) -> (r: u8)
        requires
            self.wf(),
            id.0 < self.spec_rows().len(),
        ensures
            r == self.spec_rows()[id.0 as int].scoped,
    {
        self.rows[id.0 as usize].scoped
    }

    pub fn receiver(&self, id: FnSigId) -> (r: u8)
        requires
            self.wf(),
            id.0 < self.spec_rows().len(),
        ensures
            r == self.spec_rows()[id.0 as int].receiver,
    {
        self.rows[id.0 as usize].receiver
    }

    pub fn contract_nodes(&self, id: FnSigId) -> (r: (u32, u32))
        requires
            self.wf(),
            id.0 < self.spec_rows().len(),
        ensures
            r == self.spec_rows()[id.0 as int].contract_nodes,
    {
        self.rows[id.0 as usize].contract_nodes
    }

    pub fn contract_hash(&self, id: FnSigId) -> (r: u128)
        requires
            self.wf(),
            id.0 < self.spec_rows().len(),
        ensures
            r == self.spec_rows()[id.0 as int].contract_hash,
    {
        self.rows[id.0 as usize].contract_hash
    }

    pub fn len(&self) -> (r: usize)
        requires
            self.wf(),
        ensures
            r == self.spec_rows().len(),
    {
        self.rows.len()
    }

    pub fn is_empty(&self) -> (r: bool)
        requires
            self.wf(),
        ensures
            r == (self.spec_rows().len() == 0),
    {
        self.rows.len() == 0
    }
}

// ---------------------------------------------------------------------------
// Members.

/// The empty member list, pushed first so its id is always 0.
pub fn no_members() -> (r: MemberListId)
    ensures
        r == MemberListId(0),
{
    MemberListId(0)
}

/// One member as callers build and read it. Which columns matter depends on
/// `kind`: a field uses `name`, `vis` and `ty`; a variant uses `name` and
/// `payload` plus `args` (tuple) or `sub` (record); an item uses `name`,
/// `vis` and `def`.
#[derive(Clone, Copy, PartialEq, Eq, Structural, Debug)]
pub struct Member {
    pub kind: MemberKind,
    pub name: Symbol,
    pub vis: u8,
    pub ty: TyId,
    pub payload: PayloadKind,
    pub args: ArgsId,
    pub sub: MemberListId,
    pub def: DefId,
}

impl Member {
    pub fn field(name: Symbol, vis: u8, ty: TyId) -> (m: Member)
        ensures
            m == (Member {
                kind: MemberKind::Field,
                name,
                vis,
                ty,
                payload: PayloadKind::Unit,
                args: ArgsId(0),
                sub: MemberListId(0),
                def: DefId(0xFFFF_FFFFu32),
            }),
    {
        Member {
            kind: MemberKind::Field,
            name,
            vis,
            ty,
            payload: PayloadKind::Unit,
            args: no_args(),
            sub: no_members(),
            def: no_def(),
        }
    }

    pub fn item(name: Symbol, vis: u8, def: DefId) -> (m: Member)
        ensures
            m == (Member {
                kind: MemberKind::Item,
                name,
                vis,
                ty: TyId(0xFFFF_FFFFu32),
                payload: PayloadKind::Unit,
                args: ArgsId(0),
                sub: MemberListId(0),
                def,
            }),
    {
        Member {
            kind: MemberKind::Item,
            name,
            vis,
            ty: no_ty(),
            payload: PayloadKind::Unit,
            args: no_args(),
            sub: no_members(),
            def,
        }
    }

    pub fn unit_variant(name: Symbol) -> (m: Member)
        ensures
            m == (Member {
                kind: MemberKind::Variant,
                name,
                vis: VIS_PUBLIC,
                ty: TyId(0xFFFF_FFFFu32),
                payload: PayloadKind::Unit,
                args: ArgsId(0),
                sub: MemberListId(0),
                def: DefId(0xFFFF_FFFFu32),
            }),
    {
        Member {
            kind: MemberKind::Variant,
            name,
            vis: VIS_PUBLIC,
            ty: no_ty(),
            payload: PayloadKind::Unit,
            args: no_args(),
            sub: no_members(),
            def: no_def(),
        }
    }

    pub fn tuple_variant(name: Symbol, args: ArgsId) -> (m: Member)
        ensures
            m == (Member { payload: PayloadKind::Tuple, args, ..Member::spec_unit_variant(name) }),
    {
        Member { payload: PayloadKind::Tuple, args, ..Member::unit_variant(name) }
    }

    pub fn record_variant(name: Symbol, sub: MemberListId) -> (m: Member)
        ensures
            m == (Member { payload: PayloadKind::Record, sub, ..Member::spec_unit_variant(name) }),
    {
        Member { payload: PayloadKind::Record, sub, ..Member::unit_variant(name) }
    }

    /// The unit variant `unit_variant` builds.
    pub open spec fn spec_unit_variant(name: Symbol) -> Member {
        Member {
            kind: MemberKind::Variant,
            name,
            vis: VIS_PUBLIC,
            ty: TyId(0xFFFF_FFFFu32),
            payload: PayloadKind::Unit,
            args: ArgsId(0),
            sub: MemberListId(0),
            def: DefId(0xFFFF_FFFFu32),
        }
    }
}

/// A flat pool of member lists. Order is significant and never sorted: a
/// struct's field order is its layout and an enum's variant order is its
/// discriminants.
pub struct MemberStore {
    lists: ListPool<Member>,
}

impl MemberStore {
    pub closed spec fn wf(&self) -> bool {
        self.lists.wf()
    }

    /// The member lists, in id order.
    pub closed spec fn spec_lists(&self) -> Seq<Seq<Member>> {
        self.lists@
    }

    /// How many members the lists hold in all.
    pub closed spec fn members_len(&self) -> nat {
        self.lists.items_len()
    }

    /// A store whose list 0 is the empty list.
    pub fn new() -> (m: MemberStore)
        ensures
            m.wf(),
            m.spec_lists() == seq![Seq::<Member>::empty()],
            m.members_len() == 0,
    {
        let mut m = MemberStore { lists: ListPool::new() };
        let none: Vec<Member> = Vec::new();
        m.push(none.as_slice());
        assert(m.spec_lists() =~= seq![Seq::<Member>::empty()]);
        m
    }

    pub fn push(&mut self, members: &[Member]) -> (r: MemberListId)
        requires
            old(self).wf(),
            old(self).spec_lists().len() < u32::MAX,
            old(self).members_len() + members@.len() <= u32::MAX,
        ensures
            final(self).wf(),
            r.0 == old(self).spec_lists().len(),
            final(self).spec_lists() == old(self).spec_lists().push(members@),
            final(self).members_len() == old(self).members_len() + members@.len(),
    {
        MemberListId(self.lists.push(members))
    }

    pub fn count(&self, id: MemberListId) -> (r: usize)
        requires
            self.wf(),
            id.0 < self.spec_lists().len(),
        ensures
            r == self.spec_lists()[id.0 as int].len(),
    {
        self.lists.count(id.0)
    }

    /// Member `i` of list `id`.
    pub fn get(&self, id: MemberListId, i: usize) -> (r: Member)
        requires
            self.wf(),
            id.0 < self.spec_lists().len(),
            i < self.spec_lists()[id.0 as int].len(),
        ensures
            r == self.spec_lists()[id.0 as int][i as int],
    {
        self.lists.get(id.0, i)
    }

    pub fn len(&self) -> (r: usize)
        requires
            self.wf(),
        ensures
            r == self.spec_lists().len(),
    {
        self.lists.len()
    }

    pub fn is_empty(&self) -> (r: bool)
        requires
            self.wf(),
        ensures
            r == (self.spec_lists().len() == 0),
    {
        self.lists.len() == 0
    }
}

// ---------------------------------------------------------------------------
// Associated types.

/// The empty associated-item list, pushed first so its id is always 0.
pub fn no_assoc() -> (r: AssocListId)
    ensures
        r == AssocListId(0),
{
    AssocListId(0)
}

/// A trait's associated-type declaration (`bounds` set, `rhs` absent) or an
/// impl's definition (`rhs` set, `bounds` empty).
#[derive(Clone, Copy, PartialEq, Eq, Structural, Debug)]
pub struct Assoc {
    pub name: Symbol,
    pub bounds: TraitRefListId,
    pub rhs: TyId,
}

/// The right-hand side the first entry of `es` named `name` gives, or the
/// absent type.
pub open spec fn rhs_in(es: Seq<Assoc>, name: Symbol, i: int) -> TyId
    decreases es.len() - i,
{
    if i < 0 || i >= es.len() {
        TyId(0xFFFF_FFFFu32)
    } else if es[i].name == name {
        es[i].rhs
    } else {
        rhs_in(es, name, i + 1)
    }
}

pub struct AssocStore {
    lists: ListPool<Assoc>,
}

impl AssocStore {
    pub closed spec fn wf(&self) -> bool {
        self.lists.wf()
    }

    /// The associated-item lists, in id order.
    pub closed spec fn spec_lists(&self) -> Seq<Seq<Assoc>> {
        self.lists@
    }

    /// How many entries the lists hold in all.
    pub closed spec fn entries_len(&self) -> nat {
        self.lists.items_len()
    }

    /// A store whose list 0 is the empty list.
    pub fn new() -> (a: AssocStore)
        ensures
            a.wf(),
            a.spec_lists() == seq![Seq::<Assoc>::empty()],
            a.entries_len() == 0,
    {
        let mut a = AssocStore { lists: ListPool::new() };
        let none: Vec<Assoc> = Vec::new();
        a.push(none.as_slice());
        assert(a.spec_lists() =~= seq![Seq::<Assoc>::empty()]);
        a
    }

    pub fn push(&mut self, entries: &[Assoc]) -> (r: AssocListId)
        requires
            old(self).wf(),
            entries@.len() <= 0xFFFF,
            old(self).spec_lists().len() < u32::MAX,
            old(self).entries_len() + entries@.len() <= u32::MAX,
        ensures
            final(self).wf(),
            r.0 == old(self).spec_lists().len(),
            final(self).spec_lists() == old(self).spec_lists().push(entries@),
            final(self).entries_len() == old(self).entries_len() + entries@.len(),
    {
        AssocListId(self.lists.push(entries))
    }

    pub fn count(&self, id: AssocListId) -> (r: usize)
        requires
            self.wf(),
            id.0 < self.spec_lists().len(),
        ensures
            r == self.spec_lists()[id.0 as int].len(),
    {
        self.lists.count(id.0)
    }

    /// Entry `i` of list `id`.
    pub fn get(&self, id: AssocListId, i: usize) -> (r: Assoc)
        requires
            self.wf(),
            id.0 < self.spec_lists().len(),
            i < self.spec_lists()[id.0 as int].len(),
        ensures
            r == self.spec_lists()[id.0 as int][i as int],
    {
        self.lists.get(id.0, i)
    }

    /// The right-hand side an impl gives `name`, or the absent type.
    pub fn rhs_of(&self, id: AssocListId, name: Symbol) -> (r: TyId)
        requires
            self.wf(),
            id.0 < self.spec_lists().len(),
        ensures
            r == rhs_in(self.spec_lists()[id.0 as int], name, 0),
    {
        let n = self.count(id);
        let ghost es = self.spec_lists()[id.0 as int];
        let mut i: usize = 0;
        while i < n
            invariant
                self.wf(),
                id.0 < self.spec_lists().len(),
                es == self.spec_lists()[id.0 as int],
                n == es.len(),
                i <= n,
                rhs_in(es, name, 0) == rhs_in(es, name, i as int),
            decreases n - i,
        {
            let e = self.get(id, i);
            if e.name == name {
                return e.rhs;
            }
            i = i + 1;
        }
        no_ty()
    }

    pub fn len(&self) -> (r: usize)
        requires
            self.wf(),
        ensures
            r == self.spec_lists().len(),
    {
        self.lists.len()
    }

    pub fn is_empty(&self) -> (r: bool)
        requires
            self.wf(),
        ensures
            r == (self.spec_lists().len() == 0),
    {
        self.lists.len() == 0
    }
}

// ---------------------------------------------------------------------------
// The signature table.

/// A `soa`-marked struct: the struct-of-arrays layout modifier.
pub const SIG_SOA: u8 = 1;

/// The `trait_ref` of a declaration that is not an impl.
pub fn no_trait_ref() -> (r: TraitRefId)
    ensures
        r == TraitRefId(0xFFFF_FFFFu32),
{
    TraitRefId(0xFFFF_FFFFu32)
}

/// One declaration's row: its kind, flags and the ids of what its kind uses.
#[derive(Clone, Copy, Debug)]
pub struct SigRow {
    pub kind: SigKind,
    pub flags: u8,
    pub generics: GenericsId,
    pub fn_sig: FnSigId,
    pub members: MemberListId,
    pub self_ty: TyId,
    pub trait_ref: TraitRefId,
    pub assoc: AssocListId,
    pub const_ty: TyId,
    pub const_val: ConstId,
    /// The canonical signature hash: derived, filled after lowering.
    pub sig_hash: u128,
}

/// A fresh row of `kind`: every column holds its absent value.
pub open spec fn empty_row(kind: SigKind) -> SigRow {
    SigRow {
        kind,
        flags: 0,
        generics: GenericsId(0),
        fn_sig: FnSigId(0xFFFF_FFFFu32),
        members: MemberListId(0),
        self_ty: TyId(0xFFFF_FFFFu32),
        trait_ref: TraitRefId(0xFFFF_FFFFu32),
        assoc: AssocListId(0),
        const_ty: TyId(0xFFFF_FFFFu32),
        const_val: ConstId(0xFFFF_FFFFu32),
        sig_hash: 0,
    }
}

/// The signatures of a build, one row per declaration, indexed by its id,
/// with the pools the rows point into.
pub struct SigStore {
    pub rows: Vec<SigRow>,
    pub generics_store: GenericsStore,
    pub fn_sigs: FnSigStore,
    pub member_store: MemberStore,
    pub assocs: AssocStore,
    pub constraints: ConstraintStore,
    pub bounds: TraitRefLists,
}

impl SigStore {
    /// The rows, in id order.
    pub open spec fn spec_rows(&self) -> Seq<SigRow> {
        self.rows@
    }

    /// Only the rows may differ.
    pub open spec fn same_pools(a: &SigStore, b: &SigStore) -> bool {
        &&& b.generics_store == a.generics_store
        &&& b.fn_sigs == a.fn_sigs
        &&& b.member_store == a.member_store
        &&& b.assocs == a.assocs
        &&& b.constraints == a.constraints
        &&& b.bounds == a.bounds
    }

    /// A table with no declaration, whose pools hold only their empty lists.
    pub fn new() -> (s: SigStore)
        ensures
            s.spec_rows().len() == 0,
            s.generics_store.wf(),
            s.generics_store.spec_params() == seq![Seq::<GParam>::empty()],
            s.fn_sigs.wf(),
            s.fn_sigs.spec_params().len() == 0,
            s.member_store.wf(),
            s.member_store.spec_lists() == seq![Seq::<Member>::empty()],
            s.assocs.wf(),
            s.assocs.spec_lists() == seq![Seq::<Assoc>::empty()],
            s.constraints.wf(),
            s.constraints@ == seq![Seq::<(TyId, TraitRefListId)>::empty()],
            s.bounds.wf(),
            s.bounds@.len() == 1,
            s.bounds@[0] == Seq::<TraitRefId>::empty(),
            s.bounds.items_len() == 0,
            s.generics_store.params_len() == 0,
            s.fn_sigs.params_len() == 0,
            s.member_store.members_len() == 0,
            s.assocs.entries_len() == 0,
            s.constraints.entries_len() == 0,
    {
        let s = SigStore {
            rows: Vec::new(),
            generics_store: GenericsStore::new(),
            fn_sigs: FnSigStore::new(),
            member_store: MemberStore::new(),
            assocs: AssocStore::new(),
            constraints: ConstraintStore::new(),
            bounds: TraitRefLists::new(),
        };
        assert(s.constraints@ =~= seq![Seq::<(TyId, TraitRefListId)>::empty()]);
        s
    }

    /// Appends an empty row of `kind` and returns its id. Callers fill the
    /// columns that `kind` uses; the rest keep their absent values.
    pub fn push(&mut self, kind: SigKind) -> (def: DefId)
        requires
            old(self).spec_rows().len() < u32::MAX,
        ensures
            def.0 == old(self).spec_rows().len(),
            final(self).spec_rows() == old(self).spec_rows().push(empty_row(kind)),
            SigStore::same_pools(old(self), final(self)),
    {
        let def = DefId(self.rows.len() as u32);
        self.rows.push(
            SigRow {
                kind,
                flags: 0,
                generics: no_generics(),
                fn_sig: no_fn_sig(),
                members: no_members(),
                self_ty: no_ty(),
                trait_ref: no_trait_ref(),
                assoc: no_assoc(),
                const_ty: no_ty(),
                const_val: no_const(),
                sig_hash: 0,
            },
        );
        def
    }

    pub fn len(&self) -> (r: usize)
        ensures
            r == self.spec_rows().len(),
    {
        self.rows.len()
    }

    pub fn is_empty(&self) -> (r: bool)
        ensures
            r == (self.spec_rows().len() == 0),
    {
        self.rows.len() == 0
    }

    pub fn kind(&self, def: DefId) -> (r: SigKind)
        requires
            def.0 < self.spec_rows().len(),
        ensures
            r == self.spec_rows()[def.0 as int].kind,
    {
        self.rows[def.0 as usize].kind
    }

    pub fn set_kind(&mut self, def: DefId, kind: SigKind)
        requires
            def.0 < old(self).spec_rows().len(),
        ensures
            final(self).spec_rows() == old(self).spec_rows().update(
                def.0 as int,
                SigRow { kind, ..old(self).spec_rows()[def.0 as int] },
            ),
            SigStore::same_pools(old(self), final(self)),
    {
        let mut row = self.rows[def.0 as usize];
        row.kind = kind;
        self.rows.set(def.0 as usize, row);
    }

    pub fn flags(&self, def: DefId) -> (r: u8)
        requires
            def.0 < self.spec_rows().len(),
        ensures
            r == self.spec_rows()[def.0 as int].flags,
    {
        self.rows[def.0 as usize].flags
    }

    pub fn is_soa(&self, def: DefId) -> (r: bool)
        requires
            def.0 < self.spec_rows().len(),
        ensures
            r == (self.spec_rows()[def.0 as int].flags & SIG_SOA != 0),
    {
        self.rows[def.0 as usize].flags & SIG_SOA != 0
    }

    pub fn set_soa(&mut self, def: DefId, soa: bool)
        requires
            def.0 < old(self).spec_rows().len(),
        ensures
            final(self).spec_rows() == old(self).spec_rows().update(
                def.0 as int,
                SigRow {
                    flags: if soa {
                        old(self).spec_rows()[def.0 as int].flags | SIG_SOA
                    } else {
                        old(self).spec_rows()[def.0 as int].flags & !SIG_SOA
                    },
                    ..old(self).spec_rows()[def.0 as int]
                },
            ),
            SigStore::same_pools(old(self), final(self)),
    {
        let mut row = self.rows[def.0 as usize];
        if soa {
            row.flags = row.flags | SIG_SOA;
        } else {
            row.flags = row.flags & !SIG_SOA;
        }
        self.rows.set(def.0 as usize, row);
    }

    pub fn generics(&self, def: DefId) -> (r: GenericsId)
        requires
            def.0 < self.spec_rows().len(),
        ensures
            r == self.spec_rows()[def.0 as int].generics,
    {
        self.rows[def.0 as usize].generics
    }

    pub fn set_generics(&mut self, def: DefId, g: GenericsId)
        requires
            def.0 < old(self).spec_rows().len(),
        ensures
            final(self).spec_rows() == old(self).spec_rows().update(
                def.0 as int,
                SigRow { generics: g, ..old(self).spec_rows()[def.0 as int] },
            ),
            SigStore::same_pools(old(self), final(self)),
    {
        let mut row = self.rows[def.0 as usize];
        row.generics = g;
        self.rows.set(def.0 as usize, row);
    }

    pub fn fn_sig(&self, def: DefId) -> (r: FnSigId)
        requires
            def.0 < self.spec_rows().len(),
        ensures
            r == self.spec_rows()[def.0 as int].fn_sig,
    {
        self.rows[def.0 as usize].fn_sig
    }

    pub fn set_fn_sig(&mut self, def: DefId, f: FnSigId)
        requires
            def.0 < old(self).spec_rows().len(),
        ensures
            final(self).spec_rows() == old(self).spec_rows().update(
                def.0 as int,
                SigRow { fn_sig: f, ..old(self).spec_rows()[def.0 as int] },
            ),
            SigStore::same_pools(old(self), final(self)),
    {
        let mut row = self.rows[def.0 as usize];
        row.fn_sig = f;
        self.rows.set(def.0 as usize, row);
    }

    pub fn members(&self, def: DefId) -> (r: MemberListId)
        requires
            def.0 < self.spec_rows().len(),
        ensures
            r == self.spec_rows()[def.0 as int].members,
    {
        self.rows[def.0 as usize].members
    }

    pub fn set_members(&mut self, def: DefId, m: MemberListId)
        requires
            def.0 < old(self).spec_rows().len(),
        ensures
            final(self).spec_rows() == old(self).spec_rows().update(
                def.0 as int,
                SigRow { members: m, ..old(self).spec_rows()[def.0 as int] },
            ),
            SigStore::same_pools(old(self), final(self)),
    {
        let mut row = self.rows[def.0 as usize];
        row.members = m;
        self.rows.set(def.0 as usize, row);
    }

    pub fn self_ty(&self, def: DefId) -> (r: TyId)
        requires
            def.0 < self.spec_rows().len(),
        ensures
            r == self.spec_rows()[def.0 as int].self_ty,
    {
        self.rows[def.0 as usize].self_ty
    }

    pub fn set_self_ty(&mut self, def: DefId, t: TyId)
        requires
            def.0 < old(self).spec_rows().len(),
        ensures
            final(self).spec_rows() == old(self).spec_rows().update(
                def.0 as int,
                SigRow { self_ty: t, ..old(self).spec_rows()[def.0 as int] },
            ),
            SigStore::same_pools(old(self), final(self)),
    {
        let mut row = self.rows[def.0 as usize];
        row.self_ty = t;
        self.rows.set(def.0 as usize, row);
    }

    pub fn trait_ref(&self, def: DefId) -> (r: TraitRefId)
        requires
            def.0 < self.spec_rows().len(),
        ensures
            r == self.spec_rows()[def.0 as int].trait_ref,
    {
        self.rows[def.0 as usize].trait_ref
    }

    pub fn set_trait_ref(&mut self, def: DefId, tr: TraitRefId)
        requires
            def.0 < old(self).spec_rows().len(),
        ensures
            final(self).spec_rows() == old(self).spec_rows().update(
                def.0 as int,
                SigRow { trait_ref: tr, ..old(self).spec_rows()[def.0 as int] },
            ),
            SigStore::same_pools(old(self), final(self)),
    {
        let mut row = self.rows[def.0 as usize];
        row.trait_ref = tr;
        self.rows.set(def.0 as usize, row);
    }

    pub fn assoc(&self, def: DefId) -> (r: AssocListId)
        requires
            def.0 < self.spec_rows().len(),
        ensures
            r == self.spec_rows()[def.0 as int].assoc,
    {
        self.rows[def.0 as usize].assoc
    }

    pub fn set_assoc(&mut self, def: DefId, a: AssocListId)
        requires
            def.0 < old(self).spec_rows().len(),
        ensures
            final(self).spec_rows() == old(self).spec_rows().update(
                def.0 as int,
                SigRow { assoc: a, ..old(self).spec_rows()[def.0 as int] },
            ),
            SigStore::same_pools(old(self), final(self)),
    {
        let mut row = self.rows[def.0 as usize];
        row.assoc = a;
        self.rows.set(def.0 as usize, row);
    }

    pub fn const_ty(&self, def: DefId) -> (r: TyId)
        requires
            def.0 < self.spec_rows().len(),
        ensures
            r == self.spec_rows()[def.0 as int].const_ty,
    {
        self.rows[def.0 as usize].const_ty
    }

    pub fn const_val(&self, def: DefId) -> (r: ConstId)
        requires
            def.0 < self.spec_rows().len(),
        ensures
            r == self.spec_rows()[def.0 as int].const_val,
    {
        self.rows[def.0 as usize].const_val
    }

    pub fn set_const(&mut self, def: DefId, ty: TyId, val: ConstId)
        requires
            def.0 < old(self).spec_rows().len(),
        ensures
            final(self).spec_rows() == old(self).spec_rows().update(
                def.0 as int,
                SigRow { const_ty: ty, const_val: val, ..old(self).spec_rows()[def.0 as int] },
            ),
            SigStore::same_pools(old(self), final(self)),
    {
        let mut row = self.rows[def.0 as usize];
        row.const_ty = ty;
        row.const_val = val;
        self.rows.set(def.0 as usize, row);
    }

    pub fn sig_hash(&self, def: DefId) -> (r: u128)
        requires
            def.0 < self.spec_rows().len(),
        ensures
            r == self.spec_rows()[def.0 as int].sig_hash,
    {
        self.rows[def.0 as usize].sig_hash
    }

    pub fn set_sig_hash(&mut self, def: DefId, h: u128)
        requires
            def.0 < old(self).spec_rows().len(),
        ensures
            final(self).spec_rows() == old(self).spec_rows().update(
                def.0 as int,
                SigRow { sig_hash: h, ..old(self).spec_rows()[def.0 as int] },
            ),
            SigStore::same_pools(old(self), final(self)),
    {
        let mut row = self.rows[def.0 as usize];
        row.sig_hash = h;
        self.rows.set(def.0 as usize, row);
    }
}

impl Default for SigStore {
    fn default() -> (s: SigStore)
        ensures
            s.spec_rows().len() == 0,
    {
        SigStore::new()
    }
}

} // verus!
