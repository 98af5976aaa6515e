//! Substitution and the one-way match.
//!
//! `one_way_match(P, A)` walks `P` and `A` in lockstep. An unbound parameter
//! of one of the binding's owners, met in `P`, binds to the facing subterm of
//! `A`; a bound parameter or any constructor must equal it; a subterm of `P`
//! that is a projection on a still-unbound parameter faces anything, binds
//! nothing and is not compared; nothing in `A` is ever bound.
//!
//! `subst_norm` replaces bound parameters and re-interns. Its first act is one
//! load of the flags byte: a monomorphic type is returned unchanged without
//! touching a memo, a pool or the heap.

use std::collections::HashMap;

use vstd::prelude::*;

use crate::fir::cons::fold_mix;
use crate::fir::sig::Conv;
use crate::fir::ty::{
    extends, ids_below, ids_ok, lemma_equal_rows_are_one_id, lemma_grows_trans, lemma_no_quals_consistent,
    lemma_or_flags_covers, lemma_row_columns, no_ty, or_flags, rigid_at, unqualified, ArgsId, BrandId, BrandRow, ConstId, FnTyId, ProjKeyId,
    Quals, TraitRefId, TyId, TyKey, TyStore, TyTag, TyUniverse, F_BRAND, F_OPEN, F_PROJ,
};
use crate::index::{spec_splitmix64, splitmix64, DefId};

verus! {

/// One owner's slice of the slot vector.
#[derive(Clone, Copy, Debug)]
struct OwnerSlots {
    owner: DefId,
    start: u32,
    len: u16,
}

/// The parameter bindings of one call or one impl selection: for each owner,
/// in the order they are visited, one slot per own generic parameter.
#[derive(Clone, Debug)]
pub struct Binding {
    owners: Vec<OwnerSlots>,
    slots: Vec<TyId>,
}

/// The number of slots the first `i` owners take.
pub open spec fn slots_before(lens: Seq<u16>, i: int) -> nat
    decreases i,
{
    if i <= 0 {
        0
    } else {
        slots_before(lens, i - 1) + lens[i - 1] as nat
    }
}

/// The first owner at or after `i` that is `owner`.
pub open spec fn find_owner(owners: Seq<DefId>, owner: DefId, i: int) -> Option<int>
    decreases owners.len() - i,
{
    if i < 0 || i >= owners.len() {
        None
    } else if owners[i] == owner {
        Some(i)
    } else {
        find_owner(owners, owner, i + 1)
    }
}

impl Binding {
    /// The owners, in visiting order.
    pub closed spec fn owner_ids(&self) -> Seq<DefId> {
        self.owners@.map_values(|o: OwnerSlots| o.owner)
    }

    /// How many own parameters each owner has.
    pub closed spec fn owner_lens(&self) -> Seq<u16> {
        self.owners@.map_values(|o: OwnerSlots| o.len)
    }

    /// The slots, owner by owner.
    pub closed spec fn spec_slots(&self) -> Seq<TyId> {
        self.slots@
    }

    pub closed spec fn wf(&self) -> bool {
        &&& forall|i: int|
            0 <= i < self.owners@.len() ==> (#[trigger] self.owners@[i]).start == slots_before(
                self.owner_lens(),
                i,
            )
        &&& self.slots@.len() == slots_before(self.owner_lens(), self.owners@.len() as int)
        &&& self.slots@.len() <= u32::MAX
    }

    /// Whether `owner` is one of the binding's owners.
    pub open spec fn spec_owns(&self, owner: DefId) -> bool {
        self.owner_ids().contains(owner)
    }

    /// The slot of parameter `ordinal` of `owner`: the first such owner's.
    pub open spec fn spec_at(&self, owner: DefId, ordinal: u16) -> Option<int> {
        match find_owner(self.owner_ids(), owner, 0) {
            Some(i) => if ordinal < self.owner_lens()[i] {
                Some(slots_before(self.owner_lens(), i) + ordinal)
            } else {
                None
            },
            None => None,
        }
    }

    /// The bound type, or the absent type when the slot is unbound or not
    /// one of this binding's.
    pub open spec fn spec_slot(&self, owner: DefId, ordinal: u16) -> TyId {
        match self.spec_at(owner, ordinal) {
            Some(i) => self.spec_slots()[i],
            None => TyId(0xFFFF_FFFFu32),
        }
    }
}

proof fn lemma_slots_before_mono(lens: Seq<u16>, i: int, j: int)
    requires
        0 <= i <= j <= lens.len(),
    ensures
        slots_before(lens, i) + (if i < j { lens[i] as nat } else { 0nat }) <= slots_before(lens, j),
    decreases j,
{
    if i < j {
        lemma_slots_before_mono(lens, i, j - 1);
        if i < j - 1 {
        }
    }
}

proof fn lemma_find_owner(owners: Seq<DefId>, owner: DefId, i: int)
    requires
        0 <= i <= owners.len(),
    ensures
        find_owner(owners, owner, i) matches Some(j) ==> i <= j < owners.len() && owners[j] == owner
            && forall|k: int| i <= k < j ==> owners[k] != owner,
        find_owner(owners, owner, i) is None ==> forall|k: int| i <= k < owners.len() ==> owners[k]
            != owner,
    decreases owners.len() - i,
{
    if i < owners.len() && owners[i] != owner {
        lemma_find_owner(owners, owner, i + 1);
    }
}

impl Binding {
    /// `owners` is `(owner, how many own generic parameters it has)`, in the
    /// order they are visited; every slot starts unbound.
    pub fn new(owners: &[(DefId, u16)]) -> (b: Binding)
        requires
            slots_before(owners@.map_values(|o: (DefId, u16)| o.1), owners@.len() as int) <= u32::MAX,
        ensures
            b.wf(),
            b.owner_ids() == owners@.map_values(|o: (DefId, u16)| o.0),
            b.owner_lens() == owners@.map_values(|o: (DefId, u16)| o.1),
            b.spec_slots() == Seq::new(b.spec_slots().len(), |i: int| TyId(0xFFFF_FFFFu32)),
    {
        let ghost lens = owners@.map_values(|o: (DefId, u16)| o.1);
        let mut os: Vec<OwnerSlots> = Vec::new();
        let mut slots: Vec<TyId> = Vec::new();
        let mut i: usize = 0;
        while i < owners.len()
            invariant
                i <= owners@.len(),
                lens == owners@.map_values(|o: (DefId, u16)| o.1),
                slots_before(lens, owners@.len() as int) <= u32::MAX,
                os@.len() == i,
                forall|j: int|
                    0 <= j < i ==> (#[trigger] os@[j]).owner == owners@[j].0 && os@[j].len
                        == owners@[j].1 && os@[j].start == slots_before(lens, j),
                slots@.len() == slots_before(lens, i as int),
                forall|j: int| 0 <= j < slots@.len() ==> slots@[j] == TyId(0xFFFF_FFFFu32),
            decreases owners@.len() - i,
        {
            let (owner, len) = owners[i];
            proof {
                lemma_slots_before_mono(lens, i as int, owners@.len() as int);
                assert(lens[i as int] == len);
            }
            os.push(OwnerSlots { owner, start: slots.len() as u32, len });
            let mut k: u16 = 0;
            let ghost base = slots@.len();
            while k < len
                invariant
                    k <= len,
                    slots@.len() == base + k,
                    forall|j: int| 0 <= j < slots@.len() ==> slots@[j] == TyId(0xFFFF_FFFFu32),
                decreases len - k,
            {
                slots.push(no_ty());
                k = k + 1;
            }
            i = i + 1;
        }
        let b = Binding { owners: os, slots };
        proof {
            assert(b.owner_ids() =~= owners@.map_values(|o: (DefId, u16)| o.0));
            assert(b.owner_lens() =~= lens);
            assert(b.spec_slots() =~= Seq::new(b.spec_slots().len(), |i: int| TyId(0xFFFF_FFFFu32)));
        }
        b
    }

    pub fn owns(&self, owner: DefId) -> (r: bool)
        ensures
            r == self.spec_owns(owner),
    {
        let mut i: usize = 0;
        while i < self.owners.len()
            invariant
                i <= self.owners@.len(),
                forall|j: int| 0 <= j < i ==> self.owner_ids()[j] != owner,
            decreases self.owners@.len() - i,
        {
            if self.owners[i].owner == owner {
                assert(self.owner_ids()[i as int] == owner);
                return true;
            }
            i = i + 1;
        }
        false
    }

    fn at(&self, owner: DefId, ordinal: u16) -> (r: Option<usize>)
        requires
            self.wf(),
        ensures
            r matches Some(i) ==> self.spec_at(owner, ordinal) == Some(i as int) && i < self.spec_slots().len(),
            r is None ==> self.spec_at(owner, ordinal) is None,
    {
        proof {
            lemma_find_owner(self.owner_ids(), owner, 0);
        }
        let mut i: usize = 0;
        while i < self.owners.len()
            invariant
                self.wf(),
                i <= self.owners@.len(),
                forall|j: int| 0 <= j < i ==> self.owner_ids()[j] != owner,
                find_owner(self.owner_ids(), owner, 0) == find_owner(self.owner_ids(), owner, i as int),
            decreases self.owners@.len() - i,
        {
            let o = self.owners[i];
            proof {
                assert(self.owner_ids()[i as int] == o.owner);
                assert(self.owner_lens()[i as int] == o.len);
                assert(self.owners@[i as int].start == slots_before(self.owner_lens(), i as int));
            }
            if o.owner == owner {
                assert(find_owner(self.owner_ids(), owner, i as int) == Some(i as int));
                if ordinal >= o.len {
                    return None;
                }
                proof {
                    lemma_slots_before_mono(self.owner_lens(), i as int, self.owners@.len() as int);
                }
                return Some(o.start as usize + ordinal as usize);
            }
            assert(find_owner(self.owner_ids(), owner, i as int) == find_owner(self.owner_ids(), owner, i + 1));
            i = i + 1;
        }
        None
    }

    /// The bound type, or the absent type when the slot is unbound or not
    /// this binding's.
    pub fn slot(&self, owner: DefId, ordinal: u16) -> (r: TyId)
        requires
            self.wf(),
        ensures
            r == self.spec_slot(owner, ordinal),
    {
        match self.at(owner, ordinal) {
            Some(i) => self.slots[i],
            None => no_ty(),
        }
    }

    /// Binds a slot, or confirms it already holds `ty`. `false` means the
    /// slot is not this binding's or is already bound to something else: a
    /// binding is never revised.
    pub fn bind(&mut self, owner: DefId, ordinal: u16, ty: TyId) -> (r: bool)
        requires
            old(self).wf(),
        ensures
            final(self).wf(),
            final(self).owner_ids() == old(self).owner_ids(),
            final(self).owner_lens() == old(self).owner_lens(),
            match old(self).spec_at(owner, ordinal) {
                None => !r && final(self).spec_slots() == old(self).spec_slots(),
                Some(i) => if old(self).spec_slots()[i] == TyId(0xFFFF_FFFFu32) {
                    r && final(self).spec_slots() == old(self).spec_slots().update(i, ty)
                } else {
                    r == (old(self).spec_slots()[i] == ty) && final(self).spec_slots() == old(
                        self,
                    ).spec_slots()
                },
            },
    {
        match self.at(owner, ordinal) {
            None => false,
            Some(i) => {
                if self.slots[i] == no_ty() {
                    self.slots.set(i, ty);
                    true
                } else {
                    self.slots[i] == ty
                }
            },
        }
    }

    /// Every slot is bound.
    pub fn is_complete(&self) -> (r: bool)
        ensures
            r == forall|i: int| 0 <= i < self.spec_slots().len() ==> self.spec_slots()[i] != TyId(0xFFFF_FFFFu32),
    {
        let mut i: usize = 0;
        while i < self.slots.len()
            invariant
                i <= self.slots@.len(),
                forall|j: int| 0 <= j < i ==> self.slots@[j] != TyId(0xFFFF_FFFFu32),
            decreases self.slots@.len() - i,
        {
            if self.slots[i] == no_ty() {
                assert(self.spec_slots()[i as int] == TyId(0xFFFF_FFFFu32));
                return false;
            }
            i = i + 1;
        }
        true
    }

    pub fn slots(&self) -> (r: &[TyId])
        ensures
            r@ == self.spec_slots(),
    {
        self.slots.as_slice()
    }

    pub fn owner_count(&self) -> (r: usize)
        ensures
            r == self.owner_ids().len(),
    {
        self.owners.len()
    }

    /// The words a binding's key folds: each owner and its parameter count,
    /// then the number of slots and each slot.
    pub closed spec fn key_words(&self) -> Seq<u64> {
        owner_words(self.owners@, self.owners@.len() as int).push(self.slots@.len() as u64)
            + self.slots@.map_values(|t: TyId| t.0 as u64)
    }

    /// One 64-bit lane of the key.
    pub closed spec fn spec_fold(&self, salt: u64) -> u64 {
        fold_mix(spec_splitmix64(salt ^ (self.owners@.len() as u64)), self.key_words())
    }

    fn fold(&self, salt: u64) -> (r: u64)
        ensures
            r == self.spec_fold(salt),
    {
        let mut h = splitmix64(salt ^ self.owners.len() as u64);
        let ghost h0 = spec_splitmix64(salt ^ (self.owners@.len() as u64));
        let mut i: usize = 0;
        while i < self.owners.len()
            invariant
                i <= self.owners@.len(),
                h0 == spec_splitmix64(salt ^ (self.owners@.len() as u64)),
                h == fold_mix(h0, owner_words(self.owners@, i as int)),
            decreases self.owners@.len() - i,
        {
            let o = self.owners[i];
            proof {
                let w = owner_words(self.owners@, i as int);
                assert(owner_words(self.owners@, i + 1) == w.push(o.owner.0 as u64).push(o.len as u64));
                assert(w.push(o.owner.0 as u64).push(o.len as u64).drop_last() == w.push(o.owner.0 as u64));
                assert(w.push(o.owner.0 as u64).drop_last() == w);
            }
            let ghost before = h;
            h = splitmix64(h ^ o.owner.0 as u64);
            h = splitmix64(h ^ o.len as u64);
            proof {
                let w = owner_words(self.owners@, i as int);
                assert(fold_mix(h0, w.push(o.owner.0 as u64)) == spec_splitmix64(fold_mix(h0, w) ^ (o.owner.0 as u64)));
                assert(fold_mix(h0, w.push(o.owner.0 as u64).push(o.len as u64)) == spec_splitmix64(
                    fold_mix(h0, w.push(o.owner.0 as u64)) ^ (o.len as u64),
                ));
            }
            i = i + 1;
        }
        let ghost ow = owner_words(self.owners@, self.owners@.len() as int);
        proof {
            assert(ow.push(self.slots@.len() as u64).drop_last() == ow);
        }
        h = splitmix64(h ^ self.slots.len() as u64);
        let mut j: usize = 0;
        while j < self.slots.len()
            invariant
                j <= self.slots@.len(),
                h == fold_mix(
                    h0,
                    ow.push(self.slots@.len() as u64) + self.slots@.subrange(0, j as int).map_values(
                        |t: TyId| t.0 as u64,
                    ),
                ),
            decreases self.slots@.len() - j,
        {
            proof {
                let pre = ow.push(self.slots@.len() as u64);
                let a = pre + self.slots@.subrange(0, j as int).map_values(|t: TyId| t.0 as u64);
                let b = pre + self.slots@.subrange(0, j + 1).map_values(|t: TyId| t.0 as u64);
                assert(b.drop_last() =~= a);
                assert(b.last() == self.slots@[j as int].0 as u64);
            }
            h = splitmix64(h ^ self.slots[j].0 as u64);
            j = j + 1;
        }
        proof {
            assert(self.slots@.subrange(0, j as int) =~= self.slots@);
        }
        h
    }

    /// The memo key of this binding: the two lanes side by side.
    pub open spec fn spec_key(&self) -> u128 {
        (self.spec_fold(KEY_SALT_HI) as u128 * 0x1_0000_0000_0000_0000u128 + self.spec_fold(KEY_SALT_LO) as u128) as u128
    }

    /// The substitution memo's key: the owners and the slot values, length
    /// framed and folded through SplitMix64 into two independently salted
    /// 64-bit lanes.
    pub fn key(&self) -> (k: BindingKey)
        ensures
            k.0 == self.spec_fold(KEY_SALT_HI) as u128 * 0x1_0000_0000_0000_0000u128
                + self.spec_fold(KEY_SALT_LO) as u128,
    {
        let hi = self.fold(KEY_SALT_HI) as u128;
        let lo = self.fold(KEY_SALT_LO) as u128;
        assert((hi << 64u128) | lo == hi * 0x1_0000_0000_0000_0000u128 + lo) by (bit_vector)
            requires
                hi < 0x1_0000_0000_0000_0000u128,
                lo < 0x1_0000_0000_0000_0000u128,
        ;
        BindingKey((hi << 64u128) | lo)
    }
}

/// Each owner's id and parameter count, for the first `k` owners.
spec fn owner_words(os: Seq<OwnerSlots>, k: int) -> Seq<u64>
    decreases k,
{
    if k <= 0 {
        Seq::empty()
    } else {
        owner_words(os, k - 1).push(os[k - 1].owner.0 as u64).push(os[k - 1].len as u64)
    }
}

impl Default for Binding {
    /// A binding with no owner.
    fn default() -> (b: Binding)
        ensures
            b.wf(),
            b.owner_ids().len() == 0,
            b.spec_slots().len() == 0,
    {
        let b = Binding { owners: Vec::new(), slots: Vec::new() };
        assert(b.owner_lens() =~= Seq::<u16>::empty());
        b
    }
}

pub const KEY_SALT_LO: u64 = 0x4249_4e44_4b45_594cu64;
pub const KEY_SALT_HI: u64 = 0x4249_4e44_4b45_5948u64;

/// A binding's content identity.
#[derive(Clone, Copy, PartialEq, Eq, Structural, Hash, Debug)]
pub struct BindingKey(pub u128);

// ---------------------------------------------------------------------------
// The substitution memo
// ---------------------------------------------------------------------------

/// Memoised substitutions, keyed by `(type, binding key)`: the binding, not
/// a trait reference, is what decides the result.
pub struct SubstMemo {
    map: HashMap<u32, HashMap<u128, u32>>,
    count: usize,
    entries: Ghost<Map<(u32, u128), u32>>,
}

impl SubstMemo {
    /// The memoised results.
    pub closed spec fn view_map(&self) -> Map<(u32, u128), u32> {
        self.entries@
    }

    pub closed spec fn wf(&self) -> bool {
        &&& self.entries@.dom().finite()
        &&& self.count == self.entries@.len()
        &&& forall|t: u32, k: u128|
            #![trigger self.entries@.contains_key((t, k))]
            self.entries@.contains_key((t, k)) <==> (self.map@.contains_key(t)
                && self.map@[t]@.contains_key(k))
        &&& forall|t: u32, k: u128|
            #![trigger self.entries@.contains_key((t, k))]
            self.entries@.contains_key((t, k)) ==> self.map@[t]@[k] == self.entries@[(t, k)]
    }

    pub fn new() -> (m: SubstMemo)
        ensures
            m.wf(),
            m.view_map() == Map::<(u32, u128), u32>::empty(),
    {
        let m = SubstMemo { map: HashMap::new(), count: 0, entries: Ghost(Map::empty()) };
        assert(m.entries@.dom() =~= Set::<(u32, u128)>::empty());
        m
    }

    pub fn get(&self, ty: TyId, key: BindingKey) -> (r: Option<TyId>)
        requires
            self.wf(),
        ensures
            r matches Some(v) ==> self.view_map().contains_key((ty.0, key.0)) && self.view_map()[(ty.0, key.0)] == v.0,
            r is None ==> !self.view_map().contains_key((ty.0, key.0)),
    {
        proof {
            broadcast use vstd::std_specs::hash::group_hash_axioms;

        }
        match self.map.get(&ty.0) {
            None => {
                assert(!self.map@.contains_key(ty.0));
                assert(!self.entries@.contains_key((ty.0, key.0)));
                None
            },
            Some(inner) => {
                assert(self.map@.contains_key(ty.0) && self.map@[ty.0] == *inner);
                match inner.get(&key.0) {
                    None => {
                        assert(!inner@.contains_key(key.0));
                        assert(!self.entries@.contains_key((ty.0, key.0)));
                        None
                    },
                    Some(v) => {
                        assert(inner@.contains_key(key.0) && inner@[key.0] == *v);
                        assert(self.entries@.contains_key((ty.0, key.0)));
                        Some(TyId(*v))
                    },
                }
            },
        }
    }

    pub fn insert(&mut self, ty: TyId, key: BindingKey, out: TyId)
        requires
            old(self).wf(),
            old(self).view_map().len() < usize::MAX,
        ensures
            final(self).wf(),
            final(self).view_map() == old(self).view_map().insert((ty.0, key.0), out.0),
    {
        proof {
            broadcast use vstd::std_specs::hash::group_hash_axioms;

        }
        let ghost old_entries = self.entries@;
        let ghost old_map = self.map@;
        let mut inner: HashMap<u128, u32> = match self.map.remove(&ty.0) {
            Some(m) => m,
            None => HashMap::new(),
        };
        let ghost inner_old = inner@;
        let prev = inner.insert(key.0, out.0);
        self.map.insert(ty.0, inner);
        let fresh = match prev {
            Some(_) => false,
            None => true,
        };
        if fresh {
            self.count = self.count + 1;
        }
        proof {
            self.entries = Ghost(old_entries.insert((ty.0, key.0), out.0));
            assert(old_entries.contains_key((ty.0, key.0)) == !fresh);
            if fresh {
                assert(!old_entries.dom().contains((ty.0, key.0)));
                assert(self.entries@.len() == old_entries.len() + 1);
            } else {
                assert(self.entries@.dom() =~= old_entries.dom());
            }
            assert forall|t: u32, k: u128|
                #![trigger self.entries@.contains_key((t, k))]
                self.entries@.contains_key((t, k)) <==> (self.map@.contains_key(t)
                    && self.map@[t]@.contains_key(k)) by {
                if t != ty.0 {
                    assert(self.map@[t] == old_map[t]);
                    assert(old_entries.contains_key((t, k)) == (old_map.contains_key(t) && old_map[t]@.contains_key(k)));
                } else if k != key.0 {
                    assert(old_entries.contains_key((t, k)) == (old_map.contains_key(t) && old_map[t]@.contains_key(k)));
                }
            }
            assert forall|t: u32, k: u128|
                #![trigger self.entries@.contains_key((t, k))]
                self.entries@.contains_key((t, k)) implies self.map@[t]@[k] == self.entries@[(t, k)] by {
                if t != ty.0 {
                    assert(self.map@[t] == old_map[t]);
                    assert(old_entries.contains_key((t, k)));
                } else if k != key.0 {
                    assert(old_entries.contains_key((t, k)));
                }
            }
        }
    }

    /// An impl edit clears the memo wholesale.
    pub fn clear(&mut self)
        ensures
            final(self).wf(),
            final(self).view_map() == Map::<(u32, u128), u32>::empty(),
    {
        self.map.clear();
        self.count = 0;
        proof {
            self.entries = Ghost(Map::empty());
            assert(self.entries@.dom() =~= Set::<(u32, u128)>::empty());
        }
    }

    pub fn len(&self) -> (r: usize)
        requires
            self.wf(),
        ensures
            r == self.view_map().len(),
    {
        self.count
    }

    pub fn is_empty(&self) -> (r: bool)
        requires
            self.wf(),
        ensures
            r == (self.view_map().len() == 0),
    {
        self.count == 0
    }
}

impl Default for SubstMemo {
    fn default() -> (m: SubstMemo)
        ensures
            m.wf(),
            m.view_map() == Map::<(u32, u128), u32>::empty(),
    {
        SubstMemo::new()
    }
}

// ---------------------------------------------------------------------------
// What a substitution is
// ---------------------------------------------------------------------------

pub open spec fn absent() -> TyId {
    TyId(0xFFFF_FFFFu32)
}

/// `r` is `ty` with the parameters `b` binds replaced, both read in `u`:
/// a monomorphic type is itself; a qualified type is its qualifier-free
/// row's substitution, which must carry no qualifier of its own, with the
/// qualifiers put back.
pub open spec fn subst_to(u: TyUniverse, b: Binding, ty: TyId, r: TyId) -> bool
    decreases ty.0, 3int, 0int,
{
    if ty.0 >= u.rows.len() || r.0 >= u.rows.len() || ty.0 >= u.flags.len() || ty.0 >= u.unqual.len() {
        false
    } else if u.flags[ty.0 as int] & F_OPEN == 0 {
        r == ty
    } else if u.rows[ty.0 as int].quals == 0 {
        core_to(u, b, ty, r)
    } else {
        let base = u.unqual[ty.0 as int];
        &&& base.0 < ty.0
        &&& r.0 < u.unqual.len()
        &&& u.rows[r.0 as int].quals == u.rows[ty.0 as int].quals
        &&& u.unqual[r.0 as int].0 < u.rows.len()
        &&& u.rows[u.unqual[r.0 as int].0 as int].quals == 0
        &&& core_to(u, b, base, u.unqual[r.0 as int])
    }
}

/// `ys` is `xs` substituted element by element; every element of `xs` comes
/// before `parent`.
pub open spec fn list_to(u: TyUniverse, b: Binding, xs: Seq<TyId>, ys: Seq<TyId>, parent: u32) -> bool
    decreases parent, 0int, xs.len(),
{
    if xs.len() != ys.len() {
        false
    } else if xs.len() == 0 {
        true
    } else {
        &&& list_to(u, b, xs.drop_last(), ys.drop_last(), parent)
        &&& xs.last().0 < parent
        &&& subst_to(u, b, xs.last(), ys.last())
    }
}

/// A bound slot's value for a parameter or brand of one of `b`'s owners.
pub open spec fn bound_slot(b: Binding, owner: DefId, ordinal: u16, r: TyId) -> bool {
    b.spec_slot(owner, ordinal) != absent() && r == b.spec_slot(owner, ordinal)
}

/// `r` is the substitution of the qualifier-free row `t`, constructor by
/// constructor; a projection's head must stay rigid (a projection on any
/// other head is the projection solver's to reduce).
pub open spec fn core_to(u: TyUniverse, b: Binding, t: TyId, r: TyId) -> bool
    decreases t.0, 2int, 0int,
{
    if t.0 >= u.rows.len() || r.0 >= u.rows.len() {
        false
    } else {
        let k = u.rows[t.0 as int];
        let kr = u.rows[r.0 as int];
        match k.tag {
            TyTag::Param => if b.spec_owns(DefId(k.a)) {
                bound_slot(b, DefId(k.a), k.b as u16, r)
            } else {
                r == t
            },
            TyTag::Brand => k.b < u.brands.len() && if (u.brands[k.b as int] matches BrandRow::Param {
                owner,
                ordinal,
            } && b.spec_owns(owner)) {
                bound_slot(b, u.brands[k.b as int]->Param_owner, u.brands[k.b as int]->Param_ordinal, r)
            } else {
                r == t
            },
            TyTag::Nominal => kr.tag == TyTag::Nominal && kr.a == k.a && kr.quals == 0 && k.b
                < u.args.len() && kr.b < u.args.len() && list_to(
                u,
                b,
                u.args[k.b as int],
                u.args[kr.b as int],
                t.0,
            ),
            TyTag::Tuple => kr.tag == TyTag::Tuple && kr.a == 0 && kr.quals == 0 && k.b < u.args.len()
                && kr.b < u.args.len() && list_to(u, b, u.args[k.b as int], u.args[kr.b as int], t.0),
            TyTag::Dyn => kr.tag == TyTag::Dyn && kr.b == 0 && kr.quals == 0 && k.a < u.trait_refs.len()
                && kr.a < u.trait_refs.len() && u.trait_refs[kr.a as int].def == u.trait_refs[k.a as int].def
                && u.trait_refs[k.a as int].args.0 < u.args.len() && u.trait_refs[kr.a as int].args.0
                < u.args.len() && list_to(
                u,
                b,
                u.args[u.trait_refs[k.a as int].args.0 as int],
                u.args[u.trait_refs[kr.a as int].args.0 as int],
                t.0,
            ),
            TyTag::Fn => kr.tag == TyTag::Fn && kr.b == 0 && kr.quals == 0 && k.a < u.fns.len() && kr.a
                < u.fns.len() && u.fns[kr.a as int].conv == u.fns[k.a as int].conv && u.fns[kr.a as int].closure
                == u.fns[k.a as int].closure && list_to(
                u,
                b,
                u.fns[k.a as int].ty,
                u.fns[kr.a as int].ty,
                t.0,
            ) && u.fns[k.a as int].result.0 < t.0 && subst_to(
                u,
                b,
                u.fns[k.a as int].result,
                u.fns[kr.a as int].result,
            ) && (if u.fns[k.a as int].raises == absent() {
                u.fns[kr.a as int].raises == absent()
            } else {
                u.fns[k.a as int].raises.0 < t.0 && subst_to(
                    u,
                    b,
                    u.fns[k.a as int].raises,
                    u.fns[kr.a as int].raises,
                )
            }),
            TyTag::Proj => k.a < t.0 && k.b < u.proj_keys.len() && u.proj_keys[k.b as int].tr.0
                < u.trait_refs.len() && u.trait_refs[u.proj_keys[k.b as int].tr.0 as int].args.0
                < u.args.len() && subst_to(u, b, TyId(k.a), TyId(kr.a)) && rigid_at(u.rows, kr.a)
                && proj_to(u, b, k, kr, TyId(kr.a), t.0),
            TyTag::ConstVal => kr.tag == TyTag::ConstVal && kr.a == k.a && kr.quals == 0 && k.b < t.0
                && subst_to(u, b, TyId(k.b), TyId(kr.b)),
            _ => r == t,
        }
    }
}

/// The row `kr` is the projection `h.name` through the substituted trait
/// reference of the projection row `k`.
pub open spec fn proj_to(u: TyUniverse, b: Binding, k: TyKey, kr: TyKey, h: TyId, parent: u32) -> bool
    decreases parent, 1int, 0int,
{
    let pk = u.proj_keys[k.b as int];
    let tr = u.trait_refs[pk.tr.0 as int];
    &&& kr.tag == TyTag::Proj
    &&& kr.a == h.0
    &&& kr.quals == 0
    &&& kr.b < u.proj_keys.len()
    &&& u.proj_keys[kr.b as int].name == pk.name
    &&& u.proj_keys[kr.b as int].tr.0 < u.trait_refs.len()
    &&& u.trait_refs[u.proj_keys[kr.b as int].tr.0 as int].def == tr.def
    &&& u.trait_refs[u.proj_keys[kr.b as int].tr.0 as int].args.0 < u.args.len()
    &&& list_to(
        u,
        b,
        u.args[tr.args.0 as int],
        u.args[u.trait_refs[u.proj_keys[kr.b as int].tr.0 as int].args.0 as int],
        parent,
    )
}

proof fn lemma_prefix_at<A>(u: Seq<A>, w: Seq<A>, i: int)
    requires
        u.len() <= w.len(),
        w.subrange(0, u.len() as int) == u,
        0 <= i < u.len(),
    ensures
        w[i] == u[i],
{
    assert(w.subrange(0, u.len() as int)[i] == w[i]);
}

/// A substitution read in a store stays one as the store grows.
proof fn lemma_subst_stable(u1: TyUniverse, u2: TyUniverse, b: Binding, x: TyId, y: TyId)
    requires
        extends(u1, u2),
        subst_to(u1, b, x, y),
    ensures
        subst_to(u2, b, x, y),
    decreases x.0, 3int, 0int,
{
    assert(x.0 < u1.rows.len() && y.0 < u1.rows.len() && x.0 < u1.flags.len() && x.0 < u1.unqual.len());
    lemma_prefix_at(u1.rows, u2.rows, x.0 as int);
    lemma_prefix_at(u1.rows, u2.rows, y.0 as int);
    lemma_prefix_at(u1.flags, u2.flags, x.0 as int);
    lemma_prefix_at(u1.unqual, u2.unqual, x.0 as int);
    if u1.flags[x.0 as int] & F_OPEN == 0 {
        assert(y == x);
    } else if u1.rows[x.0 as int].quals == 0 {
        assert(core_to(u1, b, x, y));
        lemma_core_stable(u1, u2, b, x, y);
    } else {
        let base = u1.unqual[x.0 as int];
        assert(base.0 < x.0);
        assert(core_to(u1, b, base, u1.unqual[y.0 as int]));
        lemma_prefix_at(u1.unqual, u2.unqual, y.0 as int);
        lemma_prefix_at(u1.rows, u2.rows, u1.unqual[y.0 as int].0 as int);
        lemma_core_stable(u1, u2, b, base, u1.unqual[y.0 as int]);
    }
}

proof fn lemma_list_stable(u1: TyUniverse, u2: TyUniverse, b: Binding, xs: Seq<TyId>, ys: Seq<TyId>, parent: u32)
    requires
        extends(u1, u2),
        list_to(u1, b, xs, ys, parent),
    ensures
        list_to(u2, b, xs, ys, parent),
    decreases parent, 0int, xs.len(),
{
    if xs.len() > 0 {
        lemma_list_stable(u1, u2, b, xs.drop_last(), ys.drop_last(), parent);
        lemma_subst_stable(u1, u2, b, xs.last(), ys.last());
    }
}

/// Element by element, what `list_to` says.
pub proof fn lemma_list_at(u: TyUniverse, b: Binding, xs: Seq<TyId>, ys: Seq<TyId>, parent: u32, i: int)
    requires
        list_to(u, b, xs, ys, parent),
        0 <= i < xs.len(),
    ensures
        xs.len() == ys.len(),
        xs[i].0 < parent,
        subst_to(u, b, xs[i], ys[i]),
    decreases xs.len(),
{
    if i < xs.len() - 1 {
        lemma_list_at(u, b, xs.drop_last(), ys.drop_last(), parent, i);
        assert(xs.drop_last()[i] == xs[i]);
        assert(ys.drop_last()[i] == ys[i]);
    }
}

/// `list_to` of a list extended by one pair.
pub proof fn lemma_list_push(u: TyUniverse, b: Binding, xs: Seq<TyId>, ys: Seq<TyId>, x: TyId, y: TyId, parent: u32)
    requires
        list_to(u, b, xs, ys, parent),
        x.0 < parent,
        subst_to(u, b, x, y),
    ensures
        list_to(u, b, xs.push(x), ys.push(y), parent),
{
    assert(xs.push(x).drop_last() =~= xs);
    assert(ys.push(y).drop_last() =~= ys);
}

proof fn lemma_proj_stable(u1: TyUniverse, u2: TyUniverse, b: Binding, k: TyKey, kr: TyKey, h: TyId, parent: u32)
    requires
        extends(u1, u2),
        k.b < u1.proj_keys.len(),
        u1.proj_keys[k.b as int].tr.0 < u1.trait_refs.len(),
        u1.trait_refs[u1.proj_keys[k.b as int].tr.0 as int].args.0 < u1.args.len(),
        proj_to(u1, b, k, kr, h, parent),
    ensures
        proj_to(u2, b, k, kr, h, parent),
    decreases parent, 1int, 0int,
{
    let pk = u1.proj_keys[k.b as int];
    let pk2 = u1.proj_keys[kr.b as int];
    lemma_prefix_at(u1.proj_keys, u2.proj_keys, k.b as int);
    lemma_prefix_at(u1.proj_keys, u2.proj_keys, kr.b as int);
    lemma_prefix_at(u1.trait_refs, u2.trait_refs, pk.tr.0 as int);
    lemma_prefix_at(u1.trait_refs, u2.trait_refs, pk2.tr.0 as int);
    lemma_prefix_at(u1.args, u2.args, u1.trait_refs[pk.tr.0 as int].args.0 as int);
    lemma_prefix_at(u1.args, u2.args, u1.trait_refs[pk2.tr.0 as int].args.0 as int);
    lemma_list_stable(
        u1,
        u2,
        b,
        u1.args[u1.trait_refs[pk.tr.0 as int].args.0 as int],
        u1.args[u1.trait_refs[pk2.tr.0 as int].args.0 as int],
        parent,
    );
}

proof fn lemma_core_stable(u1: TyUniverse, u2: TyUniverse, b: Binding, t: TyId, r: TyId)
    requires
        extends(u1, u2),
        core_to(u1, b, t, r),
    ensures
        core_to(u2, b, t, r),
    decreases t.0, 2int, 0int,
{
    lemma_prefix_at(u1.rows, u2.rows, t.0 as int);
    lemma_prefix_at(u1.rows, u2.rows, r.0 as int);
    let k = u1.rows[t.0 as int];
    let kr = u1.rows[r.0 as int];
    match k.tag {
        TyTag::Brand => {
            if k.b < u1.brands.len() {
                lemma_prefix_at(u1.brands, u2.brands, k.b as int);
            }
        },
        TyTag::Nominal | TyTag::Tuple => {
            lemma_prefix_at(u1.args, u2.args, k.b as int);
            lemma_prefix_at(u1.args, u2.args, kr.b as int);
            lemma_list_stable(u1, u2, b, u1.args[k.b as int], u1.args[kr.b as int], t.0);
        },
        TyTag::Dyn => {
            lemma_prefix_at(u1.trait_refs, u2.trait_refs, k.a as int);
            lemma_prefix_at(u1.trait_refs, u2.trait_refs, kr.a as int);
            lemma_prefix_at(u1.args, u2.args, u1.trait_refs[k.a as int].args.0 as int);
            lemma_prefix_at(u1.args, u2.args, u1.trait_refs[kr.a as int].args.0 as int);
            lemma_list_stable(
                u1,
                u2,
                b,
                u1.args[u1.trait_refs[k.a as int].args.0 as int],
                u1.args[u1.trait_refs[kr.a as int].args.0 as int],
                t.0,
            );
        },
        TyTag::Fn => {
            lemma_prefix_at(u1.fns, u2.fns, k.a as int);
            lemma_prefix_at(u1.fns, u2.fns, kr.a as int);
            let f = u1.fns[k.a as int];
            let g = u1.fns[kr.a as int];
            lemma_list_stable(u1, u2, b, f.ty, g.ty, t.0);
            lemma_subst_stable(u1, u2, b, f.result, g.result);
            if f.raises != absent() {
                lemma_subst_stable(u1, u2, b, f.raises, g.raises);
            }
        },
        TyTag::Proj => {
            lemma_prefix_at(u1.proj_keys, u2.proj_keys, k.b as int);
            let pk = u1.proj_keys[k.b as int];
            lemma_prefix_at(u1.trait_refs, u2.trait_refs, pk.tr.0 as int);
            lemma_prefix_at(u1.args, u2.args, u1.trait_refs[pk.tr.0 as int].args.0 as int);
            assert(subst_to(u1, b, TyId(k.a), TyId(kr.a)));
            lemma_subst_stable(u1, u2, b, TyId(k.a), TyId(kr.a));
            lemma_prefix_at(u1.rows, u2.rows, kr.a as int);
            lemma_proj_stable(u1, u2, b, k, kr, TyId(kr.a), t.0);
        },
        TyTag::ConstVal => {
            lemma_subst_stable(u1, u2, b, TyId(k.b), TyId(kr.b));
        },
        _ => {},
    }
}


// ---------------------------------------------------------------------------
// When a substitution exists

/// Facts about the flag and qualifier bits the proofs below use.
proof fn lemma_flag_bits()
    by (bit_vector)
    ensures
        (1u8 & 7u8) != 0u8,
        (8u8 & 7u8) == 0u8,
        (0u8 & 7u8) == 0u8,
        ((4u8 | 16u8) & 4u8) != 0u8,
        (4u8 & 4u8) != 0u8,
        forall|x: u8, z: u8| #![trigger ((2u8 | x) | z)] (((2u8 | x) | z) & 7u8) != 0u8 && (((2u8 | x) | z) & 2u8) != 0u8,
        forall|a: u8, c: u8, m: u8| #![trigger ((a | c) & m)] ((a | c) & m) == 0u8 ==> (a & m) == 0u8 && (c & m) == 0u8,
        forall|q: u8| #![trigger (0u8 | q)] (0u8 | q) == q,
{
}

// ---------------------------------------------------------------------------

/// Every bound slot of `b` names one of the first `n` rows.
pub open spec fn slots_fit(b: Binding, n: nat) -> bool {
    forall|o: DefId, k: u16| #[trigger] b.spec_slot(o, k) == absent() || b.spec_slot(o, k).0 < n
}

/// The qualifier-free row `t` is a parameter or brand of one of `b`'s owners
/// bound to a qualified type: the one core substitution that yields a
/// qualified row.
pub open spec fn core_yields_qualified(u: TyUniverse, b: Binding, t: TyId) -> bool {
    let k = u.rows[t.0 as int];
    match k.tag {
        TyTag::Param => b.spec_owns(DefId(k.a)) && b.spec_slot(DefId(k.a), k.b as u16) != absent()
            && u.rows[b.spec_slot(DefId(k.a), k.b as u16).0 as int].quals != 0,
        TyTag::Brand => k.b < u.brands.len() && u.brands[k.b as int] is Param && b.spec_owns(
            u.brands[k.b as int]->Param_owner,
        ) && b.spec_slot(u.brands[k.b as int]->Param_owner, u.brands[k.b as int]->Param_ordinal)
            != absent() && u.rows[b.spec_slot(
            u.brands[k.b as int]->Param_owner,
            u.brands[k.b as int]->Param_ordinal,
        ).0 as int].quals != 0,
        _ => false,
    }
}

/// A projection's head `h` substitutes to a parameter or a projection: its
/// qualifier-free row is a projection, a parameter `b` leaves alone, or one
/// `b` binds to such a type.
pub open spec fn head_stays_rigid(u: TyUniverse, b: Binding, h: TyId) -> bool {
    let c = u.rows[u.unqual[h.0 as int].0 as int];
    match c.tag {
        TyTag::Proj => true,
        TyTag::Param => b.spec_owns(DefId(c.a)) ==> (b.spec_slot(DefId(c.a), c.b as u16) != absent() && rigid_at(
            u.rows,
            b.spec_slot(DefId(c.a), c.b as u16).0,
        )),
        _ => false,
    }
}

/// Whether `ty` has a substitution under `b` in `u`: every parameter of
/// `b`'s owners inside it is bound, a qualified position's argument carries
/// no qualifier of its own, and every projection's head stays rigid.
pub open spec fn subst_ok(u: TyUniverse, b: Binding, ty: TyId) -> bool
    decreases ty.0, 3int, 0int,
{
    if ty.0 >= u.rows.len() || ty.0 >= u.flags.len() || ty.0 >= u.unqual.len() {
        false
    } else if u.flags[ty.0 as int] & F_OPEN == 0 {
        true
    } else if u.rows[ty.0 as int].quals == 0 {
        core_ok(u, b, ty)
    } else {
        let base = u.unqual[ty.0 as int];
        &&& base.0 < ty.0
        &&& core_ok(u, b, base)
        &&& !core_yields_qualified(u, b, base)
    }
}

/// Every element of `xs` has a substitution and comes before `parent`.
pub open spec fn list_ok(u: TyUniverse, b: Binding, xs: Seq<TyId>, parent: u32) -> bool
    decreases parent, 0int, xs.len(),
{
    if xs.len() == 0 {
        true
    } else {
        &&& list_ok(u, b, xs.drop_last(), parent)
        &&& xs.last().0 < parent
        &&& subst_ok(u, b, xs.last())
    }
}

/// Whether the qualifier-free row `t` has a substitution under `b`.
pub open spec fn core_ok(u: TyUniverse, b: Binding, t: TyId) -> bool
    decreases t.0, 2int, 0int,
{
    if t.0 >= u.rows.len() {
        false
    } else {
        let k = u.rows[t.0 as int];
        match k.tag {
            TyTag::Param => b.spec_owns(DefId(k.a)) ==> b.spec_slot(DefId(k.a), k.b as u16) != absent(),
            TyTag::Brand => k.b < u.brands.len() && ((u.brands[k.b as int] is Param && b.spec_owns(
                u.brands[k.b as int]->Param_owner,
            )) ==> b.spec_slot(u.brands[k.b as int]->Param_owner, u.brands[k.b as int]->Param_ordinal)
                != absent()),
            TyTag::Nominal | TyTag::Tuple => k.b < u.args.len() && list_ok(u, b, u.args[k.b as int], t.0),
            TyTag::Dyn => k.a < u.trait_refs.len() && u.trait_refs[k.a as int].args.0 < u.args.len()
                && list_ok(u, b, u.args[u.trait_refs[k.a as int].args.0 as int], t.0),
            TyTag::Fn => k.a < u.fns.len() && list_ok(u, b, u.fns[k.a as int].ty, t.0)
                && u.fns[k.a as int].result.0 < t.0 && subst_ok(u, b, u.fns[k.a as int].result) && (
            u.fns[k.a as int].raises == absent() || (u.fns[k.a as int].raises.0 < t.0 && subst_ok(
                u,
                b,
                u.fns[k.a as int].raises,
            ))),
            TyTag::Proj => k.a < t.0 && k.b < u.proj_keys.len() && u.proj_keys[k.b as int].tr.0
                < u.trait_refs.len() && u.trait_refs[u.proj_keys[k.b as int].tr.0 as int].args.0
                < u.args.len() && list_ok(
                u,
                b,
                u.args[u.trait_refs[u.proj_keys[k.b as int].tr.0 as int].args.0 as int],
                t.0,
            ) && subst_ok(u, b, TyId(k.a)) && head_stays_rigid(u, b, TyId(k.a)),
            TyTag::ConstVal => k.b < t.0 && subst_ok(u, b, TyId(k.b)),
            _ => true,
        }
    }
}

/// Element by element, what `list_ok` says.
proof fn lemma_list_ok_at(u: TyUniverse, b: Binding, xs: Seq<TyId>, parent: u32, i: int)
    requires
        list_ok(u, b, xs, parent),
        0 <= i < xs.len(),
    ensures
        xs[i].0 < parent,
        subst_ok(u, b, xs[i]),
    decreases xs.len(),
{
    if i < xs.len() - 1 {
        lemma_list_ok_at(u, b, xs.drop_last(), parent, i);
        assert(xs.drop_last()[i] == xs[i]);
    }
}

/// Whether a core substitution yields a qualified row, and whether a head
/// stays rigid, are read from rows a grown store keeps.
proof fn lemma_row_tests_stable(u1: TyUniverse, u2: TyUniverse, b: Binding, t: TyId)
    requires
        extends(u1, u2),
        slots_fit(b, u1.rows.len()),
        t.0 < u1.rows.len(),
        t.0 < u1.unqual.len(),
        u1.unqual[t.0 as int].0 < u1.rows.len(),
    ensures
        (u1.rows[t.0 as int].tag == TyTag::Brand ==> u1.rows[t.0 as int].b < u1.brands.len())
            ==> core_yields_qualified(u1, b, t) == core_yields_qualified(u2, b, t),
        head_stays_rigid(u1, b, t) == head_stays_rigid(u2, b, t),
{
    lemma_prefix_at(u1.rows, u2.rows, t.0 as int);
    lemma_prefix_at(u1.unqual, u2.unqual, t.0 as int);
    let k = u1.rows[t.0 as int];
    let c = u1.rows[u1.unqual[t.0 as int].0 as int];
    lemma_prefix_at(u1.rows, u2.rows, u1.unqual[t.0 as int].0 as int);
    if k.tag == TyTag::Param {
        let v = b.spec_slot(DefId(k.a), k.b as u16);
        if v != absent() {
            assert(v.0 < u1.rows.len());
            lemma_prefix_at(u1.rows, u2.rows, v.0 as int);
            assert(u2.rows[v.0 as int] == u1.rows[v.0 as int]);
        }
        assert(u2.rows[t.0 as int] == k);
        assert(core_yields_qualified(u1, b, t) == core_yields_qualified(u2, b, t));
    }
    if k.tag == TyTag::Brand && k.b < u1.brands.len() {
        lemma_prefix_at(u1.brands, u2.brands, k.b as int);
        if u1.brands[k.b as int] is Param {
            let v = b.spec_slot(u1.brands[k.b as int]->Param_owner, u1.brands[k.b as int]->Param_ordinal);
            if v != absent() {
                lemma_prefix_at(u1.rows, u2.rows, v.0 as int);
            }
        }
    }
    if c.tag == TyTag::Param {
        let v = b.spec_slot(DefId(c.a), c.b as u16);
        if v != absent() {
            lemma_prefix_at(u1.rows, u2.rows, v.0 as int);
        }
    }
}

/// A substitution that exists in a store still exists as the store grows.
proof fn lemma_ok_stable(u1: TyUniverse, u2: TyUniverse, b: Binding, x: TyId)
    requires
        extends(u1, u2),
        slots_fit(b, u1.rows.len()),
        u1.unqual.len() <= u1.rows.len(),
        forall|i: int| 0 <= i < u1.unqual.len() ==> (#[trigger] u1.unqual[i]).0 < u1.rows.len(),
        subst_ok(u1, b, x),
    ensures
        subst_ok(u2, b, x),
    decreases x.0, 3int, 0int,
{
    lemma_prefix_at(u1.rows, u2.rows, x.0 as int);
    lemma_prefix_at(u1.flags, u2.flags, x.0 as int);
    lemma_prefix_at(u1.unqual, u2.unqual, x.0 as int);
    if u1.flags[x.0 as int] & F_OPEN != 0 {
        if u1.rows[x.0 as int].quals == 0 {
            lemma_core_ok_stable(u1, u2, b, x);
        } else {
            let base = u1.unqual[x.0 as int];
            lemma_core_ok_stable(u1, u2, b, base);
            lemma_prefix_at(u1.unqual, u2.unqual, base.0 as int);
            lemma_row_tests_stable(u1, u2, b, base);
        }
    }
}

proof fn lemma_list_ok_stable(u1: TyUniverse, u2: TyUniverse, b: Binding, xs: Seq<TyId>, parent: u32)
    requires
        extends(u1, u2),
        slots_fit(b, u1.rows.len()),
        u1.unqual.len() <= u1.rows.len(),
        forall|i: int| 0 <= i < u1.unqual.len() ==> (#[trigger] u1.unqual[i]).0 < u1.rows.len(),
        list_ok(u1, b, xs, parent),
    ensures
        list_ok(u2, b, xs, parent),
    decreases parent, 0int, xs.len(),
{
    if xs.len() > 0 {
        lemma_list_ok_stable(u1, u2, b, xs.drop_last(), parent);
        lemma_ok_stable(u1, u2, b, xs.last());
    }
}

proof fn lemma_core_ok_stable(u1: TyUniverse, u2: TyUniverse, b: Binding, t: TyId)
    requires
        extends(u1, u2),
        slots_fit(b, u1.rows.len()),
        u1.unqual.len() <= u1.rows.len(),
        forall|i: int| 0 <= i < u1.unqual.len() ==> (#[trigger] u1.unqual[i]).0 < u1.rows.len(),
        core_ok(u1, b, t),
    ensures
        core_ok(u2, b, t),
    decreases t.0, 2int, 0int,
{
    lemma_prefix_at(u1.rows, u2.rows, t.0 as int);
    let k = u1.rows[t.0 as int];
    match k.tag {
        TyTag::Brand => {
            lemma_prefix_at(u1.brands, u2.brands, k.b as int);
        },
        TyTag::Nominal | TyTag::Tuple => {
            lemma_prefix_at(u1.args, u2.args, k.b as int);
            lemma_list_ok_stable(u1, u2, b, u1.args[k.b as int], t.0);
        },
        TyTag::Dyn => {
            lemma_prefix_at(u1.trait_refs, u2.trait_refs, k.a as int);
            lemma_prefix_at(u1.args, u2.args, u1.trait_refs[k.a as int].args.0 as int);
            lemma_list_ok_stable(u1, u2, b, u1.args[u1.trait_refs[k.a as int].args.0 as int], t.0);
        },
        TyTag::Fn => {
            lemma_prefix_at(u1.fns, u2.fns, k.a as int);
            let f = u1.fns[k.a as int];
            lemma_list_ok_stable(u1, u2, b, f.ty, t.0);
            lemma_ok_stable(u1, u2, b, f.result);
            if f.raises != absent() {
                lemma_ok_stable(u1, u2, b, f.raises);
            }
        },
        TyTag::Proj => {
            lemma_prefix_at(u1.proj_keys, u2.proj_keys, k.b as int);
            let pk = u1.proj_keys[k.b as int];
            lemma_prefix_at(u1.trait_refs, u2.trait_refs, pk.tr.0 as int);
            lemma_prefix_at(u1.args, u2.args, u1.trait_refs[pk.tr.0 as int].args.0 as int);
            lemma_list_ok_stable(u1, u2, b, u1.args[u1.trait_refs[pk.tr.0 as int].args.0 as int], t.0);
            lemma_ok_stable(u1, u2, b, TyId(k.a));
            assert(TyId(k.a).0 < u1.rows.len());
            lemma_row_tests_stable(u1, u2, b, TyId(k.a));
        },
        TyTag::ConstVal => {
            lemma_ok_stable(u1, u2, b, TyId(k.b));
        },
        _ => {},
    }
}

/// The core substitution of a qualifier-free row is qualified only where
/// the row is a bound parameter or brand whose binding is qualified.
proof fn lemma_core_qualified(u: TyUniverse, b: Binding, t: TyId, r: TyId)
    requires
        t.0 < u.rows.len(),
        u.rows[t.0 as int].quals == 0,
        core_to(u, b, t, r),
        u.rows[r.0 as int].quals != 0,
    ensures
        core_yields_qualified(u, b, t),
{
}


/// Substitution is a function: two substitutions of one type under one
/// binding, read in one store, are the same row. So matching a pattern and
/// then substituting it under the grown binding gives the matched target
/// back: the match shows the target is a substitution of the pattern, and
/// `subst_norm` returns one.
pub proof fn lemma_substitution_is_a_function(s: &TyStore, b: Binding, x: TyId, r1: TyId, r2: TyId)
    requires
        s.wf(),
        subst_to(s.universe(), b, x, r1),
        subst_to(s.universe(), b, x, r2),
    ensures
        r1 == r2,
    decreases x.0, 3int, 0int,
{
    let u = s.universe();
    s.lemma_columns();
    if u.flags[x.0 as int] & F_OPEN != 0 {
        if u.rows[x.0 as int].quals == 0 {
            lemma_core_function(s, b, x, r1, r2);
        } else {
            let base = u.unqual[x.0 as int];
            lemma_core_function(s, b, base, u.unqual[r1.0 as int], u.unqual[r2.0 as int]);
            lemma_row_columns(s, r1.0 as int);
            lemma_row_columns(s, r2.0 as int);
            let k1 = u.rows[r1.0 as int];
            let k2 = u.rows[r2.0 as int];
            assert(k1 == k2);
            lemma_equal_rows_are_one_id(s, r1.0 as int, r2.0 as int);
        }
    }
}

proof fn lemma_list_function(s: &TyStore, b: Binding, xs: Seq<TyId>, ys1: Seq<TyId>, ys2: Seq<TyId>, parent: u32)
    requires
        s.wf(),
        list_to(s.universe(), b, xs, ys1, parent),
        list_to(s.universe(), b, xs, ys2, parent),
    ensures
        ys1 == ys2,
    decreases parent, 0int, xs.len(),
{
    if xs.len() > 0 {
        lemma_list_function(s, b, xs.drop_last(), ys1.drop_last(), ys2.drop_last(), parent);
        lemma_substitution_is_a_function(s, b, xs.last(), ys1.last(), ys2.last());
        assert(ys1 =~= ys1.drop_last().push(ys1.last()));
        assert(ys2 =~= ys2.drop_last().push(ys2.last()));
    } else {
        assert(ys1 =~= ys2);
    }
}

proof fn lemma_core_function(s: &TyStore, b: Binding, t: TyId, r1: TyId, r2: TyId)
    requires
        s.wf(),
        core_to(s.universe(), b, t, r1),
        core_to(s.universe(), b, t, r2),
    ensures
        r1 == r2,
    decreases t.0, 2int, 0int,
{
    let u = s.universe();
    let k = u.rows[t.0 as int];
    let k1 = u.rows[r1.0 as int];
    let k2 = u.rows[r2.0 as int];
    s.lemma_pools_unique();
    match k.tag {
        TyTag::Nominal | TyTag::Tuple => {
            lemma_list_function(s, b, u.args[k.b as int], u.args[k1.b as int], u.args[k2.b as int], t.0);
            assert(k1 == k2);
        },
        TyTag::Dyn => {
            let xs = u.args[u.trait_refs[k.a as int].args.0 as int];
            lemma_list_function(
                s,
                b,
                xs,
                u.args[u.trait_refs[k1.a as int].args.0 as int],
                u.args[u.trait_refs[k2.a as int].args.0 as int],
                t.0,
            );
            assert(u.trait_refs[k1.a as int] == u.trait_refs[k2.a as int]);
            assert(k1 == k2);
        },
        TyTag::Fn => {
            let f = u.fns[k.a as int];
            let g1 = u.fns[k1.a as int];
            let g2 = u.fns[k2.a as int];
            lemma_list_function(s, b, f.ty, g1.ty, g2.ty, t.0);
            lemma_substitution_is_a_function(s, b, f.result, g1.result, g2.result);
            if f.raises != absent() {
                lemma_substitution_is_a_function(s, b, f.raises, g1.raises, g2.raises);
            }
            assert(g1 == g2);
            assert(k1 == k2);
        },
        TyTag::Proj => {
            lemma_substitution_is_a_function(s, b, TyId(k.a), TyId(k1.a), TyId(k2.a));
            let pk = u.proj_keys[k.b as int];
            let xs = u.args[u.trait_refs[pk.tr.0 as int].args.0 as int];
            let tr1 = u.trait_refs[u.proj_keys[k1.b as int].tr.0 as int];
            let tr2 = u.trait_refs[u.proj_keys[k2.b as int].tr.0 as int];
            lemma_list_function(s, b, xs, u.args[tr1.args.0 as int], u.args[tr2.args.0 as int], t.0);
            assert(tr1 == tr2);
            assert(u.proj_keys[k1.b as int] == u.proj_keys[k2.b as int]);
            assert(k1 == k2);
        },
        TyTag::ConstVal => {
            lemma_substitution_is_a_function(s, b, TyId(k.b), TyId(k1.b), TyId(k2.b));
            assert(k1 == k2);
        },
        _ => {},
    }
}

// ---------------------------------------------------------------------------
// Substituting
// ---------------------------------------------------------------------------

/// How a projection whose head stopped being rigid is resolved.
pub trait ProjSolver {
    /// This solver reduces no projection.
    spec fn declines(&self) -> bool;

    /// The type `head.key` reduces to, if this solver can tell.
    fn solve(&mut self, store: &mut TyStore, head: TyId, key: ProjKeyId) -> (r: Option<TyId>)
        requires
            old(store).wf(),
            head.0 < old(store).spec_rows().len(),
            key.0 < old(store).spec_proj_keys().len(),
        ensures
            final(store).wf(),
            TyStore::grows(old(store), final(store)),
            final(self).declines() == old(self).declines(),
            r matches Some(t) ==> t.0 < final(store).spec_rows().len(),
            old(self).declines() ==> r is None,
    ;
}

/// Refuses to reduce a projection on a concrete head: a substitution that
/// would need one does not exist.
pub struct NeutralOnly;

impl ProjSolver for NeutralOnly {
    open spec fn declines(&self) -> bool {
        true
    }

    fn solve(&mut self, store: &mut TyStore, head: TyId, key: ProjKeyId) -> (r: Option<TyId>) {
        proof {
            TyStore::lemma_grows_refl(&*store);
        }
        None
    }
}

/// What a substitution needs: a well-formed store, and a well-formed binding
/// whose bound slots name rows of it.
pub open spec fn subst_pre(s: TyStore, b: Binding) -> bool {
    &&& s.wf()
    &&& b.wf()
    &&& slots_fit(b, s.spec_rows().len())
}

/// What every step of a substitution keeps.
pub open spec fn step_post<S: ProjSolver>(s0: TyStore, s1: TyStore, v0: S, v1: S, r: Option<TyId>) -> bool {
    &&& s1.wf()
    &&& TyStore::grows(&s0, &s1)
    &&& v1.declines() == v0.declines()
    &&& (r matches Some(t) ==> t.0 < s1.spec_rows().len())
}

/// With a solver that reduces nothing: a result is the substitution, and
/// no result means there is none (or the store ran out of ids).
pub open spec fn norm_post<S: ProjSolver>(s0: TyStore, s1: TyStore, v0: S, v1: S, b: Binding, ty: TyId, r: Option<TyId>) -> bool {
    &&& step_post(s0, s1, v0, v1, r)
    &&& (v0.declines() ==> match r {
        Some(x) => subst_to(s1.universe(), b, ty, x),
        None => !subst_ok(s0.universe(), b, ty) || !s1.has_room_for(8),
    })
}

/// `norm_post` for a qualifier-free row's core substitution.
pub open spec fn core_post<S: ProjSolver>(s0: TyStore, s1: TyStore, v0: S, v1: S, b: Binding, t: TyId, r: Option<TyId>) -> bool {
    &&& step_post(s0, s1, v0, v1, r)
    &&& (v0.declines() ==> match r {
        Some(x) => core_to(s1.universe(), b, t, x),
        None => !core_ok(s0.universe(), b, t) || !s1.has_room_for(8),
    })
}

/// Everything a grown store held is still there, at the same ids.
proof fn lemma_kept(s0: TyStore, s1: TyStore)
    requires
        TyStore::grows(&s0, &s1),
    ensures
        s0.spec_rows().len() <= s1.spec_rows().len(),
        s0.spec_args().len() <= s1.spec_args().len(),
        s0.spec_trait_refs().len() <= s1.spec_trait_refs().len(),
        s0.spec_proj_keys().len() <= s1.spec_proj_keys().len(),
        s0.spec_fns().len() <= s1.spec_fns().len(),
        forall|i: int| 0 <= i < s0.spec_rows().len() ==> #[trigger] s1.spec_rows()[i] == s0.spec_rows()[i],
        forall|i: int| 0 <= i < s0.spec_flags().len() ==> #[trigger] s1.spec_flags()[i] == s0.spec_flags()[i],
        forall|i: int| 0 <= i < s0.spec_unqual().len() ==> #[trigger] s1.spec_unqual()[i] == s0.spec_unqual()[i],
        forall|i: int| 0 <= i < s0.spec_args().len() ==> #[trigger] s1.spec_args()[i] == s0.spec_args()[i],
        forall|i: int|
            0 <= i < s0.spec_trait_refs().len() ==> #[trigger] s1.spec_trait_refs()[i] == s0.spec_trait_refs()[i],
        forall|i: int|
            0 <= i < s0.spec_proj_keys().len() ==> #[trigger] s1.spec_proj_keys()[i] == s0.spec_proj_keys()[i],
        forall|i: int| 0 <= i < s0.spec_fns().len() ==> #[trigger] s1.spec_fns()[i] == s0.spec_fns()[i],
        forall|i: int| 0 <= i < s0.spec_brands().len() ==> #[trigger] s1.spec_brands()[i] == s0.spec_brands()[i],
{
    let (u0, u1) = (s0.universe(), s1.universe());
    assert forall|i: int| 0 <= i < s0.spec_rows().len() implies #[trigger] s1.spec_rows()[i] == s0.spec_rows()[i] by {
        lemma_prefix_at(u0.rows, u1.rows, i);
    }
    assert forall|i: int| 0 <= i < s0.spec_flags().len() implies #[trigger] s1.spec_flags()[i] == s0.spec_flags()[i] by {
        lemma_prefix_at(u0.flags, u1.flags, i);
    }
    assert forall|i: int| 0 <= i < s0.spec_unqual().len() implies #[trigger] s1.spec_unqual()[i] == s0.spec_unqual()[i] by {
        lemma_prefix_at(u0.unqual, u1.unqual, i);
    }
    assert forall|i: int| 0 <= i < s0.spec_args().len() implies #[trigger] s1.spec_args()[i] == s0.spec_args()[i] by {
        lemma_prefix_at(u0.args, u1.args, i);
    }
    assert forall|i: int|
        0 <= i < s0.spec_trait_refs().len() implies #[trigger] s1.spec_trait_refs()[i] == s0.spec_trait_refs()[i] by {
        lemma_prefix_at(u0.trait_refs, u1.trait_refs, i);
    }
    assert forall|i: int|
        0 <= i < s0.spec_proj_keys().len() implies #[trigger] s1.spec_proj_keys()[i] == s0.spec_proj_keys()[i] by {
        lemma_prefix_at(u0.proj_keys, u1.proj_keys, i);
    }
    assert forall|i: int| 0 <= i < s0.spec_fns().len() implies #[trigger] s1.spec_fns()[i] == s0.spec_fns()[i] by {
        lemma_prefix_at(u0.fns, u1.fns, i);
    }
    assert forall|i: int| 0 <= i < s0.spec_brands().len() implies #[trigger] s1.spec_brands()[i] == s0.spec_brands()[i] by {
        lemma_prefix_at(u0.brands, u1.brands, i);
    }
}

/// What `lemma_ok_stable` needs of a store.
proof fn lemma_ok_grows(s0: TyStore, s1: TyStore, b: Binding, x: TyId)
    requires
        s0.wf(),
        TyStore::grows(&s0, &s1),
        slots_fit(b, s0.spec_rows().len()),
        subst_ok(s0.universe(), b, x),
    ensures
        subst_ok(s1.universe(), b, x),
{
    s0.lemma_columns();
    assert forall|i: int| 0 <= i < s0.spec_unqual().len() implies (#[trigger] s0.spec_unqual()[i]).0 < s0.spec_rows().len() by {
        lemma_row_columns(&s0, i);
    }
    lemma_ok_stable(s0.universe(), s1.universe(), b, x);
}

/// A projection's head substitutes to a parameter or a projection exactly
/// where `head_stays_rigid` says so.
proof fn lemma_head_result(s: TyStore, b: Binding, h: TyId, r: TyId)
    requires
        s.wf(),
        slots_fit(b, s.spec_rows().len()),
        h.0 < s.spec_rows().len(),
        rigid_at(s.spec_rows(), h.0),
        subst_to(s.universe(), b, h, r),
    ensures
        rigid_at(s.spec_rows(), r.0) == head_stays_rigid(s.universe(), b, h),
{
    let u = s.universe();
    s.lemma_columns();
    lemma_row_columns(&s, h.0 as int);
    s.lemma_row_order(h.0 as int);
    let k = u.rows[h.0 as int];
    if k.tag == TyTag::Param {
        lemma_flag_bits();
    } else {
        let x = u.flags[k.a as int];
        let y = u.flags[h.0 as int];
        lemma_flag_bits();
        assert((((2u8 | x) | y) & 7u8) != 0u8);
    }
    assert(u.flags[h.0 as int] & F_OPEN != 0);
    lemma_row_columns(&s, r.0 as int);
    if k.quals == 0 {
        assert(u.unqual[h.0 as int] == h);
        assert(core_to(u, b, h, r));
    } else {
        let base = u.unqual[h.0 as int];
        let c = u.unqual[r.0 as int];
        assert(core_to(u, b, base, c));
        lemma_row_columns(&s, base.0 as int);
        assert(u.rows[base.0 as int].tag == k.tag);
        assert(u.rows[c.0 as int].tag == u.rows[r.0 as int].tag);
    }
}

/// A qualified position's result: the qualifiers put back on the core
/// substitution of its qualifier-free row.
proof fn lemma_requalified(s0: TyStore, s1: TyStore, s2: TyStore, b: Binding, ty: TyId, out: TyId, r: TyId)
    requires
        s0.wf(),
        s1.wf(),
        s2.wf(),
        TyStore::grows(&s0, &s1),
        TyStore::grows(&s1, &s2),
        ty.0 < s0.spec_rows().len(),
        s0.spec_flags()[ty.0 as int] & F_OPEN != 0,
        s0.spec_rows()[ty.0 as int].quals != 0,
        out.0 < s1.spec_rows().len(),
        s1.spec_rows()[out.0 as int].quals == 0,
        core_to(s1.universe(), b, s0.spec_unqual()[ty.0 as int], out),
        r.0 < s2.spec_rows().len(),
        s2.spec_rows()[r.0 as int] == (TyKey { quals: s0.spec_rows()[ty.0 as int].quals, ..s1.spec_rows()[out.0 as int] }),
    ensures
        subst_to(s2.universe(), b, ty, r),
{
    s0.lemma_columns();
    s2.lemma_columns();
    s0.lemma_row_order(ty.0 as int);
    lemma_grows_trans(&s0, &s1, &s2);
    lemma_kept(s0, s2);
    lemma_kept(s1, s2);
    lemma_row_columns(&s2, r.0 as int);
    let c = s2.spec_unqual()[r.0 as int];
    assert(s2.spec_rows()[c.0 as int] == s2.spec_rows()[out.0 as int]);
    lemma_equal_rows_are_one_id(&s2, c.0 as int, out.0 as int);
    lemma_core_stable(s1.universe(), s2.universe(), b, s0.spec_unqual()[ty.0 as int], out);
}

/// `subst_norm_with` with no projection solver (see [`NeutralOnly`]).
pub fn subst_norm(store: &mut TyStore, ty: TyId, b: &Binding) -> (r: Option<TyId>)
    requires
        subst_pre(*old(store), *b),
        ty.0 < old(store).spec_rows().len(),
    ensures
        final(store).wf(),
        TyStore::grows(old(store), final(store)),
        r matches Some(t) ==> subst_to(final(store).universe(), *b, ty, t),
        r is None ==> !subst_ok(old(store).universe(), *b, ty) || !final(store).has_room_for(8),
        old(store).spec_flags()[ty.0 as int] & F_OPEN == 0 ==> r == Some(ty) && *final(store) == *old(store),
{
    let mut solver = NeutralOnly;
    subst_norm_with(store, ty, b, &mut solver)
}

/// `ty` with the parameters `b` binds replaced, re-interned. A monomorphic
/// type is returned as it is, after one load of its flags. A qualified
/// position takes only an unqualified argument: that keeps substitution
/// injective on qualifiers, so that the one-way match is its inverse.
pub fn subst_norm_with<S: ProjSolver>(store: &mut TyStore, ty: TyId, b: &Binding, solver: &mut S) -> (r: Option<TyId>)
    requires
        subst_pre(*old(store), *b),
        ty.0 < old(store).spec_rows().len(),
    ensures
        norm_post(*old(store), *final(store), *old(solver), *final(solver), *b, ty, r),
        old(store).spec_flags()[ty.0 as int] & F_OPEN == 0 ==> r == Some(ty) && *final(store) == *old(store),
    decreases ty.0, 4int,
{
    proof {
        store.lemma_columns();
        TyStore::lemma_grows_refl(&*store);
    }
    if store.is_monomorphic(ty) {
        return Some(ty);
    }
    let q = store.quals(ty);
    let base = store.unqual(ty);
    let ghost s0 = *store;
    let ghost v0 = *solver;
    proof {
        store.lemma_row_order(ty.0 as int);
    }
    let out = match subst_core(store, base, b, solver) {
        Some(o) => o,
        None => return None,
    };
    let ghost s1 = *store;
    if q.is_none() {
        return Some(out);
    }
    if !store.quals(out).is_none() {
        proof {
            if v0.declines() {
                lemma_core_qualified(s1.universe(), *b, base, out);
                lemma_row_columns(&s0, base.0 as int);
                lemma_row_tests_stable(s0.universe(), s1.universe(), *b, base);
            }
        }
        return None;
    }
    if !store.has_capacity() {
        return None;
    }
    let qo: u8 = store.quals(out).0;
    let qn: u8 = q.0;
    proof {
        lemma_flag_bits();
        assert((0u8 | qn) == qn);
    }
    proof {
        lemma_no_quals_consistent();
        s0.lemma_row_order(ty.0 as int);
    }
    let r = store.qualified(out, q);
    proof {
        lemma_grows_trans(&s0, &s1, &*store);
        if v0.declines() {
            lemma_requalified(s0, s1, *store, *b, ty, out, r);
        }
    }
    Some(r)
}

fn subst_core<S: ProjSolver>(store: &mut TyStore, t: TyId, b: &Binding, solver: &mut S) -> (r: Option<TyId>)
    requires
        subst_pre(*old(store), *b),
        t.0 < old(store).spec_rows().len(),
        old(store).spec_rows()[t.0 as int].quals == 0,
    ensures
        core_post(*old(store), *final(store), *old(solver), *final(solver), *b, t, r),
    decreases t.0, 3int,
{
    let tag = store.tag(t);
    let a = store.a(t);
    let bb = store.b(t);
    proof {
        store.lemma_row_order(t.0 as int);
        store.lemma_columns();
        TyStore::lemma_grows_refl(&*store);
    }
    match tag {
        TyTag::Param => {
            let owner = DefId(a);
            if !b.owns(owner) {
                return Some(t);
            }
            let v = b.slot(owner, bb as u16);
            if v == no_ty() {
                None
            } else {
                Some(v)
            }
        },
        TyTag::Brand => match store.brand(BrandId(bb)) {
            BrandRow::Param { owner, ordinal } => {
                if !b.owns(owner) {
                    return Some(t);
                }
                let v = b.slot(owner, ordinal);
                if v == no_ty() {
                    None
                } else {
                    Some(v)
                }
            },
            _ => Some(t),
        },
        TyTag::Nominal | TyTag::Tuple => subst_listed(store, t, b, solver),
        TyTag::Dyn => subst_dyn(store, t, b, solver),
        TyTag::Fn => subst_fn(store, t, b, solver),
        TyTag::Proj => subst_proj(store, t, b, solver),
        TyTag::ConstVal => subst_const(store, t, b, solver),
        _ => Some(t),
    }
}

/// The argument list `args`, substituted element by element; every element
/// comes before `parent`.
fn subst_args<S: ProjSolver>(
    store: &mut TyStore,
    args: ArgsId,
    b: &Binding,
    solver: &mut S,
    Ghost(parent): Ghost<u32>,
) -> (r: Option<Vec<TyId>>)
    requires
        subst_pre(*old(store), *b),
        args.0 < old(store).spec_args().len(),
        ids_below(old(store).spec_args()[args.0 as int], parent as int),
        parent <= old(store).spec_rows().len(),
    ensures
        final(store).wf(),
        TyStore::grows(old(store), final(store)),
        final(solver).declines() == old(solver).declines(),
        r matches Some(ys) ==> ys@.len() == old(store).spec_args()[args.0 as int].len() && ids_ok(
            final(store).universe(),
            ys@,
        ),
        old(solver).declines() ==> match r {
            Some(ys) => list_to(final(store).universe(), *b, old(store).spec_args()[args.0 as int], ys@, parent),
            None => !list_ok(old(store).universe(), *b, old(store).spec_args()[args.0 as int], parent)
                || !final(store).has_room_for(8),
        },
    decreases parent, 1int,
{
    let xs = store.args_vec(args);
    let ghost s0 = *store;
    let ghost v0 = *solver;
    proof {
        TyStore::lemma_grows_refl(&*store);
    }
    let mut ys: Vec<TyId> = Vec::new();
    let mut i: usize = 0;
    while i < xs.len()
        invariant
            subst_pre(*store, *b),
            subst_pre(s0, *b),
            s0 == *old(store),
            v0 == *old(solver),
            TyStore::grows(&s0, &*store),
            xs@ == s0.spec_args()[args.0 as int],
            ids_below(xs@, parent as int),
            parent <= s0.spec_rows().len(),
            i <= xs@.len(),
            ys@.len() == i,
            ids_ok(store.universe(), ys@),
            solver.declines() == v0.declines(),
            v0.declines() ==> list_to(store.universe(), *b, xs@.subrange(0, i as int), ys@, parent),
        decreases xs@.len() - i,
    {
        let x = xs[i];
        assert(x.0 < parent);
        let ghost s1 = *store;
        proof {
            lemma_kept(s0, s1);
        }
        let y = match subst_norm_with(store, x, b, solver) {
            Some(y) => y,
            None => {
                proof {
                    if v0.declines() && list_ok(s0.universe(), *b, xs@, parent) {
                        lemma_list_ok_at(s0.universe(), *b, xs@, parent, i as int);
                        lemma_ok_grows(s0, s1, *b, x);
                    }
                    lemma_grows_trans(&s0, &s1, &*store);
                }
                return None;
            },
        };
        let ghost ys0 = ys@;
        ys.push(y);
        proof {
            lemma_grows_trans(&s0, &s1, &*store);
            lemma_kept(s1, *store);
            assert forall|j: int| 0 <= j < ys@.len() implies (#[trigger] ys@[j]).0 < store.spec_rows().len() by {
                if j < ys0.len() {
                    assert(ys@[j] == ys0[j]);
                }
            }
            if v0.declines() {
                lemma_list_stable(s1.universe(), store.universe(), *b, xs@.subrange(0, i as int), ys0, parent);
                lemma_list_push(store.universe(), *b, xs@.subrange(0, i as int), ys0, x, y, parent);
                assert(xs@.subrange(0, i as int).push(x) =~= xs@.subrange(0, i + 1));
            }
        }
        i = i + 1;
    }
    proof {
        assert(xs@.subrange(0, i as int) =~= xs@);
    }
    Some(ys)
}

fn subst_listed<S: ProjSolver>(store: &mut TyStore, t: TyId, b: &Binding, solver: &mut S) -> (r: Option<TyId>)
    requires
        subst_pre(*old(store), *b),
        t.0 < old(store).spec_rows().len(),
        old(store).spec_rows()[t.0 as int].quals == 0,
        old(store).spec_rows()[t.0 as int].tag == TyTag::Nominal || old(store).spec_rows()[t.0 as int].tag
            == TyTag::Tuple,
    ensures
        core_post(*old(store), *final(store), *old(solver), *final(solver), *b, t, r),
    decreases t.0, 2int,
{
    let tag = store.tag(t);
    let a = store.a(t);
    let bb = store.b(t);
    let ghost s0 = *store;
    let ghost v0 = *solver;
    proof {
        store.lemma_row_order(t.0 as int);
        store.lemma_columns();
        store.lemma_args_short(bb as int);
    }
    let xs = match subst_args(store, ArgsId(bb), b, solver, Ghost(t.0)) {
        Some(xs) => xs,
        None => return None,
    };
    if !store.has_capacity() {
        return None;
    }
    let ghost s1 = *store;
    let id = store.intern_args(xs.as_slice());
    let ghost s2 = *store;
    proof {
        lemma_no_quals_consistent();
        lemma_kept(s1, s2);
        s2.lemma_columns();
    }
    let r = match tag {
        TyTag::Nominal => store.nominal(DefId(a), id),
        _ => store.intern(TyTag::Tuple, 0, id.0, Quals(0)),
    };
    proof {
        lemma_grows_trans(&s0, &s1, &s2);
        lemma_grows_trans(&s0, &s2, &*store);
        lemma_grows_trans(&s1, &s2, &*store);
        lemma_kept(s0, *store);
        lemma_kept(s2, *store);
        if v0.declines() {
            lemma_list_stable(s1.universe(), store.universe(), *b, s0.spec_args()[bb as int], xs@, t.0);
        }
    }
    Some(r)
}

fn subst_dyn<S: ProjSolver>(store: &mut TyStore, t: TyId, b: &Binding, solver: &mut S) -> (r: Option<TyId>)
    requires
        subst_pre(*old(store), *b),
        t.0 < old(store).spec_rows().len(),
        old(store).spec_rows()[t.0 as int].quals == 0,
        old(store).spec_rows()[t.0 as int].tag == TyTag::Dyn,
    ensures
        core_post(*old(store), *final(store), *old(solver), *final(solver), *b, t, r),
    decreases t.0, 2int,
{
    let a = store.a(t);
    let ghost s0 = *store;
    let ghost v0 = *solver;
    proof {
        store.lemma_row_order(t.0 as int);
        store.lemma_columns();
    }
    let (trait_def, args) = store.trait_ref(TraitRefId(a));
    proof {
        store.lemma_args_short(args.0 as int);
    }
    let xs = match subst_args(store, args, b, solver, Ghost(t.0)) {
        Some(xs) => xs,
        None => return None,
    };
    if !store.has_capacity() {
        return None;
    }
    let ghost s1 = *store;
    let id = store.intern_args(xs.as_slice());
    let ghost sa = *store;
    let tr = store.intern_trait_ref(trait_def, id);
    let ghost s2 = *store;
    proof {
        lemma_grows_trans(&s1, &sa, &s2);
        lemma_kept(s1, s2);
        lemma_kept(sa, s2);
        s2.lemma_columns();
    }
    let r = store.dyn_ty(tr);
    proof {
        lemma_grows_trans(&s0, &s1, &s2);
        lemma_grows_trans(&s0, &s2, &*store);
        lemma_grows_trans(&s1, &s2, &*store);
        lemma_kept(s0, *store);
        lemma_kept(s2, *store);
        if v0.declines() {
            lemma_list_stable(s1.universe(), store.universe(), *b, s0.spec_args()[args.0 as int], xs@, t.0);
        }
    }
    Some(r)
}

fn subst_const<S: ProjSolver>(store: &mut TyStore, t: TyId, b: &Binding, solver: &mut S) -> (r: Option<TyId>)
    requires
        subst_pre(*old(store), *b),
        t.0 < old(store).spec_rows().len(),
        old(store).spec_rows()[t.0 as int].quals == 0,
        old(store).spec_rows()[t.0 as int].tag == TyTag::ConstVal,
    ensures
        core_post(*old(store), *final(store), *old(solver), *final(solver), *b, t, r),
    decreases t.0, 2int,
{
    let a = store.a(t);
    let bb = store.b(t);
    let ghost s0 = *store;
    let ghost v0 = *solver;
    proof {
        store.lemma_row_order(t.0 as int);
        store.lemma_columns();
    }
    let c = match subst_norm_with(store, TyId(bb), b, solver) {
        Some(c) => c,
        None => return None,
    };
    if !store.has_capacity() {
        return None;
    }
    let ghost s1 = *store;
    proof {
        lemma_no_quals_consistent();
        s1.lemma_columns();
    }
    let r = store.intern(TyTag::ConstVal, a, c.0, Quals(0));
    proof {
        lemma_grows_trans(&s0, &s1, &*store);
        lemma_kept(s0, *store);
        if v0.declines() {
            lemma_subst_stable(s1.universe(), store.universe(), *b, TyId(bb), c);
        }
    }
    Some(r)
}

fn subst_fn<S: ProjSolver>(store: &mut TyStore, t: TyId, b: &Binding, solver: &mut S) -> (r: Option<TyId>)
    requires
        subst_pre(*old(store), *b),
        t.0 < old(store).spec_rows().len(),
        old(store).spec_rows()[t.0 as int].quals == 0,
        old(store).spec_rows()[t.0 as int].tag == TyTag::Fn,
    ensures
        core_post(*old(store), *final(store), *old(solver), *final(solver), *b, t, r),
    decreases t.0, 2int,
{
    let a = store.a(t);
    let id = FnTyId(a);
    let ghost s0 = *store;
    let ghost v0 = *solver;
    proof {
        store.lemma_row_order(t.0 as int);
        store.lemma_columns();
        store.lemma_fns_short(a as int);
        TyStore::lemma_grows_refl(&*store);
    }
    let ghost f = s0.spec_fns()[a as int];
    let mut convs: Vec<Conv> = Vec::new();
    let mut tys: Vec<TyId> = Vec::new();
    let (cs, ts) = store.fn_tys().params(id);
    let n = ts.len();
    let mut k: usize = 0;
    while k < n
        invariant
            cs@ == f.conv,
            ts@ == f.ty,
            n == f.ty.len(),
            f.conv.len() == f.ty.len(),
            k <= n,
            convs@ == f.conv.subrange(0, k as int),
            tys@ == f.ty.subrange(0, k as int),
        decreases n - k,
    {
        let c = cs[k];
        let x = ts[k];
        convs.push(c);
        tys.push(x);
        k = k + 1;
        proof {
            assert(convs@ =~= f.conv.subrange(0, k as int));
            assert(tys@ =~= f.ty.subrange(0, k as int));
        }
    }
    proof {
        assert(convs@ =~= f.conv);
        assert(tys@ =~= f.ty);
    }
    let result = store.fn_tys().result(id);
    let raises = store.fn_tys().raises(id);
    let closure = store.fn_tys().is_closure(id);
    let mut params: Vec<(Conv, TyId)> = Vec::new();
    let mut i: usize = 0;
    while i < n
        invariant
            subst_pre(*store, *b),
            subst_pre(s0, *b),
            s0 == *old(store),
            v0 == *old(solver),
            TyStore::grows(&s0, &*store),
            a < s0.spec_fns().len(),
            f == s0.spec_fns()[a as int],
            t.0 < s0.spec_rows().len(),
            s0.spec_rows()[t.0 as int].tag == TyTag::Fn,
            s0.spec_rows()[t.0 as int].a == a,
            ids_below(f.ty, t.0 as int),
            n == f.ty.len(),
            f.conv.len() == f.ty.len(),
            convs@ == f.conv,
            tys@ == f.ty,
            i <= n,
            params@.len() == i,
            forall|j: int| 0 <= j < i ==> (#[trigger] params@[j]).0 == convs@[j],
            ids_ok(store.universe(), params@.map_values(|p: (Conv, TyId)| p.1)),
            solver.declines() == v0.declines(),
            v0.declines() ==> list_to(
                store.universe(),
                *b,
                tys@.subrange(0, i as int),
                params@.map_values(|p: (Conv, TyId)| p.1),
                t.0,
            ),
        decreases n - i,
    {
        let x = tys[i];
        let ghost s1 = *store;
        proof {
            assert(x.0 < t.0);
        }
        let y = match subst_norm_with(store, x, b, solver) {
            Some(y) => y,
            None => {
                proof {
                    if v0.declines() && list_ok(s0.universe(), *b, f.ty, t.0) {
                        lemma_list_ok_at(s0.universe(), *b, f.ty, t.0, i as int);
                        lemma_ok_grows(s0, s1, *b, x);
                    }
                    lemma_grows_trans(&s0, &s1, &*store);
                }
                return None;
            },
        };
        let ghost p0 = params@;
        params.push((convs[i], y));
        proof {
            lemma_grows_trans(&s0, &s1, &*store);
            lemma_kept(s1, *store);
            let m0 = p0.map_values(|p: (Conv, TyId)| p.1);
            let m1 = params@.map_values(|p: (Conv, TyId)| p.1);
            assert(m1 =~= m0.push(y));
            assert forall|j: int| 0 <= j < m1.len() implies (#[trigger] m1[j]).0 < store.spec_rows().len() by {
                if j < m0.len() {
                    assert(m1[j] == m0[j]);
                }
            }
            assert forall|j: int| 0 <= j < i + 1 implies (#[trigger] params@[j]).0 == convs@[j] by {
                if j < i {
                    assert(params@[j] == p0[j]);
                }
            }
            if v0.declines() {
                lemma_list_stable(s1.universe(), store.universe(), *b, tys@.subrange(0, i as int), m0, t.0);
                lemma_list_push(store.universe(), *b, tys@.subrange(0, i as int), m0, x, y, t.0);
                assert(tys@.subrange(0, i as int).push(x) =~= tys@.subrange(0, i + 1));
            }
        }
        i = i + 1;
    }
    proof {
        assert(tys@.subrange(0, i as int) =~= tys@);
    }
    let ghost s2 = *store;
    proof {
        lemma_kept(s0, s2);
    }
    let result2 = match subst_norm_with(store, result, b, solver) {
        Some(y) => y,
        None => {
            proof {
                if v0.declines() && subst_ok(s0.universe(), *b, result) {
                    lemma_ok_grows(s0, s2, *b, result);
                }
                lemma_grows_trans(&s0, &s2, &*store);
            }
            return None;
        },
    };
    let ghost s3 = *store;
    proof {
        lemma_grows_trans(&s0, &s2, &s3);
        lemma_kept(s2, s3);
        lemma_kept(s0, s3);
    }
    proof {
        TyStore::lemma_grows_refl(&s3);
    }
    let raises2 = if raises == no_ty() {
        no_ty()
    } else {
        match subst_norm_with(store, raises, b, solver) {
            Some(y) => y,
            None => {
                proof {
                    if v0.declines() && subst_ok(s0.universe(), *b, raises) {
                        lemma_ok_grows(s0, s3, *b, raises);
                    }
                    lemma_grows_trans(&s0, &s3, &*store);
                }
                return None;
            },
        }
    };
    let ghost s4 = *store;
    proof {
        lemma_grows_trans(&s0, &s3, &s4);
        lemma_grows_trans(&s2, &s3, &s4);
        lemma_kept(s3, s4);
        lemma_kept(s2, s4);
    }
    if !store.has_capacity() {
        return None;
    }
    let fid = store.intern_fn_ty(params.as_slice(), result2, raises2, closure);
    let ghost s5 = *store;
    proof {
        lemma_grows_trans(&s0, &s4, &s5);
        lemma_grows_trans(&s2, &s4, &s5);
        lemma_grows_trans(&s3, &s4, &s5);
        lemma_kept(s4, s5);
        s5.lemma_columns();
        lemma_no_quals_consistent();
        assert(params@.map_values(|p: (Conv, TyId)| p.0) =~= convs@);
    }
    let r = store.fn_ty(fid);
    proof {
        lemma_grows_trans(&s0, &s5, &*store);
        lemma_grows_trans(&s2, &s5, &*store);
        lemma_grows_trans(&s3, &s5, &*store);
        lemma_grows_trans(&s4, &s5, &*store);
        lemma_kept(s0, *store);
        lemma_kept(s5, *store);
        if v0.declines() {
            let m = params@.map_values(|p: (Conv, TyId)| p.1);
            lemma_list_stable(s2.universe(), store.universe(), *b, f.ty, m, t.0);
            lemma_subst_stable(s3.universe(), store.universe(), *b, result, result2);
            if raises != absent() {
                lemma_subst_stable(s4.universe(), store.universe(), *b, raises, raises2);
            }
        }
    }
    Some(r)
}

fn subst_proj<S: ProjSolver>(store: &mut TyStore, t: TyId, b: &Binding, solver: &mut S) -> (r: Option<TyId>)
    requires
        subst_pre(*old(store), *b),
        t.0 < old(store).spec_rows().len(),
        old(store).spec_rows()[t.0 as int].quals == 0,
        old(store).spec_rows()[t.0 as int].tag == TyTag::Proj,
    ensures
        core_post(*old(store), *final(store), *old(solver), *final(solver), *b, t, r),
    decreases t.0, 2int,
{
    let a = store.a(t);
    let bb = store.b(t);
    let ghost s0 = *store;
    let ghost v0 = *solver;
    proof {
        store.lemma_row_order(t.0 as int);
        store.lemma_columns();
    }
    let (tr, name) = store.proj_key(ProjKeyId(bb));
    let (trait_def, targs) = store.trait_ref(tr);
    proof {
        store.lemma_args_short(targs.0 as int);
    }
    let xs = match subst_args(store, targs, b, solver, Ghost(t.0)) {
        Some(xs) => xs,
        None => return None,
    };
    if !store.has_capacity() {
        return None;
    }
    let ghost s1 = *store;
    let id = store.intern_args(xs.as_slice());
    let ghost sa = *store;
    let tr2 = store.intern_trait_ref(trait_def, id);
    let ghost sb = *store;
    let key = store.intern_proj_key(tr2, name);
    let ghost s2 = *store;
    proof {
        lemma_grows_trans(&s1, &sa, &sb);
        lemma_grows_trans(&s1, &sb, &s2);
        lemma_kept(sa, s2);
        lemma_kept(sb, s2);
        lemma_kept(s1, s2);
        lemma_grows_trans(&s0, &s1, &s2);
        lemma_kept(s0, s2);
    }
    let head = match subst_norm_with(store, TyId(a), b, solver) {
        Some(h) => h,
        None => {
            proof {
                if v0.declines() && subst_ok(s0.universe(), *b, TyId(a)) {
                    lemma_ok_grows(s0, s2, *b, TyId(a));
                }
                lemma_grows_trans(&s0, &s2, &*store);
            }
            return None;
        },
    };
    let ghost s3 = *store;
    proof {
        lemma_grows_trans(&s0, &s2, &s3);
        lemma_kept(s2, s3);
        lemma_kept(s0, s3);
        s3.lemma_columns();
    }
    if store.is_rigid(head) {
        if !store.has_capacity() {
            return None;
        }
        let r = store.proj(head, key);
        proof {
            lemma_grows_trans(&s0, &s3, &*store);
            lemma_grows_trans(&s1, &s2, &s3);
            lemma_grows_trans(&s1, &s3, &*store);
            lemma_grows_trans(&s2, &s3, &*store);
            lemma_kept(s0, *store);
            lemma_kept(s3, *store);
            lemma_kept(s2, *store);
            if v0.declines() {
                lemma_list_stable(s1.universe(), store.universe(), *b, s0.spec_args()[targs.0 as int], xs@, t.0);
                lemma_subst_stable(s3.universe(), store.universe(), *b, TyId(a), head);
            }
        }
        Some(r)
    } else {
        proof {
            if v0.declines() {
                lemma_head_result(s3, *b, TyId(a), head);
                lemma_row_columns(&s0, a as int);
                lemma_row_tests_stable(s0.universe(), s3.universe(), *b, TyId(a));
            }
        }
        let r = solver.solve(store, head, key);
        proof {
            lemma_grows_trans(&s0, &s3, &*store);
        }
        r
    }
}

// ---------------------------------------------------------------------------
// The one-way match
// ---------------------------------------------------------------------------

/// `b2` has the owners of `b1` and agrees with every slot `b1` has bound.
pub open spec fn binding_grows(b1: Binding, b2: Binding) -> bool {
    &&& b2.owner_ids() == b1.owner_ids()
    &&& b2.owner_lens() == b1.owner_lens()
    &&& b2.spec_slots().len() == b1.spec_slots().len()
    &&& forall|i: int|
        0 <= i < b1.spec_slots().len() && b1.spec_slots()[i] != absent() ==> #[trigger] b2.spec_slots()[i]
            == b1.spec_slots()[i]
}

/// The rows are shaped as the store's constructors make them: a tuple's
/// first word, and a `dyn` or function type's second, is zero.
pub open spec fn shaped(k: TyKey) -> bool {
    &&& k.tag == TyTag::Tuple ==> k.a == 0
    &&& (k.tag == TyTag::Dyn || k.tag == TyTag::Fn) ==> k.b == 0
}

pub open spec fn canonical(rows: Seq<TyKey>) -> bool {
    forall|i: int| 0 <= i < rows.len() ==> shaped(#[trigger] rows[i])
}

/// Where the match is the inverse of substitution: the pattern holds no
/// projection (which the match skips or compares later) and no brand, the
/// store's rows are shaped as its constructors make them, and the target
/// is complete (it substitutes to itself).
pub open spec fn match_law_applies(s: TyStore, b: Binding, p: TyId, t: TyId) -> bool {
    &&& s.spec_flags()[p.0 as int] & F_PROJ == 0
    &&& s.spec_flags()[p.0 as int] & F_BRAND == 0
    &&& canonical(s.spec_rows())
    &&& subst_to(s.universe(), b, t, t)
}

proof fn lemma_binding_grows_trans(b1: Binding, b2: Binding, b3: Binding)
    requires
        binding_grows(b1, b2),
        binding_grows(b2, b3),
    ensures
        binding_grows(b1, b3),
{
    assert forall|i: int|
        0 <= i < b1.spec_slots().len() && b1.spec_slots()[i] != absent() implies #[trigger] b3.spec_slots()[i]
            == b1.spec_slots()[i] by {
        assert(b2.spec_slots()[i] == b1.spec_slots()[i]);
    }
}

proof fn lemma_binding_grows_refl(b: Binding)
    ensures
        binding_grows(b, b),
{
}

/// A well-formed binding's slot index is in range.
proof fn lemma_at_in_range(b: Binding, owner: DefId, ordinal: u16)
    requires
        b.wf(),
    ensures
        b.spec_at(owner, ordinal) matches Some(i) ==> 0 <= i < b.spec_slots().len(),
{
    lemma_find_owner(b.owner_ids(), owner, 0);
    match find_owner(b.owner_ids(), owner, 0) {
        Some(i) => {
            lemma_slots_before_mono(b.owner_lens(), i, b.owner_ids().len() as int);
        },
        None => {},
    }
}

/// A bound slot stays bound to the same type as the binding grows.
proof fn lemma_slot_grows(b1: Binding, b2: Binding, owner: DefId, ordinal: u16)
    requires
        b1.wf(),
        binding_grows(b1, b2),
        b1.spec_slot(owner, ordinal) != absent(),
    ensures
        b2.spec_slot(owner, ordinal) == b1.spec_slot(owner, ordinal),
        b2.spec_owns(owner) == b1.spec_owns(owner),
{
    lemma_at_in_range(b1, owner, ordinal);
    assert(b2.spec_at(owner, ordinal) == b1.spec_at(owner, ordinal));
}

/// A substitution stays one as the binding grows.
proof fn lemma_subst_mono(u: TyUniverse, b1: Binding, b2: Binding, x: TyId, y: TyId)
    requires
        b1.wf(),
        binding_grows(b1, b2),
        subst_to(u, b1, x, y),
    ensures
        subst_to(u, b2, x, y),
    decreases x.0, 3int, 0int,
{
    if u.flags[x.0 as int] & F_OPEN != 0 {
        if u.rows[x.0 as int].quals == 0 {
            lemma_core_mono(u, b1, b2, x, y);
        } else {
            lemma_core_mono(u, b1, b2, u.unqual[x.0 as int], u.unqual[y.0 as int]);
        }
    }
}

proof fn lemma_list_mono(u: TyUniverse, b1: Binding, b2: Binding, xs: Seq<TyId>, ys: Seq<TyId>, parent: u32)
    requires
        b1.wf(),
        binding_grows(b1, b2),
        list_to(u, b1, xs, ys, parent),
    ensures
        list_to(u, b2, xs, ys, parent),
    decreases parent, 0int, xs.len(),
{
    if xs.len() > 0 {
        lemma_list_mono(u, b1, b2, xs.drop_last(), ys.drop_last(), parent);
        lemma_subst_mono(u, b1, b2, xs.last(), ys.last());
    }
}

proof fn lemma_core_mono(u: TyUniverse, b1: Binding, b2: Binding, t: TyId, r: TyId)
    requires
        b1.wf(),
        binding_grows(b1, b2),
        core_to(u, b1, t, r),
    ensures
        core_to(u, b2, t, r),
    decreases t.0, 2int, 0int,
{
    let k = u.rows[t.0 as int];
    let kr = u.rows[r.0 as int];
    assert(b2.owner_ids() == b1.owner_ids());
    match k.tag {
        TyTag::Param => {
            if b1.spec_owns(DefId(k.a)) {
                lemma_slot_grows(b1, b2, DefId(k.a), k.b as u16);
            }
        },
        TyTag::Brand => {
            if u.brands[k.b as int] is Param && b1.spec_owns(u.brands[k.b as int]->Param_owner) {
                lemma_slot_grows(b1, b2, u.brands[k.b as int]->Param_owner, u.brands[k.b as int]->Param_ordinal);
            }
        },
        TyTag::Nominal | TyTag::Tuple => {
            lemma_list_mono(u, b1, b2, u.args[k.b as int], u.args[kr.b as int], t.0);
        },
        TyTag::Dyn => {
            lemma_list_mono(
                u,
                b1,
                b2,
                u.args[u.trait_refs[k.a as int].args.0 as int],
                u.args[u.trait_refs[kr.a as int].args.0 as int],
                t.0,
            );
        },
        TyTag::Fn => {
            let f = u.fns[k.a as int];
            let g = u.fns[kr.a as int];
            lemma_list_mono(u, b1, b2, f.ty, g.ty, t.0);
            lemma_subst_mono(u, b1, b2, f.result, g.result);
            if f.raises != absent() {
                lemma_subst_mono(u, b1, b2, f.raises, g.raises);
            }
        },
        TyTag::Proj => {
            lemma_subst_mono(u, b1, b2, TyId(k.a), TyId(kr.a));
            let pk = u.proj_keys[k.b as int];
            lemma_list_mono(
                u,
                b1,
                b2,
                u.args[u.trait_refs[pk.tr.0 as int].args.0 as int],
                u.args[u.trait_refs[u.proj_keys[kr.b as int].tr.0 as int].args.0 as int],
                t.0,
            );
        },
        TyTag::ConstVal => {
            lemma_subst_mono(u, b1, b2, TyId(k.b), TyId(kr.b));
        },
        _ => {},
    }
}

/// A flag bit the row lacks, none of its children has.
proof fn lemma_children_lack(s: TyStore, t: TyId, m: u8)
    requires
        s.wf(),
        t.0 < s.spec_rows().len(),
        s.spec_flags()[t.0 as int] & m == 0,
    ensures
        ({
            let u = s.universe();
            let k = u.rows[t.0 as int];
            &&& (k.tag == TyTag::Nominal || k.tag == TyTag::Tuple) ==> forall|i: int|
                0 <= i < u.args[k.b as int].len() ==> #[trigger] u.flags[u.args[k.b as int][i].0 as int] & m == 0
            &&& k.tag == TyTag::Dyn ==> forall|i: int|
                0 <= i < u.args[u.trait_refs[k.a as int].args.0 as int].len() ==> #[trigger] u.flags[u.args[u.trait_refs[k.a as int].args.0 as int][i].0 as int]
                    & m == 0
            &&& k.tag == TyTag::Fn ==> (forall|i: int|
                0 <= i < u.fns[k.a as int].ty.len() ==> #[trigger] u.flags[u.fns[k.a as int].ty[i].0 as int] & m
                    == 0) && u.flags[u.fns[k.a as int].result.0 as int] & m == 0 && (u.fns[k.a as int].raises
                != absent() ==> u.flags[u.fns[k.a as int].raises.0 as int] & m == 0)
            &&& k.tag == TyTag::ConstVal ==> u.flags[k.b as int] & m == 0
            &&& u.flags[u.unqual[t.0 as int].0 as int] & m == 0
        }),
{
    let u = s.universe();
    let k = u.rows[t.0 as int];
    lemma_row_columns(&s, t.0 as int);
    let c = u.unqual[t.0 as int];
    lemma_row_columns(&s, c.0 as int);
    assert(u.flags[c.0 as int] == u.flags[t.0 as int]);
    let ft = u.flags[t.0 as int];
    if k.tag == TyTag::Nominal || k.tag == TyTag::Tuple {
        let xs = u.args[k.b as int];
        assert forall|i: int| 0 <= i < xs.len() implies #[trigger] u.flags[xs[i].0 as int] & m == 0 by {
            if u.flags[xs[i].0 as int] & m != 0 {
                lemma_or_flags_covers(u.flags, xs, i, m);
            }
        }
    } else if k.tag == TyTag::Dyn {
        let xs = u.args[u.trait_refs[k.a as int].args.0 as int];
        assert forall|i: int| 0 <= i < xs.len() implies #[trigger] u.flags[xs[i].0 as int] & m == 0 by {
            if u.flags[xs[i].0 as int] & m != 0 {
                lemma_or_flags_covers(u.flags, xs, i, m);
            }
        }
    } else if k.tag == TyTag::Fn {
        let f = u.fns[k.a as int];
        let o = or_flags(u.flags, f.ty);
        let fr = u.flags[f.result.0 as int];
        let x = o | fr;
        assert(x & m == 0) by {
            if f.raises != absent() {
                let fe = u.flags[f.raises.0 as int];
                assert(ft == x | fe);
                lemma_flag_bits();
                assert((x | fe) & m == 0 ==> x & m == 0 && fe & m == 0);
            }
        }
        lemma_flag_bits();
        assert((o | fr) & m == 0 ==> o & m == 0 && fr & m == 0);
        if f.raises != absent() {
            let fe = u.flags[f.raises.0 as int];
            assert((x | fe) & m == 0 ==> fe & m == 0);
        }
        assert forall|i: int| 0 <= i < f.ty.len() implies #[trigger] u.flags[f.ty[i].0 as int] & m == 0 by {
            if u.flags[f.ty[i].0 as int] & m != 0 {
                lemma_or_flags_covers(u.flags, f.ty, i, m);
            }
        }
    }
}

/// A match of qualifier-free rows lifts to the qualified pattern and
/// target that carry the same qualifiers.
proof fn lemma_lift(s: TyStore, b: Binding, p: TyId, t: TyId)
    requires
        s.wf(),
        p.0 < s.spec_rows().len(),
        t.0 < s.spec_rows().len(),
        s.spec_flags()[p.0 as int] & F_OPEN != 0,
        s.spec_rows()[p.0 as int].quals == s.spec_rows()[t.0 as int].quals,
        core_to(s.universe(), b, s.spec_unqual()[p.0 as int], s.spec_unqual()[t.0 as int]),
    ensures
        subst_to(s.universe(), b, p, t),
{
    s.lemma_columns();
    s.lemma_row_order(p.0 as int);
    s.lemma_row_order(t.0 as int);
    lemma_row_columns(&s, t.0 as int);
}

/// Each element of `ts` is complete, and each of `ps` holds no projection
/// and no brand, in a store whose rows are canonically shaped.
pub open spec fn list_law_applies(s: TyStore, b: Binding, ps: Seq<TyId>, ts: Seq<TyId>) -> bool {
    &&& forall|i: int| 0 <= i < ps.len() ==> #[trigger] s.spec_flags()[ps[i].0 as int] & F_PROJ == 0
    &&& forall|i: int| 0 <= i < ps.len() ==> #[trigger] s.spec_flags()[ps[i].0 as int] & F_BRAND == 0
    &&& canonical(s.spec_rows())
    &&& forall|i: int| 0 <= i < ts.len() ==> subst_to(s.universe(), b, #[trigger] ts[i], ts[i])
}

/// The pattern holds no projection and no brand.
pub open spec fn pure_pattern(s: TyStore, p: TyId) -> bool {
    &&& s.spec_flags()[p.0 as int] & F_PROJ == 0
    &&& s.spec_flags()[p.0 as int] & F_BRAND == 0
}

/// Every element of `ps` holds no projection and no brand.
pub open spec fn pure_list(s: TyStore, ps: Seq<TyId>) -> bool {
    &&& forall|i: int| 0 <= i < ps.len() ==> #[trigger] s.spec_flags()[ps[i].0 as int] & F_PROJ == 0
    &&& forall|i: int| 0 <= i < ps.len() ==> #[trigger] s.spec_flags()[ps[i].0 as int] & F_BRAND == 0
}

/// `b2` grows `b0` and substitutes `p` to `t`: an answer the match could
/// have given.
pub open spec fn witness(s: TyStore, b0: Binding, b2: Binding, p: TyId, t: TyId) -> bool {
    &&& b2.wf()
    &&& binding_grows(b0, b2)
    &&& subst_to(s.universe(), b2, p, t)
}

/// `b2` grows `b0` and substitutes `ps` to `ts` pairwise.
pub open spec fn list_witness(s: TyStore, b0: Binding, b2: Binding, ps: Seq<TyId>, ts: Seq<TyId>, parent: u32) -> bool {
    &&& b2.wf()
    &&& binding_grows(b0, b2)
    &&& list_to(s.universe(), b2, ps, ts, parent)
}

/// What a match keeps, and what a successful one shows.
pub open spec fn match_post<S: ProjSolver>(
    s0: TyStore,
    s1: TyStore,
    b0: Binding,
    b1: Binding,
    v0: S,
    v1: S,
    p: TyId,
    t: TyId,
    r: bool,
) -> bool {
    &&& s1.wf()
    &&& TyStore::grows(&s0, &s1)
    &&& b1.wf()
    &&& binding_grows(b0, b1)
    &&& slots_fit(b1, s1.spec_rows().len())
    &&& v1.declines() == v0.declines()
    &&& (s0.spec_flags()[p.0 as int] & F_PROJ == 0 ==> s1 == s0)
    &&& (r && match_law_applies(s0, b0, p, t) ==> subst_to(s1.universe(), b1, p, t))
    &&& (pure_pattern(s0, p) ==> forall|b2: Binding| #[trigger] witness(s0, b0, b2, p, t) ==> r && binding_grows(b1, b2))
}

/// A substitution of a constructor row keeps its qualifiers and is the
/// qualifier-free rows' substitution underneath.
proof fn lemma_unlift(s: TyStore, b: Binding, p: TyId, t: TyId)
    requires
        s.wf(),
        p.0 < s.spec_rows().len(),
        t.0 < s.spec_rows().len(),
        s.spec_flags()[p.0 as int] & F_OPEN != 0,
        s.spec_rows()[p.0 as int].tag != TyTag::Param,
        s.spec_rows()[p.0 as int].tag != TyTag::Brand,
        subst_to(s.universe(), b, p, t),
    ensures
        s.spec_rows()[p.0 as int].quals == s.spec_rows()[t.0 as int].quals,
        core_to(s.universe(), b, s.spec_unqual()[p.0 as int], s.spec_unqual()[t.0 as int]),
{
    s.lemma_columns();
    s.lemma_row_order(p.0 as int);
    s.lemma_row_order(t.0 as int);
    if s.spec_rows()[p.0 as int].quals == 0 {
        assert(core_to(s.universe(), *&b, p, t));
    }
}

/// A row with no children to substitute has no open flag.
proof fn lemma_leaf_closed(s: TyStore, p: TyId)
    requires
        s.wf(),
        p.0 < s.spec_rows().len(),
        s.spec_rows()[p.0 as int].tag == TyTag::Error || s.spec_rows()[p.0 as int].tag == TyTag::Unit
            || s.spec_rows()[p.0 as int].tag == TyTag::Never || s.spec_rows()[p.0 as int].tag == TyTag::Prim,
    ensures
        s.spec_flags()[p.0 as int] & F_OPEN == 0,
{
    lemma_row_columns(&s, p.0 as int);
    lemma_flag_bits();
}

/// The children of a complete type are complete.
proof fn lemma_complete_children(s: TyStore, b: Binding, t: TyId)
    requires
        s.wf(),
        t.0 < s.spec_rows().len(),
        subst_to(s.universe(), b, t, t),
    ensures
        ({
            let u = s.universe();
            let k = u.rows[t.0 as int];
            &&& (k.tag == TyTag::Nominal || k.tag == TyTag::Tuple) ==> forall|i: int|
                0 <= i < u.args[k.b as int].len() ==> subst_to(u, b, #[trigger] u.args[k.b as int][i], u.args[k.b as int][i])
            &&& k.tag == TyTag::Dyn ==> forall|i: int|
                0 <= i < u.args[u.trait_refs[k.a as int].args.0 as int].len() ==> subst_to(
                    u,
                    b,
                    #[trigger] u.args[u.trait_refs[k.a as int].args.0 as int][i],
                    u.args[u.trait_refs[k.a as int].args.0 as int][i],
                )
            &&& k.tag == TyTag::Fn ==> (forall|i: int|
                0 <= i < u.fns[k.a as int].ty.len() ==> subst_to(u, b, #[trigger] u.fns[k.a as int].ty[i], u.fns[k.a as int].ty[i]))
                && subst_to(u, b, u.fns[k.a as int].result, u.fns[k.a as int].result) && (u.fns[k.a as int].raises
                != absent() ==> subst_to(u, b, u.fns[k.a as int].raises, u.fns[k.a as int].raises))
            &&& k.tag == TyTag::ConstVal ==> subst_to(u, b, TyId(k.b), TyId(k.b))
        }),
{
    let u = s.universe();
    let k = u.rows[t.0 as int];
    s.lemma_columns();
    s.lemma_row_order(t.0 as int);
    lemma_row_columns(&s, t.0 as int);
    if u.flags[t.0 as int] & F_OPEN == 0 {
        lemma_children_lack(s, t, F_OPEN);
        if k.tag == TyTag::Nominal || k.tag == TyTag::Tuple {
            assert forall|i: int| 0 <= i < u.args[k.b as int].len() implies subst_to(
                u,
                b,
                #[trigger] u.args[k.b as int][i],
                u.args[k.b as int][i],
            ) by {
                assert(u.flags[u.args[k.b as int][i].0 as int] & F_OPEN == 0);
            }
        } else if k.tag == TyTag::Dyn {
            let xs = u.args[u.trait_refs[k.a as int].args.0 as int];
            assert forall|i: int| 0 <= i < xs.len() implies subst_to(u, b, #[trigger] xs[i], xs[i]) by {
                assert(u.flags[xs[i].0 as int] & F_OPEN == 0);
            }
        } else if k.tag == TyTag::Fn {
            let f = u.fns[k.a as int];
            assert forall|i: int| 0 <= i < f.ty.len() implies subst_to(u, b, #[trigger] f.ty[i], f.ty[i]) by {
                assert(u.flags[f.ty[i].0 as int] & F_OPEN == 0);
            }
        }
    } else {
        let c = u.unqual[t.0 as int];
        assert(core_to(u, b, c, c));
        lemma_row_columns(&s, c.0 as int);
        let kc = u.rows[c.0 as int];
        assert(kc.tag == k.tag && kc.a == k.a && kc.b == k.b);
        if k.tag == TyTag::Nominal || k.tag == TyTag::Tuple {
            assert forall|i: int| 0 <= i < u.args[k.b as int].len() implies subst_to(
                u,
                b,
                #[trigger] u.args[k.b as int][i],
                u.args[k.b as int][i],
            ) by {
                lemma_list_at(u, b, u.args[k.b as int], u.args[k.b as int], c.0, i);
            }
        } else if k.tag == TyTag::Dyn {
            let xs = u.args[u.trait_refs[k.a as int].args.0 as int];
            assert forall|i: int| 0 <= i < xs.len() implies subst_to(u, b, #[trigger] xs[i], xs[i]) by {
                lemma_list_at(u, b, xs, xs, c.0, i);
            }
        } else if k.tag == TyTag::Fn {
            let f = u.fns[k.a as int];
            assert forall|i: int| 0 <= i < f.ty.len() implies subst_to(u, b, #[trigger] f.ty[i], f.ty[i]) by {
                lemma_list_at(u, b, f.ty, f.ty, c.0, i);
            }
        }
    }
}

/// [`one_way_match_with`] with no projection solver (see [`NeutralOnly`]).
/// Success on a pattern with no projection and no brand, against a complete
/// target, means the grown binding substitutes the pattern back to the
/// target; and whenever some growth of the binding would do that, the match
/// succeeds and binds no more than that growth.
pub fn one_way_match(store: &mut TyStore, pattern: TyId, target: TyId, b: &mut Binding) -> (r: bool)
    requires
        subst_pre(*old(store), *old(b)),
        pattern.0 < old(store).spec_rows().len(),
        target.0 < old(store).spec_rows().len(),
    ensures
        final(store).wf(),
        TyStore::grows(old(store), final(store)),
        final(b).wf(),
        binding_grows(*old(b), *final(b)),
        slots_fit(*final(b), final(store).spec_rows().len()),
        pattern == target ==> r && *final(b) == *old(b),
        pattern != target && old(store).spec_flags()[pattern.0 as int] & F_OPEN == 0 ==> !r && *final(b)
            == *old(b),
        r && match_law_applies(*old(store), *old(b), pattern, target) ==> subst_to(
            final(store).universe(),
            *final(b),
            pattern,
            target,
        ),
        pure_pattern(*old(store), pattern) ==> forall|b2: Binding|
            #[trigger] witness(*old(store), *old(b), b2, pattern, target) ==> r && binding_grows(*final(b), b2),
{
    let mut solver = NeutralOnly;
    one_way_match_with(store, pattern, target, b, &mut solver)
}

/// Walks `pattern` and `target` in lockstep. An unbound parameter of one of
/// `b`'s owners, met in the pattern, binds to the facing subterm of the
/// target (a qualified position to what is under exactly its qualifiers);
/// a bound parameter or any constructor must equal it; a projection on a
/// still-unbound parameter faces anything, binds nothing and is not
/// compared; a projection on a bound one is substituted through `solver`
/// and compared. Nothing in the target is ever bound, and a binding is
/// never revised. Where the match is the inverse of substitution
/// (`match_law_applies`), success means that substituting the pattern under
/// the grown binding gives the target back.
pub fn one_way_match_with<S: ProjSolver>(
    store: &mut TyStore,
    pattern: TyId,
    target: TyId,
    b: &mut Binding,
    solver: &mut S,
) -> (r: bool)
    requires
        subst_pre(*old(store), *old(b)),
        pattern.0 < old(store).spec_rows().len(),
        target.0 < old(store).spec_rows().len(),
    ensures
        match_post(*old(store), *final(store), *old(b), *final(b), *old(solver), *final(solver), pattern, target, r),
        pattern == target ==> r && *final(b) == *old(b),
        pattern != target && old(store).spec_flags()[pattern.0 as int] & F_OPEN == 0 ==> !r && *final(b)
            == *old(b),
    decreases pattern.0, 2int,
{
    proof {
        TyStore::lemma_grows_refl(&*store);
        lemma_binding_grows_refl(*b);
        store.lemma_columns();
    }
    if pattern == target {
        proof {
            if match_law_applies(*store, *b, pattern, target) {
            }
        }
        return true;
    }
    let ghost s0 = *store;
    let ghost b0 = *b;
    if store.flags(pattern) & F_OPEN == 0 {
        return false;
    }
    let tag = store.tag(pattern);
    match tag {
        TyTag::Proj => match_proj(store, pattern, target, b, solver),
        TyTag::Param => match_param(store, pattern, target, b),
        _ => {
            if store.quals(pattern) != store.quals(target) {
                proof {
                    if tag == TyTag::Brand {
                        lemma_brand_flagged(s0, pattern);
                    } else {
                        assert forall|b2: Binding| #[trigger] witness(s0, b0, b2, pattern, target) implies false by {
                            lemma_unlift(s0, b2, pattern, target);
                        }
                    }
                }
                return false;
            }
            match tag {
                TyTag::Brand => match_brand(store, pattern, target, b),
                TyTag::Nominal | TyTag::Tuple => match_listed(store, pattern, target, b, solver),
                TyTag::Dyn => match_dyn(store, pattern, target, b, solver),
                TyTag::Fn => match_fn(store, pattern, target, b, solver),
                TyTag::ConstVal => match_const(store, pattern, target, b, solver),
                _ => {
                    proof {
                        lemma_leaf_closed(s0, pattern);
                    }
                    false
                },
            }
        },
    }
}

/// A brand row carries the brand flag.
proof fn lemma_brand_flagged(s: TyStore, p: TyId)
    requires
        s.wf(),
        p.0 < s.spec_rows().len(),
        s.spec_rows()[p.0 as int].tag == TyTag::Brand,
    ensures
        s.spec_flags()[p.0 as int] & F_BRAND != 0,
{
    lemma_row_columns(&s, p.0 as int);
    lemma_flag_bits();
}

fn match_param(store: &TyStore, pattern: TyId, target: TyId, b: &mut Binding) -> (r: bool)
    requires
        subst_pre(*store, *old(b)),
        pattern.0 < store.spec_rows().len(),
        target.0 < store.spec_rows().len(),
        pattern != target,
        store.spec_flags()[pattern.0 as int] & F_OPEN != 0,
        store.spec_rows()[pattern.0 as int].tag == TyTag::Param,
    ensures
        final(b).wf(),
        binding_grows(*old(b), *final(b)),
        slots_fit(*final(b), store.spec_rows().len()),
        r && match_law_applies(*store, *old(b), pattern, target) ==> subst_to(store.universe(), *final(b), pattern, target),
        forall|b2: Binding| #[trigger] witness(*store, *old(b), b2, pattern, target) ==> r && binding_grows(*final(b), b2),
{
    let ghost b00 = *b;
    let a = store.a(pattern);
    let bb = store.b(pattern);
    let owner = DefId(a);
    proof {
        store.lemma_columns();
        store.lemma_row_order(pattern.0 as int);
        store.lemma_row_order(target.0 as int);
        lemma_row_columns(store, pattern.0 as int);
        lemma_row_columns(store, target.0 as int);
        lemma_at_in_range(*b, owner, bb as u16);
        lemma_binding_grows_refl(*b);
    }
    if !b.owns(owner) {
        proof {
            assert forall|b2: Binding| #[trigger] witness(*store, b00, b2, pattern, target) implies false by {
                assert(b2.owner_ids() == b00.owner_ids());
                if store.spec_rows()[pattern.0 as int].quals != 0 {
                    let c = store.spec_unqual()[target.0 as int];
                    assert(c == store.spec_unqual()[pattern.0 as int]);
                    assert(store.spec_rows()[target.0 as int] == store.spec_rows()[pattern.0 as int]);
                    lemma_equal_rows_are_one_id(store, target.0 as int, pattern.0 as int);
                }
            }
        }
        return false;
    }
    let pq = store.quals(pattern);
    let aq = store.quals(target);
    let value = if pq.is_none() {
        target
    } else {
        if pq != aq {
            return false;
        }
        store.unqual(target)
    };
    proof {
        assert forall|b2: Binding| #[trigger] witness(*store, b00, b2, pattern, target) implies b2.spec_slot(owner, bb as u16) == value by {
            if pq.0 != 0 {
                let base = store.spec_unqual()[pattern.0 as int];
                lemma_row_columns(store, base.0 as int);
            }
        }
    }
    let ghost b0 = *b;
    let ok = b.bind(owner, bb as u16, value);
    proof {
        lemma_at_in_range(*b, owner, bb as u16);
        assert(b.spec_at(owner, bb as u16) == b0.spec_at(owner, bb as u16));
        assert forall|o: DefId, k: u16| #[trigger] b.spec_slot(o, k) == absent() || b.spec_slot(o, k).0 < store.spec_rows().len() by {
            assert(b.spec_at(o, k) == b0.spec_at(o, k));
            lemma_at_in_range(b0, o, k);
            assert(b0.spec_slot(o, k) == absent() || b0.spec_slot(o, k).0 < store.spec_rows().len());
        }
        assert forall|b2: Binding| #[trigger] witness(*store, b00, b2, pattern, target) implies ok && binding_grows(*b, b2) by {
            lemma_at_in_range(b2, owner, bb as u16);
            assert(b2.spec_at(owner, bb as u16) == b0.spec_at(owner, bb as u16));
            assert(b2.spec_slot(owner, bb as u16) == value);
            assert forall|i: int|
                0 <= i < b.spec_slots().len() && b.spec_slots()[i] != absent() implies #[trigger] b2.spec_slots()[i]
                    == b.spec_slots()[i] by {
                if b0.spec_slots()[i] != absent() {
                    assert(b2.spec_slots()[i] == b0.spec_slots()[i]);
                }
            }
        }
        if ok {
            assert(b.spec_slot(owner, bb as u16) == value);
            assert(b.spec_owns(owner));
            if pq.0 != 0 {
                let base = store.spec_unqual()[pattern.0 as int];
                lemma_row_columns(store, base.0 as int);
                lemma_lift(*store, *b, pattern, target);
            }
        }
    }
    ok
}

fn match_brand(store: &TyStore, pattern: TyId, target: TyId, b: &mut Binding) -> (r: bool)
    requires
        subst_pre(*store, *old(b)),
        pattern.0 < store.spec_rows().len(),
        target.0 < store.spec_rows().len(),
        store.spec_rows()[pattern.0 as int].tag == TyTag::Brand,
    ensures
        final(b).wf(),
        binding_grows(*old(b), *final(b)),
        slots_fit(*final(b), store.spec_rows().len()),
        store.spec_flags()[pattern.0 as int] & F_BRAND != 0,
{
    let bb = store.b(pattern);
    proof {
        store.lemma_columns();
        store.lemma_row_order(pattern.0 as int);
        lemma_row_columns(store, pattern.0 as int);
        lemma_binding_grows_refl(*b);
        lemma_flag_bits();
    }
    match store.brand(BrandId(bb)) {
        BrandRow::Param { owner, ordinal } => {
            if !b.owns(owner) {
                return false;
            }
            let ghost b0 = *b;
            proof {
                lemma_at_in_range(b0, owner, ordinal);
            }
            let ok = b.bind(owner, ordinal, target);
            proof {
                lemma_at_in_range(*b, owner, ordinal);
                assert forall|o: DefId, k: u16| #[trigger] b.spec_slot(o, k) == absent() || b.spec_slot(o, k).0 < store.spec_rows().len() by {
                    assert(b.spec_at(o, k) == b0.spec_at(o, k));
                    lemma_at_in_range(b0, o, k);
                    assert(b0.spec_slot(o, k) == absent() || b0.spec_slot(o, k).0 < store.spec_rows().len());
                }
            }
            ok
        },
        _ => false,
    }
}

/// Matches two argument lists pairwise, left to right, threading the
/// binding; every pattern element comes before `parent`.
fn match_args<S: ProjSolver>(
    store: &mut TyStore,
    p: ArgsId,
    t: ArgsId,
    b: &mut Binding,
    solver: &mut S,
    Ghost(parent): Ghost<u32>,
) -> (r: bool)
    requires
        subst_pre(*old(store), *old(b)),
        p.0 < old(store).spec_args().len(),
        t.0 < old(store).spec_args().len(),
        ids_below(old(store).spec_args()[p.0 as int], parent as int),
        parent <= old(store).spec_rows().len(),
        ids_ok(old(store).universe(), old(store).spec_args()[t.0 as int]),
    ensures
        final(store).wf(),
        TyStore::grows(old(store), final(store)),
        final(b).wf(),
        binding_grows(*old(b), *final(b)),
        slots_fit(*final(b), final(store).spec_rows().len()),
        final(solver).declines() == old(solver).declines(),
        (forall|i: int|
            0 <= i < old(store).spec_args()[p.0 as int].len() ==> #[trigger] old(store).spec_flags()[old(
                store,
            ).spec_args()[p.0 as int][i].0 as int] & F_PROJ == 0) ==> *final(store) == *old(store),
        r && list_law_applies(*old(store), *old(b), old(store).spec_args()[p.0 as int], old(store).spec_args()[t.0 as int])
            ==> list_to(
            final(store).universe(),
            *final(b),
            old(store).spec_args()[p.0 as int],
            old(store).spec_args()[t.0 as int],
            parent,
        ),
        pure_list(*old(store), old(store).spec_args()[p.0 as int]) ==> forall|b2: Binding|
            #[trigger] list_witness(
                *old(store),
                *old(b),
                b2,
                old(store).spec_args()[p.0 as int],
                old(store).spec_args()[t.0 as int],
                parent,
            ) ==> r && binding_grows(*final(b), b2),
    decreases parent, 0int,
{
    let ghost s0 = *store;
    let ghost b0 = *b;
    let ghost v0 = *solver;
    let ghost ps = s0.spec_args()[p.0 as int];
    let ghost ts = s0.spec_args()[t.0 as int];
    let ghost pure = forall|i: int| 0 <= i < ps.len() ==> #[trigger] s0.spec_flags()[ps[i].0 as int] & F_PROJ == 0;
    let ghost law = list_law_applies(s0, b0, ps, ts);
    proof {
        TyStore::lemma_grows_refl(&*store);
        lemma_binding_grows_refl(*b);
        store.lemma_columns();
    }
    let n = store.args(p).len();
    if store.args(t).len() != n {
        return false;
    }
    let mut i: usize = 0;
    while i < n
        invariant
            subst_pre(*store, *b),
            s0 == *old(store),
            b0 == *old(b),
            v0 == *old(solver),
            subst_pre(s0, b0),
            TyStore::grows(&s0, &*store),
            binding_grows(b0, *b),
            solver.declines() == v0.declines(),
            p.0 < s0.spec_args().len(),
            t.0 < s0.spec_args().len(),
            ps == s0.spec_args()[p.0 as int],
            ts == s0.spec_args()[t.0 as int],
            n == ps.len(),
            n == ts.len(),
            ids_below(ps, parent as int),
            parent <= s0.spec_rows().len(),
            ids_ok(s0.universe(), ts),
            pure == (forall|j: int| 0 <= j < ps.len() ==> #[trigger] s0.spec_flags()[ps[j].0 as int] & F_PROJ == 0),
            law == list_law_applies(s0, b0, ps, ts),
            i <= n,
            pure ==> *store == s0,
            law ==> list_to(store.universe(), *b, ps.subrange(0, i as int), ts.subrange(0, i as int), parent),
            pure_list(s0, ps) ==> forall|b2: Binding| #[trigger] list_witness(s0, b0, b2, ps, ts, parent) ==> binding_grows(*b, b2),
        decreases n - i,
    {
        let ghost s1 = *store;
        let ghost b1 = *b;
        proof {
            lemma_kept(s0, s1);
            store.lemma_columns();
        }
        let pi = store.args(p)[i];
        let ti = store.args(t)[i];
        proof {
            if pure_list(s0, ps) {
                assert(pure_pattern(s1, pi));
                assert forall|b2: Binding| #[trigger] list_witness(s0, b0, b2, ps, ts, parent) implies witness(s1, b1, b2, pi, ti) by {
                    lemma_list_at(s0.universe(), b2, ps, ts, parent, i as int);
                }
            }
        }
        proof {
            assert(pi == ps[i as int]);
            assert(ti == ts[i as int]);
            if law {
                lemma_subst_mono(s0.universe(), b0, b1, ti, ti);
                assert(match_law_applies(s1, b1, pi, ti));
            }
        }
        let ok = one_way_match_with(store, pi, ti, b, solver);
        proof {
            lemma_grows_trans(&s0, &s1, &*store);
            lemma_binding_grows_trans(b0, b1, *b);
        }
        if !ok {
            proof {
                if pure_list(s0, ps) {
                    assert forall|b2: Binding| #[trigger] list_witness(s0, b0, b2, ps, ts, parent) implies false by {
                        assert(witness(s1, b1, b2, pi, ti));
                    }
                }
            }
            return false;
        }
        proof {
            if pure_list(s0, ps) {
                assert forall|b2: Binding| #[trigger] list_witness(s0, b0, b2, ps, ts, parent) implies binding_grows(*b, b2) by {
                    assert(witness(s1, b1, b2, pi, ti));
                }
            }
            if law {
                lemma_list_mono(s1.universe(), b1, *b, ps.subrange(0, i as int), ts.subrange(0, i as int), parent);
                lemma_list_push(store.universe(), *b, ps.subrange(0, i as int), ts.subrange(0, i as int), pi, ti, parent);
                assert(ps.subrange(0, i as int).push(pi) =~= ps.subrange(0, i + 1));
                assert(ts.subrange(0, i as int).push(ti) =~= ts.subrange(0, i + 1));
            }
        }
        i = i + 1;
    }
    proof {
        assert(ps.subrange(0, i as int) =~= ps);
        assert(ts.subrange(0, i as int) =~= ts);
    }
    true
}

fn match_listed<S: ProjSolver>(store: &mut TyStore, pattern: TyId, target: TyId, b: &mut Binding, solver: &mut S) -> (r: bool)
    requires
        subst_pre(*old(store), *old(b)),
        pattern.0 < old(store).spec_rows().len(),
        target.0 < old(store).spec_rows().len(),
        old(store).spec_flags()[pattern.0 as int] & F_OPEN != 0,
        old(store).spec_rows()[pattern.0 as int].tag == TyTag::Nominal || old(store).spec_rows()[pattern.0 as int].tag
            == TyTag::Tuple,
        old(store).spec_rows()[pattern.0 as int].quals == old(store).spec_rows()[target.0 as int].quals,
    ensures
        match_post(*old(store), *final(store), *old(b), *final(b), *old(solver), *final(solver), pattern, target, r),
    decreases pattern.0, 1int,
{
    let ghost s0 = *store;
    let ghost b0 = *b;
    proof {
        TyStore::lemma_grows_refl(&*store);
        lemma_binding_grows_refl(*b);
        store.lemma_columns();
        store.lemma_row_order(pattern.0 as int);
        store.lemma_row_order(target.0 as int);
        lemma_row_columns(&*store, pattern.0 as int);
        lemma_row_columns(&*store, target.0 as int);
    }
    proof {
        let base0 = s0.spec_unqual()[pattern.0 as int];
        let c0 = s0.spec_unqual()[target.0 as int];
        lemma_row_columns(&s0, base0.0 as int);
        lemma_row_columns(&s0, c0.0 as int);
        s0.lemma_row_order(base0.0 as int);
        if pure_pattern(s0, pattern) {
            lemma_children_lack(s0, pattern, F_PROJ);
            lemma_children_lack(s0, pattern, F_BRAND);
            assert forall|b2: Binding| #[trigger] witness(s0, b0, b2, pattern, target) implies core_to(
                s0.universe(),
                b2,
                base0,
                c0,
            ) by {
                lemma_unlift(s0, b2, pattern, target);
            }
        }
    }
    let tag = store.tag(pattern);
    let a = store.a(pattern);
    let bb = store.b(pattern);
    if store.tag(target) != tag {
            proof {
                if pure_pattern(s0, pattern) {
                    assert forall|b2: Binding| #[trigger] witness(s0, b0, b2, pattern, target) implies false by {
                        assert(core_to(s0.universe(), b2, s0.spec_unqual()[pattern.0 as int], s0.spec_unqual()[target.0 as int]));
                    }
                }
            }
        return false;
    }
    if tag == TyTag::Nominal && store.a(target) != a {
            proof {
                if pure_pattern(s0, pattern) {
                    assert forall|b2: Binding| #[trigger] witness(s0, b0, b2, pattern, target) implies false by {
                        assert(core_to(s0.universe(), b2, s0.spec_unqual()[pattern.0 as int], s0.spec_unqual()[target.0 as int]));
                    }
                }
            }
        return false;
    }
    let base = store.unqual(pattern);
    let tb = store.b(target);
    proof {
        lemma_row_columns(&*store, base.0 as int);
        store.lemma_row_order(base.0 as int);
        let c = s0.spec_unqual()[target.0 as int];
        lemma_row_columns(&*store, c.0 as int);
        if match_law_applies(s0, b0, pattern, target) {
            lemma_children_lack(s0, pattern, F_PROJ);
            lemma_children_lack(s0, pattern, F_BRAND);
            lemma_complete_children(s0, b0, target);
        }
    }
    proof {
        if pure_pattern(s0, pattern) {
            assert forall|b2: Binding| #[trigger] witness(s0, b0, b2, pattern, target) implies list_witness(
                s0,
                b0,
                b2,
                s0.spec_args()[bb as int],
                s0.spec_args()[tb as int],
                base.0,
            ) by {
                assert(core_to(s0.universe(), b2, base, s0.spec_unqual()[target.0 as int]));
            }
        }
    }
    proof {
        if pure_pattern(s0, pattern) {
            assert(pure_list(s0, s0.spec_args()[bb as int]));
        }
    }
    let ok = match_args(store, ArgsId(bb), ArgsId(tb), b, solver, Ghost(base.0));
    proof {
        if pure_pattern(s0, pattern) {
            assert forall|b2: Binding| #[trigger] witness(s0, b0, b2, pattern, target) implies ok && binding_grows(*b, b2) by {
                assert(list_witness(s0, b0, b2, s0.spec_args()[bb as int], s0.spec_args()[tb as int], base.0));
            }
        }
        if s0.spec_flags()[pattern.0 as int] & F_PROJ == 0 {
            lemma_children_lack(s0, pattern, F_PROJ);
        }
        if ok && match_law_applies(s0, b0, pattern, target) {
            let c = s0.spec_unqual()[target.0 as int];
            assert(shaped(s0.spec_rows()[target.0 as int]));
            assert(core_to(store.universe(), *b, base, c));
            lemma_lift(*store, *b, pattern, target);
        }
    }
    ok
}

fn match_dyn<S: ProjSolver>(store: &mut TyStore, pattern: TyId, target: TyId, b: &mut Binding, solver: &mut S) -> (r: bool)
    requires
        subst_pre(*old(store), *old(b)),
        pattern.0 < old(store).spec_rows().len(),
        target.0 < old(store).spec_rows().len(),
        old(store).spec_flags()[pattern.0 as int] & F_OPEN != 0,
        old(store).spec_rows()[pattern.0 as int].tag == TyTag::Dyn,
        old(store).spec_rows()[pattern.0 as int].quals == old(store).spec_rows()[target.0 as int].quals,
    ensures
        match_post(*old(store), *final(store), *old(b), *final(b), *old(solver), *final(solver), pattern, target, r),
    decreases pattern.0, 1int,
{
    let ghost s0 = *store;
    let ghost b0 = *b;
    proof {
        TyStore::lemma_grows_refl(&*store);
        lemma_binding_grows_refl(*b);
        store.lemma_columns();
        store.lemma_row_order(pattern.0 as int);
        store.lemma_row_order(target.0 as int);
        lemma_row_columns(&*store, pattern.0 as int);
        lemma_row_columns(&*store, target.0 as int);
    }
    proof {
        let base0 = s0.spec_unqual()[pattern.0 as int];
        let c0 = s0.spec_unqual()[target.0 as int];
        lemma_row_columns(&s0, base0.0 as int);
        lemma_row_columns(&s0, c0.0 as int);
        s0.lemma_row_order(base0.0 as int);
        if pure_pattern(s0, pattern) {
            lemma_children_lack(s0, pattern, F_PROJ);
            lemma_children_lack(s0, pattern, F_BRAND);
            assert forall|b2: Binding| #[trigger] witness(s0, b0, b2, pattern, target) implies core_to(
                s0.universe(),
                b2,
                base0,
                c0,
            ) by {
                lemma_unlift(s0, b2, pattern, target);
            }
        }
    }
    if store.tag(target) != TyTag::Dyn {
            proof {
                if pure_pattern(s0, pattern) {
                    assert forall|b2: Binding| #[trigger] witness(s0, b0, b2, pattern, target) implies false by {
                        assert(core_to(s0.universe(), b2, s0.spec_unqual()[pattern.0 as int], s0.spec_unqual()[target.0 as int]));
                    }
                }
            }
        return false;
    }
    let (pd, pa) = store.trait_ref(TraitRefId(store.a(pattern)));
    let (td, ta) = store.trait_ref(TraitRefId(store.a(target)));
    if pd != td {
            proof {
                if pure_pattern(s0, pattern) {
                    assert forall|b2: Binding| #[trigger] witness(s0, b0, b2, pattern, target) implies false by {
                        assert(core_to(s0.universe(), b2, s0.spec_unqual()[pattern.0 as int], s0.spec_unqual()[target.0 as int]));
                    }
                }
            }
        return false;
    }
    let base = store.unqual(pattern);
    proof {
        lemma_row_columns(&*store, base.0 as int);
        store.lemma_row_order(base.0 as int);
        let c = s0.spec_unqual()[target.0 as int];
        lemma_row_columns(&*store, c.0 as int);
        if match_law_applies(s0, b0, pattern, target) {
            lemma_children_lack(s0, pattern, F_PROJ);
            lemma_children_lack(s0, pattern, F_BRAND);
            lemma_complete_children(s0, b0, target);
        }
    }
    proof {
        if pure_pattern(s0, pattern) {
            assert forall|b2: Binding| #[trigger] witness(s0, b0, b2, pattern, target) implies list_witness(
                s0,
                b0,
                b2,
                s0.spec_args()[pa.0 as int],
                s0.spec_args()[ta.0 as int],
                base.0,
            ) by {
                assert(core_to(s0.universe(), b2, base, s0.spec_unqual()[target.0 as int]));
            }
        }
    }
    let ok = match_args(store, pa, ta, b, solver, Ghost(base.0));
    proof {
        if pure_pattern(s0, pattern) {
            assert forall|b2: Binding| #[trigger] witness(s0, b0, b2, pattern, target) implies ok && binding_grows(*b, b2) by {
                assert(list_witness(s0, b0, b2, s0.spec_args()[pa.0 as int], s0.spec_args()[ta.0 as int], base.0));
            }
        }
        if s0.spec_flags()[pattern.0 as int] & F_PROJ == 0 {
            lemma_children_lack(s0, pattern, F_PROJ);
        }
        if ok && match_law_applies(s0, b0, pattern, target) {
            let c = s0.spec_unqual()[target.0 as int];
            assert(shaped(s0.spec_rows()[target.0 as int]));
            assert(core_to(store.universe(), *b, base, c));
            lemma_lift(*store, *b, pattern, target);
        }
    }
    ok
}

fn match_const<S: ProjSolver>(store: &mut TyStore, pattern: TyId, target: TyId, b: &mut Binding, solver: &mut S) -> (r: bool)
    requires
        subst_pre(*old(store), *old(b)),
        pattern.0 < old(store).spec_rows().len(),
        target.0 < old(store).spec_rows().len(),
        old(store).spec_flags()[pattern.0 as int] & F_OPEN != 0,
        old(store).spec_rows()[pattern.0 as int].tag == TyTag::ConstVal,
        old(store).spec_rows()[pattern.0 as int].quals == old(store).spec_rows()[target.0 as int].quals,
    ensures
        match_post(*old(store), *final(store), *old(b), *final(b), *old(solver), *final(solver), pattern, target, r),
    decreases pattern.0, 1int,
{
    let ghost s0 = *store;
    let ghost b0 = *b;
    proof {
        TyStore::lemma_grows_refl(&*store);
        lemma_binding_grows_refl(*b);
        store.lemma_columns();
        store.lemma_row_order(pattern.0 as int);
        store.lemma_row_order(target.0 as int);
        lemma_row_columns(&*store, pattern.0 as int);
        lemma_row_columns(&*store, target.0 as int);
    }
    proof {
        let base0 = s0.spec_unqual()[pattern.0 as int];
        let c0 = s0.spec_unqual()[target.0 as int];
        lemma_row_columns(&s0, base0.0 as int);
        lemma_row_columns(&s0, c0.0 as int);
        s0.lemma_row_order(base0.0 as int);
        if pure_pattern(s0, pattern) {
            lemma_children_lack(s0, pattern, F_PROJ);
            lemma_children_lack(s0, pattern, F_BRAND);
            assert forall|b2: Binding| #[trigger] witness(s0, b0, b2, pattern, target) implies core_to(
                s0.universe(),
                b2,
                base0,
                c0,
            ) by {
                lemma_unlift(s0, b2, pattern, target);
            }
        }
    }
    if store.tag(target) != TyTag::ConstVal || store.a(target) != store.a(pattern) {
            proof {
                if pure_pattern(s0, pattern) {
                    assert forall|b2: Binding| #[trigger] witness(s0, b0, b2, pattern, target) implies false by {
                        assert(core_to(s0.universe(), b2, s0.spec_unqual()[pattern.0 as int], s0.spec_unqual()[target.0 as int]));
                    }
                }
            }
        return false;
    }
    let pb = store.b(pattern);
    let tb = store.b(target);
    proof {
        let base = s0.spec_unqual()[pattern.0 as int];
        lemma_row_columns(&*store, base.0 as int);
        store.lemma_row_order(base.0 as int);
        let c = s0.spec_unqual()[target.0 as int];
        lemma_row_columns(&*store, c.0 as int);
        if match_law_applies(s0, b0, pattern, target) {
            lemma_children_lack(s0, pattern, F_PROJ);
            lemma_children_lack(s0, pattern, F_BRAND);
            lemma_complete_children(s0, b0, target);
        }
    }
    proof {
        if pure_pattern(s0, pattern) {
            assert(pure_pattern(s0, TyId(pb)));
            assert forall|b2: Binding| #[trigger] witness(s0, b0, b2, pattern, target) implies witness(s0, b0, b2, TyId(pb), TyId(tb)) by {
                assert(core_to(s0.universe(), b2, s0.spec_unqual()[pattern.0 as int], s0.spec_unqual()[target.0 as int]));
            }
        }
    }
    let ok = one_way_match_with(store, TyId(pb), TyId(tb), b, solver);
    proof {
        if pure_pattern(s0, pattern) {
            assert forall|b2: Binding| #[trigger] witness(s0, b0, b2, pattern, target) implies ok && binding_grows(*b, b2) by {
                assert(witness(s0, b0, b2, TyId(pb), TyId(tb)));
            }
        }
        if s0.spec_flags()[pattern.0 as int] & F_PROJ == 0 {
            lemma_children_lack(s0, pattern, F_PROJ);
        }
        if ok && match_law_applies(s0, b0, pattern, target) {
            let base = s0.spec_unqual()[pattern.0 as int];
            let c = s0.spec_unqual()[target.0 as int];
            assert(core_to(store.universe(), *b, base, c));
            lemma_lift(*store, *b, pattern, target);
        }
    }
    ok
}

fn match_proj<S: ProjSolver>(store: &mut TyStore, pattern: TyId, target: TyId, b: &mut Binding, solver: &mut S) -> (r: bool)
    requires
        subst_pre(*old(store), *old(b)),
        pattern.0 < old(store).spec_rows().len(),
        target.0 < old(store).spec_rows().len(),
        old(store).spec_rows()[pattern.0 as int].tag == TyTag::Proj,
    ensures
        match_post(*old(store), *final(store), *old(b), *final(b), *old(solver), *final(solver), pattern, target, r),
        *final(b) == *old(b),
{
    proof {
        TyStore::lemma_grows_refl(&*store);
        lemma_binding_grows_refl(*b);
        store.lemma_columns();
        lemma_row_columns(&*store, pattern.0 as int);
        let k = store.spec_rows()[pattern.0 as int];
        let x = store.spec_flags()[k.a as int];
        let y = or_flags(store.spec_flags(), store.spec_args()[store.spec_trait_refs()[store.spec_proj_keys()[k.b as int].tr.0 as int].args.0 as int]);
        lemma_flag_bits();
        assert(((2u8 | x) | y) & 2u8 != 0u8);
    }
    if proj_head_unbound(store, pattern, b) {
        return true;
    }
    match subst_norm_with(store, pattern, b, solver) {
        Some(t) => t == target,
        None => false,
    }
}

/// Whether the head chain of `p` (projections, each headed by the next)
/// ends in a parameter that `b` owns and has not bound.
pub open spec fn head_unbound(u: TyUniverse, b: Binding, p: TyId) -> bool
    decreases p.0,
{
    let k = u.rows[p.0 as int];
    match k.tag {
        TyTag::Proj => k.a < p.0 && head_unbound(u, b, TyId(k.a)),
        TyTag::Param => b.spec_owns(DefId(k.a)) && b.spec_slot(DefId(k.a), k.b as u16) == TyId(0xFFFF_FFFFu32),
        _ => false,
    }
}

/// Whether the projection `p` bottoms out in a parameter of `b` that is
/// still unbound: its head chain is parameters and projections all the way
/// down.
fn proj_head_unbound(store: &TyStore, p: TyId, b: &Binding) -> (r: bool)
    requires
        store.wf(),
        b.wf(),
        p.0 < store.spec_rows().len(),
    ensures
        r == head_unbound(store.universe(), *b, p),
{
    let mut cur = p;
    loop
        invariant
            store.wf(),
            b.wf(),
            cur.0 < store.spec_rows().len(),
            head_unbound(store.universe(), *b, cur) == head_unbound(store.universe(), *b, p),
        decreases cur.0,
    {
        proof {
            store.lemma_row_order(cur.0 as int);
        }
        match store.tag(cur) {
            TyTag::Proj => {
                cur = TyId(store.a(cur));
            },
            TyTag::Param => {
                let owner = DefId(store.a(cur));
                return b.owns(owner) && b.slot(owner, store.b(cur) as u16) == no_ty();
            },
            _ => {
                return false;
            },
        }
    }
}

fn match_fn<S: ProjSolver>(store: &mut TyStore, pattern: TyId, target: TyId, b: &mut Binding, solver: &mut S) -> (r: bool)
    requires
        subst_pre(*old(store), *old(b)),
        pattern.0 < old(store).spec_rows().len(),
        target.0 < old(store).spec_rows().len(),
        old(store).spec_flags()[pattern.0 as int] & F_OPEN != 0,
        old(store).spec_rows()[pattern.0 as int].tag == TyTag::Fn,
        old(store).spec_rows()[pattern.0 as int].quals == old(store).spec_rows()[target.0 as int].quals,
    ensures
        match_post(*old(store), *final(store), *old(b), *final(b), *old(solver), *final(solver), pattern, target, r),
    decreases pattern.0, 1int,
{
    let ghost s0 = *store;
    let ghost b0 = *b;
    let ghost v0 = *solver;
    proof {
        TyStore::lemma_grows_refl(&*store);
        lemma_binding_grows_refl(*b);
        store.lemma_columns();
        store.lemma_row_order(pattern.0 as int);
        store.lemma_row_order(target.0 as int);
        lemma_row_columns(&*store, pattern.0 as int);
        lemma_row_columns(&*store, target.0 as int);
    }
    let ghost base0 = s0.spec_unqual()[pattern.0 as int];
    let ghost c0 = s0.spec_unqual()[target.0 as int];
    let ghost complete = pure_pattern(s0, pattern);
    proof {
        lemma_row_columns(&s0, base0.0 as int);
        lemma_row_columns(&s0, c0.0 as int);
        s0.lemma_row_order(base0.0 as int);
        if complete {
            lemma_children_lack(s0, pattern, F_PROJ);
            lemma_children_lack(s0, pattern, F_BRAND);
            assert forall|b2: Binding| #[trigger] witness(s0, b0, b2, pattern, target) implies core_to(
                s0.universe(),
                b2,
                base0,
                c0,
            ) by {
                lemma_unlift(s0, b2, pattern, target);
            }
        }
    }
    if store.tag(target) != TyTag::Fn {
        proof {
            if complete {
                assert forall|b2: Binding| #[trigger] witness(s0, b0, b2, pattern, target) implies false by {
                    assert(core_to(s0.universe(), b2, base0, c0));
                }
            }
        }
        return false;
    }
    let pf = FnTyId(store.a(pattern));
    let tf = FnTyId(store.a(target));
    let base = store.unqual(pattern);
    let ghost fp = s0.spec_fns()[pf.0 as int];
    let ghost ft = s0.spec_fns()[tf.0 as int];
    let ghost law = match_law_applies(s0, b0, pattern, target);
    let ghost pure = s0.spec_flags()[pattern.0 as int] & F_PROJ == 0;
    proof {
        store.lemma_fns_short(pf.0 as int);
        store.lemma_fns_short(tf.0 as int);
        lemma_row_columns(&*store, base.0 as int);
        store.lemma_row_order(base.0 as int);
        lemma_row_columns(&*store, c0.0 as int);
        if law {
            lemma_children_lack(s0, pattern, F_PROJ);
            lemma_children_lack(s0, pattern, F_BRAND);
            lemma_complete_children(s0, b0, target);
        }
        if pure {
            lemma_children_lack(s0, pattern, F_PROJ);
        }
        if complete {
            assert forall|b2: Binding| #[trigger] witness(s0, b0, b2, pattern, target) implies fp.conv == ft.conv
                && fp.closure == ft.closure && list_to(s0.universe(), b2, fp.ty, ft.ty, base.0) && subst_to(
                s0.universe(),
                b2,
                fp.result,
                ft.result,
            ) && (fp.raises == absent() ==> ft.raises == absent()) && (fp.raises != absent() ==> subst_to(
                s0.universe(),
                b2,
                fp.raises,
                ft.raises,
            )) by {
                assert(core_to(s0.universe(), b2, base0, c0));
            }
        }
    }
    if store.fn_tys().is_closure(pf) != store.fn_tys().is_closure(tf) {
        proof {
            if complete {
                assert forall|b2: Binding| #[trigger] witness(s0, b0, b2, pattern, target) implies false by {
                    assert(fp.closure == ft.closure);
                }
            }
        }
        return false;
    }
    let n = store.fn_tys().params(pf).0.len();
    if store.fn_tys().params(tf).0.len() != n {
        proof {
            if complete {
                assert forall|b2: Binding| #[trigger] witness(s0, b0, b2, pattern, target) implies false by {
                    assert(fp.conv == ft.conv);
                }
            }
        }
        return false;
    }
    let mut i: usize = 0;
    while i < n
        invariant
            subst_pre(*store, *b),
            s0 == *old(store),
            b0 == *old(b),
            v0 == *old(solver),
            subst_pre(s0, b0),
            TyStore::grows(&s0, &*store),
            binding_grows(b0, *b),
            solver.declines() == v0.declines(),
            pf.0 < s0.spec_fns().len(),
            tf.0 < s0.spec_fns().len(),
            fp == s0.spec_fns()[pf.0 as int],
            ft == s0.spec_fns()[tf.0 as int],
            n == fp.conv.len(),
            n == ft.conv.len(),
            fp.conv.len() == fp.ty.len(),
            ft.conv.len() == ft.ty.len(),
            ids_below(fp.ty, base.0 as int),
            base.0 <= pattern.0,
            base.0 < s0.spec_rows().len(),
            pure == (s0.spec_flags()[pattern.0 as int] & F_PROJ == 0),
            law == match_law_applies(s0, b0, pattern, target),
            complete == pure_pattern(s0, pattern),
            complete ==> pure,
            complete ==> pure_list(s0, fp.ty),
            complete ==> forall|b2: Binding| #[trigger] witness(s0, b0, b2, pattern, target) ==> fp.conv == ft.conv
                && list_to(s0.universe(), b2, fp.ty, ft.ty, base.0) && binding_grows(*b, b2),
            ids_ok(s0.universe(), ft.ty),
            pure ==> forall|j: int| 0 <= j < fp.ty.len() ==> #[trigger] s0.spec_flags()[fp.ty[j].0 as int] & F_PROJ == 0,
            law ==> list_law_applies(s0, b0, fp.ty, ft.ty),
            i <= n,
            pure ==> *store == s0,
            forall|j: int| 0 <= j < i ==> #[trigger] fp.conv[j] == ft.conv[j],
            law ==> list_to(store.universe(), *b, fp.ty.subrange(0, i as int), ft.ty.subrange(0, i as int), base.0),
        decreases n - i,
    {
        let ghost s1 = *store;
        let ghost b1 = *b;
        proof {
            lemma_kept(s0, s1);
            store.lemma_columns();
        }
        let pc = store.fn_tys().params(pf).0[i];
        let pt = store.fn_tys().params(pf).1[i];
        let tc = store.fn_tys().params(tf).0[i];
        let tt = store.fn_tys().params(tf).1[i];
        if pc != tc {
            proof {
                if complete {
                    assert forall|b2: Binding| #[trigger] witness(s0, b0, b2, pattern, target) implies false by {
                        assert(fp.conv[i as int] == ft.conv[i as int]);
                    }
                }
            }
            return false;
        }
        proof {
            if law {
                lemma_subst_mono(s0.universe(), b0, b1, tt, tt);
                assert(match_law_applies(s1, b1, pt, tt));
            }
            if complete {
                assert(pure_pattern(s1, pt));
                assert forall|b2: Binding| #[trigger] witness(s0, b0, b2, pattern, target) implies witness(s1, b1, b2, pt, tt) by {
                    lemma_list_at(s0.universe(), b2, fp.ty, ft.ty, base.0, i as int);
                }
            }
        }
        let ok = one_way_match_with(store, pt, tt, b, solver);
        proof {
            lemma_grows_trans(&s0, &s1, &*store);
            lemma_binding_grows_trans(b0, b1, *b);
        }
        if !ok {
            proof {
                if complete {
                    assert forall|b2: Binding| #[trigger] witness(s0, b0, b2, pattern, target) implies false by {
                        assert(witness(s1, b1, b2, pt, tt));
                    }
                }
            }
            return false;
        }
        proof {
            if complete {
                assert forall|b2: Binding| #[trigger] witness(s0, b0, b2, pattern, target) implies fp.conv == ft.conv
                    && list_to(s0.universe(), b2, fp.ty, ft.ty, base.0) && binding_grows(*b, b2) by {
                    assert(witness(s1, b1, b2, pt, tt));
                }
            }
            if law {
                lemma_list_mono(s1.universe(), b1, *b, fp.ty.subrange(0, i as int), ft.ty.subrange(0, i as int), base.0);
                lemma_list_push(store.universe(), *b, fp.ty.subrange(0, i as int), ft.ty.subrange(0, i as int), pt, tt, base.0);
                assert(fp.ty.subrange(0, i as int).push(pt) =~= fp.ty.subrange(0, i + 1));
                assert(ft.ty.subrange(0, i as int).push(tt) =~= ft.ty.subrange(0, i + 1));
            }
        }
        i = i + 1;
    }
    proof {
        assert(fp.ty.subrange(0, i as int) =~= fp.ty);
        assert(ft.ty.subrange(0, i as int) =~= ft.ty);
        assert(fp.conv =~= ft.conv);
    }
    let ghost s2 = *store;
    let ghost b2 = *b;
    proof {
        lemma_kept(s0, s2);
        if law {
            lemma_subst_mono(s0.universe(), b0, b2, ft.result, ft.result);
        }
        if complete {
            assert(pure_pattern(s2, fp.result));
            assert forall|w: Binding| #[trigger] witness(s0, b0, w, pattern, target) implies witness(s2, b2, w, fp.result, ft.result) by {
            }
        }
    }
    let pr = store.fn_tys().result(pf);
    let tr = store.fn_tys().result(tf);
    let ok = one_way_match_with(store, pr, tr, b, solver);
    proof {
        lemma_grows_trans(&s0, &s2, &*store);
        lemma_binding_grows_trans(b0, b2, *b);
    }
    if !ok {
        proof {
            if complete {
                assert forall|w: Binding| #[trigger] witness(s0, b0, w, pattern, target) implies false by {
                    assert(witness(s2, b2, w, fp.result, ft.result));
                }
            }
        }
        return false;
    }
    let ghost s3 = *store;
    let ghost b3 = *b;
    proof {
        lemma_kept(s0, s3);
        if law {
            lemma_list_mono(s2.universe(), b2, b3, fp.ty, ft.ty, base.0);
        }
        if complete {
            assert forall|w: Binding| #[trigger] witness(s0, b0, w, pattern, target) implies binding_grows(b3, w) by {
                assert(witness(s2, b2, w, fp.result, ft.result));
            }
        }
    }
    let pe = store.fn_tys().raises(pf);
    let te = store.fn_tys().raises(tf);
    proof {
        TyStore::lemma_grows_refl(&s3);
        lemma_binding_grows_refl(b3);
    }
    let done = if pe == no_ty() && te == no_ty() {
        true
    } else if pe != no_ty() && te != no_ty() {
        proof {
            if law {
                lemma_subst_mono(s0.universe(), b0, b3, ft.raises, ft.raises);
            }
            if complete {
                assert(pure_pattern(s3, fp.raises));
                assert forall|w: Binding| #[trigger] witness(s0, b0, w, pattern, target) implies witness(s3, b3, w, fp.raises, ft.raises) by {
                }
            }
        }
        one_way_match_with(store, pe, te, b, solver)
    } else {
        proof {
            if complete {
                assert forall|w: Binding| #[trigger] witness(s0, b0, w, pattern, target) implies false by {
                    if fp.raises != absent() {
                        assert(subst_to(s0.universe(), w, fp.raises, ft.raises));
                    }
                }
            }
        }
        false
    };
    proof {
        lemma_grows_trans(&s0, &s3, &*store);
        lemma_binding_grows_trans(b0, b3, *b);
        if complete {
            assert forall|w: Binding| #[trigger] witness(s0, b0, w, pattern, target) implies done && binding_grows(*b, w) by {
                if pe != absent() {
                    assert(witness(s3, b3, w, fp.raises, ft.raises));
                }
            }
        }
        if done && law {
            lemma_list_mono(s3.universe(), b3, *b, fp.ty, ft.ty, base.0);
            lemma_subst_mono(s3.universe(), b3, *b, fp.result, ft.result);
            let c = s0.spec_unqual()[target.0 as int];
            assert(shaped(s0.spec_rows()[target.0 as int]));
            assert(core_to(store.universe(), *b, base, c));
            lemma_lift(*store, *b, pattern, target);
        }
    }
    done
}

/// As [`subst_norm_with`], memoised on `(ty, binding key)`: the binding, not
/// a trait reference, decides the result. A memoised answer is returned as
/// it was recorded; a new one is recorded (unless the memo is full).
pub fn subst_norm_cached<S: ProjSolver>(
    store: &mut TyStore,
    ty: TyId,
    b: &Binding,
    solver: &mut S,
    memo: &mut SubstMemo,
) -> (r: Option<TyId>)
    requires
        subst_pre(*old(store), *b),
        ty.0 < old(store).spec_rows().len(),
        old(memo).wf(),
    ensures
        final(memo).wf(),
        final(store).wf(),
        TyStore::grows(old(store), final(store)),
        final(solver).declines() == old(solver).declines(),
        old(store).spec_flags()[ty.0 as int] & F_OPEN == 0 ==> r == Some(ty) && *final(store) == *old(store)
            && *final(memo) == *old(memo),
        old(store).spec_flags()[ty.0 as int] & F_OPEN != 0 && old(memo).view_map().contains_key((ty.0, b.spec_key()))
            ==> r == Some(TyId(old(memo).view_map()[(ty.0, b.spec_key())])) && *final(store) == *old(store)
            && *final(memo) == *old(memo),
        old(store).spec_flags()[ty.0 as int] & F_OPEN != 0 && !old(memo).view_map().contains_key(
            (ty.0, b.spec_key()),
        ) ==> norm_post(*old(store), *final(store), *old(solver), *final(solver), *b, ty, r) && match r {
            Some(t) => final(memo).view_map() == old(memo).view_map().insert((ty.0, b.spec_key()), t.0) || (old(
                memo,
            ).view_map().len() == usize::MAX && *final(memo) == *old(memo)),
            None => *final(memo) == *old(memo),
        },
{
    proof {
        TyStore::lemma_grows_refl(&*store);
    }
    if store.is_monomorphic(ty) {
        return Some(ty);
    }
    let key = b.key();
    match memo.get(ty, key) {
        Some(hit) => {
            return Some(hit);
        },
        None => {},
    }
    let out = match subst_norm_with(store, ty, b, solver) {
        Some(o) => o,
        None => return None,
    };
    if memo.len() < usize::MAX {
        memo.insert(ty, key, out);
    }
    Some(out)
}

} // verus!
