//! The lexical scope tree: an annotation on blocks, never a control-flow
//! structure. Each scope records its parent, arena brand, pending defer
//! ranges, linear obligations and region membership.

use vstd::prelude::*;

use crate::fmir::ids::{BlockId, BrandId, DeferId, InstId, PlaceId, RegionId, ScopeId, ABSENT};
use crate::fmir::inst::{clamp_range, clamped_slice};

verus! {

/// A flat list of places with range-interned slices: linear obligations and
/// a scoped value's sources are both "a range into a list of places".
#[derive(Clone, Debug)]
pub struct PlaceListPool {
    items: Vec<PlaceId>,
}

impl View for PlaceListPool {
    type V = Seq<PlaceId>;

    closed spec fn view(&self) -> Seq<PlaceId> {
        self.items@
    }
}

impl PlaceListPool {
    pub fn new() -> (r: PlaceListPool)
        ensures
            r@ == Seq::<PlaceId>::empty(),
    {
        PlaceListPool { items: Vec::new() }
    }

    /// Appends a list and returns the range that names it.
    pub fn push_list(&mut self, places: &[PlaceId]) -> (r: core::ops::Range<u32>)
        ensures
            final(self)@ == old(self)@ + places@,
            r.start == old(self)@.len() as u32,
            r.end == (old(self)@.len() + places@.len()) as u32,
    {
        let start = self.items.len() as u32;
        let mut i: usize = 0;
        while i < places.len()
            invariant
                i <= places@.len(),
                self.items@ == old(self).items@ + places@.subrange(0, i as int),
            decreases places@.len() - i,
        {
            self.items.push(places[i]);
            proof {
                assert(places@.subrange(0, i + 1) =~= places@.subrange(0, i as int).push(places@[i as int]));
            }
            i += 1;
        }
        proof {
            assert(places@.subrange(0, i as int) =~= places@);
        }
        let end = self.items.len() as u32;
        start..end
    }

    /// The list a range names, clamped to the pool.
    pub fn get(&self, range: core::ops::Range<u32>) -> (r: &[PlaceId])
        ensures
            r@ == clamped_slice(self@, range),
    {
        let c = clamp_range(range, self.items.len());
        &self.items.as_slice()[c]
    }

    pub fn len(&self) -> (r: usize)
        ensures
            r == self@.len(),
    {
        self.items.len()
    }

    pub fn is_empty(&self) -> (r: bool)
        ensures
            r == (self@.len() == 0),
    {
        self.items.len() == 0
    }

    pub fn as_slice(&self) -> (r: &[PlaceId])
        ensures
            r@ == self@,
    {
        self.items.as_slice()
    }

    pub fn from_raw(items: Vec<PlaceId>) -> (r: PlaceListPool)
        ensures
            r@ == items@,
    {
        PlaceListPool { items }
    }
}

#[derive(Clone, Copy, PartialEq, Eq, Structural, Debug)]
pub enum DeferKind {
    Defer,
    ErrDefer,
}

/// One pending `defer`/`errdefer` body.
#[derive(Clone, Copy, PartialEq, Eq, Structural, Debug)]
pub struct DeferRow {
    pub kind: DeferKind,
    pub body: BlockId,
    pub stmt_order: u16,
}

#[derive(Clone, Debug)]
pub struct DeferPool {
    rows: Vec<DeferRow>,
}

impl View for DeferPool {
    type V = Seq<DeferRow>;

    closed spec fn view(&self) -> Seq<DeferRow> {
        self.rows@
    }
}

impl DeferPool {
    pub fn new() -> (r: DeferPool)
        ensures
            r@ == Seq::<DeferRow>::empty(),
    {
        DeferPool { rows: Vec::new() }
    }

    pub fn push(&mut self, row: DeferRow) -> (r: DeferId)
        ensures
            r == DeferId(old(self)@.len() as u32),
            final(self)@ == old(self)@.push(row),
    {
        let i = self.rows.len() as u32;
        self.rows.push(row);
        DeferId(i)
    }

    pub(crate) fn as_slice(&self) -> (r: &[DeferRow])
        ensures
            r@ == self@,
    {
        self.rows.as_slice()
    }

    pub(crate) fn from_rows(rows: Vec<DeferRow>) -> (r: DeferPool)
        ensures
            r@ == rows@,
    {
        DeferPool { rows }
    }

    /// The rows a range names, clamped to the pool.
    pub fn get(&self, range: core::ops::Range<u32>) -> (r: &[DeferRow])
        ensures
            r@ == clamped_slice(self@, range),
    {
        let c = clamp_range(range, self.rows.len());
        &self.rows.as_slice()[c]
    }

    pub fn len(&self) -> (r: usize)
        ensures
            r == self@.len(),
    {
        self.rows.len()
    }

    pub fn is_empty(&self) -> (r: bool)
        ensures
            r == (self@.len() == 0),
    {
        self.rows.len() == 0
    }
}

/// How a linear obligation was discharged on one scope-exit edge.
#[derive(Clone, Copy, PartialEq, Eq, Structural, Debug)]
pub enum Discharge {
    MovedTo(InstId),
    DeferredBody(ScopeId, BlockId),
    Raised(InstId),
    Returned,
}

/// One node of the scope tree.
#[derive(PartialEq, Eq, Debug)]
pub struct ScopeRow {
    pub parent: ScopeId,
    pub brand: BrandId,
    pub defers: core::ops::Range<u32>,
    pub obligations: core::ops::Range<u32>,
    pub region: RegionId,
}

impl Clone for ScopeRow {
    fn clone(&self) -> (r: ScopeRow)
        ensures
            r == *self,
    {
        ScopeRow {
            parent: self.parent,
            brand: self.brand,
            defers: self.defers.start..self.defers.end,
            obligations: self.obligations.start..self.obligations.end,
            region: self.region,
        }
    }
}

impl ScopeRow {
    /// A root scope: no parent, no defers, no obligations, no region.
    pub fn root(brand: BrandId) -> (r: ScopeRow)
        ensures
            r.parent == ScopeId(ABSENT),
            r.brand == brand,
            r.defers.start == 0 && r.defers.end == 0,
            r.obligations.start == 0 && r.obligations.end == 0,
            r.region == RegionId(ABSENT),
    {
        ScopeRow { parent: ScopeId::none(), brand, defers: 0..0, obligations: 0..0, region: RegionId::none() }
    }
}

#[derive(Clone, Debug)]
pub struct ScopePool {
    pub rows: Vec<ScopeRow>,
}

/// The `k`-th scope up the parent chain from `s`; the chain stays at the
/// absent scope once it reaches it, and at a scope outside the pool.
pub open spec fn nth_parent(rows: Seq<ScopeRow>, s: ScopeId, k: nat) -> ScopeId
    decreases k,
{
    if k == 0 {
        s
    } else {
        let prev = nth_parent(rows, s, (k - 1) as nat);
        if prev == ScopeId(ABSENT) || prev.0 >= rows.len() {
            prev
        } else {
            rows[prev.0 as int].parent
        }
    }
}

impl ScopePool {
    pub open spec fn spec_rows(&self) -> Seq<ScopeRow> {
        self.rows@
    }

    /// Every parent link is absent or names a scope of the pool.
    pub open spec fn parents_in_range(&self) -> bool {
        forall|i: int| 0 <= i < self.rows@.len() ==>
            (#[trigger] self.rows@[i]).parent == ScopeId(ABSENT) || self.rows@[i].parent.0 < self.rows@.len()
    }

    pub fn new() -> (r: ScopePool)
        ensures
            r.spec_rows() == Seq::<ScopeRow>::empty(),
    {
        ScopePool { rows: Vec::new() }
    }

    pub fn push(&mut self, row: ScopeRow) -> (r: ScopeId)
        ensures
            r == ScopeId(old(self).spec_rows().len() as u32),
            final(self).spec_rows() == old(self).spec_rows().push(row),
    {
        let i = self.rows.len() as u32;
        self.rows.push(row);
        ScopeId(i)
    }

    pub fn row(&self, id: ScopeId) -> (r: ScopeRow)
        requires
            id.0 < self.spec_rows().len(),
        ensures
            r == self.spec_rows()[id.0 as int],
    {
        self.rows[id.index()].clone()
    }

    pub fn len(&self) -> (r: usize)
        ensures
            r == self.spec_rows().len(),
    {
        self.rows.len()
    }

    pub fn is_empty(&self) -> (r: bool)
        ensures
            r == (self.spec_rows().len() == 0),
    {
        self.rows.len() == 0
    }

    /// Every `(id, row)` pair, in id order.
    pub fn all_rows(&self) -> (r: Vec<(ScopeId, ScopeRow)>)
        ensures
            r@.len() == self.spec_rows().len(),
            forall|i: int| 0 <= i < r@.len() ==> #[trigger] r@[i] == (ScopeId(i as u32), self.spec_rows()[i]),
    {
        let mut out: Vec<(ScopeId, ScopeRow)> = Vec::new();
        let mut i: usize = 0;
        while i < self.rows.len()
            invariant
                i <= self.rows@.len(),
                out@.len() == i,
                forall|j: int| 0 <= j < i ==> #[trigger] out@[j] == (ScopeId(j as u32), self.rows@[j]),
            decreases self.rows@.len() - i,
        {
            out.push((ScopeId(i as u32), self.rows[i].clone()));
            i += 1;
        }
        out
    }

    /// Is `ancestor` reached from `scope` by following at most `len` parent
    /// links? Bounded by the pool's length, so it terminates on a malformed,
    /// cyclic pool too.
    pub fn is_ancestor_or_self(&self, scope: ScopeId, ancestor: ScopeId) -> (r: bool)
        requires
            self.parents_in_range(),
            scope == ScopeId(ABSENT) || scope.0 < self.spec_rows().len(),
        ensures
            r == exists|k: nat| k <= self.spec_rows().len() && #[trigger] nth_parent(self.spec_rows(), scope, k) == ancestor,
    {
        let mut cur = scope;
        let mut k: usize = 0;
        let n = self.rows.len();
        while k <= n
            invariant
                k <= n + 1,
                n == self.rows@.len(),
                self.parents_in_range(),
                cur == nth_parent(self.rows@, scope, k as nat),
                cur == ScopeId(ABSENT) || cur.0 < n,
                forall|j: nat| j < k ==> #[trigger] nth_parent(self.rows@, scope, j) != ancestor,
            decreases n + 1 - k,
        {
            if cur == ancestor {
                assert(nth_parent(self.spec_rows(), scope, k as nat) == ancestor);
                assert(exists|j: nat| j <= self.spec_rows().len() && #[trigger] nth_parent(self.spec_rows(), scope, j) == ancestor);
                return true;
            }
            if cur == ScopeId::none() {
                proof {
                    lemma_ancestor_absent_fixed(self.rows@, scope, k as nat);
                }
                return false;
            }
            if k == n {
                return false;
            }
            cur = self.rows[cur.index()].parent;
            k += 1;
        }
        false
    }
}

/// Once the chain reaches the absent scope it stays there.
proof fn lemma_ancestor_absent_fixed(rows: Seq<ScopeRow>, s: ScopeId, k: nat)
    requires
        nth_parent(rows, s, k) == ScopeId(ABSENT),
    ensures
        forall|j: nat| j >= k ==> #[trigger] nth_parent(rows, s, j) == ScopeId(ABSENT),
{
    assert forall|j: nat| j >= k implies #[trigger] nth_parent(rows, s, j) == ScopeId(ABSENT) by {
        lemma_ancestor_absent_step(rows, s, k, j);
    }
}

proof fn lemma_ancestor_absent_step(rows: Seq<ScopeRow>, s: ScopeId, k: nat, j: nat)
    requires
        nth_parent(rows, s, k) == ScopeId(ABSENT),
        j >= k,
    ensures
        nth_parent(rows, s, j) == ScopeId(ABSENT),
    decreases j - k,
{
    if j > k {
        lemma_ancestor_absent_step(rows, s, k, (j - 1) as nat);
    }
}

} // verus!
