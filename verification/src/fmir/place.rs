//! Places: a local slot plus a projection path, interned per declaration so
//! that two places with the same root, path and type are the same id.

use vstd::prelude::*;

use crate::fir::ty::TyId;
use crate::fmir::ids::{PlaceId, ValId};
use crate::fmir::inst::{clamp_range, clamped_slice};

verus! {

/// One projection step of a place path.
#[derive(Clone, Copy, PartialEq, Eq, Structural, Debug)]
pub enum Seg {
    Field(u16),
    Index(ValId),
    Deref,
}

/// One interned place: a local slot (a per-declaration numbering of
/// parameters and bindings, not a value) plus a range of path steps.
#[derive(PartialEq, Eq, Debug)]
pub struct PlaceRow {
    pub root: u32,
    pub segs: core::ops::Range<u32>,
    pub ty: TyId,
}

impl Clone for PlaceRow {
    fn clone(&self) -> (r: PlaceRow)
        ensures
            r == *self,
    {
        PlaceRow { root: self.root, segs: self.segs.start..self.segs.end, ty: self.ty }
    }
}

/// A place's shape: what interning compares.
pub struct PlaceShape {
    pub root: u32,
    pub path: Seq<Seg>,
    pub ty: TyId,
}

/// Interned `(root, path, ty)` shapes plus the flat path storage.
#[derive(Clone, Debug)]
pub struct PlacePool {
    rows: Vec<PlaceRow>,
    segs: Vec<Seg>,
}

impl PlacePool {
    /// The rows, in id order.
    pub closed spec fn spec_rows(&self) -> Seq<PlaceRow> {
        self.rows@
    }

    /// The flat path storage the rows' ranges index.
    pub closed spec fn spec_segs(&self) -> Seq<Seg> {
        self.segs@
    }

    /// The path of row `i`.
    pub open spec fn path_of(&self, i: int) -> Seq<Seg> {
        clamped_slice(self.spec_segs(), self.spec_rows()[i].segs)
    }

    /// Row `i` has shape `(root, path, ty)`.
    pub open spec fn has_shape(&self, i: int, root: u32, path: Seq<Seg>, ty: TyId) -> bool {
        self.spec_rows()[i].root == root && self.spec_rows()[i].ty == ty && self.path_of(i) == path
    }

    /// Every range lies inside the path storage, the rows' paths are laid
    /// end to end in id order and fill the storage, and no two rows share a
    /// shape.
    pub open spec fn wf(&self) -> bool {
        &&& self.spec_segs().len() <= u32::MAX
        &&& forall|i: int| 0 <= i < self.spec_rows().len() ==>
            (#[trigger] self.spec_rows()[i]).segs.start <= self.spec_rows()[i].segs.end <= self.spec_segs().len()
        &&& forall|i: int| 0 < i < self.spec_rows().len() ==>
            (#[trigger] self.spec_rows()[i]).segs.start == self.spec_rows()[i - 1].segs.end
        &&& self.spec_segs().len() == self.segs_end(self.spec_rows().len() as int)
        &&& self.spec_rows().len() > 0 ==> self.spec_rows()[0].segs.start == 0
        &&& forall|i: int, j: int| 0 <= i < j < self.spec_rows().len() ==>
            !self.has_shape(j, self.spec_rows()[i].root, self.path_of(i), self.spec_rows()[i].ty)
    }

    /// Where the paths of the first `n` rows end in the storage.
    pub open spec fn segs_end(&self, n: int) -> int {
        if n <= 0 {
            0
        } else {
            self.spec_rows()[n - 1].segs.end as int
        }
    }

    pub fn new() -> (r: PlacePool)
        ensures
            r.wf(),
            r.spec_rows() == Seq::<PlaceRow>::empty(),
            r.spec_segs() == Seq::<Seg>::empty(),
    {
        PlacePool { rows: Vec::new(), segs: Vec::new() }
    }

    pub fn len(&self) -> (r: usize)
        ensures
            r == self.spec_rows().len(),
    {
        self.rows.len()
    }

    pub fn is_empty(&self) -> (r: bool)
        ensures
            r == (self.spec_rows().len() == 0),
    {
        self.rows.len() == 0
    }

    pub fn row(&self, id: PlaceId) -> (r: PlaceRow)
        requires
            id.0 < self.spec_rows().len(),
        ensures
            r == self.spec_rows()[id.0 as int],
    {
        self.rows[id.index()].clone()
    }

    /// The path of a place, clamped to the storage.
    pub fn segs(&self, id: PlaceId) -> (r: &[Seg])
        requires
            id.0 < self.spec_rows().len(),
        ensures
            r@ == self.path_of(id.0 as int),
    {
        let row = &self.rows[id.index()];
        let c = clamp_range(row.segs.start..row.segs.end, self.segs.len());
        &self.segs.as_slice()[c]
    }

    /// Interns `(root, path, ty)`: the existing row with that shape, or a new
    /// row appended at the end.
    pub fn intern(&mut self, root: u32, path: &[Seg], ty: TyId) -> (r: PlaceId)
        requires
            old(self).wf(),
            old(self).spec_segs().len() + path@.len() <= u32::MAX,
            old(self).spec_rows().len() < u32::MAX,
        ensures
            final(self).wf(),
            r.0 < final(self).spec_rows().len(),
            final(self).has_shape(r.0 as int, root, path@, ty),
            (exists|i: int| 0 <= i < old(self).spec_rows().len() && old(self).has_shape(i, root, path@, ty)) ==> {
                &&& final(self).spec_rows() == old(self).spec_rows()
                &&& final(self).spec_segs() == old(self).spec_segs()
            },
            !(exists|i: int| 0 <= i < old(self).spec_rows().len() && old(self).has_shape(i, root, path@, ty)) ==> {
                &&& r.0 == old(self).spec_rows().len()
                &&& final(self).spec_rows().len() == old(self).spec_rows().len() + 1
                &&& final(self).spec_rows().subrange(0, r.0 as int) == old(self).spec_rows()
                &&& final(self).spec_rows()[r.0 as int] == (PlaceRow {
                    root,
                    segs: core::ops::Range { start: old(self).spec_segs().len() as u32, end: final(self).spec_segs().len() as u32 },
                    ty,
                })
                &&& final(self).spec_segs() == old(self).spec_segs() + path@
            },
    {
        let mut i: usize = 0;
        while i < self.rows.len()
            invariant
                i <= self.rows@.len(),
                self.wf(),
                self.rows@.len() < u32::MAX,
                self.rows@ == old(self).rows@,
                self.segs@ == old(self).segs@,
                forall|j: int| 0 <= j < i ==> !self.has_shape(j, root, path@, ty),
            decreases self.rows@.len() - i,
        {
            let row = &self.rows[i];
            if row.root == root && row.ty == ty && self.segs_eq(row.segs.start..row.segs.end, path) {
                assert(old(self).has_shape(i as int, root, path@, ty));
                return PlaceId(i as u32);
            }
            i += 1;
        }
        let ghost old_rows = self.rows@;
        let ghost old_segs = self.segs@;
        assert forall|j: int| 0 <= j < old_rows.len() implies
            !(old_rows[j].root == root && old_rows[j].ty == ty && clamped_slice(old_segs, #[trigger] old_rows[j].segs) == path@) by {
            assert(!self.has_shape(j, root, path@, ty));
        }
        let start = self.segs.len() as u32;
        let mut k: usize = 0;
        while k < path.len()
            invariant
                k <= path@.len(),
                self.rows@ == old_rows,
                self.segs@ == old_segs + path@.subrange(0, k as int),
            decreases path@.len() - k,
        {
            self.segs.push(path[k]);
            proof {
                assert(path@.subrange(0, k + 1) =~= path@.subrange(0, k as int).push(path@[k as int]));
            }
            k += 1;
        }
        proof {
            assert(path@.subrange(0, k as int) =~= path@);
        }
        let end = self.segs.len() as u32;
        let id = PlaceId(self.rows.len() as u32);
        self.rows.push(PlaceRow { root, segs: start..end, ty });
        proof {
            // Paths of the old rows are unchanged: their ranges lie in the old prefix.
            assert forall|j: int| 0 <= j < old_rows.len() implies self.path_of(j) == clamped_slice(old_segs, old_rows[j].segs) by {
                assert(self.spec_rows()[j] == old_rows[j]);
                assert(clamped_slice(self.segs@, old_rows[j].segs) =~= clamped_slice(old_segs, old_rows[j].segs));
            }
            assert(self.path_of(id.0 as int) =~= path@);
            assert(self.spec_rows().subrange(0, id.0 as int) =~= old_rows);
            let n = old_rows.len() as int;
            assert forall|a: int, b: int| 0 <= a < b < self.spec_rows().len() implies
                !self.has_shape(b, self.spec_rows()[a].root, self.path_of(a), self.spec_rows()[a].ty) by {
                if b < n {
                    assert(self.path_of(a) == clamped_slice(old_segs, old_rows[a].segs));
                    assert(self.path_of(b) == clamped_slice(old_segs, old_rows[b].segs));
                    assert(!old(self).has_shape(b, old_rows[a].root, old(self).path_of(a), old_rows[a].ty));
                } else {
                    assert(b == n);
                    assert(self.spec_rows()[b].root == root && self.spec_rows()[b].ty == ty);
                    assert(self.path_of(a) == clamped_slice(old_segs, old_rows[a].segs));
                    assert(!(old_rows[a].root == root && old_rows[a].ty == ty && clamped_slice(old_segs, old_rows[a].segs) == path@));
                }
            }
        }
        id
    }

    /// Does the stored range hold exactly `path`?
    fn segs_eq(&self, range: core::ops::Range<u32>, path: &[Seg]) -> (r: bool)
        ensures
            r == (clamped_slice(self.segs@, range) == path@),
    {
        let c = clamp_range(range, self.segs.len());
        let existing = &self.segs.as_slice()[c];
        if existing.len() != path.len() {
            assert(existing@.len() != path@.len());
            return false;
        }
        let mut i: usize = 0;
        while i < path.len()
            invariant
                existing@ == clamped_slice(self.segs@, range),
                existing@.len() == path@.len(),
                i <= path@.len(),
                forall|j: int| 0 <= j < i ==> existing@[j] == path@[j],
            decreases path@.len() - i,
        {
            if existing[i] != path[i] {
                assert(existing@[i as int] != path@[i as int]);
                return false;
            }
            i += 1;
        }
        assert(existing@ =~= path@);
        true
    }

    /// The rows, in id order.
    pub(crate) fn rows_slice(&self) -> (r: &[PlaceRow])
        ensures
            r@ == self.spec_rows(),
    {
        self.rows.as_slice()
    }

    /// The path of row `i`, clamped to the storage.
    pub(crate) fn path_at(&self, i: usize) -> (r: &[Seg])
        requires
            i < self.spec_rows().len(),
        ensures
            r@ == self.path_of(i as int),
    {
        let row = &self.rows[i];
        let c = clamp_range(row.segs.start..row.segs.end, self.segs.len());
        &self.segs.as_slice()[c]
    }

    /// How many path steps the storage holds.
    pub(crate) fn segs_len(&self) -> (r: usize)
        ensures
            r == self.spec_segs().len(),
    {
        self.segs.len()
    }

    /// Every `(id, row)` pair, in id order.
    pub fn all_rows(&self) -> (r: Vec<(PlaceId, PlaceRow)>)
        ensures
            r@.len() == self.spec_rows().len(),
            forall|i: int| 0 <= i < r@.len() ==> #[trigger] r@[i] == (PlaceId(i as u32), self.spec_rows()[i]),
    {
        let mut out: Vec<(PlaceId, PlaceRow)> = Vec::new();
        let mut i: usize = 0;
        while i < self.rows.len()
            invariant
                i <= self.rows@.len(),
                out@.len() == i,
                forall|j: int| 0 <= j < i ==> #[trigger] out@[j] == (PlaceId(j as u32), self.rows@[j]),
            decreases self.rows@.len() - i,
        {
            out.push((PlaceId(i as u32), self.rows[i].clone()));
            i += 1;
        }
        out
    }
}

} // verus!
