//! `spawn`/`parallel`/`with-arena` region shells. A spawn region must carry an
//! explicit typed capture list; an absent list (as opposed to an empty one)
//! is what the verifier rejects.

use vstd::prelude::*;

use crate::fir::sig::Conv;
use crate::fmir::ids::{ABSENT, BrandId, CaptureId, RegionId, ValId};
use crate::fmir::inst::{clamp_range, clamped_slice};

verus! {

#[derive(Clone, Copy, PartialEq, Eq, Structural, Debug)]
pub enum RegionKind {
    Spawn,
    Parallel,
    WithArena,
}

/// One entry of a region's typed capture list: which value, by which convention.
#[derive(Clone, Copy, PartialEq, Eq, Structural, Debug)]
pub struct CaptureRow {
    pub value: ValId,
    pub conv: Conv,
}

#[derive(Clone, Debug)]
pub struct CapturePool {
    rows: Vec<CaptureRow>,
}

impl View for CapturePool {
    type V = Seq<CaptureRow>;

    closed spec fn view(&self) -> Seq<CaptureRow> {
        self.rows@
    }
}

impl CapturePool {
    pub fn new() -> (r: CapturePool)
        ensures
            r@ == Seq::<CaptureRow>::empty(),
    {
        CapturePool { rows: Vec::new() }
    }

    pub fn len(&self) -> (r: usize)
        ensures
            r == self@.len(),
    {
        self.rows.len()
    }

    pub fn is_empty(&self) -> (r: bool)
        ensures
            r == (self@.len() == 0),
    {
        self.rows.len() == 0
    }

    pub fn push(&mut self, row: CaptureRow) -> (r: CaptureId)
        ensures
            r == CaptureId(old(self)@.len() as u32),
            final(self)@ == old(self)@.push(row),
    {
        let i = self.rows.len() as u32;
        self.rows.push(row);
        CaptureId(i)
    }

    pub(crate) fn as_slice(&self) -> (r: &[CaptureRow])
        ensures
            r@ == self@,
    {
        self.rows.as_slice()
    }

    pub(crate) fn from_rows(rows: Vec<CaptureRow>) -> (r: CapturePool)
        ensures
            r@ == rows@,
    {
        CapturePool { rows }
    }

    /// The captures a range names, clamped to the pool.
    pub fn get(&self, range: core::ops::Range<u32>) -> (r: &[CaptureRow])
        ensures
            r@ == clamped_slice(self@, range),
    {
        let c = clamp_range(range, self.rows.len());
        &self.rows.as_slice()[c]
    }
}

/// One region shell. `captures` is absent (`ABSENT..ABSENT`), empty but
/// present (`n..n`), or non-empty.
#[derive(PartialEq, Eq, Debug)]
pub struct RegionRow {
    pub kind: RegionKind,
    pub captures: core::ops::Range<u32>,
    /// A `WithArena` region's brand; the absent brand otherwise.
    pub brand: BrandId,
}

impl Clone for RegionRow {
    fn clone(&self) -> (r: RegionRow)
        ensures
            r == *self,
    {
        RegionRow { kind: self.kind, captures: self.captures.start..self.captures.end, brand: self.brand }
    }
}

impl RegionRow {
    /// The capture range of a region whose list was never computed.
    pub fn absent_captures() -> (r: core::ops::Range<u32>)
        ensures
            r.start == ABSENT && r.end == ABSENT,
    {
        ABSENT..ABSENT
    }

    pub open spec fn spec_captures_absent(&self) -> bool {
        self.captures.start == ABSENT
    }

    pub fn captures_absent(&self) -> (r: bool)
        ensures
            r == self.spec_captures_absent(),
    {
        self.captures.start == ABSENT
    }
}

#[derive(Clone, Debug)]
pub struct RegionPool {
    pub rows: Vec<RegionRow>,
    pub captures: CapturePool,
}

impl RegionPool {
    /// The region rows, in id order.
    pub open spec fn spec_rows(&self) -> Seq<RegionRow> {
        self.rows@
    }

    pub fn new() -> (r: RegionPool)
        ensures
            r.spec_rows() == Seq::<RegionRow>::empty(),
            r.captures@ == Seq::<CaptureRow>::empty(),
    {
        RegionPool { rows: Vec::new(), captures: CapturePool::new() }
    }

    pub fn len(&self) -> (r: usize)
        ensures
            r == self.spec_rows().len(),
    {
        self.rows.len()
    }

    pub fn is_empty(&self) -> (r: bool)
        ensures
            r == (self.spec_rows().len() == 0),
    {
        self.rows.len() == 0
    }

    pub fn push(&mut self, row: RegionRow) -> (r: RegionId)
        ensures
            r == RegionId(old(self).spec_rows().len() as u32),
            final(self).spec_rows() == old(self).spec_rows().push(row),
            final(self).captures == old(self).captures,
    {
        let i = self.rows.len() as u32;
        self.rows.push(row);
        RegionId(i)
    }

    pub fn row(&self, id: RegionId) -> (r: RegionRow)
        requires
            id.0 < self.spec_rows().len(),
        ensures
            r == self.spec_rows()[id.0 as int],
    {
        self.rows[id.index()].clone()
    }

    /// Every `(id, row)` pair, in id order.
    pub fn all_rows(&self) -> (r: Vec<(RegionId, RegionRow)>)
        ensures
            r@.len() == self.spec_rows().len(),
            forall|i: int| 0 <= i < r@.len() ==> #[trigger] r@[i] == (RegionId(i as u32), self.spec_rows()[i]),
    {
        let mut out: Vec<(RegionId, RegionRow)> = Vec::new();
        let mut i: usize = 0;
        while i < self.rows.len()
            invariant
                i <= self.rows@.len(),
                out@.len() == i,
                forall|j: int| 0 <= j < i ==> #[trigger] out@[j] == (RegionId(j as u32), self.rows@[j]),
            decreases self.rows@.len() - i,
        {
            out.push((RegionId(i as u32), self.rows[i].clone()));
            i += 1;
        }
        out
    }
}

} // verus!
