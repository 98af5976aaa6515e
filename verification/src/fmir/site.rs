//! The site side table: the `(line, col)` a diagnostic or a trap points at.

use vstd::prelude::*;

use crate::fmir::ids::SiteId;

verus! {

#[derive(Clone, Copy, PartialEq, Eq, Structural, Debug)]
pub struct SiteRow {
    pub line: u32,
    pub col: u32,
}

#[derive(Clone, Debug)]
pub struct SitePool {
    rows: Vec<SiteRow>,
}

impl View for SitePool {
    type V = Seq<SiteRow>;

    closed spec fn view(&self) -> Seq<SiteRow> {
        self.rows@
    }
}

impl SitePool {
    pub fn new() -> (r: SitePool)
        ensures
            r@ == Seq::<SiteRow>::empty(),
    {
        SitePool { rows: Vec::new() }
    }

    pub fn len(&self) -> (r: usize)
        ensures
            r == self@.len(),
    {
        self.rows.len()
    }

    pub fn is_empty(&self) -> (r: bool)
        ensures
            r == (self@.len() == 0),
    {
        self.rows.len() == 0
    }

    pub fn push(&mut self, row: SiteRow) -> (r: SiteId)
        ensures
            r == SiteId(old(self)@.len() as u32),
            final(self)@ == old(self)@.push(row),
    {
        let i = self.rows.len() as u32;
        self.rows.push(row);
        SiteId(i)
    }

    pub(crate) fn as_slice(&self) -> (r: &[SiteRow])
        ensures
            r@ == self@,
    {
        self.rows.as_slice()
    }

    pub(crate) fn from_rows(rows: Vec<SiteRow>) -> (r: SitePool)
        ensures
            r@ == rows@,
    {
        SitePool { rows }
    }

    pub fn row(&self, id: SiteId) -> (r: SiteRow)
        requires
            id.0 < self@.len(),
        ensures
            r == self@[id.0 as int],
    {
        self.rows[id.index()]
    }
}

} // verus!
