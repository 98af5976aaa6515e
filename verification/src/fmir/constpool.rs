//! Comptime-known values, deduplicated: interning an equal value twice gives
//! the same id.

use vstd::prelude::*;

use crate::fmir::ids::FmirConstId;
use crate::index::Symbol;

verus! {

#[derive(Clone, Copy, PartialEq, Eq, Structural, Debug)]
pub enum ConstValue {
    Int(i64),
    /// An IEEE-754 bit pattern: never a host float, never compared as one.
    FloatBits(u64),
    Bool(bool),
    Unit,
    Str(Symbol),
}

#[derive(Clone, Debug)]
pub struct ConstPool {
    rows: Vec<ConstValue>,
}

impl View for ConstPool {
    type V = Seq<ConstValue>;

    closed spec fn view(&self) -> Seq<ConstValue> {
        self.rows@
    }
}

/// No value occurs twice.
pub open spec fn no_duplicates(s: Seq<ConstValue>) -> bool {
    forall|i: int, j: int| 0 <= i < j < s.len() ==> s[i] != s[j]
}

impl ConstPool {
    pub fn new() -> (r: ConstPool)
        ensures
            r@ == Seq::<ConstValue>::empty(),
    {
        ConstPool { rows: Vec::new() }
    }

    pub fn len(&self) -> (r: usize)
        ensures
            r == self@.len(),
    {
        self.rows.len()
    }

    pub fn is_empty(&self) -> (r: bool)
        ensures
            r == (self@.len() == 0),
    {
        self.rows.len() == 0
    }

    /// The id of `v`: its existing row, or a new row appended at the end.
    pub fn intern(&mut self, v: ConstValue) -> (r: FmirConstId)
        requires
            old(self)@.len() < u32::MAX,
        ensures
            old(self)@.contains(v) ==> final(self)@ == old(self)@,
            !old(self)@.contains(v) ==> final(self)@ == old(self)@.push(v) && r == FmirConstId(old(self)@.len() as u32),
            old(self)@.contains(v) ==> r.0 < old(self)@.len() && old(self)@[r.0 as int] == v
                && forall|j: int| 0 <= j < r.0 ==> old(self)@[j] != v,
            no_duplicates(old(self)@) ==> no_duplicates(final(self)@),
    {
        let mut i: usize = 0;
        while i < self.rows.len()
            invariant
                i <= self.rows@.len(),
                self.rows@ == old(self).rows@,
                self.rows@.len() < u32::MAX,
                forall|j: int| 0 <= j < i ==> self.rows@[j] != v,
            decreases self.rows@.len() - i,
        {
            if self.rows[i] == v {
                return FmirConstId(i as u32);
            }
            i += 1;
        }
        let id = FmirConstId(self.rows.len() as u32);
        self.rows.push(v);
        id
    }

    pub(crate) fn as_slice(&self) -> (r: &[ConstValue])
        ensures
            r@ == self@,
    {
        self.rows.as_slice()
    }

    pub fn row(&self, id: FmirConstId) -> (r: ConstValue)
        requires
            id.0 < self@.len(),
        ensures
            r == self@[id.0 as int],
    {
        self.rows[id.index()]
    }
}

} // verus!
