//! One IR value row: type, flags, `ct` region and defining site. The secret
//! bit and the `ct` region are required constructor arguments; the verifier
//! rejects a row that carries the "textually absent" markers instead.

use vstd::prelude::*;

use crate::fir::ty::TyId;
use crate::fmir::flags::{CT_UNSPECIFIED, SECRET, ValFlags};
use crate::fmir::ids::{InstId, ValId};

verus! {

/// Where a value comes from: a defining instruction, or a parameter ordinal.
#[derive(Clone, Copy, PartialEq, Eq, Structural, Debug)]
pub enum ValDef {
    Inst(InstId),
    Param(u16),
}

/// The top bit of an encoded `def` tags a parameter; its ordinal is in the
/// low 16 bits.
pub const PARAM_TAG: u32 = 0x8000_0000u32;

/// The encoded `def` word of a definition site.
pub open spec fn spec_encode_def(d: ValDef) -> u32 {
    match d {
        ValDef::Inst(id) => id.0,
        ValDef::Param(ordinal) => PARAM_TAG | (ordinal as u32),
    }
}

/// The definition site an encoded `def` word names.
pub open spec fn spec_decode_def(raw: u32) -> ValDef {
    if raw & PARAM_TAG != 0 {
        ValDef::Param((raw & 0xFFFFu32) as u16)
    } else {
        ValDef::Inst(InstId(raw))
    }
}

/// An instruction id never uses the reserved top bit.
pub open spec fn def_encodable(d: ValDef) -> bool {
    match d {
        ValDef::Inst(id) => id.0 < PARAM_TAG,
        ValDef::Param(_) => true,
    }
}

impl ValDef {
    pub fn encode(self) -> (r: u32)
        requires
            def_encodable(self),
        ensures
            r == spec_encode_def(self),
    {
        match self {
            ValDef::Inst(id) => id.0,
            ValDef::Param(ordinal) => PARAM_TAG | (ordinal as u32),
        }
    }

    pub fn decode(raw: u32) -> (r: ValDef)
        ensures
            r == spec_decode_def(raw),
    {
        if raw & PARAM_TAG != 0 {
            ValDef::Param((raw & 0xFFFFu32) as u16)
        } else {
            ValDef::Inst(InstId(raw))
        }
    }
}

/// Decoding an encoded definition site gives it back.
pub proof fn lemma_def_round_trip(d: ValDef)
    requires
        def_encodable(d),
    ensures
        spec_decode_def(spec_encode_def(d)) == d,
{
    match d {
        ValDef::Inst(id) => {
            let x = id.0;
            assert(x < 0x8000_0000u32 ==> x & 0x8000_0000u32 == 0) by (bit_vector);
        },
        ValDef::Param(o) => {
            let w = o as u32;
            assert(w < 0x1_0000 ==> (0x8000_0000u32 | w) & 0x8000_0000u32 != 0) by (bit_vector);
            assert(w < 0x1_0000 ==> (0x8000_0000u32 | w) & 0xFFFFu32 == w) by (bit_vector);
        },
    }
}

/// One value: type, flags, `ct` region and encoded definition site.
#[derive(Clone, Copy, PartialEq, Eq, Structural, Debug)]
pub struct ValRow {
    pub ty: TyId,
    pub flags: ValFlags,
    pub ct: u16,
    pub def: u32,
}

impl ValRow {
    /// `secret` and `ct` are both required arguments, never defaulted.
    pub fn new(ty: TyId, secret: bool, ct: u16, def: ValDef) -> (r: ValRow)
        requires
            ct != CT_UNSPECIFIED,
            def_encodable(def),
        ensures
            r == (ValRow {
                ty,
                flags: ValFlags(if secret { SECRET } else { 0u16 }),
                ct,
                def: spec_encode_def(def),
            }),
    {
        ValRow { ty, flags: ValFlags::new(secret), ct, def: def.encode() }
    }

    pub fn with_flags(self, extra: u16) -> (r: ValRow)
        ensures
            r == (ValRow { flags: ValFlags(self.flags.0 | extra), ..self }),
    {
        let mut row = self;
        row.flags = row.flags.with(extra);
        row
    }

    pub fn def(self) -> (r: ValDef)
        ensures
            r == spec_decode_def(self.def),
    {
        ValDef::decode(self.def)
    }

    pub fn is_secret(self) -> (r: bool)
        ensures
            r == self.flags.spec_has(SECRET),
    {
        self.flags.is_secret()
    }
}

/// Rows of one declaration's values, plus a scoped value's `sources` range,
/// kept parallel to the rows (`None` unless the value is scoped).
#[derive(Clone, Debug)]
pub struct ValPool {
    rows: Vec<ValRow>,
    scoped_sources: Vec<Option<core::ops::Range<u32>>>,
}

impl ValPool {
    /// The source column stays parallel to the rows.
    pub open spec fn wf(&self) -> bool {
        self.spec_rows().len() == self.spec_sources().len()
    }

    /// The rows, in id order.
    pub closed spec fn spec_rows(&self) -> Seq<ValRow> {
        self.rows@
    }

    /// The scoped-source ranges, parallel to the rows.
    pub closed spec fn spec_sources(&self) -> Seq<Option<core::ops::Range<u32>>> {
        self.scoped_sources@
    }

    pub fn new() -> (r: ValPool)
        ensures
            r.wf(),
            r.spec_rows() == Seq::<ValRow>::empty(),
            r.spec_sources() == Seq::<Option<core::ops::Range<u32>>>::empty(),
    {
        ValPool { rows: Vec::new(), scoped_sources: Vec::new() }
    }

    pub fn len(&self) -> (r: usize)
        ensures
            r == self.spec_rows().len(),
    {
        self.rows.len()
    }

    pub fn is_empty(&self) -> (r: bool)
        ensures
            r == (self.spec_rows().len() == 0),
    {
        self.rows.len() == 0
    }

    pub fn push(&mut self, row: ValRow) -> (r: ValId)
        requires
            old(self).wf(),
        ensures
            final(self).wf(),
            r == ValId(old(self).spec_rows().len() as u32),
            final(self).spec_rows() == old(self).spec_rows().push(row),
            final(self).spec_sources() == old(self).spec_sources().push(None),
    {
        let i = self.rows.len() as u32;
        self.rows.push(row);
        self.scoped_sources.push(None);
        ValId(i)
    }

    pub fn row(&self, id: ValId) -> (r: ValRow)
        requires
            id.0 < self.spec_rows().len(),
        ensures
            r == self.spec_rows()[id.0 as int],
    {
        self.rows[id.index()]
    }

    /// [`ValPool::row`] for an id that came out of an instruction slot: a
    /// dangling id reads as `None`, never a panic.
    pub fn try_row(&self, id: ValId) -> (r: Option<ValRow>)
        ensures
            r == (if id.0 < self.spec_rows().len() {
                Some(self.spec_rows()[id.0 as int])
            } else {
                None
            }),
    {
        let i = id.index();
        if i < self.rows.len() {
            Some(self.rows[i])
        } else {
            None
        }
    }

    pub fn set_scoped_sources(&mut self, id: ValId, sources: core::ops::Range<u32>)
        requires
            old(self).wf(),
            id.0 < old(self).spec_rows().len(),
        ensures
            final(self).wf(),
            final(self).spec_rows() == old(self).spec_rows(),
            final(self).spec_sources() == old(self).spec_sources().update(id.0 as int, Some(sources)),
    {
        let i = id.index();
        self.scoped_sources.set(i, Some(sources));
    }

    pub fn scoped_sources(&self, id: ValId) -> (r: Option<core::ops::Range<u32>>)
        requires
            self.wf(),
            id.0 < self.spec_rows().len(),
        ensures
            r == self.spec_sources()[id.0 as int],
    {
        match &self.scoped_sources[id.index()] {
            Some(range) => Some(range.start..range.end),
            None => None,
        }
    }

    /// The rows, in id order.
    pub(crate) fn rows_slice(&self) -> (r: &[ValRow])
        ensures
            r@ == self.spec_rows(),
    {
        self.rows.as_slice()
    }

    /// The scoped-source column, parallel to the rows.
    pub(crate) fn sources_slice(&self) -> (r: &[Option<core::ops::Range<u32>>])
        ensures
            r@ == self.spec_sources(),
    {
        self.scoped_sources.as_slice()
    }

    /// A pool holding exactly these rows and this source column.
    pub(crate) fn from_columns(rows: Vec<ValRow>, sources: Vec<Option<core::ops::Range<u32>>>) -> (r: ValPool)
        requires
            rows@.len() == sources@.len(),
        ensures
            r.wf(),
            r.spec_rows() == rows@,
            r.spec_sources() == sources@,
    {
        ValPool { rows, scoped_sources: sources }
    }

    /// Every `(id, row)` pair, in id order.
    pub fn all_rows(&self) -> (r: Vec<(ValId, ValRow)>)
        ensures
            r@.len() == self.spec_rows().len(),
            forall|i: int| 0 <= i < r@.len() ==> #[trigger] r@[i] == (ValId(i as u32), self.spec_rows()[i]),
    {
        let mut out: Vec<(ValId, ValRow)> = Vec::new();
        let mut i: usize = 0;
        while i < self.rows.len()
            invariant
                i <= self.rows@.len(),
                out@.len() == i,
                forall|j: int| 0 <= j < i ==> #[trigger] out@[j] == (ValId(j as u32), self.rows@[j]),
            decreases self.rows@.len() - i,
        {
            out.push((ValId(i as u32), self.rows[i]));
            i += 1;
        }
        out
    }
}

} // verus!
