//! Non-terminator instructions: the uniform `(op, a, b, c, ty, site)` rows,
//! their positional alias-seed column, and the side tables a few opcodes
//! spill into (call rows, reduce rows, switch rows, spilled operands).

use vstd::prelude::*;

use crate::fir::defpath::DeclKeyId;
use crate::fir::sig::Conv;
use crate::fir::ty::TyId;
use crate::fmir::alias::{AliasSeed, AliasSeedPool};
use crate::fmir::ids::{BlockId, InstId, SiteId, ValId};
use crate::fmir::op::Op;
use crate::index::Symbol;

verus! {

/// One instruction row. `a`/`b`/`c` are raw slots whose meaning depends on
/// `op` (see the operand table of the opcode module).
#[derive(Clone, Copy, PartialEq, Eq, Structural, Debug)]
pub struct InstRow {
    pub op: Op,
    pub a: u32,
    pub b: u32,
    pub c: u32,
    pub ty: TyId,
    pub site: SiteId,
}

/// A data-carried range clamped to `0..len`, and to the empty range when it
/// is inverted: `(start, end)` with `start <= end <= len`.
pub open spec fn clamped(start: u32, end: u32, len: int) -> (int, int) {
    let s = if start < len { start as int } else { len };
    let e = if end < len { end as int } else { len };
    (s, if e < s { s } else { e })
}

/// The slice of `s` a data-carried range names, after clamping.
pub open spec fn clamped_slice<T>(s: Seq<T>, range: core::ops::Range<u32>) -> Seq<T> {
    let (a, b) = clamped(range.start, range.end, s.len() as int);
    s.subrange(a, b)
}

/// Clamps a data-carried range to `0..len`: an out-of-range or inverted
/// range means malformed input, which is for the verifier to report, not a
/// panic to take.
pub(crate) fn clamp_range(range: core::ops::Range<u32>, len: usize) -> (r: core::ops::Range<usize>)
    ensures
        r.start == clamped(range.start, range.end, len as int).0,
        r.end == clamped(range.start, range.end, len as int).1,
        r.start <= r.end <= len,
{
    let start: usize = if (range.start as usize) < len { range.start as usize } else { len };
    let end0: usize = if (range.end as usize) < len { range.end as usize } else { len };
    let end: usize = if end0 < start { start } else { end0 };
    start..end
}

/// What a call opcode invokes. The call opcode already says which shape applies.
#[derive(Clone, Copy, PartialEq, Eq, Structural, Debug)]
pub enum Callee {
    Direct(DeclKeyId),
    Witness { table: u32, method: u16 },
    Closure(ValId),
    Intrinsic(Symbol),
}

/// A call: its callee and one range that indexes both the spilled operands
/// and their conventions, in lockstep.
#[derive(PartialEq, Eq, Debug)]
pub struct CallRow {
    pub callee: Callee,
    pub args: core::ops::Range<u32>,
}

impl Clone for CallRow {
    fn clone(&self) -> (r: CallRow)
        ensures
            r == *self,
    {
        CallRow { callee: self.callee, args: self.args.start..self.args.end }
    }
}

/// `reduce_tree`'s operands; `identity` is `ValId(ABSENT)` for "none".
#[derive(Clone, Copy, PartialEq, Eq, Structural, Debug)]
pub struct ReduceRow {
    pub op: Callee,
    pub xs: ValId,
    pub identity: ValId,
    pub b: u32,
    pub l: u32,
}

/// `switch_discr`'s discriminant, default target and arm range.
#[derive(PartialEq, Eq, Debug)]
pub struct SwitchRow {
    pub discr: ValId,
    pub default: BlockId,
    pub arms: core::ops::Range<u32>,
}

impl Clone for SwitchRow {
    fn clone(&self) -> (r: SwitchRow)
        ensures
            r == *self,
    {
        SwitchRow { discr: self.discr, default: self.default, arms: self.arms.start..self.arms.end }
    }
}

/// One `(case value, target)` arm.
#[derive(Clone, Copy, PartialEq, Eq, Structural, Debug)]
pub struct SwitchArm {
    pub value: i64,
    pub target: BlockId,
}

/// The instruction stream, its positional alias-seed column and the side tables.
#[derive(Clone, Debug)]
pub struct InstPool {
    pub rows: Vec<InstRow>,
    pub aliases: AliasSeedPool,
    pub operands: Vec<ValId>,
    pub arg_convs: Vec<Conv>,
    pub calls: Vec<CallRow>,
    pub reduces: Vec<ReduceRow>,
    pub switches: Vec<SwitchRow>,
    pub switch_arms: Vec<SwitchArm>,
}

impl View for InstPool {
    type V = Seq<InstRow>;

    open spec fn view(&self) -> Seq<InstRow> {
        self.rows@
    }
}

impl InstPool {
    pub fn new() -> (r: InstPool)
        ensures
            r@ == Seq::<InstRow>::empty(),
            r.aliases@ == Seq::<AliasSeed>::empty(),
            r.operands@ == Seq::<ValId>::empty(),
            r.arg_convs@ == Seq::<Conv>::empty(),
            r.calls@ == Seq::<CallRow>::empty(),
            r.reduces@ == Seq::<ReduceRow>::empty(),
            r.switches@ == Seq::<SwitchRow>::empty(),
            r.switch_arms@ == Seq::<SwitchArm>::empty(),
    {
        InstPool {
            rows: Vec::new(),
            aliases: AliasSeedPool::new(),
            operands: Vec::new(),
            arg_convs: Vec::new(),
            calls: Vec::new(),
            reduces: Vec::new(),
            switches: Vec::new(),
            switch_arms: Vec::new(),
        }
    }

    pub fn len(&self) -> (r: usize)
        ensures
            r == self@.len(),
    {
        self.rows.len()
    }

    pub fn is_empty(&self) -> (r: bool)
        ensures
            r == (self@.len() == 0),
    {
        self.rows.len() == 0
    }

    /// Pushes a row and its alias seed together: there is no bare push that
    /// skips the seed.
    pub fn push(&mut self, row: InstRow, seed: AliasSeed) -> (r: InstId)
        ensures
            r == InstId(old(self)@.len() as u32),
            final(self)@ == old(self)@.push(row),
            final(self).aliases@ == old(self).aliases@.push(seed),
            final(self).operands == old(self).operands,
            final(self).arg_convs == old(self).arg_convs,
            final(self).calls == old(self).calls,
            final(self).reduces == old(self).reduces,
            final(self).switches == old(self).switches,
            final(self).switch_arms == old(self).switch_arms,
    {
        let i = self.rows.len() as u32;
        self.rows.push(row);
        self.aliases.push(seed);
        InstId(i)
    }

    pub fn row(&self, id: InstId) -> (r: InstRow)
        requires
            id.0 < self@.len(),
        ensures
            r == self@[id.0 as int],
    {
        self.rows[id.index()]
    }

    /// [`InstPool::row`] for an id derived from data that may point past the end.
    pub fn try_row(&self, id: InstId) -> (r: Option<InstRow>)
        ensures
            r == (if id.0 < self@.len() {
                Some(self@[id.0 as int])
            } else {
                None
            }),
    {
        let i = id.index();
        if i < self.rows.len() {
            Some(self.rows[i])
        } else {
            None
        }
    }

    /// The rows a block's `first_inst`/`inst_len` names, clamped to the pool.
    pub fn slice(&self, range: core::ops::Range<u32>) -> (r: &[InstRow])
        ensures
            r@ == clamped_slice(self@, range),
    {
        let c = clamp_range(range, self.rows.len());
        &self.rows.as_slice()[c]
    }

    /// Spills call arguments and their conventions in lockstep.
    pub fn push_operands(&mut self, vals: &[ValId], convs: &[Conv]) -> (r: core::ops::Range<u32>)
        requires
            vals@.len() == convs@.len(),
        ensures
            r.start == old(self).operands@.len() as u32,
            r.end == (old(self).operands@.len() + vals@.len()) as u32,
            final(self).operands@ == old(self).operands@ + vals@,
            final(self).arg_convs@ == old(self).arg_convs@ + convs@,
            final(self)@ == old(self)@,
            final(self).aliases == old(self).aliases,
            final(self).calls == old(self).calls,
            final(self).reduces == old(self).reduces,
            final(self).switches == old(self).switches,
            final(self).switch_arms == old(self).switch_arms,
    {
        let start = self.operands.len() as u32;
        let mut i: usize = 0;
        while i < vals.len()
            invariant
                i <= vals@.len(),
                vals@.len() == convs@.len(),
                self.operands@ == old(self).operands@ + vals@.subrange(0, i as int),
                self.arg_convs@ == old(self).arg_convs@ + convs@.subrange(0, i as int),
                self.rows == old(self).rows,
                self.aliases == old(self).aliases,
                self.calls == old(self).calls,
                self.reduces == old(self).reduces,
                self.switches == old(self).switches,
                self.switch_arms == old(self).switch_arms,
            decreases vals@.len() - i,
        {
            self.operands.push(vals[i]);
            self.arg_convs.push(convs[i]);
            proof {
                assert(vals@.subrange(0, i + 1) =~= vals@.subrange(0, i as int).push(vals@[i as int]));
                assert(convs@.subrange(0, i + 1) =~= convs@.subrange(0, i as int).push(convs@[i as int]));
            }
            i += 1;
        }
        proof {
            assert(vals@.subrange(0, i as int) =~= vals@);
            assert(convs@.subrange(0, i as int) =~= convs@);
        }
        let end = self.operands.len() as u32;
        start..end
    }

    /// Spills operands that carry no per-entry convention.
    pub fn push_plain_operands(&mut self, vals: &[ValId]) -> (r: core::ops::Range<u32>)
        ensures
            r.start == old(self).operands@.len() as u32,
            r.end == (old(self).operands@.len() + vals@.len()) as u32,
            final(self).operands@ == old(self).operands@ + vals@,
            final(self).arg_convs == old(self).arg_convs,
            final(self)@ == old(self)@,
            final(self).aliases == old(self).aliases,
            final(self).calls == old(self).calls,
            final(self).reduces == old(self).reduces,
            final(self).switches == old(self).switches,
            final(self).switch_arms == old(self).switch_arms,
    {
        let start = self.operands.len() as u32;
        let mut i: usize = 0;
        while i < vals.len()
            invariant
                i <= vals@.len(),
                self.operands@ == old(self).operands@ + vals@.subrange(0, i as int),
                self.rows == old(self).rows,
                self.arg_convs == old(self).arg_convs,
                self.aliases == old(self).aliases,
                self.calls == old(self).calls,
                self.reduces == old(self).reduces,
                self.switches == old(self).switches,
                self.switch_arms == old(self).switch_arms,
            decreases vals@.len() - i,
        {
            self.operands.push(vals[i]);
            proof {
                assert(vals@.subrange(0, i + 1) =~= vals@.subrange(0, i as int).push(vals@[i as int]));
            }
            i += 1;
        }
        proof {
            assert(vals@.subrange(0, i as int) =~= vals@);
        }
        let end = self.operands.len() as u32;
        start..end
    }

    /// A spilled operand list, clamped to the operand table.
    pub fn args(&self, range: core::ops::Range<u32>) -> (r: &[ValId])
        ensures
            r@ == clamped_slice(self.operands@, range),
    {
        let c = clamp_range(range, self.operands.len());
        &self.operands.as_slice()[c]
    }

    pub fn push_call(&mut self, row: CallRow) -> (r: u32)
        ensures
            r == old(self).calls@.len() as u32,
            final(self).calls@ == old(self).calls@.push(row),
            final(self)@ == old(self)@,
            final(self).aliases == old(self).aliases,
            final(self).operands == old(self).operands,
            final(self).arg_convs == old(self).arg_convs,
            final(self).reduces == old(self).reduces,
            final(self).switches == old(self).switches,
            final(self).switch_arms == old(self).switch_arms,
    {
        let i = self.calls.len() as u32;
        self.calls.push(row);
        i
    }

    pub fn push_reduce(&mut self, row: ReduceRow) -> (r: u32)
        ensures
            r == old(self).reduces@.len() as u32,
            final(self).reduces@ == old(self).reduces@.push(row),
            final(self)@ == old(self)@,
            final(self).aliases == old(self).aliases,
            final(self).operands == old(self).operands,
            final(self).arg_convs == old(self).arg_convs,
            final(self).calls == old(self).calls,
            final(self).switches == old(self).switches,
            final(self).switch_arms == old(self).switch_arms,
    {
        let i = self.reduces.len() as u32;
        self.reduces.push(row);
        i
    }

    pub fn push_switch_arms(&mut self, arms: &[SwitchArm]) -> (r: core::ops::Range<u32>)
        ensures
            r.start == old(self).switch_arms@.len() as u32,
            r.end == (old(self).switch_arms@.len() + arms@.len()) as u32,
            final(self).switch_arms@ == old(self).switch_arms@ + arms@,
            final(self)@ == old(self)@,
            final(self).aliases == old(self).aliases,
            final(self).operands == old(self).operands,
            final(self).arg_convs == old(self).arg_convs,
            final(self).calls == old(self).calls,
            final(self).reduces == old(self).reduces,
            final(self).switches == old(self).switches,
    {
        let start = self.switch_arms.len() as u32;
        let mut i: usize = 0;
        while i < arms.len()
            invariant
                i <= arms@.len(),
                self.switch_arms@ == old(self).switch_arms@ + arms@.subrange(0, i as int),
                self.rows == old(self).rows,
                self.aliases == old(self).aliases,
                self.operands == old(self).operands,
                self.arg_convs == old(self).arg_convs,
                self.calls == old(self).calls,
                self.reduces == old(self).reduces,
                self.switches == old(self).switches,
            decreases arms@.len() - i,
        {
            self.switch_arms.push(arms[i]);
            proof {
                assert(arms@.subrange(0, i + 1) =~= arms@.subrange(0, i as int).push(arms@[i as int]));
            }
            i += 1;
        }
        proof {
            assert(arms@.subrange(0, i as int) =~= arms@);
        }
        let end = self.switch_arms.len() as u32;
        start..end
    }

    pub fn push_switch(&mut self, row: SwitchRow) -> (r: u32)
        ensures
            r == old(self).switches@.len() as u32,
            final(self).switches@ == old(self).switches@.push(row),
            final(self)@ == old(self)@,
            final(self).aliases == old(self).aliases,
            final(self).operands == old(self).operands,
            final(self).arg_convs == old(self).arg_convs,
            final(self).calls == old(self).calls,
            final(self).reduces == old(self).reduces,
            final(self).switch_arms == old(self).switch_arms,
    {
        let i = self.switches.len() as u32;
        self.switches.push(row);
        i
    }

    /// Every `(id, row)` pair, in id order.
    pub fn all_rows(&self) -> (r: Vec<(InstId, InstRow)>)
        ensures
            r@.len() == self@.len(),
            forall|i: int| 0 <= i < r@.len() ==> #[trigger] r@[i] == (InstId(i as u32), self@[i]),
    {
        let mut out: Vec<(InstId, InstRow)> = Vec::new();
        let mut i: usize = 0;
        while i < self.rows.len()
            invariant
                i <= self.rows@.len(),
                out@.len() == i,
                forall|j: int| 0 <= j < i ==> #[trigger] out@[j] == (InstId(j as u32), self.rows@[j]),
            decreases self.rows@.len() - i,
        {
            out.push((InstId(i as u32), self.rows[i]));
            i += 1;
        }
        out
    }
}

} // verus!
