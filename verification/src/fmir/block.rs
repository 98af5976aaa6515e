//! Basic blocks: one terminator each, kept in the block's own `term` slot.
//! Nothing stops a hand-built instruction range from also holding a
//! terminator-class opcode, which is exactly the "two terminators" shape the
//! verifier rejects.

use vstd::prelude::*;

use crate::fmir::ids::{BlockId, ScopeId};
use crate::fmir::inst::{clamped, InstPool, InstRow};
use crate::fmir::op::Op;

verus! {

#[derive(Clone, Copy, PartialEq, Eq, Structural, Debug)]
pub struct BlockRow {
    pub first_inst: u32,
    pub inst_len: u32,
    pub term: InstRow,
    pub scope: ScopeId,
}

impl BlockRow {
    /// The end of the block's instruction range fits in a `u32`.
    pub open spec fn range_fits(&self) -> bool {
        self.first_inst + self.inst_len <= u32::MAX
    }

    pub fn inst_range(&self) -> (r: core::ops::Range<u32>)
        requires
            self.range_fits(),
        ensures
            r.start == self.first_inst,
            r.end == self.first_inst + self.inst_len,
    {
        self.first_inst..(self.first_inst + self.inst_len)
    }

    /// The `term` slot holds a terminator-class opcode.
    pub fn term_is_well_formed(&self) -> (r: bool)
        ensures
            r == self.term.op.spec_is_terminator(),
    {
        self.term.op.is_terminator()
    }
}

#[derive(Clone, Debug)]
pub struct BlockPool {
    pub rows: Vec<BlockRow>,
}

impl View for BlockPool {
    type V = Seq<BlockRow>;

    open spec fn view(&self) -> Seq<BlockRow> {
        self.rows@
    }
}

/// The instruction indices in `[lo, hi)` (clamped to the pool) that hold a
/// terminator-class opcode, in increasing order, are exactly `r`.
pub open spec fn is_stray_list(r: Seq<u32>, insts: Seq<InstRow>, lo: int, hi: int) -> bool {
    &&& forall|k: int| 0 <= k < r.len() ==> lo <= #[trigger] r[k] < hi && insts[r[k] as int].op.spec_is_terminator()
    &&& forall|k: int, l: int| 0 <= k < l < r.len() ==> r[k] < r[l]
    &&& forall|x: int| lo <= x < hi && (#[trigger] insts[x]).op.spec_is_terminator() ==> r.contains(x as u32)
}

/// The indices in `[lo, hi)` whose instruction holds a terminator-class
/// opcode, in increasing order.
pub open spec fn stray_list(insts: Seq<InstRow>, lo: int, hi: int) -> Seq<u32>
    decreases hi - lo,
{
    if hi <= lo {
        Seq::empty()
    } else {
        stray_list(insts, lo, hi - 1) + if insts[hi - 1].op.spec_is_terminator() {
            seq![(hi - 1) as u32]
        } else {
            Seq::empty()
        }
    }
}

impl BlockPool {
    pub fn new() -> (r: BlockPool)
        ensures
            r@ == Seq::<BlockRow>::empty(),
    {
        BlockPool { rows: Vec::new() }
    }

    pub fn len(&self) -> (r: usize)
        ensures
            r == self@.len(),
    {
        self.rows.len()
    }

    pub fn is_empty(&self) -> (r: bool)
        ensures
            r == (self@.len() == 0),
    {
        self.rows.len() == 0
    }

    pub fn push(&mut self, row: BlockRow) -> (r: BlockId)
        ensures
            r == BlockId(old(self)@.len() as u32),
            final(self)@ == old(self)@.push(row),
    {
        let i = self.rows.len() as u32;
        self.rows.push(row);
        BlockId(i)
    }

    pub fn row(&self, id: BlockId) -> (r: BlockRow)
        requires
            id.0 < self@.len(),
        ensures
            r == self@[id.0 as int],
    {
        self.rows[id.index()]
    }

    /// [`BlockPool::row`] for a block id read out of a terminator's operand
    /// slot: a branch to a block that does not exist reads as `None`.
    pub fn try_row(&self, id: BlockId) -> (r: Option<BlockRow>)
        ensures
            r == (if id.0 < self@.len() {
                Some(self@[id.0 as int])
            } else {
                None
            }),
    {
        let i = id.index();
        if i < self.rows.len() {
            Some(self.rows[i])
        } else {
            None
        }
    }

    /// Every `(id, row)` pair, in id order.
    pub fn all_rows(&self) -> (r: Vec<(BlockId, BlockRow)>)
        ensures
            r@.len() == self@.len(),
            forall|i: int| 0 <= i < r@.len() ==> #[trigger] r@[i] == (BlockId(i as u32), self@[i]),
    {
        let mut out: Vec<(BlockId, BlockRow)> = Vec::new();
        let mut i: usize = 0;
        while i < self.rows.len()
            invariant
                i <= self.rows@.len(),
                out@.len() == i,
                forall|j: int| 0 <= j < i ==> #[trigger] out@[j] == (BlockId(j as u32), self.rows@[j]),
            decreases self.rows@.len() - i,
        {
            out.push((BlockId(i as u32), self.rows[i]));
            i += 1;
        }
        out
    }

    /// The positions, inside block `id`'s regular instruction range, of a
    /// terminator-class opcode: each one is a second terminator.
    pub fn stray_terminator_indices(&self, id: BlockId, insts: &InstPool) -> (r: Vec<u32>)
        requires
            id.0 < self@.len(),
            self@[id.0 as int].range_fits(),
        ensures
            is_stray_list(
                r@,
                insts@,
                clamped(self@[id.0 as int].first_inst, (self@[id.0 as int].first_inst + self@[id.0 as int].inst_len) as u32, insts@.len() as int).0,
                clamped(self@[id.0 as int].first_inst, (self@[id.0 as int].first_inst + self@[id.0 as int].inst_len) as u32, insts@.len() as int).1,
            ),
            r@ == stray_list(
                insts@,
                clamped(self@[id.0 as int].first_inst, (self@[id.0 as int].first_inst + self@[id.0 as int].inst_len) as u32, insts@.len() as int).0,
                clamped(self@[id.0 as int].first_inst, (self@[id.0 as int].first_inst + self@[id.0 as int].inst_len) as u32, insts@.len() as int).1,
            ),
    {
        let row = self.rows[id.index()];
        let range = row.inst_range();
        let start = range.start;
        let rows = insts.slice(range);
        let ghost lo = clamped(row.first_inst, (row.first_inst + row.inst_len) as u32, insts@.len() as int).0;
        let ghost hi = clamped(row.first_inst, (row.first_inst + row.inst_len) as u32, insts@.len() as int).1;
        assert(rows@ == insts@.subrange(lo, hi));
        assert(lo == start || rows@.len() == 0);
        let mut out: Vec<u32> = Vec::new();
        let mut i: usize = 0;
        while i < rows.len()
            invariant
                i <= rows@.len(),
                rows@ == insts@.subrange(lo, hi),
                0 <= lo <= hi <= insts@.len(),
                rows@.len() == 0 || lo == start,
                start as int + rows@.len() <= u32::MAX || rows@.len() == 0,
                forall|k: int| 0 <= k < out@.len() ==> lo <= #[trigger] out@[k] < lo + i && insts@[out@[k] as int].op.spec_is_terminator(),
                forall|k: int, l: int| 0 <= k < l < out@.len() ==> out@[k] < out@[l],
                forall|x: int| lo <= x < lo + i && (#[trigger] insts@[x]).op.spec_is_terminator() ==> out@.contains(x as u32),
                out@ == stray_list(insts@, lo, lo + i),
            decreases rows@.len() - i,
        {
            if rows[i].op.is_terminator() {
                let ghost before = out@;
                out.push(start + i as u32);
                proof {
                    assert forall|x: int| lo <= x < lo + i + 1 && (#[trigger] insts@[x]).op.spec_is_terminator() implies out@.contains(x as u32) by {
                        if x < lo + i {
                            let w = choose|w: int| 0 <= w < before.len() && before[w] == x as u32;
                            assert(out@[w] == x as u32);
                        } else {
                            assert(out@[out@.len() - 1] == x as u32);
                        }
                    }
                }
            } else {
                assert forall|x: int| lo <= x < lo + i + 1 && (#[trigger] insts@[x]).op.spec_is_terminator() implies out@.contains(x as u32) by {
                    assert(x != lo + i);
                }
            }
            i += 1;
        }
        assert(lo + i == hi);
        out
    }
}

/// Does an opcode belong in a block's regular instruction range at all?
pub fn is_regular_instruction(op: Op) -> (r: bool)
    ensures
        r == !op.spec_is_terminator(),
{
    !op.is_terminator()
}

} // verus!
