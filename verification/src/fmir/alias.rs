//! The alias-seed column: one of the five alias-class sources per
//! instruction, carried rather than computed. The verifier only checks that
//! every memory-producing instruction has one.

use vstd::prelude::*;

use crate::fir::sig::Conv;
use crate::fmir::ids::{BrandId, PlaceId};
use crate::fmir::op::Op;

verus! {

/// One alias-class source, or `NoSeed` for an instruction it does not apply to.
#[derive(Clone, Copy, PartialEq, Eq, Structural, Debug)]
pub enum AliasSeed {
    /// Not a memory-producing instruction: the common case, and distinct from
    /// "memory-producing but the seed is missing" only by the opcode beside it.
    NoSeed,
    /// A parameter convention.
    Conv(Conv),
    /// Affine ownership: an owned root is its own seed.
    Own(PlaceId),
    /// An arena brand: compile-time metadata only.
    Arena(BrandId),
    /// Split-token provenance; `side` keeps the two halves distinct.
    Split { parent: PlaceId, side: u8 },
}

/// One seed per instruction-pool row, positionally aligned with it.
#[derive(Clone, Debug)]
pub struct AliasSeedPool {
    seeds: Vec<AliasSeed>,
}

impl View for AliasSeedPool {
    type V = Seq<AliasSeed>;

    closed spec fn view(&self) -> Seq<AliasSeed> {
        self.seeds@
    }
}

/// The seed at a position, reading a missing entry as `NoSeed`.
pub open spec fn seed_at(seeds: Seq<AliasSeed>, i: int) -> AliasSeed {
    if 0 <= i < seeds.len() {
        seeds[i]
    } else {
        AliasSeed::NoSeed
    }
}

/// A memory-producing opcode whose seed is `NoSeed`.
pub open spec fn seed_missing(op: Op, seed: AliasSeed) -> bool {
    op.spec_is_memory_producing() && seed == AliasSeed::NoSeed
}

impl AliasSeedPool {
    pub fn new() -> (r: AliasSeedPool)
        ensures
            r@ == Seq::<AliasSeed>::empty(),
    {
        AliasSeedPool { seeds: Vec::new() }
    }

    pub fn len(&self) -> (r: usize)
        ensures
            r == self@.len(),
    {
        self.seeds.len()
    }

    pub fn is_empty(&self) -> (r: bool)
        ensures
            r == (self@.len() == 0),
    {
        self.seeds.len() == 0
    }

    /// Appends one instruction's seed.
    pub fn push(&mut self, seed: AliasSeed)
        ensures
            final(self)@ == old(self)@.push(seed),
    {
        self.seeds.push(seed);
    }

    /// The seed of instruction `inst_index`; a column that fell out of
    /// lockstep reads as `NoSeed` rather than panicking.
    pub fn get(&self, inst_index: usize) -> (r: AliasSeed)
        ensures
            r == seed_at(self@, inst_index as int),
    {
        if inst_index < self.seeds.len() {
            self.seeds[inst_index]
        } else {
            AliasSeed::NoSeed
        }
    }

    pub fn as_slice(&self) -> (r: &[AliasSeed])
        ensures
            r@ == self@,
    {
        self.seeds.as_slice()
    }

    pub fn from_raw(seeds: Vec<AliasSeed>) -> (r: AliasSeedPool)
        ensures
            r@ == seeds@,
    {
        AliasSeedPool { seeds }
    }

    /// The first position where a memory-producing opcode has no seed. A
    /// column shorter than `ops` reads as `NoSeed` past its end, so a memory
    /// op with no entry at all is a violation too.
    pub fn missing(&self, ops: &[Op]) -> (r: Option<usize>)
        ensures
            r matches Some(i) ==> i < ops@.len() && seed_missing(ops@[i as int], seed_at(self@, i as int))
                && forall|j: int| 0 <= j < i ==> !seed_missing(#[trigger] ops@[j], seed_at(self@, j)),
            r is None ==> forall|j: int| 0 <= j < ops@.len() ==> !seed_missing(#[trigger] ops@[j], seed_at(self@, j)),
    {
        let mut i: usize = 0;
        while i < ops.len()
            invariant
                i <= ops@.len(),
                forall|j: int| 0 <= j < i ==> !seed_missing(#[trigger] ops@[j], seed_at(self@, j)),
            decreases ops@.len() - i,
        {
            if ops[i].is_memory_producing() && self.get(i) == AliasSeed::NoSeed {
                return Some(i);
            }
            i += 1;
        }
        None
    }
}

} // verus!
