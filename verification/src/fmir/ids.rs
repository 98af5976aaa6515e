//! `u32` newtypes indexing one declaration's own pools. Every id is relative
//! to one `DeclFmir`, never global, which is what makes a declaration
//! movable between processes and content-hashable.

use vstd::prelude::*;

verus! {

/// One row of the value pool: one SSA-ish value.
#[derive(Clone, Copy, PartialEq, Eq, Structural, PartialOrd, Ord, Hash, Debug)]
pub struct ValId(pub u32);

impl ValId {
    pub fn index(self) -> (r: usize)
        ensures
            r == self.0,
    {
        self.0 as usize
    }
}

/// One row of the block pool: one basic block.
#[derive(Clone, Copy, PartialEq, Eq, Structural, PartialOrd, Ord, Hash, Debug)]
pub struct BlockId(pub u32);

impl BlockId {
    pub fn index(self) -> (r: usize)
        ensures
            r == self.0,
    {
        self.0 as usize
    }
}

/// One row of the instruction pool: one non-terminator instruction.
#[derive(Clone, Copy, PartialEq, Eq, Structural, PartialOrd, Ord, Hash, Debug)]
pub struct InstId(pub u32);

impl InstId {
    pub fn index(self) -> (r: usize)
        ensures
            r == self.0,
    {
        self.0 as usize
    }
}

/// One node of the lexical scope tree (an annotation on blocks, never control flow).
#[derive(Clone, Copy, PartialEq, Eq, Structural, PartialOrd, Ord, Hash, Debug)]
pub struct ScopeId(pub u32);

impl ScopeId {
    pub fn index(self) -> (r: usize)
        ensures
            r == self.0,
    {
        self.0 as usize
    }
}

/// One interned `(root, segs)` place shape.
#[derive(Clone, Copy, PartialEq, Eq, Structural, PartialOrd, Ord, Hash, Debug)]
pub struct PlaceId(pub u32);

impl PlaceId {
    pub fn index(self) -> (r: usize)
        ensures
            r == self.0,
    {
        self.0 as usize
    }
}

/// One `spawn`/`parallel`/`with-arena` region shell.
#[derive(Clone, Copy, PartialEq, Eq, Structural, PartialOrd, Ord, Hash, Debug)]
pub struct RegionId(pub u32);

impl RegionId {
    pub fn index(self) -> (r: usize)
        ensures
            r == self.0,
    {
        self.0 as usize
    }
}

/// One `(line, col)` side-table entry a diagnostic or a trap points at.
#[derive(Clone, Copy, PartialEq, Eq, Structural, PartialOrd, Ord, Hash, Debug)]
pub struct SiteId(pub u32);

impl SiteId {
    pub fn index(self) -> (r: usize)
        ensures
            r == self.0,
    {
        self.0 as usize
    }
}

/// One row of the constant pool.
#[derive(Clone, Copy, PartialEq, Eq, Structural, PartialOrd, Ord, Hash, Debug)]
pub struct FmirConstId(pub u32);

impl FmirConstId {
    pub fn index(self) -> (r: usize)
        ensures
            r == self.0,
    {
        self.0 as usize
    }
}

/// One row of the defer pool.
#[derive(Clone, Copy, PartialEq, Eq, Structural, PartialOrd, Ord, Hash, Debug)]
pub struct DeferId(pub u32);

impl DeferId {
    pub fn index(self) -> (r: usize)
        ensures
            r == self.0,
    {
        self.0 as usize
    }
}

/// One linear-obligation place.
#[derive(Clone, Copy, PartialEq, Eq, Structural, PartialOrd, Ord, Hash, Debug)]
pub struct ObligId(pub u32);

impl ObligId {
    pub fn index(self) -> (r: usize)
        ensures
            r == self.0,
    {
        self.0 as usize
    }
}

/// One source place a scoped value keeps live.
#[derive(Clone, Copy, PartialEq, Eq, Structural, PartialOrd, Ord, Hash, Debug)]
pub struct SourceId(pub u32);

impl SourceId {
    pub fn index(self) -> (r: usize)
        ensures
            r == self.0,
    {
        self.0 as usize
    }
}

/// An arena brand id: compile-time metadata only; it seeds an arena alias class.
#[derive(Clone, Copy, PartialEq, Eq, Structural, PartialOrd, Ord, Hash, Debug)]
pub struct BrandId(pub u32);

impl BrandId {
    pub fn index(self) -> (r: usize)
        ensures
            r == self.0,
    {
        self.0 as usize
    }
}

/// One entry of a region's explicit typed capture list.
#[derive(Clone, Copy, PartialEq, Eq, Structural, PartialOrd, Ord, Hash, Debug)]
pub struct CaptureId(pub u32);

impl CaptureId {
    pub fn index(self) -> (r: usize)
        ensures
            r == self.0,
    {
        self.0 as usize
    }
}

/// The absent value of every id type here: no pool is ever `u32::MAX` rows long.
pub const ABSENT: u32 = 0xFFFF_FFFFu32;

impl ScopeId {
    /// The absent scope.
    pub fn none() -> (r: ScopeId)
        ensures
            r == ScopeId(ABSENT),
    {
        ScopeId(ABSENT)
    }
}

impl RegionId {
    /// The absent region.
    pub fn none() -> (r: RegionId)
        ensures
            r == RegionId(ABSENT),
    {
        RegionId(ABSENT)
    }
}

impl BrandId {
    /// The absent brand.
    pub fn none() -> (r: BrandId)
        ensures
            r == BrandId(ABSENT),
    {
        BrandId(ABSENT)
    }
}

} // verus!
