//! Build-wide handles shared by every table: interned names, definition rows,
//! and the 64-bit avalanche mixer every hash-consing table keys with.

use vstd::prelude::*;

verus! {

/// An interned name. Carries no bytes itself; the interner owns them.
#[derive(Clone, Copy, PartialEq, Eq, Structural, PartialOrd, Ord, Hash, Debug)]
pub struct Symbol(pub u32);

/// One declaration row of a build.
#[derive(Clone, Copy, PartialEq, Eq, Structural, PartialOrd, Ord, Hash, Debug)]
pub struct DefId(pub u32);

impl DefId {
    pub fn index(self) -> (r: usize)
        ensures
            r == self.0,
    {
        self.0 as usize
    }
}

/// What a declaration is, in declaration order: a kind travels in a key's
/// bytes as its position in this order.
#[derive(Clone, Copy, PartialEq, Eq, Structural, Hash, Debug)]
pub enum DeclKind {
    Fn,
    ExternFn,
    Struct,
    Enum,
    Trait,
    Impl,
    Const,
    Use,
    ModuleHeader,
    Needs,
    Inputs,
    Contracts,
}

impl DeclKind {
    /// The kind's position in declaration order.
    pub open spec fn code(self) -> u8 {
        match self {
            DeclKind::Fn => 0,
            DeclKind::ExternFn => 1,
            DeclKind::Struct => 2,
            DeclKind::Enum => 3,
            DeclKind::Trait => 4,
            DeclKind::Impl => 5,
            DeclKind::Const => 6,
            DeclKind::Use => 7,
            DeclKind::ModuleHeader => 8,
            DeclKind::Needs => 9,
            DeclKind::Inputs => 10,
            DeclKind::Contracts => 11,
        }
    }

    pub fn to_u8(self) -> (r: u8)
        ensures
            r == self.code(),
    {
        match self {
            DeclKind::Fn => 0,
            DeclKind::ExternFn => 1,
            DeclKind::Struct => 2,
            DeclKind::Enum => 3,
            DeclKind::Trait => 4,
            DeclKind::Impl => 5,
            DeclKind::Const => 6,
            DeclKind::Use => 7,
            DeclKind::ModuleHeader => 8,
            DeclKind::Needs => 9,
            DeclKind::Inputs => 10,
            DeclKind::Contracts => 11,
        }
    }
}

/// The number of declaration kinds.
pub const DECL_KIND_COUNT: u8 = 12;

/// The kind at position `v` of declaration order, if there is one.
pub fn decl_kind_from_u8(v: u8) -> (r: Option<DeclKind>)
    ensures
        r matches Some(k) ==> k.code() == v,
        r is None <==> v >= 12,
{
    match v {
        0 => Some(DeclKind::Fn),
        1 => Some(DeclKind::ExternFn),
        2 => Some(DeclKind::Struct),
        3 => Some(DeclKind::Enum),
        4 => Some(DeclKind::Trait),
        5 => Some(DeclKind::Impl),
        6 => Some(DeclKind::Const),
        7 => Some(DeclKind::Use),
        8 => Some(DeclKind::ModuleHeader),
        9 => Some(DeclKind::Needs),
        10 => Some(DeclKind::Inputs),
        11 => Some(DeclKind::Contracts),
        _ => None,
    }
}

/// A kind's position names it: the two directions are inverse.
pub proof fn lemma_decl_kind_code_round_trip(k: DeclKind)
    ensures
        k.code() < 12,
        forall|j: DeclKind| j.code() == k.code() ==> j == k,
{
}

/// The SplitMix64 finaliser, written over modular 64-bit arithmetic.
pub open spec fn spec_splitmix64(x: u64) -> u64 {
    let z0 = x.wrapping_add(0x9E37_79B9_7F4A_7C15u64);
    let z1 = (z0 ^ (z0 >> 30u64)).wrapping_mul(0xBF58_476D_1CE4_E5B9u64);
    let z2 = (z1 ^ (z1 >> 27u64)).wrapping_mul(0x94D0_49BB_1331_11EBu64);
    z2 ^ (z2 >> 31u64)
}

/// SplitMix64's output function: a bijective avalanche step on `u64`.
pub fn splitmix64(x: u64) -> (r: u64)
    ensures
        r == spec_splitmix64(x),
{
    let z0 = x.wrapping_add(0x9E37_79B9_7F4A_7C15u64);
    let z1 = (z0 ^ (z0 >> 30u64)).wrapping_mul(0xBF58_476D_1CE4_E5B9u64);
    let z2 = (z1 ^ (z1 >> 27u64)).wrapping_mul(0x94D0_49BB_1331_11EBu64);
    z2 ^ (z2 >> 31u64)
}

} // verus!
