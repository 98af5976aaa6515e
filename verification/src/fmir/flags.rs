//! A value row's flag bits, plus the "textually absent" sentinels the
//! verifier rejects (a row lacking its secret bit or its `ct` region).

use vstd::prelude::*;

verus! {

/// `secret`: the value depends on secret data.
pub const SECRET: u16 = 1;
/// A comptime-known value.
pub const CONST: u16 = 2;
/// `SCOPED`: carries a live `sources` range into a source pool.
pub const SCOPED: u16 = 4;
/// `LINEAR`: the value is under a linear obligation.
pub const LINEAR: u16 = 8;
/// Isolation-domain value.
pub const ISO: u16 = 16;
/// Immutable-only binding.
pub const IMM: u16 = 32;
/// Compiler-internal temporary, never named by source.
pub const TMP: u16 = 64;

/// Marker: the textual form omitted the `secret`/`nosecret` token entirely.
/// [`ValFlags::new`] never sets it and the verifier rejects any row carrying it.
pub const SECRET_UNSPECIFIED: u16 = 0x8000;

/// One value row's flag set. Every constructor takes an explicit `secret`.
#[derive(Clone, Copy, PartialEq, Eq, Structural, Debug, Default)]
pub struct ValFlags(pub u16);

impl ValFlags {
    /// The only constructor that chooses bits for the caller: `secret` cannot
    /// be omitted.
    pub fn new(secret: bool) -> (r: ValFlags)
        ensures
            r.0 == (if secret { SECRET } else { 0u16 }),
    {
        if secret {
            ValFlags(SECRET)
        } else {
            ValFlags(0)
        }
    }

    pub fn with(self, bit: u16) -> (r: ValFlags)
        ensures
            r.0 == self.0 | bit,
    {
        ValFlags(self.0 | bit)
    }

    pub fn without(self, bit: u16) -> (r: ValFlags)
        ensures
            r.0 == self.0 & !bit,
    {
        ValFlags(self.0 & !bit)
    }

    pub open spec fn spec_has(self, bit: u16) -> bool {
        self.0 & bit != 0
    }

    pub fn has(self, bit: u16) -> (r: bool)
        ensures
            r == self.spec_has(bit),
    {
        self.0 & bit != 0
    }

    pub fn is_secret(self) -> (r: bool)
        ensures
            r == self.spec_has(SECRET),
    {
        self.has(SECRET)
    }

    pub fn is_scoped(self) -> (r: bool)
        ensures
            r == self.spec_has(SCOPED),
    {
        self.has(SCOPED)
    }

    pub fn is_linear(self) -> (r: bool)
        ensures
            r == self.spec_has(LINEAR),
    {
        self.has(LINEAR)
    }

    pub fn is_secret_unspecified(self) -> (r: bool)
        ensures
            r == self.spec_has(SECRET_UNSPECIFIED),
    {
        self.has(SECRET_UNSPECIFIED)
    }

    /// The result of an operation with a secret operand is secret: the union
    /// of every operand's flags gives that, since `SECRET` propagates through OR.
    pub fn union(self, other: ValFlags) -> (r: ValFlags)
        ensures
            r.0 == self.0 | other.0,
    {
        ValFlags(self.0 | other.0)
    }
}

/// A freshly constructed flag set is never "secret unspecified", and its
/// secret bit is exactly the argument.
pub proof fn lemma_new_flags(secret: bool)
    ensures
        ValFlags(if secret { SECRET } else { 0u16 }).spec_has(SECRET) == secret,
        !ValFlags(if secret { SECRET } else { 0u16 }).spec_has(SECRET_UNSPECIFIED),
{
    assert(1u16 & 1u16 != 0) by (bit_vector);
    assert(0u16 & 1u16 == 0) by (bit_vector);
    assert(1u16 & 0x8000u16 == 0) by (bit_vector);
    assert(0u16 & 0x8000u16 == 0) by (bit_vector);
}

/// A bit is in a union exactly when it is in one of the two sides: in
/// particular, a union with a secret operand is secret.
pub proof fn lemma_union_has(a: ValFlags, b: ValFlags, bit: u16)
    ensures
        ValFlags(a.0 | b.0).spec_has(bit) == (a.spec_has(bit) || b.spec_has(bit)),
{
    let x = a.0;
    let y = b.0;
    assert(((x | y) & bit != 0) == ((x & bit != 0) || (y & bit != 0))) by (bit_vector);
}

/// `with` sets the bit and `without` clears it, whatever the bit is.
pub proof fn lemma_with_without(f: ValFlags, bit: u16)
    ensures
        bit != 0 ==> ValFlags(f.0 | bit).spec_has(bit),
        !ValFlags(f.0 & !bit).spec_has(bit),
{
    let x = f.0;
    assert(bit != 0 ==> ((x | bit) & bit != 0)) by (bit_vector);
    assert((x & !bit) & bit == 0) by (bit_vector);
}

/// `ct` sentinel meaning "the textual form omitted `ct=`"; `0..=65534` stays
/// free for real regions.
pub const CT_UNSPECIFIED: u16 = 0xFFFFu16;

} // verus!
