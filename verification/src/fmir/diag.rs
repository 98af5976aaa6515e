//! The verifier's output: source-located diagnostics.

use vstd::prelude::*;

use crate::fmir::ids::{BlockId, InstId, ValId};

verus! {

/// What a diagnostic is anchored to.
#[derive(Clone, Copy, PartialEq, Eq, Structural, Debug)]
pub enum Anchor {
    Inst(InstId),
    Block(BlockId),
    Val(ValId),
    Decl,
}

/// One rejection reason.
#[derive(Clone, Copy, PartialEq, Eq, Structural, Debug)]
pub enum DiagCode {
    MissingSecretField,
    MissingCtRegion,
    DetachWithoutCaptures,
    TileOpPresent,
    TwoTerminators,
    MemoryOpMissingAliasSeed,
    /// A secret operand with a result that is not marked secret.
    SecretPropagationViolated,
    /// A branch, switch, index or slice bound derived from secret.
    SecretBranchOrIndex,
    /// A trapping arithmetic op or `conv_checked` on a secret operand.
    SecretTrappingOp,
    /// A secret operand of a contract check.
    SecretInContractCheck,
    /// A `raise` reached only through a secret-conditioned branch.
    SecretRaiseCondition,
    /// A secret argument to a host-effecting intrinsic.
    SecretIntrinsicArg,
    /// `declassify` outside an `@unsafe(invariant: ...)` declaration.
    DeclassifyRequiresUnsafe,
    /// A structurally malformed pool no named check covers.
    Malformed,
}

#[derive(Clone, Debug, PartialEq, Eq)]
pub struct Diagnostic {
    pub code: DiagCode,
    pub at: Anchor,
    pub message: String,
}

impl Diagnostic {
    pub fn new(code: DiagCode, at: Anchor, message: &str) -> (r: Diagnostic)
        ensures
            r.code == code,
            r.at == at,
            r.message@ == message@,
    {
        Diagnostic { code, at, message: message.to_string() }
    }
}

} // verus!
