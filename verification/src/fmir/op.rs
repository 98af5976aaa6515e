//! The IR opcode set: 71 opcodes, counting the trapping-arithmetic mode, the
//! float relaxation mask, the comparison predicate and the contract policy as
//! fields embedded in their opcode rather than as further opcodes, plus one
//! `tile.*` sentinel that is not among the 71.
//!
//! Operand convention (`a`, `b`, `c` are raw `u32` slots of an instruction row):
//!
//! | Group | `a` | `b` | `c` |
//! |---|---|---|---|
//! | binary value op, conversions | lhs value | rhs value (`ABSENT` if unary) | unused |
//! | `agg_new` / `tuple_new` | start into `operands` | end | unused |
//! | `variant_new` | start into `operands` | end | variant index |
//! | `field` / `discr` / `payload` | base value | field or variant index | unused |
//! | `move_from` .. `borrow_out` | place | unused | unused |
//! | `init` | place | value | unused |
//! | `index` | base value | index value | unused |
//! | `slice_range` | base value | start value | end value |
//! | `alloc` | size value | align value | unused |
//! | `free` / `arena_deref` / `arena_reset` | value | unused | unused |
//! | `arena_alloc` | arena value | size value | unused |
//! | calls and `intrinsic` | index into the call table | unused | unused |
//! | `check_pre`/`check_post`/`check_inv` | condition value | unused | unused |
//! | `reduce_tree` | index into the reduce table | unused | unused |
//! | `erase_to_dyn` / `declassify` | source value | unused | unused |
//! | `region_enter`/`region_exit`/`spawn`/`sync` | region | unused | unused |
//! | `br` | target block | unused | unused |
//! | `cond_br` | condition value | then block | else block |
//! | `switch_discr` | index into the switch table | unused | unused |
//! | `try_br` | call instruction | ok block | err block |
//! | `ret` / `raise` | value (`ABSENT` = none) | unused | unused |
//! | `trap` | trap kind | unused | unused |

use vstd::prelude::*;

use vstd::string::StringSliceAdditionalSpecFns;

use crate::fmir::ids::ABSENT;

verus! {

/// The explicit mode of a trapping-arithmetic opcode: `Trap` is the default
/// surface spelling; `Wrap`/`Sat`/`Unchecked` are the explicit forms.
#[derive(Clone, Copy, PartialEq, Eq, Structural, Debug)]
pub enum ArithMode {
    Trap,
    Wrap,
    Sat,
    Unchecked,
}

impl ArithMode {
    pub open spec fn code(self) -> u32 {
        match self {
            ArithMode::Trap => 0,
            ArithMode::Wrap => 1,
            ArithMode::Sat => 2,
            ArithMode::Unchecked => 3,
        }
    }

    pub fn as_u32(self) -> (r: u32)
        ensures
            r == self.code(),
    {
        match self {
            ArithMode::Trap => 0,
            ArithMode::Wrap => 1,
            ArithMode::Sat => 2,
            ArithMode::Unchecked => 3,
        }
    }

    pub open spec fn spec_from_u32(v: u32) -> Option<ArithMode> {
        match v {
            0 => Some(ArithMode::Trap),
            1 => Some(ArithMode::Wrap),
            2 => Some(ArithMode::Sat),
            3 => Some(ArithMode::Unchecked),
            _ => None,
        }
    }

    pub fn from_u32(v: u32) -> (r: Option<ArithMode>)
        ensures
            r == ArithMode::spec_from_u32(v),
            r is Some <==> v < 4,
            r matches Some(m) ==> m.code() == v,
    {
        match v {
            0 => Some(ArithMode::Trap),
            1 => Some(ArithMode::Wrap),
            2 => Some(ArithMode::Sat),
            3 => Some(ArithMode::Unchecked),
            _ => None,
        }
    }
}

/// The fast-math relaxation mask a float opcode carries.
#[derive(Clone, Copy, PartialEq, Eq, Structural, Debug, Default)]
pub struct Relax(pub u8);

impl Relax {
    pub const REASSOC: u8 = 1;
    pub const CONTRACT: u8 = 2;
    pub const NSZ: u8 = 4;
    pub const FINITE: u8 = 8;
    pub const RECIP: u8 = 16;

    /// The empty mask.
    pub fn none() -> (r: Relax)
        ensures
            r == Relax(0),
    {
        Relax(0)
    }
}

/// A relaxation mask as an encoding word.
pub open spec fn relax_code(r: Relax) -> u32 {
    r.0 as u32
}

/// The low byte of a word.
pub open spec fn low_byte(w: u32) -> u32 {
    (w as u8) as u32
}

/// The low byte of a word, as a byte.
pub open spec fn low_byte_u8(w: u32) -> u8 {
    w as u8
}

fn relax_word(r: Relax) -> (w: u32)
    ensures
        w == relax_code(r),
{
    r.0 as u32
}

fn relax_from_word(w: u32) -> (r: Relax)
    ensures
        relax_code(r) == low_byte(w),
        r.0 == low_byte_u8(w),
{
    Relax(w as u8)
}

proof fn lemma_relax_code_round_trip(r: Relax)
    ensures
        low_byte(relax_code(r)) == relax_code(r),
        forall|q: Relax| relax_code(q) == relax_code(r) ==> q == r,
{
}

/// A contract check's policy.
#[derive(Clone, Copy, PartialEq, Eq, Structural, Debug)]
pub enum Policy {
    Runtime,
    Off,
}

impl Policy {
    pub open spec fn code(self) -> u32 {
        match self {
            Policy::Runtime => 0,
            Policy::Off => 1,
        }
    }

    pub fn as_u32(self) -> (r: u32)
        ensures
            r == self.code(),
    {
        match self {
            Policy::Runtime => 0,
            Policy::Off => 1,
        }
    }

    pub open spec fn spec_from_u32(v: u32) -> Option<Policy> {
        match v {
            0 => Some(Policy::Runtime),
            1 => Some(Policy::Off),
            _ => None,
        }
    }

    pub fn from_u32(v: u32) -> (r: Option<Policy>)
        ensures
            r == Policy::spec_from_u32(v),
            r is Some <==> v < 2,
            r matches Some(m) ==> m.code() == v,
    {
        match v {
            0 => Some(Policy::Runtime),
            1 => Some(Policy::Off),
            _ => None,
        }
    }
}

/// `icmp`/`fcmp`'s predicate, embedded in the opcode.
#[derive(Clone, Copy, PartialEq, Eq, Structural, Debug)]
pub enum CmpPred {
    Eq,
    Ne,
    Lt,
    Le,
    Gt,
    Ge,
}

impl CmpPred {
    pub open spec fn code(self) -> u32 {
        match self {
            CmpPred::Eq => 0,
            CmpPred::Ne => 1,
            CmpPred::Lt => 2,
            CmpPred::Le => 3,
            CmpPred::Gt => 4,
            CmpPred::Ge => 5,
        }
    }

    pub fn as_u32(self) -> (r: u32)
        ensures
            r == self.code(),
    {
        match self {
            CmpPred::Eq => 0,
            CmpPred::Ne => 1,
            CmpPred::Lt => 2,
            CmpPred::Le => 3,
            CmpPred::Gt => 4,
            CmpPred::Ge => 5,
        }
    }

    pub open spec fn spec_from_u32(v: u32) -> Option<CmpPred> {
        match v {
            0 => Some(CmpPred::Eq),
            1 => Some(CmpPred::Ne),
            2 => Some(CmpPred::Lt),
            3 => Some(CmpPred::Le),
            4 => Some(CmpPred::Gt),
            5 => Some(CmpPred::Ge),
            _ => None,
        }
    }

    pub fn from_u32(v: u32) -> (r: Option<CmpPred>)
        ensures
            r == CmpPred::spec_from_u32(v),
            r is Some <==> v < 6,
            r matches Some(m) ==> m.code() == v,
    {
        match v {
            0 => Some(CmpPred::Eq),
            1 => Some(CmpPred::Ne),
            2 => Some(CmpPred::Lt),
            3 => Some(CmpPred::Le),
            4 => Some(CmpPred::Gt),
            5 => Some(CmpPred::Ge),
            _ => None,
        }
    }
}

/// The closed set of eight trap kinds.
#[derive(Clone, Copy, PartialEq, Eq, Structural, Debug)]
pub enum TrapKind {
    Bounds,
    Overflow,
    DivZero,
    Shift,
    CheckedConversion,
    ArenaGeneration,
    Contract,
    EmptyReduce,
}

/// A trap kind's stable name.
pub open spec fn trap_name(k: TrapKind) -> Seq<char> {
    match k {
        TrapKind::Bounds => "bounds"@,
        TrapKind::Overflow => "overflow"@,
        TrapKind::DivZero => "div-zero"@,
        TrapKind::Shift => "shift"@,
        TrapKind::CheckedConversion => "checked-conversion"@,
        TrapKind::ArenaGeneration => "arena-generation"@,
        TrapKind::Contract => "contract"@,
        TrapKind::EmptyReduce => "empty-reduce"@,
    }
}

/// Byte-wise equality of two slices.
pub fn bytes_eq(a: &[u8], b: &[u8]) -> (r: bool)
    ensures
        r == (a@ == b@),
{
    if a.len() != b.len() {
        return false;
    }
    let mut i: usize = 0;
    while i < a.len()
        invariant
            a@.len() == b@.len(),
            i <= a@.len(),
            forall|j: int| 0 <= j < i ==> a@[j] == b@[j],
        decreases a@.len() - i,
    {
        if a[i] != b[i] {
            return false;
        }
        i += 1;
    }
    assert(a@ =~= b@);
    true
}

impl TrapKind {
    pub open spec fn code(self) -> u32 {
        match self {
            TrapKind::Bounds => 0,
            TrapKind::Overflow => 1,
            TrapKind::DivZero => 2,
            TrapKind::Shift => 3,
            TrapKind::CheckedConversion => 4,
            TrapKind::ArenaGeneration => 5,
            TrapKind::Contract => 6,
            TrapKind::EmptyReduce => 7,
        }
    }

    pub fn as_str(self) -> (r: &'static str)
        ensures
            r@ == trap_name(self),
    {
        match self {
            TrapKind::Bounds => "bounds",
            TrapKind::Overflow => "overflow",
            TrapKind::DivZero => "div-zero",
            TrapKind::Shift => "shift",
            TrapKind::CheckedConversion => "checked-conversion",
            TrapKind::ArenaGeneration => "arena-generation",
            TrapKind::Contract => "contract",
            TrapKind::EmptyReduce => "empty-reduce",
        }
    }

    pub fn from_u32(v: u32) -> (r: Option<TrapKind>)
        ensures
            r is Some <==> v < 8,
            r matches Some(k) ==> k.code() == v,
    {
        match v {
            0 => Some(TrapKind::Bounds),
            1 => Some(TrapKind::Overflow),
            2 => Some(TrapKind::DivZero),
            3 => Some(TrapKind::Shift),
            4 => Some(TrapKind::CheckedConversion),
            5 => Some(TrapKind::ArenaGeneration),
            6 => Some(TrapKind::Contract),
            7 => Some(TrapKind::EmptyReduce),
            _ => None,
        }
    }

    /// The kind whose name is `s`, if any.
    pub fn parse_name(s: &str) -> (r: Option<TrapKind>)
        ensures
            r matches Some(k) ==> s@ == trap_name(k),
            r is None ==> forall|k: TrapKind| s@ != trap_name(k),
    {
        let sb = s.as_bytes();
        let mut i: u32 = 0;
        while i < 8
            invariant
                i <= 8,
                sb@ == s.spec_bytes(),
                forall|k: TrapKind| k.code() < i ==> s@ != trap_name(k),
            decreases 8 - i,
        {
            let k = match TrapKind::from_u32(i) {
                Some(k) => k,
                None => {
                    return None;
                }
            };
            let name = k.as_str();
            if bytes_eq(sb, name.as_bytes()) {
                proof {
                    vstd::utf8::encode_utf8_decode_utf8(s@);
                    vstd::utf8::encode_utf8_decode_utf8(name@);
                }
                return Some(k);
            }
            i += 1;
        }
        None
    }
}

/// Every kind's name parses back to that kind, and the names are pairwise distinct.
pub proof fn lemma_trap_names_distinct(a: TrapKind, b: TrapKind)
    ensures
        a != b ==> trap_name(a) != trap_name(b),
{
    reveal_strlit("bounds");
    reveal_strlit("overflow");
    reveal_strlit("div-zero");
    reveal_strlit("shift");
    reveal_strlit("checked-conversion");
    reveal_strlit("arena-generation");
    reveal_strlit("contract");
    reveal_strlit("empty-reduce");
    if a != b {
        assert(trap_name(a).len() != trap_name(b).len() || trap_name(a)[0] != trap_name(b)[0]
            || trap_name(a)[1] != trap_name(b)[1]);
    }
}

/// The opcode set, grouped and ordered as listed: 71 opcodes and the
/// [`Op::TileOp`] sentinel.
#[derive(Clone, Copy, PartialEq, Eq, Structural, Debug)]
pub enum Op {
    // -- Constants (6)
    ConstInt,
    ConstFloat,
    ConstBool,
    ConstUnit,
    ConstStr,
    ConstFn,
    // -- Arithmetic, trapping by default (8)
    Add(ArithMode),
    Sub(ArithMode),
    Mul(ArithMode),
    Div(ArithMode),
    Rem(ArithMode),
    Shl(ArithMode),
    Shr(ArithMode),
    Neg(ArithMode),
    // -- Float (6)
    Fadd(Relax),
    Fsub(Relax),
    Fmul(Relax),
    Fdiv(Relax),
    Frem(Relax),
    Fneg(Relax),
    // -- Compare / logic (6)
    Icmp(CmpPred),
    Fcmp(CmpPred),
    And,
    Or,
    Xor,
    Not,
    // -- Conversion (4)
    ConvChecked,
    ConvWrap,
    ConvSat,
    ConvTrunc,
    // -- Aggregate (6)
    AggNew,
    Field,
    VariantNew,
    Discr,
    Payload,
    TupleNew,
    // -- Place / memory (8)
    MoveFrom,
    CopyFrom,
    Init,
    Borrow,
    BorrowMut,
    BorrowOut,
    Index,
    SliceRange,
    // -- Heap / arena (5)
    Alloc,
    Free,
    ArenaAlloc,
    ArenaDeref,
    ArenaReset,
    // -- Calls (4)
    CallDirect,
    CallWitness,
    CallClosure,
    Intrinsic,
    // -- Contracts (3)
    CheckPre(Policy),
    CheckPost(Policy),
    CheckInv(Policy),
    // -- Reduce (1)
    ReduceTree,
    // -- Erasure / secret (2)
    EraseToDyn,
    Declassify,
    // -- Regions (4)
    RegionEnter,
    RegionExit,
    Spawn,
    Sync,
    // -- Terminators (8)
    Br,
    CondBr,
    SwitchDiscr,
    TryBr,
    Ret,
    Raise,
    Trap,
    Unreachable,
    // -- not one of the 71
    /// A `tile.*` mnemonic: no tile opcode is defined yet, so this one sentinel
    /// stands for all of them and the verifier rejects it wherever it appears.
    TileOp,
}

impl Op {
    /// The eight terminator-class opcodes: a block's `term` holds one, a block's regular range never does.
    pub open spec fn spec_is_terminator(self) -> bool {
        match self {
            Op::Br | Op::CondBr | Op::SwitchDiscr | Op::TryBr | Op::Ret | Op::Raise | Op::Trap | Op::Unreachable => true,
            _ => false,
        }
    }

    pub fn is_terminator(self) -> (r: bool)
        ensures
            r == self.spec_is_terminator(),
    {
        match self {
            Op::Br | Op::CondBr | Op::SwitchDiscr | Op::TryBr | Op::Ret | Op::Raise | Op::Trap | Op::Unreachable => true,
            _ => false,
        }
    }

    /// The eight instructions that produce a fresh, potentially-aliasing pointer or place-like value.
    pub open spec fn spec_is_memory_producing(self) -> bool {
        match self {
            Op::Alloc | Op::ArenaAlloc | Op::ArenaDeref | Op::Borrow | Op::BorrowMut | Op::BorrowOut | Op::Index | Op::SliceRange => true,
            _ => false,
        }
    }

    pub fn is_memory_producing(self) -> (r: bool)
        ensures
            r == self.spec_is_memory_producing(),
    {
        match self {
            Op::Alloc | Op::ArenaAlloc | Op::ArenaDeref | Op::Borrow | Op::BorrowMut | Op::BorrowOut | Op::Index | Op::SliceRange => true,
            _ => false,
        }
    }

    /// The eight trapping-by-default arithmetic opcodes (the ones a mode rides on).
    pub open spec fn spec_is_trapping_arith(self) -> bool {
        match self {
            Op::Add(_) | Op::Sub(_) | Op::Mul(_) | Op::Div(_) | Op::Rem(_) | Op::Shl(_) | Op::Shr(_) | Op::Neg(_) => true,
            _ => false,
        }
    }

    pub fn is_trapping_arith(self) -> (r: bool)
        ensures
            r == self.spec_is_trapping_arith(),
    {
        match self {
            Op::Add(_) | Op::Sub(_) | Op::Mul(_) | Op::Div(_) | Op::Rem(_) | Op::Shl(_) | Op::Shr(_) | Op::Neg(_) => true,
            _ => false,
        }
    }

    pub open spec fn spec_arith_mode(self) -> Option<ArithMode> {
        match self {
            Op::Add(m) | Op::Sub(m) | Op::Mul(m) | Op::Div(m) | Op::Rem(m) | Op::Shl(m) | Op::Shr(m) | Op::Neg(m) => Some(m),
            _ => None,
        }
    }

    pub fn arith_mode(self) -> (r: Option<ArithMode>)
        ensures
            r == self.spec_arith_mode(),
    {
        match self {
            Op::Add(m) | Op::Sub(m) | Op::Mul(m) | Op::Div(m) | Op::Rem(m) | Op::Shl(m) | Op::Shr(m) | Op::Neg(m) => Some(m),
            _ => None,
        }
    }

    /// Only the `Trap` mode is rejected on a secret operand; `conv_checked` is
    /// treated the same way.
    pub open spec fn spec_is_secret_rejected_trapping_op(self) -> bool {
        self.spec_arith_mode() == Some(ArithMode::Trap) || self == Op::ConvChecked
    }

    pub fn is_secret_rejected_trapping_op(self) -> (r: bool)
        ensures
            r == self.spec_is_secret_rejected_trapping_op(),
    {
        match self.arith_mode() {
            Some(ArithMode::Trap) => true,
            _ => match self {
                Op::ConvChecked => true,
                _ => false,
            },
        }
    }

    /// Does this instruction bounds-check, hiding a branch on its index operand?
    pub open spec fn spec_is_bounds_or_index(self) -> bool {
        match self {
            Op::Index | Op::SliceRange => true,
            _ => false,
        }
    }

    pub fn is_bounds_or_index(self) -> (r: bool)
        ensures
            r == self.spec_is_bounds_or_index(),
    {
        match self {
            Op::Index | Op::SliceRange => true,
            _ => false,
        }
    }

    /// A host-effecting door: every `intrinsic` is treated as host-effecting.
    pub open spec fn spec_is_host_intrinsic(self) -> bool {
        match self {
            Op::Intrinsic => true,
            _ => false,
        }
    }

    pub fn is_host_intrinsic(self) -> (r: bool)
        ensures
            r == self.spec_is_host_intrinsic(),
    {
        match self {
            Op::Intrinsic => true,
            _ => false,
        }
    }

    /// The four call opcodes.
    pub open spec fn spec_is_call(self) -> bool {
        match self {
            Op::CallDirect | Op::CallWitness | Op::CallClosure | Op::Intrinsic => true,
            _ => false,
        }
    }

    pub fn is_call(self) -> (r: bool)
        ensures
            r == self.spec_is_call(),
    {
        match self {
            Op::CallDirect | Op::CallWitness | Op::CallClosure | Op::Intrinsic => true,
            _ => false,
        }
    }

    /// The three contract checks.
    pub open spec fn spec_is_contract_check(self) -> bool {
        match self {
            Op::CheckPre(_) | Op::CheckPost(_) | Op::CheckInv(_) => true,
            _ => false,
        }
    }

    pub fn is_contract_check(self) -> (r: bool)
        ensures
            r == self.spec_is_contract_check(),
    {
        match self {
            Op::CheckPre(_) | Op::CheckPost(_) | Op::CheckInv(_) => true,
            _ => false,
        }
    }

    /// The opcode's stable number in the canonical encoding (0 to 71).
    pub open spec fn spec_discriminant(self) -> u32 {
        match self {
            Op::ConstInt => 0,
            Op::ConstFloat => 1,
            Op::ConstBool => 2,
            Op::ConstUnit => 3,
            Op::ConstStr => 4,
            Op::ConstFn => 5,
            Op::Add(_) => 6,
            Op::Sub(_) => 7,
            Op::Mul(_) => 8,
            Op::Div(_) => 9,
            Op::Rem(_) => 10,
            Op::Shl(_) => 11,
            Op::Shr(_) => 12,
            Op::Neg(_) => 13,
            Op::Fadd(_) => 14,
            Op::Fsub(_) => 15,
            Op::Fmul(_) => 16,
            Op::Fdiv(_) => 17,
            Op::Frem(_) => 18,
            Op::Fneg(_) => 19,
            Op::Icmp(_) => 20,
            Op::Fcmp(_) => 21,
            Op::And => 22,
            Op::Or => 23,
            Op::Xor => 24,
            Op::Not => 25,
            Op::ConvChecked => 26,
            Op::ConvWrap => 27,
            Op::ConvSat => 28,
            Op::ConvTrunc => 29,
            Op::AggNew => 30,
            Op::Field => 31,
            Op::VariantNew => 32,
            Op::Discr => 33,
            Op::Payload => 34,
            Op::TupleNew => 35,
            Op::MoveFrom => 36,
            Op::CopyFrom => 37,
            Op::Init => 38,
            Op::Borrow => 39,
            Op::BorrowMut => 40,
            Op::BorrowOut => 41,
            Op::Index => 42,
            Op::SliceRange => 43,
            Op::Alloc => 44,
            Op::Free => 45,
            Op::ArenaAlloc => 46,
            Op::ArenaDeref => 47,
            Op::ArenaReset => 48,
            Op::CallDirect => 49,
            Op::CallWitness => 50,
            Op::CallClosure => 51,
            Op::Intrinsic => 52,
            Op::CheckPre(_) => 53,
            Op::CheckPost(_) => 54,
            Op::CheckInv(_) => 55,
            Op::ReduceTree => 56,
            Op::EraseToDyn => 57,
            Op::Declassify => 58,
            Op::RegionEnter => 59,
            Op::RegionExit => 60,
            Op::Spawn => 61,
            Op::Sync => 62,
            Op::Br => 63,
            Op::CondBr => 64,
            Op::SwitchDiscr => 65,
            Op::TryBr => 66,
            Op::Ret => 67,
            Op::Raise => 68,
            Op::Trap => 69,
            Op::Unreachable => 70,
            Op::TileOp => 71,
        }
    }

    /// The opcode's embedded field as a number; 0 for an opcode without one.
    pub open spec fn spec_payload(self) -> u32 {
        match self {
            Op::Add(m) => m.code(),
            Op::Sub(m) => m.code(),
            Op::Mul(m) => m.code(),
            Op::Div(m) => m.code(),
            Op::Rem(m) => m.code(),
            Op::Shl(m) => m.code(),
            Op::Shr(m) => m.code(),
            Op::Neg(m) => m.code(),
            Op::Fadd(m) => relax_code(m),
            Op::Fsub(m) => relax_code(m),
            Op::Fmul(m) => relax_code(m),
            Op::Fdiv(m) => relax_code(m),
            Op::Frem(m) => relax_code(m),
            Op::Fneg(m) => relax_code(m),
            Op::Icmp(m) => m.code(),
            Op::Fcmp(m) => m.code(),
            Op::CheckPre(m) => m.code(),
            Op::CheckPost(m) => m.code(),
            Op::CheckInv(m) => m.code(),
            _ => 0,
        }
    }

    pub fn discriminant(self) -> (r: u32)
        ensures
            r == self.spec_discriminant(),
    {
        match self {
            Op::ConstInt => 0,
            Op::ConstFloat => 1,
            Op::ConstBool => 2,
            Op::ConstUnit => 3,
            Op::ConstStr => 4,
            Op::ConstFn => 5,
            Op::Add(_) => 6,
            Op::Sub(_) => 7,
            Op::Mul(_) => 8,
            Op::Div(_) => 9,
            Op::Rem(_) => 10,
            Op::Shl(_) => 11,
            Op::Shr(_) => 12,
            Op::Neg(_) => 13,
            Op::Fadd(_) => 14,
            Op::Fsub(_) => 15,
            Op::Fmul(_) => 16,
            Op::Fdiv(_) => 17,
            Op::Frem(_) => 18,
            Op::Fneg(_) => 19,
            Op::Icmp(_) => 20,
            Op::Fcmp(_) => 21,
            Op::And => 22,
            Op::Or => 23,
            Op::Xor => 24,
            Op::Not => 25,
            Op::ConvChecked => 26,
            Op::ConvWrap => 27,
            Op::ConvSat => 28,
            Op::ConvTrunc => 29,
            Op::AggNew => 30,
            Op::Field => 31,
            Op::VariantNew => 32,
            Op::Discr => 33,
            Op::Payload => 34,
            Op::TupleNew => 35,
            Op::MoveFrom => 36,
            Op::CopyFrom => 37,
            Op::Init => 38,
            Op::Borrow => 39,
            Op::BorrowMut => 40,
            Op::BorrowOut => 41,
            Op::Index => 42,
            Op::SliceRange => 43,
            Op::Alloc => 44,
            Op::Free => 45,
            Op::ArenaAlloc => 46,
            Op::ArenaDeref => 47,
            Op::ArenaReset => 48,
            Op::CallDirect => 49,
            Op::CallWitness => 50,
            Op::CallClosure => 51,
            Op::Intrinsic => 52,
            Op::CheckPre(_) => 53,
            Op::CheckPost(_) => 54,
            Op::CheckInv(_) => 55,
            Op::ReduceTree => 56,
            Op::EraseToDyn => 57,
            Op::Declassify => 58,
            Op::RegionEnter => 59,
            Op::RegionExit => 60,
            Op::Spawn => 61,
            Op::Sync => 62,
            Op::Br => 63,
            Op::CondBr => 64,
            Op::SwitchDiscr => 65,
            Op::TryBr => 66,
            Op::Ret => 67,
            Op::Raise => 68,
            Op::Trap => 69,
            Op::Unreachable => 70,
            Op::TileOp => 71,
        }
    }

    pub fn payload(self) -> (r: u32)
        ensures
            r == self.spec_payload(),
    {
        match self {
            Op::Add(m) => m.as_u32(),
            Op::Sub(m) => m.as_u32(),
            Op::Mul(m) => m.as_u32(),
            Op::Div(m) => m.as_u32(),
            Op::Rem(m) => m.as_u32(),
            Op::Shl(m) => m.as_u32(),
            Op::Shr(m) => m.as_u32(),
            Op::Neg(m) => m.as_u32(),
            Op::Fadd(m) => relax_word(m),
            Op::Fsub(m) => relax_word(m),
            Op::Fmul(m) => relax_word(m),
            Op::Fdiv(m) => relax_word(m),
            Op::Frem(m) => relax_word(m),
            Op::Fneg(m) => relax_word(m),
            Op::Icmp(m) => m.as_u32(),
            Op::Fcmp(m) => m.as_u32(),
            Op::CheckPre(m) => m.as_u32(),
            Op::CheckPost(m) => m.as_u32(),
            Op::CheckInv(m) => m.as_u32(),
            _ => 0,
        }
    }

    /// The opcode a `(discriminant, payload)` pair decodes to, if any.
    pub open spec fn spec_from_parts(discriminant: u32, payload: u32) -> Option<Op> {
        match discriminant {
            0 => Some(Op::ConstInt),
            1 => Some(Op::ConstFloat),
            2 => Some(Op::ConstBool),
            3 => Some(Op::ConstUnit),
            4 => Some(Op::ConstStr),
            5 => Some(Op::ConstFn),
            6 => match ArithMode::spec_from_u32(payload) {
                Some(m) => Some(Op::Add(m)),
                None => None,
            },
            7 => match ArithMode::spec_from_u32(payload) {
                Some(m) => Some(Op::Sub(m)),
                None => None,
            },
            8 => match ArithMode::spec_from_u32(payload) {
                Some(m) => Some(Op::Mul(m)),
                None => None,
            },
            9 => match ArithMode::spec_from_u32(payload) {
                Some(m) => Some(Op::Div(m)),
                None => None,
            },
            10 => match ArithMode::spec_from_u32(payload) {
                Some(m) => Some(Op::Rem(m)),
                None => None,
            },
            11 => match ArithMode::spec_from_u32(payload) {
                Some(m) => Some(Op::Shl(m)),
                None => None,
            },
            12 => match ArithMode::spec_from_u32(payload) {
                Some(m) => Some(Op::Shr(m)),
                None => None,
            },
            13 => match ArithMode::spec_from_u32(payload) {
                Some(m) => Some(Op::Neg(m)),
                None => None,
            },
            14 => Some(Op::Fadd(Relax(low_byte_u8(payload)))),
            15 => Some(Op::Fsub(Relax(low_byte_u8(payload)))),
            16 => Some(Op::Fmul(Relax(low_byte_u8(payload)))),
            17 => Some(Op::Fdiv(Relax(low_byte_u8(payload)))),
            18 => Some(Op::Frem(Relax(low_byte_u8(payload)))),
            19 => Some(Op::Fneg(Relax(low_byte_u8(payload)))),
            20 => match CmpPred::spec_from_u32(payload) {
                Some(m) => Some(Op::Icmp(m)),
                None => None,
            },
            21 => match CmpPred::spec_from_u32(payload) {
                Some(m) => Some(Op::Fcmp(m)),
                None => None,
            },
            22 => Some(Op::And),
            23 => Some(Op::Or),
            24 => Some(Op::Xor),
            25 => Some(Op::Not),
            26 => Some(Op::ConvChecked),
            27 => Some(Op::ConvWrap),
            28 => Some(Op::ConvSat),
            29 => Some(Op::ConvTrunc),
            30 => Some(Op::AggNew),
            31 => Some(Op::Field),
            32 => Some(Op::VariantNew),
            33 => Some(Op::Discr),
            34 => Some(Op::Payload),
            35 => Some(Op::TupleNew),
            36 => Some(Op::MoveFrom),
            37 => Some(Op::CopyFrom),
            38 => Some(Op::Init),
            39 => Some(Op::Borrow),
            40 => Some(Op::BorrowMut),
            41 => Some(Op::BorrowOut),
            42 => Some(Op::Index),
            43 => Some(Op::SliceRange),
            44 => Some(Op::Alloc),
            45 => Some(Op::Free),
            46 => Some(Op::ArenaAlloc),
            47 => Some(Op::ArenaDeref),
            48 => Some(Op::ArenaReset),
            49 => Some(Op::CallDirect),
            50 => Some(Op::CallWitness),
            51 => Some(Op::CallClosure),
            52 => Some(Op::Intrinsic),
            53 => match Policy::spec_from_u32(payload) {
                Some(m) => Some(Op::CheckPre(m)),
                None => None,
            },
            54 => match Policy::spec_from_u32(payload) {
                Some(m) => Some(Op::CheckPost(m)),
                None => None,
            },
            55 => match Policy::spec_from_u32(payload) {
                Some(m) => Some(Op::CheckInv(m)),
                None => None,
            },
            56 => Some(Op::ReduceTree),
            57 => Some(Op::EraseToDyn),
            58 => Some(Op::Declassify),
            59 => Some(Op::RegionEnter),
            60 => Some(Op::RegionExit),
            61 => Some(Op::Spawn),
            62 => Some(Op::Sync),
            63 => Some(Op::Br),
            64 => Some(Op::CondBr),
            65 => Some(Op::SwitchDiscr),
            66 => Some(Op::TryBr),
            67 => Some(Op::Ret),
            68 => Some(Op::Raise),
            69 => Some(Op::Trap),
            70 => Some(Op::Unreachable),
            71 => Some(Op::TileOp),
            _ => None,
        }
    }

    pub fn from_parts(discriminant: u32, payload: u32) -> (r: Option<Op>)
        ensures
            r == Op::spec_from_parts(discriminant, payload),
    {
        match discriminant {
            0 => Some(Op::ConstInt),
            1 => Some(Op::ConstFloat),
            2 => Some(Op::ConstBool),
            3 => Some(Op::ConstUnit),
            4 => Some(Op::ConstStr),
            5 => Some(Op::ConstFn),
            6 => match ArithMode::from_u32(payload) {
                Some(m) => Some(Op::Add(m)),
                None => None,
            },
            7 => match ArithMode::from_u32(payload) {
                Some(m) => Some(Op::Sub(m)),
                None => None,
            },
            8 => match ArithMode::from_u32(payload) {
                Some(m) => Some(Op::Mul(m)),
                None => None,
            },
            9 => match ArithMode::from_u32(payload) {
                Some(m) => Some(Op::Div(m)),
                None => None,
            },
            10 => match ArithMode::from_u32(payload) {
                Some(m) => Some(Op::Rem(m)),
                None => None,
            },
            11 => match ArithMode::from_u32(payload) {
                Some(m) => Some(Op::Shl(m)),
                None => None,
            },
            12 => match ArithMode::from_u32(payload) {
                Some(m) => Some(Op::Shr(m)),
                None => None,
            },
            13 => match ArithMode::from_u32(payload) {
                Some(m) => Some(Op::Neg(m)),
                None => None,
            },
            14 => Some(Op::Fadd(relax_from_word(payload))),
            15 => Some(Op::Fsub(relax_from_word(payload))),
            16 => Some(Op::Fmul(relax_from_word(payload))),
            17 => Some(Op::Fdiv(relax_from_word(payload))),
            18 => Some(Op::Frem(relax_from_word(payload))),
            19 => Some(Op::Fneg(relax_from_word(payload))),
            20 => match CmpPred::from_u32(payload) {
                Some(m) => Some(Op::Icmp(m)),
                None => None,
            },
            21 => match CmpPred::from_u32(payload) {
                Some(m) => Some(Op::Fcmp(m)),
                None => None,
            },
            22 => Some(Op::And),
            23 => Some(Op::Or),
            24 => Some(Op::Xor),
            25 => Some(Op::Not),
            26 => Some(Op::ConvChecked),
            27 => Some(Op::ConvWrap),
            28 => Some(Op::ConvSat),
            29 => Some(Op::ConvTrunc),
            30 => Some(Op::AggNew),
            31 => Some(Op::Field),
            32 => Some(Op::VariantNew),
            33 => Some(Op::Discr),
            34 => Some(Op::Payload),
            35 => Some(Op::TupleNew),
            36 => Some(Op::MoveFrom),
            37 => Some(Op::CopyFrom),
            38 => Some(Op::Init),
            39 => Some(Op::Borrow),
            40 => Some(Op::BorrowMut),
            41 => Some(Op::BorrowOut),
            42 => Some(Op::Index),
            43 => Some(Op::SliceRange),
            44 => Some(Op::Alloc),
            45 => Some(Op::Free),
            46 => Some(Op::ArenaAlloc),
            47 => Some(Op::ArenaDeref),
            48 => Some(Op::ArenaReset),
            49 => Some(Op::CallDirect),
            50 => Some(Op::CallWitness),
            51 => Some(Op::CallClosure),
            52 => Some(Op::Intrinsic),
            53 => match Policy::from_u32(payload) {
                Some(m) => Some(Op::CheckPre(m)),
                None => None,
            },
            54 => match Policy::from_u32(payload) {
                Some(m) => Some(Op::CheckPost(m)),
                None => None,
            },
            55 => match Policy::from_u32(payload) {
                Some(m) => Some(Op::CheckInv(m)),
                None => None,
            },
            56 => Some(Op::ReduceTree),
            57 => Some(Op::EraseToDyn),
            58 => Some(Op::Declassify),
            59 => Some(Op::RegionEnter),
            60 => Some(Op::RegionExit),
            61 => Some(Op::Spawn),
            62 => Some(Op::Sync),
            63 => Some(Op::Br),
            64 => Some(Op::CondBr),
            65 => Some(Op::SwitchDiscr),
            66 => Some(Op::TryBr),
            67 => Some(Op::Ret),
            68 => Some(Op::Raise),
            69 => Some(Op::Trap),
            70 => Some(Op::Unreachable),
            71 => Some(Op::TileOp),
            _ => None,
        }
    }
}

/// Decoding an opcode's own `(discriminant, payload)` pair gives the opcode
/// back, so two opcodes with the same pair are the same opcode.
pub proof fn lemma_op_parts_round_trip(op: Op)
    ensures
        Op::spec_from_parts(op.spec_discriminant(), op.spec_payload()) == Some(op),
{
    match op {
        Op::Fadd(m) | Op::Fsub(m) | Op::Fmul(m) | Op::Fdiv(m) | Op::Frem(m) | Op::Fneg(m) => {
            lemma_relax_code_round_trip(m);
        },
        _ => {},
    }
}

/// "No operand here" for an instruction slot.
pub const NO_OPERAND: u32 = ABSENT;

} // verus!
