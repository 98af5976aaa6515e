//! The textual dump of a declaration's IR: one line per region, parameter,
//! block and instruction, written so that a person can read it and write it
//! by hand.
//!
//! Grammar (line-oriented):
//!
//! ```text
//! decl <u32> sig <u32> [unsafe]
//! region r<n> <spawn|parallel|with-arena> [captures (%v<n>:conv)*]
//! val %v<n> = param <u16> ty <u32> <secret> <ct>
//! block bb<n>
//! val %v<n> = <mnemonic> <operand>* ty <u32> <secret> <ct> [seed <seedspec>]
//! do <mnemonic> <operand>*
//! ```
//!
//! `<secret>` is `secret`, `nosecret` or `?` (the field is missing); `<ct>`
//! is `ct=<u16>` or `ct=?`. An operand is `%v<n>` (a value), `bb<n>` (a
//! block), `r<n>` (a region) or, for `switch_discr`, `<i64>:bb<n>` arms after
//! its discriminant and default. Every value is named `%vN` after its id and
//! every block `bbN` after its id, so no name allocation is needed.
//! Parameters are printed above the first block, so that a reader resolving
//! names in one pass, in file order, meets each before its first use; a
//! value an instruction defines is announced on that instruction's line.

use vstd::prelude::*;

use crate::fir::sig::Conv;
use crate::fmir::alias::{seed_at, AliasSeed};
use crate::fmir::decl::DeclFmir;
use crate::fmir::flags::{CT_UNSPECIFIED, SECRET, SECRET_UNSPECIFIED};
use crate::fmir::ids::{InstId, PlaceId, ValId};
use crate::fmir::inst::{clamped_slice, Callee, InstRow, SwitchArm};
use crate::fmir::op::{trap_name, ArithMode, Op, Policy, TrapKind, NO_OPERAND};
use crate::fmir::region::{CaptureRow, RegionKind};
use crate::fmir::value::{spec_decode_def, ValDef};
use crate::fmir::verify::{decimal, push_decimal};

verus! {

// ---------------------------------------------------------------------------
// The text, as a function of the declaration
// ---------------------------------------------------------------------------

/// A signed number in decimal.
pub open spec fn signed_decimal(v: int) -> Seq<char> {
    if v < 0 {
        "-"@ + decimal((-v) as nat)
    } else {
        decimal(v as nat)
    }
}

/// The secret token of a value's flags: `?` when the field is missing.
pub open spec fn secret_text(flags: u16) -> Seq<char> {
    if flags & SECRET_UNSPECIFIED != 0 {
        "?"@
    } else if flags & SECRET != 0 {
        "secret"@
    } else {
        "nosecret"@
    }
}

/// The `ct` token of a value: `ct=?` when the region is missing.
pub open spec fn ct_text(ct: u16) -> Seq<char> {
    if ct == CT_UNSPECIFIED {
        "ct=?"@
    } else {
        "ct="@ + decimal(ct as nat)
    }
}

pub open spec fn conv_text(c: Conv) -> Seq<char> {
    match c {
        Conv::Let => "let"@,
        Conv::Inout => "inout"@,
        Conv::Sink => "sink"@,
        Conv::Out => "set"@,
    }
}

pub open spec fn kind_text(k: RegionKind) -> Seq<char> {
    match k {
        RegionKind::Spawn => "spawn"@,
        RegionKind::Parallel => "parallel"@,
        RegionKind::WithArena => "with-arena"@,
    }
}

/// An arithmetic mode rides on the mnemonic itself (`add:wrap`).
pub open spec fn mode_text(m: ArithMode) -> Seq<char> {
    match m {
        ArithMode::Trap => ""@,
        ArithMode::Wrap => ":wrap"@,
        ArithMode::Sat => ":sat"@,
        ArithMode::Unchecked => ":unchecked"@,
    }
}

/// A contract check's policy follows its operands (`check_pre %v0 policy=off`).
pub open spec fn policy_text(p: Policy) -> Seq<char> {
    match p {
        Policy::Runtime => ""@,
        Policy::Off => " policy=off"@,
    }
}

pub open spec fn trailing_text(op: Op) -> Seq<char> {
    match op {
        Op::CheckPre(p) | Op::CheckPost(p) | Op::CheckInv(p) => policy_text(p),
        _ => ""@,
    }
}

pub open spec fn mnemonic_text(op: Op) -> Seq<char> {
    match op {
        Op::ConstInt => "const_int"@,
        Op::ConstFloat => "const_float"@,
        Op::ConstBool => "const_bool"@,
        Op::ConstUnit => "const_unit"@,
        Op::ConstStr => "const_str"@,
        Op::ConstFn => "const_fn"@,
        Op::Add(m) => "add"@ + mode_text(m),
        Op::Sub(m) => "sub"@ + mode_text(m),
        Op::Mul(m) => "mul"@ + mode_text(m),
        Op::Div(m) => "div"@ + mode_text(m),
        Op::Rem(m) => "rem"@ + mode_text(m),
        Op::Shl(m) => "shl"@ + mode_text(m),
        Op::Shr(m) => "shr"@ + mode_text(m),
        Op::Neg(m) => "neg"@ + mode_text(m),
        Op::Index => "index"@,
        Op::SliceRange => "slice_range"@,
        Op::Alloc => "alloc"@,
        Op::ArenaAlloc => "arena_alloc"@,
        Op::ArenaDeref => "arena_deref"@,
        Op::ArenaReset => "arena_reset"@,
        Op::Free => "free"@,
        Op::CheckPre(_) => "check_pre"@,
        Op::CheckPost(_) => "check_post"@,
        Op::CheckInv(_) => "check_inv"@,
        Op::Intrinsic => "intrinsic"@,
        Op::Declassify => "declassify"@,
        Op::EraseToDyn => "erase_to_dyn"@,
        Op::RegionEnter => "region_enter"@,
        Op::RegionExit => "region_exit"@,
        Op::Spawn => "spawn"@,
        Op::Sync => "sync"@,
        Op::Br => "br"@,
        Op::CondBr => "cond_br"@,
        Op::SwitchDiscr => "switch_discr"@,
        Op::TryBr => "try_br"@,
        Op::Ret => "ret"@,
        Op::Raise => "raise"@,
        Op::Trap => "trap"@,
        Op::Unreachable => "unreachable"@,
        Op::TileOp => "tile.op"@,
        _ => "unsupported("@ + decimal(op.spec_discriminant() as nat) + ")"@,
    }
}

pub open spec fn val_text(v: u32) -> Seq<char> {
    " %v"@ + decimal(v as nat)
}

pub open spec fn bb_text(v: u32) -> Seq<char> {
    " bb"@ + decimal(v as nat)
}

/// Each value of a spilled operand list as an operand.
pub open spec fn vals_text(xs: Seq<ValId>) -> Seq<char>
    decreases xs.len(),
{
    if xs.len() == 0 {
        Seq::empty()
    } else {
        vals_text(xs.drop_last()) + val_text(xs.last().0)
    }
}

/// Each arm of a switch as `<value>:bb<target>`.
pub open spec fn arms_text(arms: Seq<SwitchArm>) -> Seq<char>
    decreases arms.len(),
{
    if arms.len() == 0 {
        Seq::empty()
    } else {
        arms_text(arms.drop_last()) + " "@ + signed_decimal(arms.last().value as int) + ":bb"@ + decimal(
            arms.last().target.0 as nat,
        )
    }
}

/// The trap kind a code names.
pub open spec fn trap_kind_of(v: u32) -> Option<TrapKind> {
    if v == 0 {
        Some(TrapKind::Bounds)
    } else if v == 1 {
        Some(TrapKind::Overflow)
    } else if v == 2 {
        Some(TrapKind::DivZero)
    } else if v == 3 {
        Some(TrapKind::Shift)
    } else if v == 4 {
        Some(TrapKind::CheckedConversion)
    } else if v == 5 {
        Some(TrapKind::ArenaGeneration)
    } else if v == 6 {
        Some(TrapKind::Contract)
    } else if v == 7 {
        Some(TrapKind::EmptyReduce)
    } else {
        None
    }
}

/// An instruction's operands, each with a leading space, read the way each
/// opcode group lays out its `a`/`b`/`c` words. A side-table index that
/// points past its table prints nothing.
pub open spec fn operands_text(d: DeclFmir, inst: InstRow) -> Seq<char> {
    match inst.op {
        Op::Add(_) | Op::Sub(_) | Op::Mul(_) | Op::Div(_) | Op::Rem(_) | Op::Shl(_) | Op::Shr(_) => val_text(inst.a)
            + val_text(inst.b),
        Op::Neg(_) | Op::ArenaDeref | Op::ArenaReset | Op::Declassify | Op::EraseToDyn => val_text(inst.a),
        Op::Index => val_text(inst.a) + val_text(inst.b),
        Op::SliceRange => val_text(inst.a) + val_text(inst.b) + val_text(inst.c),
        Op::Alloc | Op::ArenaAlloc => val_text(inst.a) + val_text(inst.b),
        Op::Free => val_text(inst.a),
        Op::CheckPre(_) | Op::CheckPost(_) | Op::CheckInv(_) => val_text(inst.a),
        Op::Intrinsic => if inst.a >= d.insts.calls@.len() {
            Seq::empty()
        } else {
            let call = d.insts.calls@[inst.a as int];
            (match call.callee {
                Callee::Intrinsic(sym) => " @"@ + decimal(sym.0 as nat),
                _ => Seq::empty(),
            }) + vals_text(clamped_slice(d.insts.operands@, call.args))
        },
        Op::Br => bb_text(inst.a),
        Op::CondBr => val_text(inst.a) + bb_text(inst.b) + bb_text(inst.c),
        Op::SwitchDiscr => if inst.a >= d.insts.switches@.len() {
            Seq::empty()
        } else {
            let sw = d.insts.switches@[inst.a as int];
            val_text(sw.discr.0) + bb_text(sw.default.0) + arms_text(
                d.insts.switch_arms@.subrange(sw.arms.start as int, sw.arms.end as int),
            )
        },
        Op::TryBr => " %inst"@ + decimal(inst.a as nat) + bb_text(inst.b) + bb_text(inst.c),
        Op::Ret | Op::Raise => if inst.a != NO_OPERAND {
            val_text(inst.a)
        } else {
            Seq::empty()
        },
        Op::Trap => " kind="@ + match trap_kind_of(inst.a) {
            Some(k) => trap_name(k),
            None => "?"@,
        },
        Op::Spawn | Op::Sync | Op::RegionEnter | Op::RegionExit => " r"@ + decimal(inst.a as nat),
        _ => Seq::empty(),
    }
}

/// The alias seed of a memory-producing instruction with an instruction-pool
/// position; nothing for any other.
pub open spec fn seed_text(d: DeclFmir, alias_idx: int, inst: InstRow) -> Seq<char> {
    if !inst.op.spec_is_memory_producing() || alias_idx == usize::MAX {
        Seq::empty()
    } else {
        match seed_at(d.insts.aliases@, alias_idx) {
            AliasSeed::NoSeed => Seq::empty(),
            AliasSeed::Conv(c) => " seed conv-"@ + conv_text(c),
            AliasSeed::Own(p) => " seed own"@ + decimal(d.places.spec_rows()[p.0 as int].root as nat),
            AliasSeed::Arena(b) => " seed arena"@ + decimal(b.0 as nat),
            AliasSeed::Split { parent, side } => " seed split"@ + decimal(
                d.places.spec_rows()[parent.0 as int].root as nat,
            ) + ","@ + decimal(side as nat),
        }
    }
}

/// One instruction's line: `val %vN = ...` when it defines a value (a
/// terminator never does), `do ...` otherwise.
pub open spec fn inst_text(d: DeclFmir, alias_idx: int, inst: InstRow, dest: Option<ValId>) -> Seq<char> {
    let head = mnemonic_text(inst.op) + operands_text(d, inst) + trailing_text(inst.op);
    match dest {
        Some(v) => if !inst.op.spec_is_terminator() {
            let row = d.vals.spec_rows()[v.0 as int];
            "val %v"@ + decimal(v.0 as nat) + " = "@ + head + " ty "@ + decimal(row.ty.0 as nat) + " "@
                + secret_text(row.flags.0) + " "@ + ct_text(row.ct) + seed_text(d, alias_idx, inst) + "\n"@
        } else {
            "do "@ + head + "\n"@
        },
        None => "do "@ + head + "\n"@,
    }
}

/// The value the instruction at `i` defines: the last of the first `n`
/// values whose definition names it.
pub open spec fn defined_by(d: DeclFmir, i: int, n: int) -> Option<ValId>
    decreases n,
{
    if n <= 0 {
        None
    } else if spec_decode_def(d.vals.spec_rows()[n - 1].def) == ValDef::Inst(InstId(i as u32)) {
        Some(ValId((n - 1) as u32))
    } else {
        defined_by(d, i, n - 1)
    }
}

pub open spec fn dest_of(d: DeclFmir, i: int) -> Option<ValId> {
    defined_by(d, i, d.vals.spec_rows().len() as int)
}

pub open spec fn header_text(d: DeclFmir) -> Seq<char> {
    "decl "@ + decimal(d.decl.0 as nat) + " sig "@ + decimal(d.sig.0 as nat) + (if d.is_unsafe_invariant {
        " unsafe"@
    } else {
        ""@
    }) + "\n"@
}

/// Each capture as ` %vN:conv`.
pub open spec fn captures_text(cs: Seq<CaptureRow>) -> Seq<char>
    decreases cs.len(),
{
    if cs.len() == 0 {
        Seq::empty()
    } else {
        captures_text(cs.drop_last()) + " %v"@ + decimal(cs.last().value.0 as nat) + ":"@ + conv_text(
            cs.last().conv,
        )
    }
}

pub open spec fn region_text(d: DeclFmir, k: int) -> Seq<char> {
    let row = d.regions.spec_rows()[k];
    "region r"@ + decimal(k as nat) + " "@ + kind_text(row.kind) + (if row.spec_captures_absent() {
        Seq::empty()
    } else {
        " captures"@ + captures_text(clamped_slice(d.regions.captures@, row.captures))
    }) + "\n"@
}

pub open spec fn regions_text(d: DeclFmir, n: int) -> Seq<char>
    decreases n,
{
    if n <= 0 {
        Seq::empty()
    } else {
        regions_text(d, n - 1) + region_text(d, n - 1)
    }
}

pub open spec fn param_text(d: DeclFmir, j: int) -> Seq<char> {
    let row = d.vals.spec_rows()[j];
    match spec_decode_def(row.def) {
        ValDef::Param(ordinal) => "val %v"@ + decimal(j as nat) + " = param "@ + decimal(ordinal as nat) + " ty "@
            + decimal(row.ty.0 as nat) + " "@ + secret_text(row.flags.0) + " "@ + ct_text(row.ct) + "\n"@,
        ValDef::Inst(_) => Seq::empty(),
    }
}

pub open spec fn params_text(d: DeclFmir, n: int) -> Seq<char>
    decreases n,
{
    if n <= 0 {
        Seq::empty()
    } else {
        params_text(d, n - 1) + param_text(d, n - 1)
    }
}

/// The lines of the instructions at positions `[lo, hi)` that exist.
pub open spec fn range_text(d: DeclFmir, lo: int, hi: int) -> Seq<char>
    decreases hi - lo,
{
    if hi <= lo {
        Seq::empty()
    } else {
        range_text(d, lo, hi - 1) + if hi - 1 < d.insts@.len() {
            inst_text(d, hi - 1, d.insts@[hi - 1], dest_of(d, hi - 1))
        } else {
            Seq::empty()
        }
    }
}

pub open spec fn block_text(d: DeclFmir, k: int) -> Seq<char> {
    let b = d.blocks@[k];
    "block bb"@ + decimal(k as nat) + "\n"@ + range_text(d, b.first_inst as int, b.first_inst + b.inst_len)
        + inst_text(d, usize::MAX as int, b.term, None)
}

pub open spec fn blocks_text(d: DeclFmir, n: int) -> Seq<char>
    decreases n,
{
    if n <= 0 {
        Seq::empty()
    } else {
        blocks_text(d, n - 1) + block_text(d, n - 1)
    }
}

/// The whole dump.
pub open spec fn dump_text(d: DeclFmir) -> Seq<char> {
    header_text(d) + regions_text(d, d.regions.spec_rows().len() as int) + params_text(
        d,
        d.vals.spec_rows().len() as int,
    ) + blocks_text(d, d.blocks@.len() as int)
}

// ---------------------------------------------------------------------------
// What the dump reads must be there
// ---------------------------------------------------------------------------

/// A `switch_discr` whose switch row exists names a range of the arm table.
pub open spec fn switch_fits(d: DeclFmir, inst: InstRow) -> bool {
    inst.op == Op::SwitchDiscr && inst.a < d.insts.switches@.len() ==> {
        let sw = d.insts.switches@[inst.a as int];
        sw.arms.start <= sw.arms.end <= d.insts.switch_arms@.len()
    }
}

/// A printed alias seed that names a place names one that exists.
pub open spec fn seed_fits(d: DeclFmir, alias_idx: int, inst: InstRow) -> bool {
    inst.op.spec_is_memory_producing() && alias_idx != usize::MAX ==> match seed_at(d.insts.aliases@, alias_idx) {
        AliasSeed::Own(p) => p.0 < d.places.spec_rows().len(),
        AliasSeed::Split { parent, side } => parent.0 < d.places.spec_rows().len(),
        _ => true,
    }
}

/// What one instruction's line reads exists.
pub open spec fn line_fits(d: DeclFmir, alias_idx: int, inst: InstRow, dest: Option<ValId>) -> bool {
    &&& switch_fits(d, inst)
    &&& dest matches Some(v) ==> v.0 < d.vals.spec_rows().len() && (!inst.op.spec_is_terminator() ==> seed_fits(
        d,
        alias_idx,
        inst,
    ))
}

/// Every id fits its `u32`, every block's instruction range ends within
/// `u32`, and what every printed line reads exists: a switch's arm range, a
/// printed seed's place.
pub open spec fn dumpable(d: DeclFmir) -> bool {
    &&& d.regions.spec_rows().len() <= u32::MAX
    &&& d.vals.spec_rows().len() <= u32::MAX
    &&& d.blocks@.len() <= u32::MAX
    &&& d.insts@.len() <= u32::MAX
    &&& forall|k: int| 0 <= k < d.blocks@.len() ==> (#[trigger] d.blocks@[k]).range_fits() && switch_fits(
        d,
        d.blocks@[k].term,
    )
    &&& forall|k: int, i: int|
        #![trigger d.blocks@[k], d.insts@[i]]
        0 <= k < d.blocks@.len() && d.blocks@[k].first_inst <= i < d.blocks@[k].first_inst + d.blocks@[k].inst_len
            && i < d.insts@.len() ==> line_fits(d, i, d.insts@[i], dest_of(d, i))
}

// ---------------------------------------------------------------------------
// Writing it
// ---------------------------------------------------------------------------

fn secret_tok(flags: u16) -> (r: &'static str)
    ensures
        r@ == secret_text(flags),
{
    if flags & SECRET_UNSPECIFIED != 0 {
        "?"
    } else if flags & SECRET != 0 {
        "secret"
    } else {
        "nosecret"
    }
}

fn ct_tok(ct: u16) -> (r: String)
    ensures
        r@ == ct_text(ct),
{
    if ct == CT_UNSPECIFIED {
        String::from_str("ct=?")
    } else {
        let mut s = String::from_str("ct=");
        push_decimal(&mut s, ct as u64);
        s
    }
}

fn conv_str(c: Conv) -> (r: &'static str)
    ensures
        r@ == conv_text(c),
{
    match c {
        Conv::Let => "let",
        Conv::Inout => "inout",
        Conv::Sink => "sink",
        Conv::Out => "set",
    }
}

fn kind_str(k: RegionKind) -> (r: &'static str)
    ensures
        r@ == kind_text(k),
{
    match k {
        RegionKind::Spawn => "spawn",
        RegionKind::Parallel => "parallel",
        RegionKind::WithArena => "with-arena",
    }
}

fn mode_suffix(m: ArithMode) -> (r: &'static str)
    ensures
        r@ == mode_text(m),
{
    match m {
        ArithMode::Trap => "",
        ArithMode::Wrap => ":wrap",
        ArithMode::Sat => ":sat",
        ArithMode::Unchecked => ":unchecked",
    }
}

fn policy_suffix(p: Policy) -> (r: &'static str)
    ensures
        r@ == policy_text(p),
{
    match p {
        Policy::Runtime => "",
        Policy::Off => " policy=off",
    }
}

fn trailing_modifier(op: Op) -> (r: &'static str)
    ensures
        r@ == trailing_text(op),
{
    match op {
        Op::CheckPre(p) | Op::CheckPost(p) | Op::CheckInv(p) => policy_suffix(p),
        _ => "",
    }
}

fn with_mode(head: &str, m: ArithMode) -> (r: String)
    ensures
        r@ == head@ + mode_text(m),
{
    let mut s = String::from_str(head);
    s.append(mode_suffix(m));
    s
}

fn mnemonic(op: Op) -> (r: String)
    ensures
        r@ == mnemonic_text(op),
{
    match op {
        Op::ConstInt => String::from_str("const_int"),
        Op::ConstFloat => String::from_str("const_float"),
        Op::ConstBool => String::from_str("const_bool"),
        Op::ConstUnit => String::from_str("const_unit"),
        Op::ConstStr => String::from_str("const_str"),
        Op::ConstFn => String::from_str("const_fn"),
        Op::Add(m) => with_mode("add", m),
        Op::Sub(m) => with_mode("sub", m),
        Op::Mul(m) => with_mode("mul", m),
        Op::Div(m) => with_mode("div", m),
        Op::Rem(m) => with_mode("rem", m),
        Op::Shl(m) => with_mode("shl", m),
        Op::Shr(m) => with_mode("shr", m),
        Op::Neg(m) => with_mode("neg", m),
        Op::Index => String::from_str("index"),
        Op::SliceRange => String::from_str("slice_range"),
        Op::Alloc => String::from_str("alloc"),
        Op::ArenaAlloc => String::from_str("arena_alloc"),
        Op::ArenaDeref => String::from_str("arena_deref"),
        Op::ArenaReset => String::from_str("arena_reset"),
        Op::Free => String::from_str("free"),
        Op::CheckPre(_) => String::from_str("check_pre"),
        Op::CheckPost(_) => String::from_str("check_post"),
        Op::CheckInv(_) => String::from_str("check_inv"),
        Op::Intrinsic => String::from_str("intrinsic"),
        Op::Declassify => String::from_str("declassify"),
        Op::EraseToDyn => String::from_str("erase_to_dyn"),
        Op::RegionEnter => String::from_str("region_enter"),
        Op::RegionExit => String::from_str("region_exit"),
        Op::Spawn => String::from_str("spawn"),
        Op::Sync => String::from_str("sync"),
        Op::Br => String::from_str("br"),
        Op::CondBr => String::from_str("cond_br"),
        Op::SwitchDiscr => String::from_str("switch_discr"),
        Op::TryBr => String::from_str("try_br"),
        Op::Ret => String::from_str("ret"),
        Op::Raise => String::from_str("raise"),
        Op::Trap => String::from_str("trap"),
        Op::Unreachable => String::from_str("unreachable"),
        Op::TileOp => String::from_str("tile.op"),
        other => {
            let mut s = String::from_str("unsupported(");
            push_decimal(&mut s, other.discriminant() as u64);
            s.append(")");
            s
        },
    }
}

fn push_val(s: &mut String, v: u32)
    ensures
        final(s)@ == old(s)@ + val_text(v),
{
    s.append(" %v");
    push_decimal(s, v as u64);
}

fn push_bb(s: &mut String, v: u32)
    ensures
        final(s)@ == old(s)@ + bb_text(v),
{
    s.append(" bb");
    push_decimal(s, v as u64);
}

fn push_signed(s: &mut String, v: i64)
    ensures
        final(s)@ == old(s)@ + signed_decimal(v as int),
{
    if v < 0 {
        s.append("-");
        let m: u64 = (-(v as i128)) as u64;
        push_decimal(s, m);
    } else {
        push_decimal(s, v as u64);
    }
}

fn dump_operands(d: &DeclFmir, inst: InstRow) -> (r: String)
    requires
        switch_fits(*d, inst),
    ensures
        r@ == operands_text(*d, inst),
{
    let mut s = String::new();
    match inst.op {
        Op::Add(_) | Op::Sub(_) | Op::Mul(_) | Op::Div(_) | Op::Rem(_) | Op::Shl(_) | Op::Shr(_) => {
            push_val(&mut s, inst.a);
            push_val(&mut s, inst.b);
        },
        Op::Neg(_) | Op::ArenaDeref | Op::ArenaReset | Op::Declassify | Op::EraseToDyn => {
            push_val(&mut s, inst.a);
        },
        Op::Index => {
            push_val(&mut s, inst.a);
            push_val(&mut s, inst.b);
        },
        Op::SliceRange => {
            push_val(&mut s, inst.a);
            push_val(&mut s, inst.b);
            push_val(&mut s, inst.c);
        },
        Op::Alloc | Op::ArenaAlloc => {
            push_val(&mut s, inst.a);
            push_val(&mut s, inst.b);
        },
        Op::Free => push_val(&mut s, inst.a),
        Op::CheckPre(_) | Op::CheckPost(_) | Op::CheckInv(_) => push_val(&mut s, inst.a),
        Op::Intrinsic => {
            // A call row past the end of its table prints nothing: a dump is
            // diagnostic output and stays total on malformed input.
            if (inst.a as usize) < d.insts.calls.len() {
                let call = &d.insts.calls[inst.a as usize];
                match call.callee {
                    Callee::Intrinsic(sym) => {
                        s.append(" @");
                        push_decimal(&mut s, sym.0 as u64);
                    },
                    _ => {},
                }
                let args = d.insts.args(call.args.start..call.args.end);
                let ghost pre = s@;
                let mut j: usize = 0;
                while j < args.len()
                    invariant
                        j <= args@.len(),
                        s@ == pre + vals_text(args@.subrange(0, j as int)),
                    decreases args@.len() - j,
                {
                    proof {
                        assert(args@.subrange(0, j + 1).drop_last() =~= args@.subrange(0, j as int));
                    }
                    push_val(&mut s, args[j].0);
                    j = j + 1;
                }
                proof {
                    assert(args@.subrange(0, j as int) =~= args@);
                    assert(call.args == (call.args.start..call.args.end));
                }
            }
        },
        Op::Br => push_bb(&mut s, inst.a),
        Op::CondBr => {
            push_val(&mut s, inst.a);
            push_bb(&mut s, inst.b);
            push_bb(&mut s, inst.c);
        },
        Op::SwitchDiscr => {
            if (inst.a as usize) < d.insts.switches.len() {
                let sw = &d.insts.switches[inst.a as usize];
                push_val(&mut s, sw.discr.0);
                push_bb(&mut s, sw.default.0);
                let ghost pre = s@;
                let ghost arms = d.insts.switch_arms@;
                let start = sw.arms.start as usize;
                let end = sw.arms.end as usize;
                let mut j: usize = start;
                while j < end
                    invariant
                        start <= j <= end,
                        end <= arms.len(),
                        arms == d.insts.switch_arms@,
                        s@ == pre + arms_text(arms.subrange(start as int, j as int)),
                    decreases end - j,
                {
                    let arm = d.insts.switch_arms[j];
                    proof {
                        assert(arms.subrange(start as int, j + 1).drop_last() =~= arms.subrange(start as int, j as int));
                        assert(arms.subrange(start as int, j + 1).last() == arm);
                    }
                    s.append(" ");
                    push_signed(&mut s, arm.value);
                    s.append(":bb");
                    push_decimal(&mut s, arm.target.0 as u64);
                    j = j + 1;
                }
            }
        },
        Op::TryBr => {
            s.append(" %inst");
            push_decimal(&mut s, inst.a as u64);
            push_bb(&mut s, inst.b);
            push_bb(&mut s, inst.c);
        },
        Op::Ret | Op::Raise => {
            if inst.a != NO_OPERAND {
                push_val(&mut s, inst.a);
            }
        },
        Op::Trap => {
            let kind = match TrapKind::from_u32(inst.a) {
                Some(k) => k.as_str(),
                None => "?",
            };
            s.append(" kind=");
            s.append(kind);
        },
        Op::Spawn | Op::Sync | Op::RegionEnter | Op::RegionExit => {
            s.append(" r");
            push_decimal(&mut s, inst.a as u64);
        },
        _ => {},
    }
    s
}

fn place_root(d: &DeclFmir, p: PlaceId) -> (r: u32)
    requires
        p.0 < d.places.spec_rows().len(),
    ensures
        r == d.places.spec_rows()[p.0 as int].root,
{
    d.places.row(p).root
}

fn dump_seed(d: &DeclFmir, alias_idx: usize, inst: InstRow) -> (r: String)
    requires
        seed_fits(*d, alias_idx as int, inst),
    ensures
        r@ == seed_text(*d, alias_idx as int, inst),
{
    if !inst.op.is_memory_producing() || alias_idx == usize::MAX {
        return String::new();
    }
    match d.insts.aliases.get(alias_idx) {
        AliasSeed::NoSeed => String::new(),
        AliasSeed::Conv(c) => {
            let mut s = String::from_str(" seed conv-");
            s.append(conv_str(c));
            s
        },
        AliasSeed::Own(p) => {
            let mut s = String::from_str(" seed own");
            push_decimal(&mut s, place_root(d, p) as u64);
            s
        },
        AliasSeed::Arena(b) => {
            let mut s = String::from_str(" seed arena");
            push_decimal(&mut s, b.0 as u64);
            s
        },
        AliasSeed::Split { parent, side } => {
            let mut s = String::from_str(" seed split");
            push_decimal(&mut s, place_root(d, parent) as u64);
            s.append(",");
            push_decimal(&mut s, side as u64);
            s
        },
    }
}

/// Writes one instruction as a `val %vN = ...` or `do ...` line. `alias_idx`
/// is `usize::MAX` for a block's terminator, which has no instruction-pool
/// position and so no alias seed.
fn dump_inst_as_do(out: &mut String, d: &DeclFmir, alias_idx: usize, inst: InstRow, dest: Option<ValId>)
    requires
        line_fits(*d, alias_idx as int, inst, dest),
    ensures
        final(out)@ == old(out)@ + inst_text(*d, alias_idx as int, inst, dest),
{
    let head = mnemonic(inst.op);
    let operands = dump_operands(d, inst);
    let trailing = trailing_modifier(inst.op);
    let ghost line = mnemonic_text(inst.op) + operands_text(*d, inst) + trailing_text(inst.op);
    match dest {
        Some(val_id) => {
            if !inst.op.is_terminator() {
                let row = d.vals.row(val_id);
                out.append("val %v");
                push_decimal(out, val_id.0 as u64);
                out.append(" = ");
                out.append(head.as_str());
                out.append(operands.as_str());
                out.append(trailing);
                out.append(" ty ");
                push_decimal(out, row.ty.0 as u64);
                out.append(" ");
                out.append(secret_tok(row.flags.0));
                out.append(" ");
                let ct = ct_tok(row.ct);
                out.append(ct.as_str());
                let seed = dump_seed(d, alias_idx, inst);
                out.append(seed.as_str());
                out.append("\n");
                proof {
                    let v = val_id;
                    let r = d.vals.spec_rows()[v.0 as int];
                    assert(inst_text(*d, alias_idx as int, inst, dest) =~= "val %v"@ + decimal(v.0 as nat) + " = "@
                        + line + " ty "@ + decimal(r.ty.0 as nat) + " "@ + secret_text(r.flags.0) + " "@ + ct_text(r.ct)
                        + seed_text(*d, alias_idx as int, inst) + "\n"@);
                }
                return;
            }
        },
        None => {},
    }
    out.append("do ");
    out.append(head.as_str());
    out.append(operands.as_str());
    out.append(trailing);
    out.append("\n");
    proof {
        assert(inst_text(*d, alias_idx as int, inst, dest) =~= "do "@ + line + "\n"@);
    }
}

/// Writes region `k`'s line.
fn dump_region(out: &mut String, d: &DeclFmir, k: usize)
    requires
        k < d.regions.spec_rows().len(),
    ensures
        final(out)@ == old(out)@ + region_text(*d, k as int),
{
    let row = &d.regions.rows[k];
    let ghost before = old(out)@;
    out.append("region r");
    push_decimal(out, k as u64);
    out.append(" ");
    out.append(kind_str(row.kind));
    if !row.captures_absent() {
        out.append(" captures");
        let caps = d.regions.captures.get(row.captures.start..row.captures.end);
        let ghost mid = out@;
        let mut j: usize = 0;
        while j < caps.len()
            invariant
                j <= caps@.len(),
                out@ == mid + captures_text(caps@.subrange(0, j as int)),
            decreases caps@.len() - j,
        {
            let cap = caps[j];
            proof {
                assert(caps@.subrange(0, j + 1).drop_last() =~= caps@.subrange(0, j as int));
            }
            out.append(" %v");
            push_decimal(out, cap.value.0 as u64);
            out.append(":");
            out.append(conv_str(cap.conv));
            j = j + 1;
        }
        proof {
            assert(caps@.subrange(0, j as int) =~= caps@);
            assert(row.captures == (row.captures.start..row.captures.end));
        }
    }
    out.append("\n");
    proof {
        assert(out@ =~= before + region_text(*d, k as int));
    }
}

/// Writes the line of value `j` if a parameter defines it.
fn dump_param(out: &mut String, d: &DeclFmir, j: usize)
    requires
        j < d.vals.spec_rows().len(),
        d.vals.spec_rows().len() <= u32::MAX,
    ensures
        final(out)@ == old(out)@ + param_text(*d, j as int),
{
    let row = d.vals.row(ValId(j as u32));
    match row.def() {
        ValDef::Param(ordinal) => {
            out.append("val %v");
            push_decimal(out, j as u64);
            out.append(" = param ");
            push_decimal(out, ordinal as u64);
            out.append(" ty ");
            push_decimal(out, row.ty.0 as u64);
            out.append(" ");
            out.append(secret_tok(row.flags.0));
            out.append(" ");
            let ct = ct_tok(row.ct);
            out.append(ct.as_str());
            out.append("\n");
        },
        ValDef::Inst(_) => {},
    }
}

/// The declaration in the textual grammar of this module's documentation.
pub fn dump(d: &DeclFmir) -> (r: String)
    requires
        dumpable(*d),
    ensures
        r@ == dump_text(*d),
{
    let mut out = String::new();
    out.append("decl ");
    push_decimal(&mut out, d.decl.0 as u64);
    out.append(" sig ");
    push_decimal(&mut out, d.sig.0 as u64);
    if d.is_unsafe_invariant {
        out.append(" unsafe");
    } else {
        out.append("");
    }
    out.append("\n");
    let ghost head = out@;
    let mut k: usize = 0;
    while k < d.regions.rows.len()
        invariant
            k <= d.regions.spec_rows().len(),
            d.regions.spec_rows().len() <= u32::MAX,
            out@ == head + regions_text(*d, k as int),
        decreases d.regions.spec_rows().len() - k,
    {
        dump_region(&mut out, d, k);
        proof {
            assert(out@ =~= head + regions_text(*d, k + 1));
        }
        k = k + 1;
    }
    // The value each instruction defines, by instruction position: one pass
    // over the values rather than a search per instruction.
    let n = d.insts.len();
    let mut inst_to_val: Vec<Option<ValId>> = Vec::new();
    let mut i: usize = 0;
    while i < n
        invariant
            i <= n,
            inst_to_val@.len() == i,
            forall|x: int| 0 <= x < i ==> inst_to_val@[x] is None,
        decreases n - i,
    {
        inst_to_val.push(None);
        i = i + 1;
    }
    let nv = d.vals.len();
    let mut j: usize = 0;
    while j < nv
        invariant
            j <= nv,
            nv == d.vals.spec_rows().len(),
            nv <= u32::MAX,
            n == d.insts@.len(),
            n <= u32::MAX,
            inst_to_val@.len() == n,
            forall|x: int| 0 <= x < n ==> #[trigger] inst_to_val@[x] == defined_by(*d, x, j as int),
        decreases nv - j,
    {
        let row = d.vals.row(ValId(j as u32));
        match row.def() {
            ValDef::Inst(inst_id) => {
                if (inst_id.0 as usize) < n {
                    inst_to_val.set(inst_id.0 as usize, Some(ValId(j as u32)));
                }
            },
            ValDef::Param(_) => {},
        }
        proof {
            assert forall|x: int| 0 <= x < n implies #[trigger] inst_to_val@[x] == defined_by(*d, x, j + 1) by {
                assert(InstId(x as u32).0 == x);
            }
        }
        j = j + 1;
    }
    let ghost after_regions = out@;
    let mut j: usize = 0;
    while j < nv
        invariant
            j <= nv,
            nv == d.vals.spec_rows().len(),
            nv <= u32::MAX,
            out@ == after_regions + params_text(*d, j as int),
        decreases nv - j,
    {
        dump_param(&mut out, d, j);
        proof {
            assert(out@ =~= after_regions + params_text(*d, j + 1));
        }
        j = j + 1;
    }
    let ghost after_params = out@;
    let nb = d.blocks.len();
    let mut k: usize = 0;
    while k < nb
        invariant
            k <= nb,
            nb == d.blocks@.len(),
            nb <= u32::MAX,
            dumpable(*d),
            n == d.insts@.len(),
            inst_to_val@.len() == n,
            forall|x: int| 0 <= x < n ==> #[trigger] inst_to_val@[x] == dest_of(*d, x),
            out@ == after_params + blocks_text(*d, k as int),
        decreases nb - k,
    {
        let block = d.blocks.rows[k];
        let ghost before = out@;
        out.append("block bb");
        push_decimal(&mut out, k as u64);
        out.append("\n");
        let ghost mid = out@;
        assert(d.blocks@[k as int] == block);
        let first = block.first_inst;
        let end = block.first_inst + block.inst_len;
        let mut i: u32 = first;
        while i < end
            invariant
                first <= i <= end,
                first == block.first_inst,
                end == block.first_inst + block.inst_len,
                block == d.blocks@[k as int],
                k < d.blocks@.len(),
                dumpable(*d),
                n == d.insts@.len(),
                inst_to_val@.len() == n,
                forall|x: int| 0 <= x < n ==> #[trigger] inst_to_val@[x] == dest_of(*d, x),
                out@ == mid + range_text(*d, first as int, i as int),
            decreases end - i,
        {
            match d.insts.try_row(InstId(i)) {
                Some(row) => {
                    let name = inst_to_val[i as usize];
                    proof {
                        assert(line_fits(*d, i as int, d.insts@[i as int], dest_of(*d, i as int)));
                    }
                    dump_inst_as_do(&mut out, d, i as usize, row, name);
                },
                None => {},
            }
            i = i + 1;
        }
        dump_inst_as_do(&mut out, d, usize::MAX, block.term, None);
        proof {
            assert(out@ =~= before + block_text(*d, k as int));
        }
        k = k + 1;
    }
    out
}

// ---------------------------------------------------------------------------
// Reading the mode back
// ---------------------------------------------------------------------------

/// The arithmetic mode a reader of the dump takes a mnemonic's suffix to
/// name: no suffix is the trapping default, `:wrap`, `:sat` and
/// `:unchecked` name the other three, and anything else names none.
pub open spec fn mode_named_by(suffix: Seq<char>) -> Option<ArithMode> {
    if suffix == Seq::<char>::empty() {
        Some(ArithMode::Trap)
    } else if suffix == ":wrap"@ {
        Some(ArithMode::Wrap)
    } else if suffix == ":sat"@ {
        Some(ArithMode::Sat)
    } else if suffix == ":unchecked"@ {
        Some(ArithMode::Unchecked)
    } else {
        None
    }
}

/// Whether an opcode is one of the arithmetic opcodes that carry a mode.
pub open spec fn is_arith_op(op: Op) -> bool {
    match op {
        Op::Add(_) | Op::Sub(_) | Op::Mul(_) | Op::Div(_) | Op::Rem(_) | Op::Shl(_) | Op::Shr(_) | Op::Neg(_) => true,
        _ => false,
    }
}

/// The same arithmetic opcode with its mode replaced.
pub open spec fn op_in_mode(op: Op, m: ArithMode) -> Op {
    match op {
        Op::Add(_) => Op::Add(m),
        Op::Sub(_) => Op::Sub(m),
        Op::Mul(_) => Op::Mul(m),
        Op::Div(_) => Op::Div(m),
        Op::Rem(_) => Op::Rem(m),
        Op::Shl(_) => Op::Shl(m),
        Op::Shr(_) => Op::Shr(m),
        Op::Neg(_) => Op::Neg(m),
        _ => op,
    }
}

/// The suffix the dump writes after an arithmetic mnemonic reads back as
/// the mode it was written for: saturating as `:sat`, wrapping as `:wrap`,
/// unchecked as `:unchecked`, trapping as no suffix at all.
pub proof fn lemma_mode_suffix_reads_back(m: ArithMode)
    ensures
        mode_named_by(mode_text(m)) == Some(m),
{
    reveal_strlit(":wrap");
    reveal_strlit(":sat");
    reveal_strlit(":unchecked");
    reveal_strlit("");
    assert(":wrap"@ != ":sat"@) by {
        assert(":wrap"@[1] != ":sat"@[1]);
    }
    assert(":wrap"@ != ":unchecked"@) by {
        assert(":wrap"@[1] != ":unchecked"@[1]);
    }
    assert(":sat"@ != ":unchecked"@) by {
        assert(":sat"@[1] != ":unchecked"@[1]);
    }
    assert(""@ =~= Seq::<char>::empty());
    assert(":wrap"@.len() > 0 && ":sat"@.len() > 0 && ":unchecked"@.len() > 0);
}

/// Two instruction lines that differ only in the arithmetic mode of their
/// opcode are different text: the dump never writes two modes alike.
pub proof fn lemma_inst_line_tells_modes_apart(
    d: DeclFmir,
    alias_idx: int,
    inst: InstRow,
    dest: Option<ValId>,
    m1: ArithMode,
    m2: ArithMode,
)
    requires
        is_arith_op(inst.op),
        m1 != m2,
    ensures
        inst_text(d, alias_idx, (InstRow { op: op_in_mode(inst.op, m1), ..inst }), dest) != inst_text(
            d,
            alias_idx,
            (InstRow { op: op_in_mode(inst.op, m2), ..inst }),
            dest,
        ),
{
    let i1 = InstRow { op: op_in_mode(inst.op, m1), ..inst };
    let i2 = InstRow { op: op_in_mode(inst.op, m2), ..inst };
    reveal_strlit(":wrap");
    reveal_strlit(":sat");
    reveal_strlit(":unchecked");
    reveal_strlit("");
    reveal_strlit("add");
    reveal_strlit("sub");
    reveal_strlit("mul");
    reveal_strlit("div");
    reveal_strlit("rem");
    reveal_strlit("shl");
    reveal_strlit("shr");
    reveal_strlit("neg");
    reveal_strlit(" %v");
    reveal_strlit("val %v");
    reveal_strlit(" = ");
    reveal_strlit("do ");
    let ops = operands_text(d, i1);
    assert(operands_text(d, i2) == ops);
    assert(ops[0] == ' ');
    assert(trailing_text(i1.op) == Seq::<char>::empty());
    assert(trailing_text(i2.op) == Seq::<char>::empty());
    assert(!i1.op.spec_is_terminator() && !i2.op.spec_is_terminator());
    let name = mnemonic_text(op_in_mode(inst.op, ArithMode::Trap));
    assert(name.len() == 3);
    assert(mnemonic_text(i1.op) == name + mode_text(m1));
    assert(mnemonic_text(i2.op) == name + mode_text(m2));
    let pre: Seq<char> = match dest {
        Some(v) => "val %v"@ + decimal(v.0 as nat) + " = "@,
        None => "do "@,
    };
    let h1 = mnemonic_text(i1.op) + ops + trailing_text(i1.op);
    let h2 = mnemonic_text(i2.op) + ops + trailing_text(i2.op);
    let t1 = inst_text(d, alias_idx, i1, dest);
    let t2 = inst_text(d, alias_idx, i2, dest);
    assert(t1.subrange(0, (pre.len() + h1.len()) as int) =~= pre + h1);
    assert(t2.subrange(0, (pre.len() + h2.len()) as int) =~= pre + h2);
    // Past the shared opcode name, a trapping operation goes straight to its
    // operands' leading space, every other mode to `:` and a letter of its
    // own.
    let p: int = pre.len() as int + 3;
    assert(h1[3] == (pre + h1)[p] && h2[3] == (pre + h2)[p]);
    if h1.len() > 4 && h2.len() > 4 {
        assert(h1[4] == (pre + h1)[p + 1] && h2[4] == (pre + h2)[p + 1]);
    }
    if t1 == t2 {
        assert(t1[p] == t2[p]);
        assert(h1[3] == h2[3]);
        assert(t1[p + 1] == t2[p + 1]);
        assert(h1[4] == h2[4]);
        assert(false);
    }
}

} // verus!
