//! The structural verifier: every check runs over one declaration's own
//! pools and reports each violation as a located diagnostic; no check stops
//! the others.
//!
//! What `verify` returns is stated exactly: the concatenation, in check
//! order, of each check's diagnostics over the pools in id order.

use vstd::prelude::*;

use crate::fmir::alias::{seed_at, AliasSeed};
use crate::fmir::block::{stray_list, BlockRow};
use crate::fmir::decl::DeclFmir;
use crate::fmir::diag::{Anchor, DiagCode, Diagnostic};
use crate::fmir::flags::{CT_UNSPECIFIED, SECRET, SECRET_UNSPECIFIED};
use crate::fmir::ids::{BlockId, InstId, RegionId, ValId};
use crate::fmir::inst::{clamped, clamped_slice, InstRow};
use crate::fmir::op::{Op, NO_OPERAND};
use crate::fmir::region::{RegionKind, RegionRow};
use crate::fmir::value::{spec_decode_def, ValDef, ValRow};

verus! {

/// A diagnostic as its code, anchor and message text.
pub open spec fn diag_key(d: Diagnostic) -> (DiagCode, Anchor, Seq<char>) {
    (d.code, d.at, d.message@)
}

pub open spec fn diag_keys(v: Seq<Diagnostic>) -> Seq<(DiagCode, Anchor, Seq<char>)> {
    v.map_values(|x: Diagnostic| diag_key(x))
}

fn emit(out: &mut Vec<Diagnostic>, code: DiagCode, at: Anchor, message: &str)
    ensures
        diag_keys(final(out)@) == diag_keys(old(out)@).push((code, at, message@)),
{
    out.push(Diagnostic::new(code, at, message));
    assert(diag_keys(out@) =~= diag_keys(old(out)@).push((code, at, message@)));
}

/// One diagnostic, as a one-element key sequence.
pub open spec fn one_diag(code: DiagCode, at: Anchor, message: Seq<char>) -> Seq<(DiagCode, Anchor, Seq<char>)> {
    seq![(code, at, message)]
}

pub open spec fn no_diag() -> Seq<(DiagCode, Anchor, Seq<char>)> {
    Seq::empty()
}

// ---------------------------------------------------------------------------
// Values.

/// `v` names a value of the declaration, and that value is secret. A
/// dangling id is not secret.
pub open spec fn secret_val(d: DeclFmir, v: ValId) -> bool {
    v.0 < d.vals.spec_rows().len() && d.vals.spec_rows()[v.0 as int].flags.spec_has(SECRET)
}

/// A raw operand slot holds a value (not the absent sentinel) that is secret.
pub open spec fn secret_slot(d: DeclFmir, raw: u32) -> bool {
    raw != NO_OPERAND && secret_val(d, ValId(raw))
}

fn is_secret(decl: &DeclFmir, v: ValId) -> (r: bool)
    ensures
        r == secret_val(*decl, v),
{
    match decl.vals.try_row(v) {
        Some(row) => row.is_secret(),
        None => false,
    }
}

fn is_secret_slot(decl: &DeclFmir, raw: u32) -> (r: bool)
    ensures
        r == secret_slot(*decl, raw),
{
    raw != NO_OPERAND && is_secret(decl, ValId(raw))
}

// ---------------------------------------------------------------------------
// Missing secret bit or `ct` region.

pub open spec fn secret_field_row(row: ValRow, i: int) -> Seq<(DiagCode, Anchor, Seq<char>)> {
    (if row.flags.spec_has(SECRET_UNSPECIFIED) {
        one_diag(DiagCode::MissingSecretField, Anchor::Val(ValId(i as u32)), "value has no secret field"@)
    } else {
        no_diag()
    }) + (if row.ct == CT_UNSPECIFIED {
        one_diag(DiagCode::MissingCtRegion, Anchor::Val(ValId(i as u32)), "value has no ct_region field"@)
    } else {
        no_diag()
    })
}

/// The missing-field diagnostics of the first `n` values.
pub open spec fn secret_field_diags(d: DeclFmir, n: int) -> Seq<(DiagCode, Anchor, Seq<char>)>
    decreases n,
{
    if n <= 0 {
        no_diag()
    } else {
        secret_field_diags(d, n - 1) + secret_field_row(d.vals.spec_rows()[n - 1], n - 1)
    }
}

fn check_secret_fields(decl: &DeclFmir, out: &mut Vec<Diagnostic>)
    ensures
        diag_keys(final(out)@) == diag_keys(old(out)@) + secret_field_diags(*decl, decl.vals.spec_rows().len() as int),
{
    let rows = decl.vals.all_rows();
    let mut i: usize = 0;
    while i < rows.len()
        invariant
            rows@.len() == decl.vals.spec_rows().len(),
            forall|k: int| 0 <= k < rows@.len() ==> #[trigger] rows@[k] == (ValId(k as u32), decl.vals.spec_rows()[k]),
            i <= rows@.len(),
            diag_keys(out@) == diag_keys(old(out)@) + secret_field_diags(*decl, i as int),
        decreases rows@.len() - i,
    {
        let (id, row) = rows[i];
        let ghost before = diag_keys(out@);
        if row.flags.is_secret_unspecified() {
            emit(out, DiagCode::MissingSecretField, Anchor::Val(id), "value has no secret field");
        }
        let ghost mid = diag_keys(out@);
        if row.ct == CT_UNSPECIFIED {
            emit(out, DiagCode::MissingCtRegion, Anchor::Val(id), "value has no ct_region field");
        }
        assert(diag_keys(out@) =~= before + secret_field_row(decl.vals.spec_rows()[i as int], i as int));
        i += 1;
    }
}

// ---------------------------------------------------------------------------
// Two terminators.

/// A block's regular instruction range, clamped to the instruction pool.
pub open spec fn block_range(b: BlockRow, n_insts: int) -> (int, int) {
    clamped(b.first_inst, (b.first_inst + b.inst_len) as u32, n_insts)
}

pub open spec fn stray_keys(strays: Seq<u32>) -> Seq<(DiagCode, Anchor, Seq<char>)> {
    strays.map_values(
        |x: u32|
            (
                DiagCode::TwoTerminators,
                Anchor::Inst(InstId(x)),
                "block has a terminator-class op outside its `term` slot (two terminators)"@,
            ),
    )
}

pub open spec fn terminator_block(d: DeclFmir, i: int) -> Seq<(DiagCode, Anchor, Seq<char>)> {
    let b = d.blocks@[i];
    let (lo, hi) = block_range(b, d.insts@.len() as int);
    stray_keys(stray_list(d.insts@, lo, hi)) + if !b.term.op.spec_is_terminator() {
        one_diag(
            DiagCode::TwoTerminators,
            Anchor::Block(BlockId(i as u32)),
            "block's `term` slot does not hold a terminator opcode"@,
        )
    } else {
        no_diag()
    }
}

pub open spec fn terminator_diags(d: DeclFmir, n: int) -> Seq<(DiagCode, Anchor, Seq<char>)>
    decreases n,
{
    if n <= 0 {
        no_diag()
    } else {
        terminator_diags(d, n - 1) + terminator_block(d, n - 1)
    }
}

/// Every block has a 32-bit id and an instruction range that ends inside the
/// 32-bit index space.
pub open spec fn ranges_fit(d: DeclFmir) -> bool {
    &&& d.blocks@.len() <= u32::MAX
    &&& forall|i: int| 0 <= i < d.blocks@.len() ==> (#[trigger] d.blocks@[i]).range_fits()
}

fn check_terminators(decl: &DeclFmir, out: &mut Vec<Diagnostic>)
    requires
        ranges_fit(*decl),
    ensures
        diag_keys(final(out)@) == diag_keys(old(out)@) + terminator_diags(*decl, decl.blocks@.len() as int),
{
    let blocks = decl.blocks.all_rows();
    let mut i: usize = 0;
    while i < blocks.len()
        invariant
            ranges_fit(*decl),
            blocks@.len() == decl.blocks@.len(),
            forall|k: int| 0 <= k < blocks@.len() ==> #[trigger] blocks@[k] == (BlockId(k as u32), decl.blocks@[k]),
            i <= blocks@.len(),
            diag_keys(out@) == diag_keys(old(out)@) + terminator_diags(*decl, i as int),
        decreases blocks@.len() - i,
    {
        let id = BlockId(i as u32);
        assert(blocks@[i as int].0 == id);
        let ghost before = diag_keys(out@);
        let strays = decl.blocks.stray_terminator_indices(id, &decl.insts);
        let mut k: usize = 0;
        while k < strays.len()
            invariant
                k <= strays@.len(),
                diag_keys(out@) == before + stray_keys(strays@.subrange(0, k as int)),
            decreases strays@.len() - k,
        {
            emit(
                out,
                DiagCode::TwoTerminators,
                Anchor::Inst(InstId(strays[k])),
                "block has a terminator-class op outside its `term` slot (two terminators)",
            );
            assert(stray_keys(strays@.subrange(0, k + 1)) =~= stray_keys(strays@.subrange(0, k as int)).push(
                (
                    DiagCode::TwoTerminators,
                    Anchor::Inst(InstId(strays@[k as int])),
                    "block has a terminator-class op outside its `term` slot (two terminators)"@,
                ),
            ));
            k += 1;
        }
        assert(strays@.subrange(0, k as int) =~= strays@);
        let term_op = decl.blocks.row(id).term.op;
        if !term_op.is_terminator() {
            emit(out, DiagCode::TwoTerminators, Anchor::Block(id), "block's `term` slot does not hold a terminator opcode");
        }
        assert(diag_keys(out@) =~= before + terminator_block(*decl, i as int));
        i += 1;
    }
}

// ---------------------------------------------------------------------------
// `tile.*`.

pub open spec fn tile_inst_diags(d: DeclFmir, n: int) -> Seq<(DiagCode, Anchor, Seq<char>)>
    decreases n,
{
    if n <= 0 {
        no_diag()
    } else {
        tile_inst_diags(d, n - 1) + if d.insts@[n - 1].op == Op::TileOp {
            one_diag(DiagCode::TileOpPresent, Anchor::Inst(InstId((n - 1) as u32)), "tile.* is not defined before M6"@)
        } else {
            no_diag()
        }
    }
}

pub open spec fn tile_block_diags(d: DeclFmir, n: int) -> Seq<(DiagCode, Anchor, Seq<char>)>
    decreases n,
{
    if n <= 0 {
        no_diag()
    } else {
        tile_block_diags(d, n - 1) + if d.blocks@[n - 1].term.op == Op::TileOp {
            one_diag(DiagCode::TileOpPresent, Anchor::Block(BlockId((n - 1) as u32)), "tile.* is not defined before M6"@)
        } else {
            no_diag()
        }
    }
}

fn check_tile_ops(decl: &DeclFmir, out: &mut Vec<Diagnostic>)
    ensures
        diag_keys(final(out)@) == diag_keys(old(out)@) + tile_inst_diags(*decl, decl.insts@.len() as int)
            + tile_block_diags(*decl, decl.blocks@.len() as int),
{
    let rows = decl.insts.all_rows();
    let mut i: usize = 0;
    while i < rows.len()
        invariant
            rows@.len() == decl.insts@.len(),
            forall|k: int| 0 <= k < rows@.len() ==> #[trigger] rows@[k] == (InstId(k as u32), decl.insts@[k]),
            i <= rows@.len(),
            diag_keys(out@) == diag_keys(old(out)@) + tile_inst_diags(*decl, i as int),
        decreases rows@.len() - i,
    {
        let (id, row) = rows[i];
        if row.op == Op::TileOp {
            emit(out, DiagCode::TileOpPresent, Anchor::Inst(id), "tile.* is not defined before M6");
        }
        i += 1;
    }
    let ghost mid = diag_keys(out@);
    let blocks = decl.blocks.all_rows();
    let mut i: usize = 0;
    while i < blocks.len()
        invariant
            blocks@.len() == decl.blocks@.len(),
            forall|k: int| 0 <= k < blocks@.len() ==> #[trigger] blocks@[k] == (BlockId(k as u32), decl.blocks@[k]),
            i <= blocks@.len(),
            diag_keys(out@) == mid + tile_block_diags(*decl, i as int),
        decreases blocks@.len() - i,
    {
        let (id, row) = blocks[i];
        if row.term.op == Op::TileOp {
            emit(out, DiagCode::TileOpPresent, Anchor::Block(id), "tile.* is not defined before M6");
        }
        i += 1;
    }
}

// ---------------------------------------------------------------------------
// Alias seeds.

pub open spec fn alias_diags(d: DeclFmir, n: int) -> Seq<(DiagCode, Anchor, Seq<char>)>
    decreases n,
{
    if n <= 0 {
        no_diag()
    } else {
        alias_diags(d, n - 1) + if d.insts@[n - 1].op.spec_is_memory_producing() && seed_at(d.insts.aliases@, n - 1)
            == AliasSeed::NoSeed {
            one_diag(
                DiagCode::MemoryOpMissingAliasSeed,
                Anchor::Inst(InstId((n - 1) as u32)),
                "memory-producing instruction has no alias seed"@,
            )
        } else {
            no_diag()
        }
    }
}

fn check_alias_seeds(decl: &DeclFmir, out: &mut Vec<Diagnostic>)
    ensures
        diag_keys(final(out)@) == diag_keys(old(out)@) + alias_diags(*decl, decl.insts@.len() as int),
{
    let rows = decl.insts.all_rows();
    let mut i: usize = 0;
    while i < rows.len()
        invariant
            rows@.len() == decl.insts@.len(),
            forall|k: int| 0 <= k < rows@.len() ==> #[trigger] rows@[k] == (InstId(k as u32), decl.insts@[k]),
            i <= rows@.len(),
            diag_keys(out@) == diag_keys(old(out)@) + alias_diags(*decl, i as int),
        decreases rows@.len() - i,
    {
        let (id, row) = rows[i];
        if row.op.is_memory_producing() && decl.insts.aliases.get(i) == AliasSeed::NoSeed {
            emit(out, DiagCode::MemoryOpMissingAliasSeed, Anchor::Inst(id), "memory-producing instruction has no alias seed");
        }
        i += 1;
    }
}

// ---------------------------------------------------------------------------
// Spawn regions without a capture list.

/// The decimal digits of `n`, most significant first.
pub open spec fn decimal(n: nat) -> Seq<char>
    decreases n,
{
    if n < 10 {
        seq![digit_char(n)]
    } else {
        decimal(n / 10) + seq![digit_char(n % 10)]
    }
}

pub open spec fn digit_char(d: nat) -> char {
    if d == 0 {
        '0'
    } else if d == 1 {
        '1'
    } else if d == 2 {
        '2'
    } else if d == 3 {
        '3'
    } else if d == 4 {
        '4'
    } else if d == 5 {
        '5'
    } else if d == 6 {
        '6'
    } else if d == 7 {
        '7'
    } else if d == 8 {
        '8'
    } else {
        '9'
    }
}

fn digit_str(d: u64) -> (r: &'static str)
    requires
        d < 10,
    ensures
        r@ == seq![digit_char(d as nat)],
{
    proof {
        reveal_strlit("0");
        reveal_strlit("1");
        reveal_strlit("2");
        reveal_strlit("3");
        reveal_strlit("4");
        reveal_strlit("5");
        reveal_strlit("6");
        reveal_strlit("7");
        reveal_strlit("8");
        reveal_strlit("9");
    }
    if d == 0 {
        "0"
    } else if d == 1 {
        "1"
    } else if d == 2 {
        "2"
    } else if d == 3 {
        "3"
    } else if d == 4 {
        "4"
    } else if d == 5 {
        "5"
    } else if d == 6 {
        "6"
    } else if d == 7 {
        "7"
    } else if d == 8 {
        "8"
    } else {
        "9"
    }
}

/// Appends the decimal digits of `n`.
pub(crate) fn push_decimal(s: &mut String, n: u64)
    ensures
        final(s)@ == old(s)@ + decimal(n as nat),
    decreases n,
{
    if n >= 10 {
        push_decimal(s, n / 10);
    }
    s.append(digit_str(n % 10));
}

/// The message for a spawn region with no capture list.
pub open spec fn spawn_message(id: u32) -> Seq<char> {
    "spawn region "@ + decimal(id as nat) + " has no capture list"@
}

fn spawn_region_message(id: u32) -> (r: String)
    ensures
        r@ == spawn_message(id),
{
    let mut s = String::from_str("spawn region ");
    push_decimal(&mut s, id as u64);
    s.append(" has no capture list");
    s
}

/// Does this instruction open region `region`?
pub open spec fn opens_region(row: InstRow, region: u32) -> bool {
    (row.op == Op::Spawn || row.op == Op::RegionEnter) && row.a == region
}

/// The first instruction at or after `j` that opens `region`.
pub open spec fn opener_from(insts: Seq<InstRow>, region: u32, j: int) -> Option<int>
    decreases insts.len() - j,
{
    if j < 0 || j >= insts.len() {
        None
    } else if opens_region(insts[j], region) {
        Some(j)
    } else {
        opener_from(insts, region, j + 1)
    }
}

/// Where a region's diagnostic points: the instruction that opens it, or the
/// declaration when none does.
pub open spec fn region_anchor_spec(d: DeclFmir, region: u32) -> Anchor {
    match opener_from(d.insts@, region, 0) {
        Some(j) => Anchor::Inst(InstId(j as u32)),
        None => Anchor::Decl,
    }
}

fn region_anchor(decl: &DeclFmir, region: u32) -> (r: Anchor)
    ensures
        r == region_anchor_spec(*decl, region),
{
    let rows = decl.insts.all_rows();
    let mut i: usize = 0;
    while i < rows.len()
        invariant
            rows@.len() == decl.insts@.len(),
            forall|k: int| 0 <= k < rows@.len() ==> #[trigger] rows@[k] == (InstId(k as u32), decl.insts@[k]),
            i <= rows@.len(),
            opener_from(decl.insts@, region, 0) == opener_from(decl.insts@, region, i as int),
        decreases rows@.len() - i,
    {
        let (id, row) = rows[i];
        if (row.op == Op::Spawn || row.op == Op::RegionEnter) && row.a == region {
            return Anchor::Inst(id);
        }
        i += 1;
    }
    Anchor::Decl
}

pub open spec fn region_diags(d: DeclFmir, n: int) -> Seq<(DiagCode, Anchor, Seq<char>)>
    decreases n,
{
    if n <= 0 {
        no_diag()
    } else {
        let row = d.regions.spec_rows()[n - 1];
        region_diags(d, n - 1) + if row.kind == RegionKind::Spawn && row.spec_captures_absent() {
            one_diag(
                DiagCode::DetachWithoutCaptures,
                region_anchor_spec(d, (n - 1) as u32),
                spawn_message((n - 1) as u32),
            )
        } else {
            no_diag()
        }
    }
}

fn check_region_captures(decl: &DeclFmir, out: &mut Vec<Diagnostic>)
    ensures
        diag_keys(final(out)@) == diag_keys(old(out)@) + region_diags(*decl, decl.regions.spec_rows().len() as int),
{
    let rows = decl.regions.all_rows();
    let mut i: usize = 0;
    while i < rows.len()
        invariant
            rows@.len() == decl.regions.spec_rows().len(),
            forall|k: int| 0 <= k < rows@.len() ==> #[trigger] rows@[k] == (RegionId(k as u32), decl.regions.spec_rows()[k]),
            i <= rows@.len(),
            diag_keys(out@) == diag_keys(old(out)@) + region_diags(*decl, i as int),
        decreases rows@.len() - i,
    {
        let id = rows[i].0;
        let ghost before = diag_keys(out@);
        if rows[i].1.kind == RegionKind::Spawn && rows[i].1.captures_absent() {
            let at = region_anchor(decl, id.0);
            let message = spawn_region_message(id.0);
            out.push(Diagnostic { code: DiagCode::DetachWithoutCaptures, at, message });
            assert(diag_keys(out@) =~= before.push((DiagCode::DetachWithoutCaptures, at, spawn_message(id.0))));
        }
        i += 1;
    }
}

// ---------------------------------------------------------------------------
// Secret propagation: an operation with a secret operand has a secret result.

/// The value a raw operand slot names, unless it holds the absent sentinel.
pub open spec fn present(raw: u32) -> Seq<ValId> {
    if raw == NO_OPERAND {
        Seq::empty()
    } else {
        seq![ValId(raw)]
    }
}

/// The value operands the propagation rule applies to: those of arithmetic,
/// logic, conversion, aggregate construction and projection. Place reads,
/// borrows and calls are outside it.
pub open spec fn propagation_operands(row: InstRow, d: DeclFmir) -> Seq<ValId> {
    match row.op {
        Op::Add(_) | Op::Sub(_) | Op::Mul(_) | Op::Div(_) | Op::Rem(_) | Op::Shl(_) | Op::Shr(_) | Op::Neg(_) =>
            present(row.a) + present(row.b),
        Op::Fadd(_) | Op::Fsub(_) | Op::Fmul(_) | Op::Fdiv(_) | Op::Frem(_) | Op::Fneg(_) => present(row.a) + present(
            row.b,
        ),
        Op::Icmp(_) | Op::Fcmp(_) | Op::And | Op::Or | Op::Xor | Op::Not => present(row.a) + present(row.b),
        Op::ConvChecked | Op::ConvWrap | Op::ConvSat | Op::ConvTrunc => present(row.a),
        Op::Field | Op::Discr | Op::Payload => present(row.a),
        Op::AggNew | Op::TupleNew | Op::VariantNew => clamped_slice(
            d.insts.operands@,
            core::ops::Range { start: row.a, end: row.b },
        ),
        _ => Seq::empty(),
    }
}

fn push_present(v: &mut Vec<ValId>, raw: u32)
    ensures
        final(v)@ == old(v)@ + present(raw),
{
    if raw != NO_OPERAND {
        v.push(ValId(raw));
    }
    assert(v@ =~= old(v)@ + present(raw));
}

fn copy_ids(s: &[ValId]) -> (r: Vec<ValId>)
    ensures
        r@ == s@,
{
    let mut v: Vec<ValId> = Vec::new();
    let mut i: usize = 0;
    while i < s.len()
        invariant
            i <= s@.len(),
            v@ == s@.subrange(0, i as int),
        decreases s@.len() - i,
    {
        v.push(s[i]);
        assert(s@.subrange(0, i + 1) =~= s@.subrange(0, i as int).push(s@[i as int]));
        i += 1;
    }
    assert(s@.subrange(0, i as int) =~= s@);
    v
}

fn propagation_operand_list(row: &InstRow, decl: &DeclFmir) -> (r: Vec<ValId>)
    ensures
        r@ == propagation_operands(*row, *decl),
{
    let mut v: Vec<ValId> = Vec::new();
    match row.op {
        Op::Add(_) | Op::Sub(_) | Op::Mul(_) | Op::Div(_) | Op::Rem(_) | Op::Shl(_) | Op::Shr(_) | Op::Neg(_) => {
            push_present(&mut v, row.a);
            push_present(&mut v, row.b);
            v
        },
        Op::Fadd(_) | Op::Fsub(_) | Op::Fmul(_) | Op::Fdiv(_) | Op::Frem(_) | Op::Fneg(_) => {
            push_present(&mut v, row.a);
            push_present(&mut v, row.b);
            v
        },
        Op::Icmp(_) | Op::Fcmp(_) | Op::And | Op::Or | Op::Xor | Op::Not => {
            push_present(&mut v, row.a);
            push_present(&mut v, row.b);
            v
        },
        Op::ConvChecked | Op::ConvWrap | Op::ConvSat | Op::ConvTrunc => {
            push_present(&mut v, row.a);
            v
        },
        Op::Field | Op::Discr | Op::Payload => {
            push_present(&mut v, row.a);
            v
        },
        Op::AggNew | Op::TupleNew | Op::VariantNew => copy_ids(decl.insts.args(row.a..row.b)),
        _ => v,
    }
}

/// Some value of `vs` is secret.
pub open spec fn any_secret(d: DeclFmir, vs: Seq<ValId>) -> bool {
    exists|k: int| 0 <= k < vs.len() && secret_val(d, #[trigger] vs[k])
}

fn any_is_secret(decl: &DeclFmir, vs: &[ValId]) -> (r: bool)
    ensures
        r == any_secret(*decl, vs@),
{
    let mut i: usize = 0;
    while i < vs.len()
        invariant
            i <= vs@.len(),
            forall|k: int| 0 <= k < i ==> !secret_val(*decl, #[trigger] vs@[k]),
        decreases vs@.len() - i,
    {
        if is_secret(decl, vs[i]) {
            return true;
        }
        i += 1;
    }
    false
}

/// The first value row at or after `j` defined by instruction `inst`.
pub open spec fn result_from(rows: Seq<ValRow>, inst: InstId, j: int) -> Option<ValRow>
    decreases rows.len() - j,
{
    if j < 0 || j >= rows.len() {
        None
    } else if spec_decode_def(rows[j].def) == ValDef::Inst(inst) {
        Some(rows[j])
    } else {
        result_from(rows, inst, j + 1)
    }
}

fn result_of(decl: &DeclFmir, inst: InstId) -> (r: Option<ValRow>)
    ensures
        r == result_from(decl.vals.spec_rows(), inst, 0),
{
    let rows = decl.vals.all_rows();
    let mut i: usize = 0;
    while i < rows.len()
        invariant
            rows@.len() == decl.vals.spec_rows().len(),
            forall|k: int| 0 <= k < rows@.len() ==> #[trigger] rows@[k] == (ValId(k as u32), decl.vals.spec_rows()[k]),
            i <= rows@.len(),
            result_from(decl.vals.spec_rows(), inst, 0) == result_from(decl.vals.spec_rows(), inst, i as int),
        decreases rows@.len() - i,
    {
        let row = rows[i].1;
        if row.def() == ValDef::Inst(inst) {
            return Some(row);
        }
        i += 1;
    }
    None
}

pub open spec fn propagation_row(d: DeclFmir, i: int) -> Seq<(DiagCode, Anchor, Seq<char>)> {
    let row = d.insts@[i];
    let ops = propagation_operands(row, d);
    if ops.len() > 0 && any_secret(d, ops) && (result_from(d.vals.spec_rows(), InstId(i as u32), 0) matches Some(
        v,
    ) && !v.flags.spec_has(SECRET)) {
        one_diag(
            DiagCode::SecretPropagationViolated,
            Anchor::Inst(InstId(i as u32)),
            "result is not secret despite a secret operand (ch05 Rule 6a)"@,
        )
    } else {
        no_diag()
    }
}

pub open spec fn propagation_diags(d: DeclFmir, n: int) -> Seq<(DiagCode, Anchor, Seq<char>)>
    decreases n,
{
    if n <= 0 {
        no_diag()
    } else {
        propagation_diags(d, n - 1) + propagation_row(d, n - 1)
    }
}

fn check_secret_propagation(decl: &DeclFmir, out: &mut Vec<Diagnostic>)
    ensures
        diag_keys(final(out)@) == diag_keys(old(out)@) + propagation_diags(*decl, decl.insts@.len() as int),
{
    let rows = decl.insts.all_rows();
    let mut i: usize = 0;
    while i < rows.len()
        invariant
            rows@.len() == decl.insts@.len(),
            forall|k: int| 0 <= k < rows@.len() ==> #[trigger] rows@[k] == (InstId(k as u32), decl.insts@[k]),
            i <= rows@.len(),
            diag_keys(out@) == diag_keys(old(out)@) + propagation_diags(*decl, i as int),
        decreases rows@.len() - i,
    {
        let (id, row) = rows[i];
        let operands = propagation_operand_list(&row, decl);
        if operands.len() > 0 && any_is_secret(decl, operands.as_slice()) {
            match result_of(decl, id) {
                Some(v) => {
                    if !v.is_secret() {
                        emit(
                            out,
                            DiagCode::SecretPropagationViolated,
                            Anchor::Inst(id),
                            "result is not secret despite a secret operand (ch05 Rule 6a)",
                        );
                    }
                },
                None => {},
            }
        }
        i += 1;
    }
}

// ---------------------------------------------------------------------------
// What a secret operand may not reach.

/// The secret-rejection diagnostics of one instruction or terminator,
/// anchored at `at`.
pub open spec fn rejection_row(d: DeclFmir, at: Anchor, row: InstRow) -> Seq<(DiagCode, Anchor, Seq<char>)> {
    let op = row.op;
    if op == Op::CondBr || op == Op::SwitchDiscr {
        if secret_slot(d, row.a) {
            one_diag(DiagCode::SecretBranchOrIndex, at, "branch on a secret operand"@)
        } else {
            no_diag()
        }
    } else if op == Op::Index {
        if secret_slot(d, row.b) {
            one_diag(DiagCode::SecretBranchOrIndex, at, "index derived from secret"@)
        } else {
            no_diag()
        }
    } else if op == Op::SliceRange {
        (if secret_slot(d, row.b) {
            one_diag(DiagCode::SecretBranchOrIndex, at, "slice bound derived from secret"@)
        } else {
            no_diag()
        }) + (if secret_slot(d, row.c) {
            one_diag(DiagCode::SecretBranchOrIndex, at, "slice bound derived from secret"@)
        } else {
            no_diag()
        })
    } else if op.spec_is_secret_rejected_trapping_op() {
        if secret_slot(d, row.a) || secret_slot(d, row.b) {
            one_diag(
                DiagCode::SecretTrappingOp,
                at,
                "trapping arithmetic (or conv_checked) on a secret operand: use wrap_/sat_/unchecked_"@,
            )
        } else {
            no_diag()
        }
    } else if op.spec_is_contract_check() {
        if secret_slot(d, row.a) {
            one_diag(DiagCode::SecretInContractCheck, at, "contract check on a secret operand"@)
        } else {
            no_diag()
        }
    } else if op == Op::Raise {
        no_diag()
    } else if op == Op::Intrinsic {
        if row.a < d.insts.calls@.len() && op.spec_is_host_intrinsic() && any_secret(
            d,
            clamped_slice(d.insts.operands@, d.insts.calls@[row.a as int].args),
        ) {
            one_diag(DiagCode::SecretIntrinsicArg, at, "secret argument to a host-effecting intrinsic"@)
        } else {
            no_diag()
        }
    } else if op == Op::Declassify && !d.is_unsafe_invariant {
        one_diag(DiagCode::DeclassifyRequiresUnsafe, at, "declassify outside @unsafe(invariant: ...)"@)
    } else {
        no_diag()
    }
}

fn check_one_secret_rejection(decl: &DeclFmir, at: Anchor, row: InstRow, out: &mut Vec<Diagnostic>)
    ensures
        diag_keys(final(out)@) == diag_keys(old(out)@) + rejection_row(*decl, at, row),
{
    let op = row.op;
    if op == Op::CondBr || op == Op::SwitchDiscr {
        if is_secret_slot(decl, row.a) {
            emit(out, DiagCode::SecretBranchOrIndex, at, "branch on a secret operand");
        }
    } else if op == Op::Index {
        if is_secret_slot(decl, row.b) {
            emit(out, DiagCode::SecretBranchOrIndex, at, "index derived from secret");
        }
    } else if op == Op::SliceRange {
        let ghost before = diag_keys(out@);
        if is_secret_slot(decl, row.b) {
            emit(out, DiagCode::SecretBranchOrIndex, at, "slice bound derived from secret");
        }
        if is_secret_slot(decl, row.c) {
            emit(out, DiagCode::SecretBranchOrIndex, at, "slice bound derived from secret");
        }
        assert(diag_keys(out@) =~= before + rejection_row(*decl, at, row));
    } else if op.is_secret_rejected_trapping_op() {
        if is_secret_slot(decl, row.a) || is_secret_slot(decl, row.b) {
            emit(
                out,
                DiagCode::SecretTrappingOp,
                at,
                "trapping arithmetic (or conv_checked) on a secret operand: use wrap_/sat_/unchecked_",
            );
        }
    } else if op.is_contract_check() {
        if is_secret_slot(decl, row.a) {
            emit(out, DiagCode::SecretInContractCheck, at, "contract check on a secret operand");
        }
    } else if op == Op::Raise {
    } else if op == Op::Intrinsic {
        let k = row.a as usize;
        if k < decl.insts.calls.len() && op.is_host_intrinsic() {
            let args = decl.insts.args(decl.insts.calls[k].args.start..decl.insts.calls[k].args.end);
            if any_is_secret(decl, args) {
                emit(out, DiagCode::SecretIntrinsicArg, at, "secret argument to a host-effecting intrinsic");
            }
        }
    } else if op == Op::Declassify && !decl.is_unsafe_invariant {
        emit(out, DiagCode::DeclassifyRequiresUnsafe, at, "declassify outside @unsafe(invariant: ...)");
    }
    assert(diag_keys(out@) =~= diag_keys(old(out)@) + rejection_row(*decl, at, row));
}

pub open spec fn rejection_inst_diags(d: DeclFmir, n: int) -> Seq<(DiagCode, Anchor, Seq<char>)>
    decreases n,
{
    if n <= 0 {
        no_diag()
    } else {
        rejection_inst_diags(d, n - 1) + rejection_row(d, Anchor::Inst(InstId((n - 1) as u32)), d.insts@[n - 1])
    }
}

/// Block `bb` exists and is terminated by `raise`.
pub open spec fn leads_to_raise(d: DeclFmir, bb: u32) -> bool {
    bb != NO_OPERAND && bb < d.blocks@.len() && d.blocks@[bb as int].term.op == Op::Raise
}

/// A `cond_br` on a secret condition with a `raise` block as a target.
pub open spec fn raise_condition(d: DeclFmir, i: int) -> Seq<(DiagCode, Anchor, Seq<char>)> {
    let row = d.blocks@[i].term;
    if row.op == Op::CondBr && secret_slot(d, row.a) && (leads_to_raise(d, row.b) || leads_to_raise(d, row.c)) {
        one_diag(
            DiagCode::SecretRaiseCondition,
            Anchor::Block(BlockId(i as u32)),
            "raise is reached only through a secret-derived branch"@,
        )
    } else {
        no_diag()
    }
}

fn is_raise_block(decl: &DeclFmir, bb: u32) -> (r: bool)
    ensures
        r == leads_to_raise(*decl, bb),
{
    if bb == NO_OPERAND {
        return false;
    }
    match decl.blocks.try_row(BlockId(bb)) {
        Some(target) => target.term.op == Op::Raise,
        None => false,
    }
}

pub open spec fn rejection_block_diags(d: DeclFmir, n: int) -> Seq<(DiagCode, Anchor, Seq<char>)>
    decreases n,
{
    if n <= 0 {
        no_diag()
    } else {
        rejection_block_diags(d, n - 1) + rejection_row(d, Anchor::Block(BlockId((n - 1) as u32)), d.blocks@[n
            - 1].term) + raise_condition(d, n - 1)
    }
}

fn check_secret_rejection(decl: &DeclFmir, out: &mut Vec<Diagnostic>)
    ensures
        diag_keys(final(out)@) == diag_keys(old(out)@) + rejection_inst_diags(*decl, decl.insts@.len() as int)
            + rejection_block_diags(*decl, decl.blocks@.len() as int),
{
    let rows = decl.insts.all_rows();
    let mut i: usize = 0;
    while i < rows.len()
        invariant
            rows@.len() == decl.insts@.len(),
            forall|k: int| 0 <= k < rows@.len() ==> #[trigger] rows@[k] == (InstId(k as u32), decl.insts@[k]),
            i <= rows@.len(),
            diag_keys(out@) == diag_keys(old(out)@) + rejection_inst_diags(*decl, i as int),
        decreases rows@.len() - i,
    {
        let (id, row) = rows[i];
        check_one_secret_rejection(decl, Anchor::Inst(id), row, out);
        i += 1;
    }
    let ghost mid = diag_keys(out@);
    let blocks = decl.blocks.all_rows();
    let mut i: usize = 0;
    while i < blocks.len()
        invariant
            blocks@.len() == decl.blocks@.len(),
            forall|k: int| 0 <= k < blocks@.len() ==> #[trigger] blocks@[k] == (BlockId(k as u32), decl.blocks@[k]),
            i <= blocks@.len(),
            diag_keys(out@) == mid + rejection_block_diags(*decl, i as int),
        decreases blocks@.len() - i,
    {
        let (block_id, block) = blocks[i];
        let row = block.term;
        let ghost before = diag_keys(out@);
        check_one_secret_rejection(decl, Anchor::Block(block_id), row, out);
        let ghost middle = diag_keys(out@);
        if row.op == Op::CondBr && is_secret_slot(decl, row.a) && (is_raise_block(decl, row.b) || is_raise_block(decl, row.c)) {
            emit(out, DiagCode::SecretRaiseCondition, Anchor::Block(block_id), "raise is reached only through a secret-derived branch");
        }
        assert(diag_keys(out@) =~= middle + raise_condition(*decl, i as int));
        i += 1;
    }
}

// ---------------------------------------------------------------------------
// The verifier.

/// Every diagnostic of the declaration, in check order: missing fields, two
/// terminators, `tile.*`, missing alias seeds, spawn regions without
/// captures, secret propagation, then secret rejection.
pub open spec fn diagnostics(d: DeclFmir) -> Seq<(DiagCode, Anchor, Seq<char>)> {
    secret_field_diags(d, d.vals.spec_rows().len() as int) + terminator_diags(d, d.blocks@.len() as int)
        + tile_inst_diags(d, d.insts@.len() as int) + tile_block_diags(d, d.blocks@.len() as int) + alias_diags(
        d,
        d.insts@.len() as int,
    ) + region_diags(d, d.regions.spec_rows().len() as int) + propagation_diags(d, d.insts@.len() as int)
        + rejection_inst_diags(d, d.insts@.len() as int) + rejection_block_diags(d, d.blocks@.len() as int)
}

/// Runs every check and returns every diagnostic found; no check stops the
/// others.
pub fn verify(decl: &DeclFmir) -> (r: Vec<Diagnostic>)
    requires
        ranges_fit(*decl),
    ensures
        diag_keys(r@) == diagnostics(*decl),
{
    let mut out: Vec<Diagnostic> = Vec::new();
    assert(diag_keys(out@) =~= Seq::<(DiagCode, Anchor, Seq<char>)>::empty());
    check_secret_fields(decl, &mut out);
    check_terminators(decl, &mut out);
    check_tile_ops(decl, &mut out);
    check_alias_seeds(decl, &mut out);
    check_region_captures(decl, &mut out);
    check_secret_propagation(decl, &mut out);
    check_secret_rejection(decl, &mut out);
    assert(diag_keys(out@) =~= diagnostics(*decl));
    out
}

/// The declaration passes every check.
pub fn is_ok(decl: &DeclFmir) -> (r: bool)
    requires
        ranges_fit(*decl),
    ensures
        r == (diagnostics(*decl).len() == 0),
{
    let diags = verify(decl);
    diags.len() == 0
}

// ---------------------------------------------------------------------------
// The propagation rule, stated over the declaration.

/// The first value row at or after `k` defined by `inst` is row `j` when no
/// row between them is.
proof fn lemma_result_from_first(rows: Seq<ValRow>, inst: InstId, k: int, j: int)
    requires
        0 <= k <= j < rows.len(),
        spec_decode_def(rows[j].def) == ValDef::Inst(inst),
        forall|x: int| k <= x < j ==> spec_decode_def(#[trigger] rows[x].def) != ValDef::Inst(inst),
    ensures
        result_from(rows, inst, k) == Some(rows[j]),
    decreases j - k,
{
    if k < j {
        lemma_result_from_first(rows, inst, k + 1, j);
    }
}

/// Each instruction's propagation diagnostics are among those of every
/// longer prefix of the instructions.
proof fn lemma_propagation_row_kept(d: DeclFmir, i: int, n: int, x: (DiagCode, Anchor, Seq<char>))
    requires
        0 <= i < n,
        propagation_row(d, i).contains(x),
    ensures
        propagation_diags(d, n).contains(x),
    decreases n,
{
    let prev = propagation_diags(d, n - 1);
    let row = propagation_row(d, n - 1);
    assert(propagation_diags(d, n) == prev + row);
    if i < n - 1 {
        lemma_propagation_row_kept(d, i, n - 1, x);
        let t = choose|t: int| 0 <= t < prev.len() && prev[t] == x;
        assert((prev + row)[t] == x);
    } else {
        let t = choose|t: int| 0 <= t < row.len() && row[t] == x;
        assert((prev + row)[prev.len() + t] == x);
    }
}

/// The value-to-value operations the rule covers that read their operands
/// from the `a` and `b` slots: arithmetic, float arithmetic, comparison and
/// logic.
pub open spec fn reads_two_slots(op: Op) -> bool {
    match op {
        Op::Add(_) | Op::Sub(_) | Op::Mul(_) | Op::Div(_) | Op::Rem(_) | Op::Shl(_) | Op::Shr(_) | Op::Neg(_) => true,
        Op::Fadd(_) | Op::Fsub(_) | Op::Fmul(_) | Op::Fdiv(_) | Op::Frem(_) | Op::Fneg(_) => true,
        Op::Icmp(_) | Op::Fcmp(_) | Op::And | Op::Or | Op::Xor | Op::Not => true,
        _ => false,
    }
}

/// The covered operations that read one operand from slot `a`: conversion
/// and projection.
pub open spec fn reads_one_slot(op: Op) -> bool {
    match op {
        Op::ConvChecked | Op::ConvWrap | Op::ConvSat | Op::ConvTrunc | Op::Field | Op::Discr | Op::Payload => true,
        _ => false,
    }
}

/// The covered operations that build a value from the argument list
/// `a..b`.
pub open spec fn reads_arg_list(op: Op) -> bool {
    match op {
        Op::AggNew | Op::TupleNew | Op::VariantNew => true,
        _ => false,
    }
}

/// Some value of the spilled argument list `a..b` of an instruction is
/// secret.
pub open spec fn secret_arg(d: DeclFmir, row: InstRow) -> bool {
    let args = clamped_slice(d.insts.operands@, core::ops::Range { start: row.a, end: row.b });
    exists|k: int| 0 <= k < args.len() && secret_val(d, #[trigger] args[k])
}

/// The instruction is one the rule covers and one of the values it reads
/// is secret.
pub open spec fn has_secret_input(d: DeclFmir, row: InstRow) -> bool {
    ||| reads_two_slots(row.op) && (secret_slot(d, row.a) || secret_slot(d, row.b))
    ||| reads_one_slot(row.op) && secret_slot(d, row.a)
    ||| reads_arg_list(row.op) && secret_arg(d, row)
}

/// The diagnostic the rule gives an instruction.
pub open spec fn propagation_violation(i: int) -> (DiagCode, Anchor, Seq<char>) {
    (
        DiagCode::SecretPropagationViolated,
        Anchor::Inst(InstId(i as u32)),
        "result is not secret despite a secret operand (ch05 Rule 6a)"@,
    )
}

/// Which of the rule's inputs are secret decides whether it fires, slot by
/// slot.
proof fn lemma_secret_input_is_secret_operand(d: DeclFmir, row: InstRow)
    ensures
        (propagation_operands(row, d).len() > 0 && any_secret(d, propagation_operands(row, d))) == has_secret_input(
            d,
            row,
        ),
{
    let ops = propagation_operands(row, d);
    if reads_two_slots(row.op) {
        assert(ops == present(row.a) + present(row.b));
        let t = present(row.a).len() as int;
        if secret_slot(d, row.a) {
            assert(secret_val(d, ops[0]));
        } else if secret_slot(d, row.b) {
            assert(secret_val(d, ops[t]));
        }
        if any_secret(d, ops) {
            let k = choose|k: int| 0 <= k < ops.len() && secret_val(d, #[trigger] ops[k]);
            if k < t {
                assert(ops[k] == ValId(row.a));
            } else {
                assert(ops[k] == ValId(row.b));
            }
        }
    } else if reads_one_slot(row.op) {
        assert(ops == present(row.a));
        if secret_slot(d, row.a) {
            assert(secret_val(d, ops[0]));
        }
    } else if reads_arg_list(row.op) {
        let args = clamped_slice(d.insts.operands@, core::ops::Range { start: row.a, end: row.b });
        assert(ops == args);
        if secret_arg(d, row) {
            let k = choose|k: int| 0 <= k < args.len() && secret_val(d, #[trigger] args[k]);
            assert(secret_val(d, ops[k]));
        }
    } else {
        assert(ops.len() == 0);
    }
}

/// Secret data flows through every covered operation: when an instruction
/// of arithmetic (any opcode, any mode), float arithmetic, comparison or
/// logic has a secret value in either operand slot, a conversion or
/// projection has one in its operand slot, or an aggregate construction has
/// one among its arguments, and the value the instruction defines (the first
/// value row naming it) is not marked secret, the verifier reports the
/// violation at that instruction, and the declaration does not pass.
pub proof fn lemma_secret_operand_makes_secret_result(d: DeclFmir, i: int, j: int)
    requires
        0 <= i < d.insts@.len(),
        i <= u32::MAX,
        has_secret_input(d, d.insts@[i]),
        0 <= j < d.vals.spec_rows().len(),
        spec_decode_def(d.vals.spec_rows()[j].def) == ValDef::Inst(InstId(i as u32)),
        forall|k: int|
            0 <= k < j ==> spec_decode_def(#[trigger] d.vals.spec_rows()[k].def) != ValDef::Inst(InstId(i as u32)),
        !d.vals.spec_rows()[j].flags.spec_has(SECRET),
    ensures
        diagnostics(d).contains(propagation_violation(i)),
        diagnostics(d).len() > 0,
{
    let row = d.insts@[i];
    let rows = d.vals.spec_rows();
    let x = propagation_violation(i);
    lemma_secret_input_is_secret_operand(d, row);
    lemma_result_from_first(rows, InstId(i as u32), 0, j);
    assert(propagation_row(d, i) == one_diag(x.0, x.1, x.2));
    assert(propagation_row(d, i)[0] == x);
    let n = d.insts@.len() as int;
    lemma_propagation_row_kept(d, i, n, x);
    let pre = secret_field_diags(d, d.vals.spec_rows().len() as int) + terminator_diags(d, d.blocks@.len() as int)
        + tile_inst_diags(d, d.insts@.len() as int) + tile_block_diags(d, d.blocks@.len() as int) + alias_diags(
        d,
        d.insts@.len() as int,
    ) + region_diags(d, d.regions.spec_rows().len() as int);
    let mid = propagation_diags(d, n);
    let post = rejection_inst_diags(d, d.insts@.len() as int) + rejection_block_diags(d, d.blocks@.len() as int);
    assert(diagnostics(d) =~= pre + mid + post);
    let t = choose|t: int| 0 <= t < mid.len() && mid[t] == x;
    assert((pre + mid + post)[pre.len() + t] == x);
}

/// The rule reports nothing else: each of its diagnostics names one
/// instruction among the first `n`, one the rule covers with a secret input,
/// that defines a value which is not marked secret.
pub proof fn lemma_propagation_reports_only_violations(d: DeclFmir, n: int, x: (DiagCode, Anchor, Seq<char>))
    requires
        0 <= n <= d.insts@.len(),
        propagation_diags(d, n).contains(x),
    ensures
        exists|i: int|
            0 <= i < n && x == propagation_violation(i) && has_secret_input(d, #[trigger] d.insts@[i]) && (result_from(
                d.vals.spec_rows(),
                InstId(i as u32),
                0,
            ) matches Some(v) && !v.flags.spec_has(SECRET)),
    decreases n,
{
    let prev = propagation_diags(d, n - 1);
    let row = propagation_row(d, n - 1);
    assert(propagation_diags(d, n) == prev + row);
    let t = choose|t: int| 0 <= t < (prev + row).len() && (prev + row)[t] == x;
    if t < prev.len() {
        assert(prev[t] == x);
        lemma_propagation_reports_only_violations(d, n - 1, x);
    } else {
        assert(row[t - prev.len()] == x);
        lemma_secret_input_is_secret_operand(d, d.insts@[n - 1]);
        assert(x == propagation_violation(n - 1));
    }
}

} // verus!
