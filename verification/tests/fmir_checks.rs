use fors::fir::defpath::DeclKeyId;
use fors::fir::sig::{Conv, FnSigId};
use fors::fir::ty::ty_unit;
use fors::fmir::alias::AliasSeed;
use fors::fmir::block::{BlockPool, BlockRow};
use fors::fmir::canon::canonicalize;
use fors::fmir::constpool::{ConstPool, ConstValue};
use fors::fmir::decl::DeclFmir;
use fors::fmir::diag::DiagCode;
use fors::fmir::encode::{from_bytes, to_bytes};
use fors::fmir::flags::{ValFlags, CT_UNSPECIFIED, SECRET_UNSPECIFIED};
use fors::fmir::ids::{BlockId, BrandId, PlaceId, ScopeId, SiteId, ValId};
use fors::fmir::inst::{CallRow, Callee, InstPool, InstRow};
use fors::fmir::op::{ArithMode, Op, NO_OPERAND};
use fors::fmir::region::{RegionKind, RegionRow};
use fors::fmir::value::{ValDef, ValRow};
use fors::fmir::verify::{is_ok, verify};
use fors::index::Symbol;

fn canonical_bytes(d: &DeclFmir) -> Vec<u8> {
    to_bytes(&canonicalize(d.clone()))
}

fn plain(op: Op) -> InstRow {
    InstRow {
        op,
        a: NO_OPERAND,
        b: NO_OPERAND,
        c: NO_OPERAND,
        ty: ty_unit(),
        site: SiteId(0),
    }
}

#[test]
fn empty_well_formed_decl_is_ok() {
    let decl = DeclFmir::empty(DeclKeyId(0), FnSigId(0));
    assert!(is_ok(&decl), "{:?}", verify(&decl));
}

#[test]
fn missing_secret_field_is_rejected() {
    let mut decl = DeclFmir::empty(DeclKeyId(0), FnSigId(0));
    let mut row = ValRow::new(ty_unit(), false, 0, ValDef::Param(0));
    row.flags = ValFlags(SECRET_UNSPECIFIED);
    decl.push_val(row);
    let diags = verify(&decl);
    assert!(
        diags.iter().any(|d| d.code == DiagCode::MissingSecretField),
        "{diags:?}"
    );
}

#[test]
fn missing_ct_region_is_rejected() {
    let mut decl = DeclFmir::empty(DeclKeyId(0), FnSigId(0));
    let row = ValRow {
        ty: ty_unit(),
        flags: ValFlags::new(false),
        ct: CT_UNSPECIFIED,
        def: 0,
    };
    decl.push_val(row);
    let diags = verify(&decl);
    assert!(
        diags.iter().any(|d| d.code == DiagCode::MissingCtRegion),
        "{diags:?}"
    );
}

#[test]
fn secret_add_rejected_unless_result_marked_secret() {
    let mut decl = DeclFmir::empty(DeclKeyId(0), FnSigId(0));
    let secret = decl.push_val(ValRow::new(ty_unit(), true, 0, ValDef::Param(0)));
    let one = decl.push_val(ValRow::new(ty_unit(), false, 0, ValDef::Param(1)));
    let add = InstRow {
        op: Op::Add(ArithMode::Trap),
        a: secret.0,
        b: one.0,
        c: NO_OPERAND,
        ty: ty_unit(),
        site: SiteId(0),
    };
    let add_id = decl.push_inst(add, AliasSeed::NoSeed);
    decl.push_val(ValRow::new(ty_unit(), false, 0, ValDef::Inst(add_id)));
    let diags = verify(&decl);
    assert!(
        diags
            .iter()
            .any(|d| d.code == DiagCode::SecretPropagationViolated),
        "{diags:?}"
    );
}

#[test]
fn secret_add_accepted_when_result_is_marked_secret() {
    let mut decl = DeclFmir::empty(DeclKeyId(0), FnSigId(0));
    let secret = decl.push_val(ValRow::new(ty_unit(), true, 0, ValDef::Param(0)));
    let one = decl.push_val(ValRow::new(ty_unit(), false, 0, ValDef::Param(1)));
    let add = InstRow {
        op: Op::Add(ArithMode::Wrap),
        a: secret.0,
        b: one.0,
        c: NO_OPERAND,
        ty: ty_unit(),
        site: SiteId(0),
    };
    let add_id = decl.push_inst(add, AliasSeed::NoSeed);
    decl.push_val(ValRow::new(ty_unit(), true, 0, ValDef::Inst(add_id)));
    assert!(is_ok(&decl), "{:?}", verify(&decl));
}

#[test]
fn secret_trapping_add_is_rejected_but_wrap_add_is_accepted() {
    for (mode, expect_ok) in [(ArithMode::Trap, false), (ArithMode::Wrap, true)] {
        let mut decl = DeclFmir::empty(DeclKeyId(0), FnSigId(0));
        let secret = decl.push_val(ValRow::new(ty_unit(), true, 0, ValDef::Param(0)));
        let one = decl.push_val(ValRow::new(ty_unit(), false, 0, ValDef::Param(1)));
        let add = InstRow {
            op: Op::Add(mode),
            a: secret.0,
            b: one.0,
            c: NO_OPERAND,
            ty: ty_unit(),
            site: SiteId(0),
        };
        let add_id = decl.push_inst(add, AliasSeed::NoSeed);
        decl.push_val(ValRow::new(ty_unit(), true, 0, ValDef::Inst(add_id)));
        let diags = verify(&decl);
        let has_trapping_diag = diags.iter().any(|d| d.code == DiagCode::SecretTrappingOp);
        assert_eq!(!has_trapping_diag, expect_ok, "mode {mode:?}: {diags:?}");
    }
}

#[test]
fn branch_on_secret_is_rejected() {
    let mut decl = DeclFmir::empty(DeclKeyId(0), FnSigId(0));
    let secret_cond = decl.push_val(ValRow::new(ty_unit(), true, 0, ValDef::Param(0)));
    let target = decl.blocks.push(BlockRow {
        first_inst: 0,
        inst_len: 0,
        term: plain(Op::Unreachable),
        scope: ScopeId(0),
    });
    decl.entry = decl.blocks.push(BlockRow {
        first_inst: 0,
        inst_len: 0,
        term: InstRow {
            op: Op::CondBr,
            a: secret_cond.0,
            b: target.0,
            c: target.0,
            ty: ty_unit(),
            site: SiteId(0),
        },
        scope: ScopeId(0),
    });
    let diags = verify(&decl);
    assert!(
        diags
            .iter()
            .any(|d| d.code == DiagCode::SecretBranchOrIndex),
        "{diags:?}"
    );
}

#[test]
fn declassify_outside_unsafe_is_rejected_but_accepted_inside_it() {
    for (is_unsafe, expect_ok) in [(false, false), (true, true)] {
        let mut decl = DeclFmir::empty(DeclKeyId(0), FnSigId(0));
        decl.is_unsafe_invariant = is_unsafe;
        let secret = decl.push_val(ValRow::new(ty_unit(), true, 0, ValDef::Param(0)));
        let inst = InstRow {
            op: Op::Declassify,
            a: secret.0,
            b: NO_OPERAND,
            c: NO_OPERAND,
            ty: ty_unit(),
            site: SiteId(0),
        };
        decl.push_inst(inst, AliasSeed::NoSeed);
        let diags = verify(&decl);
        let rejected = diags
            .iter()
            .any(|d| d.code == DiagCode::DeclassifyRequiresUnsafe);
        assert_eq!(!rejected, expect_ok, "is_unsafe={is_unsafe}: {diags:?}");
    }
}

#[test]
fn tile_op_is_rejected() {
    let mut decl = DeclFmir::empty(DeclKeyId(0), FnSigId(0));
    decl.push_inst(plain(Op::TileOp), AliasSeed::NoSeed);
    let diags = verify(&decl);
    assert!(
        diags.iter().any(|d| d.code == DiagCode::TileOpPresent),
        "{diags:?}"
    );
}

#[test]
fn two_terminators_in_one_block_is_rejected() {
    let mut decl = DeclFmir::empty(DeclKeyId(0), FnSigId(0));
    let stray = decl.insts.push(plain(Op::Ret), AliasSeed::NoSeed);
    assert_eq!(stray.0, 0);
    let mut entry = decl.blocks.row(decl.entry);
    entry.first_inst = 0;
    entry.inst_len = 1;
    let mut blocks = BlockPool::new();
    let new_entry = blocks.push(entry);
    decl.blocks = blocks;
    decl.entry = new_entry;
    let diags = verify(&decl);
    assert!(
        diags.iter().any(|d| d.code == DiagCode::TwoTerminators),
        "{diags:?}"
    );
}

#[test]
fn memory_op_without_alias_seed_is_rejected() {
    let mut decl = DeclFmir::empty(DeclKeyId(0), FnSigId(0));
    decl.push_inst(plain(Op::Alloc), AliasSeed::NoSeed);
    let diags = verify(&decl);
    assert!(
        diags
            .iter()
            .any(|d| d.code == DiagCode::MemoryOpMissingAliasSeed),
        "{diags:?}"
    );
}

#[test]
fn spawn_region_without_captures_is_rejected() {
    let mut decl = DeclFmir::empty(DeclKeyId(0), FnSigId(0));
    decl.regions.push(RegionRow {
        kind: RegionKind::Spawn,
        captures: RegionRow::absent_captures(),
        brand: BrandId::none(),
    });
    let diags = verify(&decl);
    assert!(
        diags
            .iter()
            .any(|d| d.code == DiagCode::DetachWithoutCaptures),
        "{diags:?}"
    );
}

#[test]
fn spawn_region_with_an_explicit_empty_capture_list_is_accepted() {
    let mut decl = DeclFmir::empty(DeclKeyId(0), FnSigId(0));
    decl.regions.push(RegionRow {
        kind: RegionKind::Spawn,
        captures: 0..0,
        brand: BrandId::none(),
    });
    assert!(is_ok(&decl), "{:?}", verify(&decl));
}

#[test]
fn empty_decl_round_trips() {
    let decl = DeclFmir::empty(DeclKeyId(3), FnSigId(4));
    let bytes = to_bytes(&decl);
    let decoded = from_bytes(&bytes).unwrap();
    assert_eq!(to_bytes(&decoded), bytes);
}

#[test]
fn a_value_round_trips() {
    let mut decl = DeclFmir::empty(DeclKeyId(0), FnSigId(0));
    decl.push_val(ValRow::new(ty_unit(), true, 5, ValDef::Param(2)));
    let bytes = to_bytes(&decl);
    let decoded = from_bytes(&bytes).unwrap();
    assert_eq!(to_bytes(&decoded), bytes);
}

#[test]
fn hash_changes_on_operand_edit() {
    let mut a = DeclFmir::empty(DeclKeyId(0), FnSigId(0));
    a.push_val(ValRow::new(ty_unit(), false, 0, ValDef::Param(0)));
    let mut b = DeclFmir::empty(DeclKeyId(0), FnSigId(0));
    b.push_val(ValRow::new(ty_unit(), true, 0, ValDef::Param(0)));
    assert_ne!(canonical_bytes(&a), canonical_bytes(&b));
}

#[test]
fn hash_is_stable_for_the_same_decl() {
    let decl = DeclFmir::empty(DeclKeyId(1), FnSigId(2));
    assert_eq!(canonical_bytes(&decl), canonical_bytes(&decl));
}

#[test]
fn hash_is_invariant_under_block_renumbering() {

    fn plain(op: Op) -> InstRow {
        InstRow {
            op,
            a: NO_OPERAND,
            b: NO_OPERAND,
            c: NO_OPERAND,
            ty: ty_unit(),
            site: SiteId(0),
        }
    }

    fn br_to(target: BlockId) -> InstRow {
        InstRow {
            op: Op::Br,
            a: target.0,
            b: NO_OPERAND,
            c: NO_OPERAND,
            ty: ty_unit(),
            site: SiteId(0),
        }
    }
    fn leaf_row() -> BlockRow {
        BlockRow {
            first_inst: 0,
            inst_len: 0,
            term: plain(Op::Unreachable),
            scope: ScopeId(0),
        }
    }

    let mut a = DeclFmir::empty(DeclKeyId(0), FnSigId(0));
    let mut blocks = BlockPool::new();
    let leaf = blocks.push(leaf_row());
    let mid = blocks.push(BlockRow {
        first_inst: 0,
        inst_len: 0,
        term: br_to(leaf),
        scope: ScopeId(0),
    });
    let entry = blocks.push(BlockRow {
        first_inst: 0,
        inst_len: 0,
        term: br_to(mid),
        scope: ScopeId(0),
    });
    a.blocks = blocks;
    a.entry = entry;

    let mut b = DeclFmir::empty(DeclKeyId(0), FnSigId(0));
    let mut blocks = BlockPool::new();
    let mid_id = BlockId(0);
    let leaf_id = BlockId(1);
    let _ = blocks.push(BlockRow {
        first_inst: 0,
        inst_len: 0,
        term: br_to(leaf_id),
        scope: ScopeId(0),
    });
    let _ = blocks.push(leaf_row());
    let entry = blocks.push(BlockRow {
        first_inst: 0,
        inst_len: 0,
        term: br_to(mid_id),
        scope: ScopeId(0),
    });
    b.blocks = blocks;
    b.entry = entry;

    assert_eq!(
        canonical_bytes(&a),
        canonical_bytes(&b),
        "isomorphic graphs with different raw BlockIds must hash equal"
    );
}

#[test]
fn hash_changes_when_a_call_argument_changes() {

    fn build(arg: ValId) -> DeclFmir {
        let mut d = DeclFmir::empty(DeclKeyId(0), FnSigId(0));
        let args = d.insts.push_operands(&[arg], &[Conv::Let]);
        let call_idx = d.insts.push_call(CallRow {
            callee: Callee::Intrinsic(Symbol(0)),
            args,
        });
        let inst = InstRow {
            op: Op::Intrinsic,
            a: call_idx,
            b: NO_OPERAND,
            c: NO_OPERAND,
            ty: ty_unit(),
            site: SiteId(0),
        };
        d.push_inst(inst, AliasSeed::NoSeed);
        d
    }
    let a = build(ValId(0));
    let b = build(ValId(1));
    assert_ne!(canonical_bytes(&a), canonical_bytes(&b));
}

#[test]
fn well_formed_block_has_no_stray_terminator() {
    let mut insts = InstPool::new();
    insts.push(plain(Op::Add(ArithMode::Trap)), AliasSeed::NoSeed);
    let mut blocks = BlockPool::new();
    let id = blocks.push(BlockRow {
        first_inst: 0,
        inst_len: 1,
        term: plain(Op::Ret),
        scope: ScopeId::none(),
    });
    assert!(blocks.row(id).term_is_well_formed());
    assert!(blocks.stray_terminator_indices(id, &insts).is_empty());
}

#[test]
fn a_terminator_smuggled_into_the_regular_range_is_a_stray() {
    let mut insts = InstPool::new();
    insts.push(plain(Op::Add(ArithMode::Trap)), AliasSeed::NoSeed);
    insts.push(plain(Op::Ret), AliasSeed::NoSeed);
    let mut blocks = BlockPool::new();
    let id = blocks.push(BlockRow {
        first_inst: 0,
        inst_len: 2,
        term: plain(Op::Br),
        scope: ScopeId::none(),
    });
    assert_eq!(blocks.stray_terminator_indices(id, &insts), vec![1]);
}

#[test]
fn equal_values_intern_to_the_same_id() {
    let mut pool = ConstPool::new();
    let a = pool.intern(ConstValue::Int(7));
    let b = pool.intern(ConstValue::Int(7));
    let c = pool.intern(ConstValue::Int(8));
    assert_eq!(a, b);
    assert_ne!(a, c);
    assert_eq!(pool.len(), 2);
}

fn row(op: Op) -> InstRow {
    InstRow {
        op,
        a: NO_OPERAND,
        b: NO_OPERAND,
        c: NO_OPERAND,
        ty: ty_unit(),
        site: SiteId(0),
    }
}

#[test]
fn push_keeps_rows_and_aliases_in_lockstep() {
    let mut pool = InstPool::new();
    pool.push(row(Op::Add(ArithMode::Trap)), AliasSeed::NoSeed);
    pool.push(row(Op::Alloc), AliasSeed::Own(PlaceId(0)));
    assert_eq!(pool.len(), 2);
    assert_eq!(pool.aliases.get(1), AliasSeed::Own(PlaceId(0)));
}

#[test]
fn call_args_and_convs_stay_aligned() {
    let mut pool = InstPool::new();
    let range = pool.push_operands(&[ValId(1), ValId(2)], &[Conv::Let, Conv::Inout]);
    assert_eq!(pool.args(range.clone()), &[ValId(1), ValId(2)]);
    assert_eq!(
        &pool.arg_convs[range.start as usize..range.end as usize],
        &[Conv::Let, Conv::Inout]
    );
}
