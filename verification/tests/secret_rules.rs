
use fors::fir::defpath::DeclKeyId;
use fors::fir::sig::FnSigId;
use fors::fir::ty::ty_unit;
use fors::fmir::alias::AliasSeed;
use fors::fmir::block::BlockRow;
use fors::fmir::decl::DeclFmir;
use fors::fmir::diag::DiagCode;
use fors::fmir::flags::{CT_UNSPECIFIED, SECRET_UNSPECIFIED, ValFlags};
use fors::fmir::ids::{ScopeId, SiteId};
use fors::fmir::inst::InstRow;
use fors::fmir::op::{ArithMode, NO_OPERAND, Op};
use fors::fmir::value::{ValDef, ValRow};
use fors::fmir::verify::verify;

fn has(decl: &DeclFmir, code: DiagCode) -> bool {
    verify(decl).iter().any(|d| d.code == code)
}

fn plain(op: Op) -> InstRow {
    InstRow {
        op,
        a: NO_OPERAND,
        b: NO_OPERAND,
        c: NO_OPERAND,
        ty: ty_unit(),
        site: SiteId(0),
    }
}

#[test]
fn secret_propagates() {
    let mut decl = DeclFmir::empty(DeclKeyId(0), FnSigId(0));
    let s = decl.push_val(ValRow::new(ty_unit(), true, 0, ValDef::Param(0)));
    let one = decl.push_val(ValRow::new(ty_unit(), false, 0, ValDef::Param(1)));
    let add = InstRow {
        op: Op::Add(ArithMode::Wrap),
        a: s.0,
        b: one.0,
        c: NO_OPERAND,
        ty: ty_unit(),
        site: SiteId(0),
    };
    let add_id = decl.push_inst(add, AliasSeed::NoSeed);
    decl.push_val(ValRow::new(ty_unit(), false, 0, ValDef::Inst(add_id)));
    assert!(has(&decl, DiagCode::SecretPropagationViolated));

    let mut ok = DeclFmir::empty(DeclKeyId(0), FnSigId(0));
    let s = ok.push_val(ValRow::new(ty_unit(), true, 0, ValDef::Param(0)));
    let one = ok.push_val(ValRow::new(ty_unit(), false, 0, ValDef::Param(1)));
    let add = InstRow {
        op: Op::Add(ArithMode::Wrap),
        a: s.0,
        b: one.0,
        c: NO_OPERAND,
        ty: ty_unit(),
        site: SiteId(0),
    };
    let add_id = ok.push_inst(add, AliasSeed::NoSeed);
    ok.push_val(ValRow::new(ty_unit(), true, 0, ValDef::Inst(add_id)));
    assert!(verify(&ok).is_empty(), "{:?}", verify(&ok));
}

#[test]
fn secret_trapping_op_rejected() {
    let mut decl = DeclFmir::empty(DeclKeyId(0), FnSigId(0));
    let s = decl.push_val(ValRow::new(ty_unit(), true, 0, ValDef::Param(0)));
    let one = decl.push_val(ValRow::new(ty_unit(), false, 0, ValDef::Param(1)));
    let add = InstRow {
        op: Op::Add(ArithMode::Trap),
        a: s.0,
        b: one.0,
        c: NO_OPERAND,
        ty: ty_unit(),
        site: SiteId(0),
    };
    decl.push_inst(add, AliasSeed::NoSeed);
    assert!(has(&decl, DiagCode::SecretTrappingOp));
}

#[test]
fn ct_no_branch_or_index_on_secret() {
    let mut branch = DeclFmir::empty(DeclKeyId(0), FnSigId(0));
    let cond = branch.push_val(ValRow::new(ty_unit(), true, 0, ValDef::Param(0)));
    let target = branch.blocks.push(BlockRow {
        first_inst: 0,
        inst_len: 0,
        term: plain(Op::Unreachable),
        scope: ScopeId(0),
    });
    branch.entry = branch.blocks.push(BlockRow {
        first_inst: 0,
        inst_len: 0,
        term: InstRow {
            op: Op::CondBr,
            a: cond.0,
            b: target.0,
            c: target.0,
            ty: ty_unit(),
            site: SiteId(0),
        },
        scope: ScopeId(0),
    });
    assert!(has(&branch, DiagCode::SecretBranchOrIndex));

    let mut index = DeclFmir::empty(DeclKeyId(0), FnSigId(0));
    let base = index.push_val(ValRow::new(ty_unit(), false, 0, ValDef::Param(0)));
    let idx = index.push_val(ValRow::new(ty_unit(), true, 0, ValDef::Param(1)));
    let row = InstRow {
        op: Op::Index,
        a: base.0,
        b: idx.0,
        c: NO_OPERAND,
        ty: ty_unit(),
        site: SiteId(0),
    };
    index.push_inst(row, AliasSeed::NoSeed);
    assert!(has(&index, DiagCode::SecretBranchOrIndex));
}

#[test]
fn secret_raise_condition_rejected() {
    let mut decl = DeclFmir::empty(DeclKeyId(0), FnSigId(0));
    let cond = decl.push_val(ValRow::new(ty_unit(), true, 0, ValDef::Param(0)));
    let payload = decl.push_val(ValRow::new(ty_unit(), true, 0, ValDef::Param(1)));
    let raise_bb = decl.blocks.push(BlockRow {
        first_inst: 0,
        inst_len: 0,
        term: InstRow {
            op: Op::Raise,
            a: payload.0,
            b: NO_OPERAND,
            c: NO_OPERAND,
            ty: ty_unit(),
            site: SiteId(0),
        },
        scope: ScopeId(0),
    });
    let ok_bb = decl.blocks.push(BlockRow {
        first_inst: 0,
        inst_len: 0,
        term: plain(Op::Unreachable),
        scope: ScopeId(0),
    });
    decl.entry = decl.blocks.push(BlockRow {
        first_inst: 0,
        inst_len: 0,
        term: InstRow {
            op: Op::CondBr,
            a: cond.0,
            b: ok_bb.0,
            c: raise_bb.0,
            ty: ty_unit(),
            site: SiteId(0),
        },
        scope: ScopeId(0),
    });
    assert!(has(&decl, DiagCode::SecretRaiseCondition));

    let mut payload_ok = DeclFmir::empty(DeclKeyId(0), FnSigId(0));
    let payload = payload_ok.push_val(ValRow::new(ty_unit(), true, 0, ValDef::Param(0)));
    payload_ok.entry = payload_ok.blocks.push(BlockRow {
        first_inst: 0,
        inst_len: 0,
        term: InstRow {
            op: Op::Raise,
            a: payload.0,
            b: NO_OPERAND,
            c: NO_OPERAND,
            ty: ty_unit(),
            site: SiteId(0),
        },
        scope: ScopeId(0),
    });
    assert!(verify(&payload_ok).is_empty(), "{:?}", verify(&payload_ok));
}

#[test]
fn declassify_requires_unsafe() {
    let mut decl = DeclFmir::empty(DeclKeyId(0), FnSigId(0));
    let s = decl.push_val(ValRow::new(ty_unit(), true, 0, ValDef::Param(0)));
    let row = InstRow {
        op: Op::Declassify,
        a: s.0,
        b: NO_OPERAND,
        c: NO_OPERAND,
        ty: ty_unit(),
        site: SiteId(0),
    };
    decl.push_inst(row, AliasSeed::NoSeed);
    assert!(has(&decl, DiagCode::DeclassifyRequiresUnsafe));

    let mut ok = DeclFmir::empty(DeclKeyId(0), FnSigId(0));
    ok.is_unsafe_invariant = true;
    let s = ok.push_val(ValRow::new(ty_unit(), true, 0, ValDef::Param(0)));
    let row = InstRow {
        op: Op::Declassify,
        a: s.0,
        b: NO_OPERAND,
        c: NO_OPERAND,
        ty: ty_unit(),
        site: SiteId(0),
    };
    ok.push_inst(row, AliasSeed::NoSeed);
    assert!(verify(&ok).is_empty(), "{:?}", verify(&ok));
}

#[test]
fn ir_verify_secret_fields() {
    let mut missing_secret = DeclFmir::empty(DeclKeyId(0), FnSigId(0));
    let mut row = ValRow::new(ty_unit(), false, 0, ValDef::Param(0));
    row.flags = ValFlags(SECRET_UNSPECIFIED);
    missing_secret.push_val(row);
    assert!(has(&missing_secret, DiagCode::MissingSecretField));

    let mut missing_ct = DeclFmir::empty(DeclKeyId(0), FnSigId(0));
    missing_ct.push_val(ValRow {
        ty: ty_unit(),
        flags: ValFlags::new(false),
        ct: CT_UNSPECIFIED,
        def: 0,
    });
    assert!(has(&missing_ct, DiagCode::MissingCtRegion));
}
