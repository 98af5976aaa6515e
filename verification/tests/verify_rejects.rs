
use fors::fir::defpath::DeclKeyId;
use fors::fir::sig::FnSigId;
use fors::fir::ty::ty_unit;
use fors::fmir::alias::AliasSeed;
use fors::fmir::decl::DeclFmir;
use fors::fmir::diag::DiagCode;
use fors::fmir::flags::{CT_UNSPECIFIED, SECRET_UNSPECIFIED, ValFlags};
use fors::fmir::ids::{BrandId, SiteId};
use fors::fmir::inst::InstRow;
use fors::fmir::op::{NO_OPERAND, Op};
use fors::fmir::region::{RegionKind, RegionRow};
use fors::fmir::value::{ValDef, ValRow};
use fors::fmir::verify::verify;

fn plain(op: Op) -> InstRow {
    InstRow {
        op,
        a: NO_OPERAND,
        b: NO_OPERAND,
        c: NO_OPERAND,
        ty: ty_unit(),
        site: SiteId(0),
    }
}

fn rejected_with(decl: &DeclFmir, code: DiagCode) -> bool {
    verify(decl).iter().any(|d| d.code == code)
}

#[test]
fn verify_rejects_missing_secret_field() {
    let mut decl = DeclFmir::empty(DeclKeyId(0), FnSigId(0));
    let mut row = ValRow::new(ty_unit(), false, 0, ValDef::Param(0));
    row.flags = ValFlags(SECRET_UNSPECIFIED);
    decl.push_val(row);
    assert!(rejected_with(&decl, DiagCode::MissingSecretField));
}

#[test]
fn verify_rejects_missing_ct_region() {
    let mut decl = DeclFmir::empty(DeclKeyId(0), FnSigId(0));
    decl.push_val(ValRow {
        ty: ty_unit(),
        flags: ValFlags::new(false),
        ct: CT_UNSPECIFIED,
        def: 0,
    });
    assert!(rejected_with(&decl, DiagCode::MissingCtRegion));
}

#[test]
fn verify_rejects_detach_without_captures() {
    let mut decl = DeclFmir::empty(DeclKeyId(0), FnSigId(0));
    decl.regions.push(RegionRow {
        kind: RegionKind::Spawn,
        captures: RegionRow::absent_captures(),
        brand: BrandId::none(),
    });
    assert!(rejected_with(&decl, DiagCode::DetachWithoutCaptures));

    let mut ok = DeclFmir::empty(DeclKeyId(0), FnSigId(0));
    ok.regions.push(RegionRow {
        kind: RegionKind::Spawn,
        captures: 0..0,
        brand: BrandId::none(),
    });
    assert!(verify(&ok).is_empty(), "{:?}", verify(&ok));
}

#[test]
fn verify_rejects_tile_op() {
    let mut decl = DeclFmir::empty(DeclKeyId(0), FnSigId(0));
    decl.push_inst(plain(Op::TileOp), AliasSeed::NoSeed);
    assert!(rejected_with(&decl, DiagCode::TileOpPresent));
}

#[test]
fn verify_rejects_two_terminators() {
    let mut decl = DeclFmir::empty(DeclKeyId(0), FnSigId(0));
    decl.insts.push(plain(Op::Ret), AliasSeed::NoSeed);
    let mut entry = decl.blocks.row(decl.entry);
    entry.first_inst = 0;
    entry.inst_len = 1;
    let mut blocks = fors::fmir::block::BlockPool::new();
    decl.entry = blocks.push(entry);
    decl.blocks = blocks;
    assert!(rejected_with(&decl, DiagCode::TwoTerminators));
}
