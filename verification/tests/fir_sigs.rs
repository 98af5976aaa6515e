use fors::fir::sig::{
    no_bounds, no_constraints, no_fn_sig, no_generics, no_members, no_trait_ref, Assoc, Conv, GParam,
    GParamKind, Member, MemberKind, Param, PayloadKind, SigKind, SigStore, NO_SLOT, VIS_PRIVATE, VIS_PUBLIC,
};
use fors::fir::ty::{no_ty, ty_unit, ArgsId, TyId};
use fors::index::{DefId, Symbol};

#[test]
fn rows_keep_their_absent_sentinels() {
    let mut s = SigStore::new();
    let def = s.push(SigKind::Struct);
    assert_eq!(s.kind(def), SigKind::Struct);
    assert_eq!(s.fn_sig(def), no_fn_sig());
    assert_eq!(s.self_ty(def), no_ty());
    assert_eq!(s.trait_ref(def), no_trait_ref());
    assert_eq!(s.members(def), no_members());
    assert!(!s.is_soa(def));
    s.set_soa(def, true);
    assert!(s.is_soa(def));
}

#[test]
fn fn_sig_params_read_back_in_order() {
    let mut s = SigStore::new();
    let ps = [
        Param {
            name: Symbol(1),
            conv: Conv::Let,
            ty: ty_unit(),
        },
        Param {
            name: Symbol(2),
            conv: Conv::Inout,
            ty: ty_unit(),
        },
    ];
    let id = s.fn_sigs.push(&ps, ty_unit(), no_ty(), NO_SLOT, 0, (0, 0), 0);
    assert_eq!(s.fn_sigs.count(id), 2);
    assert_eq!(s.fn_sigs.param(id, 1).conv, Conv::Inout);
    assert_eq!(s.fn_sigs.raises(id), no_ty());
    assert_eq!(s.fn_sigs.receiver(id), 0);
}

#[test]
fn member_order_is_preserved() {
    let mut s = SigStore::new();
    let list = s.member_store.push(&[
        Member::field(Symbol(9), VIS_PUBLIC, ty_unit()),
        Member::field(Symbol(3), VIS_PRIVATE, ty_unit()),
    ]);
    assert_eq!(s.member_store.get(list, 0).name, Symbol(9));
    assert_eq!(s.member_store.get(list, 1).name, Symbol(3));
    assert_eq!(s.member_store.get(list, 1).vis, VIS_PRIVATE);
}

// ---------------------------------------------------------------------------
// Further cases
// ---------------------------------------------------------------------------

#[test]
fn every_setter_touches_one_column_of_one_row() {
    let mut s = SigStore::new();
    let a = s.push(SigKind::Fn);
    let b = s.push(SigKind::Impl);
    assert_eq!(b, DefId(1));
    s.set_self_ty(b, TyId(7));
    s.set_trait_ref(b, fors::fir::ty::TraitRefId(3));
    s.set_const(a, TyId(4), fors::fir::ty::ConstId(2));
    s.set_sig_hash(a, 0xABCD);
    s.set_kind(a, SigKind::Const);
    assert_eq!(s.self_ty(b), TyId(7));
    assert_eq!(s.self_ty(a), no_ty());
    assert_eq!(s.trait_ref(b), fors::fir::ty::TraitRefId(3));
    assert_eq!(s.const_ty(a), TyId(4));
    assert_eq!(s.const_val(a), fors::fir::ty::ConstId(2));
    assert_eq!(s.sig_hash(a), 0xABCD);
    assert_eq!(s.sig_hash(b), 0);
    assert_eq!(s.kind(a), SigKind::Const);
    assert_eq!(s.generics(a), no_generics());
    s.set_soa(a, true);
    s.set_soa(a, false);
    assert_eq!(s.flags(a), 0);
    assert_eq!(s.len(), 2);
}

#[test]
fn generics_rows_read_back_their_parameters() {
    let mut s = SigStore::new();
    assert_eq!(s.generics_store.count(no_generics()), 0);
    let g = s.generics_store.push(
        &[
            GParam { name: Symbol(1), kind: GParamKind::Type, bounds: no_bounds() },
            GParam { name: Symbol(2), kind: GParamKind::Brand, bounds: no_bounds() },
        ],
        no_constraints(),
    );
    assert_eq!(s.generics_store.count(g), 2);
    assert_eq!(s.generics_store.param(g, 1).kind, GParamKind::Brand);
    assert_eq!(s.generics_store.constraints(g), no_constraints());
    assert_eq!(s.generics_store.len(), 2);
}

#[test]
fn an_impl_gives_the_first_matching_associated_type() {
    let mut s = SigStore::new();
    let list = s.assocs.push(&[
        Assoc { name: Symbol(5), bounds: no_bounds(), rhs: TyId(10) },
        Assoc { name: Symbol(6), bounds: no_bounds(), rhs: TyId(11) },
        Assoc { name: Symbol(5), bounds: no_bounds(), rhs: TyId(12) },
    ]);
    assert_eq!(s.assocs.rhs_of(list, Symbol(5)), TyId(10));
    assert_eq!(s.assocs.rhs_of(list, Symbol(6)), TyId(11));
    assert_eq!(s.assocs.rhs_of(list, Symbol(7)), no_ty());
}

#[test]
fn variants_carry_their_payloads() {
    let v = Member::tuple_variant(Symbol(1), ArgsId(4));
    assert_eq!(v.kind, MemberKind::Variant);
    assert_eq!(v.payload, PayloadKind::Tuple);
    assert_eq!(v.args, ArgsId(4));
    assert_eq!(v.vis, VIS_PUBLIC);
    let r = Member::record_variant(Symbol(2), no_members());
    assert_eq!(r.payload, PayloadKind::Record);
    let u = Member::unit_variant(Symbol(3));
    assert_eq!(u.payload, PayloadKind::Unit);
    let i = Member::item(Symbol(4), VIS_PRIVATE, DefId(8));
    assert_eq!(i.def, DefId(8));
    assert_eq!(i.ty, no_ty());
}
