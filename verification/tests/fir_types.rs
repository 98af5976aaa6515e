use fors::fir::constval::ConstValue;
use fors::fir::defpath::{DeclKeyId, HeadKey};
use fors::fir::sig::Conv;
use fors::fir::ty::{
    no_ty, ty_error, ty_never, ty_unit, BrandRow, PrimKind, Quals, TyStore, TyTag, F_BRAND, F_ERROR, F_FRESH,
    F_PARAM, F_PROJ, Q_IMM, Q_ISO, Q_SECRET,
};
use fors::index::{DefId, Symbol};

#[test]
fn the_three_reserved_rows_are_0_1_2_in_every_profile() {
    let s = TyStore::new();
    assert_eq!(s.len(), 3, "a fresh store holds exactly TY_ERROR, TY_UNIT and TY_NEVER");
    assert_eq!(s.tag(ty_error()), TyTag::Error);
    assert_eq!(s.tag(ty_unit()), TyTag::Unit);
    assert_eq!(s.tag(ty_never()), TyTag::Never);
    assert!(s.args(fors::fir::ty::ArgsId(0)).is_empty());
}

#[test]
fn constants_are_the_first_three_rows() {
    let s = TyStore::new();
    assert_eq!(s.tag(ty_error()), TyTag::Error);
    assert_eq!(s.tag(ty_unit()), TyTag::Unit);
    assert_eq!(s.tag(ty_never()), TyTag::Never);
    assert!(s.is_error(ty_error()));
    assert!(s.is_monomorphic(ty_unit()));
}

#[test]
fn equal_types_are_equal_ids() {
    let mut s = TyStore::new();
    let i32_ty = s.prim(PrimKind::I32);
    let a = s.nominal_of(DefId(7), &[i32_ty]);
    let b = s.nominal_of(DefId(7), &[i32_ty]);
    let c = s.nominal_of(DefId(7), &[]);
    assert_eq!(a, b);
    assert_ne!(a, c);
}

#[test]
fn quals_are_part_of_identity_and_unqual_is_one_load() {
    let mut s = TyStore::new();
    let buf = s.nominal_of(DefId(1), &[]);
    let iso_buf = s.qualified(buf, Quals(Q_ISO));
    let iso_secret = s.qualified(iso_buf, Quals(Q_SECRET));
    assert_ne!(buf, iso_buf);
    assert_ne!(iso_buf, iso_secret);
    assert_eq!(s.unqual(iso_secret), buf);
    assert_eq!(s.unqual(buf), buf);
    assert!(s.quals(iso_secret).is_iso() && s.quals(iso_secret).is_secret());
}

#[test]
fn flags_are_the_or_of_children() {
    let mut s = TyStore::new();
    let i32_ty = s.prim(PrimKind::I32);
    let p = s.param(DefId(5), 0);
    let mono = s.nominal_of(DefId(1), &[i32_ty]);
    let open = s.nominal_of(DefId(1), &[p]);
    let nested = s.tuple_of(&[mono, open]);
    assert!(s.is_monomorphic(mono));
    assert!(!s.is_monomorphic(open));
    assert!(!s.is_monomorphic(nested));
    assert_eq!(s.flags(open) & F_PARAM, F_PARAM);
    let bad = s.tuple_of(&[ty_error(), i32_ty]);
    assert!(s.is_error(bad));
}

#[test]
fn projection_flags_include_the_trait_arguments() {
    let mut s = TyStore::new();
    let p = s.param(DefId(5), 0);
    let q = s.param(DefId(5), 1);
    let name = Symbol(0);
    let pr = s.proj_of(p, DefId(9), &[q], name);
    assert_eq!(s.flags(pr) & (F_PROJ | F_PARAM), F_PROJ | F_PARAM);
    assert_eq!(s.head_key(pr), HeadKey::Proj);
}

#[test]
fn fresh_brands_are_flagged() {
    let mut s = TyStore::new();
    let fresh = s.brand_ty(BrandRow::Fresh { owner: DeclKeyId(4), ordinal: 0 });
    let parm = s.brand_ty(BrandRow::Param { owner: DefId(4), ordinal: 0 });
    assert_eq!(s.flags(fresh) & F_FRESH, F_FRESH);
    assert_eq!(s.flags(parm) & F_FRESH, 0);
    assert_eq!(s.flags(parm) & F_BRAND, F_BRAND);
}

#[test]
fn function_types_are_interned_by_every_component() {
    let mut s = TyStore::new();
    let i32_ty = s.prim(PrimKind::I32);
    let p = s.param(DefId(3), 0);
    let f1 = s.intern_fn_ty(&[(Conv::Let, i32_ty), (Conv::Inout, p)], ty_unit(), no_ty(), false);
    let f2 = s.intern_fn_ty(&[(Conv::Let, i32_ty), (Conv::Inout, p)], ty_unit(), no_ty(), false);
    let f3 = s.intern_fn_ty(&[(Conv::Let, i32_ty), (Conv::Inout, p)], ty_unit(), no_ty(), true);
    let f4 = s.intern_fn_ty(&[(Conv::Sink, i32_ty), (Conv::Inout, p)], ty_unit(), no_ty(), false);
    assert_eq!(f1, f2);
    assert_ne!(f1, f3);
    assert_ne!(f1, f4);
    assert_eq!(s.fn_tys().len(), 3);
    let (cs, ts) = s.fn_tys().params(f1);
    assert_eq!(cs, &[Conv::Let, Conv::Inout]);
    assert_eq!(ts, &[i32_ty, p]);
    assert!(s.fn_tys().is_closure(f3));
    assert_eq!(s.fn_tys().raises(f1), no_ty());
    let t = s.fn_ty(f1);
    assert_eq!(s.flags(t) & F_PARAM, F_PARAM);
    assert_eq!(s.head_key(t), HeadKey::Fn);
}

#[test]
fn a_raises_type_contributes_its_flags() {
    let mut s = TyStore::new();
    let f = s.intern_fn_ty(&[], ty_unit(), ty_error(), false);
    let t = s.fn_ty(f);
    assert!(s.is_error(t));
}

#[test]
fn qualifying_with_what_a_type_already_has_is_the_same_type() {
    let mut s = TyStore::new();
    let buf = s.nominal_of(DefId(1), &[]);
    let imm = s.qualified(buf, Quals(Q_IMM));
    assert_eq!(s.qualified(imm, Quals(Q_IMM)), imm);
    assert_eq!(s.qualified(buf, Quals(0)), buf);
    let before = s.len();
    let again = s.qualified(buf, Quals(Q_IMM));
    assert_eq!(again, imm);
    assert_eq!(s.len(), before);
}

#[test]
fn const_types_and_heads() {
    let mut s = TyStore::new();
    let usize_ty = s.prim(PrimKind::Usize);
    let four = s.const_ty(ConstValue::I(4), usize_ty);
    let four_again = s.const_ty(ConstValue::I(4), usize_ty);
    let five = s.const_ty(ConstValue::I(5), usize_ty);
    assert_eq!(four, four_again);
    assert_ne!(four, five);
    assert_eq!(s.const_value(fors::fir::ty::ConstId(s.a(four))), ConstValue::I(4));
    assert_eq!(s.head_key(four), HeadKey::ConstVal);
    assert_eq!(s.head_key(usize_ty), HeadKey::Prim(PrimKind::Usize));
    let pair = s.tuple_of(&[usize_ty, usize_ty]);
    assert_eq!(s.head_key(pair), HeadKey::Tuple(2));
    let a = s.intern_args(&[usize_ty]);
    let tr = s.intern_trait_ref(DefId(11), a);
    let d = s.dyn_ty(tr);
    assert_eq!(s.head_key(d), HeadKey::Dyn(DefId(11)));
    assert_eq!(s.trait_ref(tr), (DefId(11), a));
}

#[test]
fn the_copyable_cache_starts_unknown() {
    let mut s = TyStore::new();
    let t = s.prim(PrimKind::Bool);
    assert_eq!(s.copyable_cached(t), 0);
    s.set_copyable(t, true);
    assert_eq!(s.copyable_cached(t), 1);
    s.set_copyable(t, false);
    assert_eq!(s.copyable_cached(t), 2);
}

#[test]
fn argument_lists_are_interned_once() {
    let mut s = TyStore::new();
    let b = s.prim(PrimKind::Bool);
    let x = s.intern_args(&[b, b]);
    let y = s.intern_args(&[b, b]);
    let z = s.intern_args(&[b]);
    assert_eq!(x, y);
    assert_ne!(x, z);
    assert_eq!(s.args_vec(x), vec![b, b]);
    assert_eq!(s.intern_args(&[]), fors::fir::ty::ArgsId(0));
}

#[test]
fn head_key_ordering_column() {
    assert_eq!(HeadKey::Prim(PrimKind::I32).as_u64(), (1u64 << 40) | 2);
    assert_eq!(HeadKey::Nominal(DefId(7)).as_u64(), (2u64 << 40) | 7);
    assert_eq!(HeadKey::Brand.as_u64(), 12u64 << 40);
    assert!(HeadKey::Error.as_u64() > HeadKey::Unit.as_u64());
    let _ = F_ERROR;
}
