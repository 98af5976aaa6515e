use fors::fir::sig::Conv;
use fors::fir::subst::{
    one_way_match, subst_norm, subst_norm_cached, Binding, BindingKey, NeutralOnly, SubstMemo,
};
use fors::fir::ty::{no_ty, ty_unit, PrimKind, Quals, TyStore, Q_IMM, Q_ISO, Q_SECRET};
use fors::index::{DefId, Symbol};

const IMPL: DefId = DefId(100);

fn store_and_binding() -> (TyStore, Binding) {
    (TyStore::new(), Binding::new(&[(IMPL, 2)]))
}

#[test]
fn a_slot_binds_once_and_must_agree_after() {
    let (mut s, mut b) = store_and_binding();
    let p = s.param(IMPL, 0);
    let i32_ty = s.prim(PrimKind::I32);
    let u8_ty = s.prim(PrimKind::U8);
    assert!(one_way_match(&mut s, p, i32_ty, &mut b));
    assert_eq!(b.slot(IMPL, 0), i32_ty);
    assert!(one_way_match(&mut s, p, i32_ty, &mut b));
    assert!(!one_way_match(&mut s, p, u8_ty, &mut b));
}

#[test]
fn success_implies_substitution_reproduces_the_target() {
    let (mut s, mut b) = store_and_binding();
    let t0 = s.param(IMPL, 0);
    let t1 = s.param(IMPL, 1);
    let pattern = s.nominal_of(DefId(7), &[t0, t1]);
    let i32_ty = s.prim(PrimKind::I32);
    let str_ty = s.prim(PrimKind::Str);
    let target = s.nominal_of(DefId(7), &[i32_ty, str_ty]);
    assert!(one_way_match(&mut s, pattern, target, &mut b));
    assert!(b.is_complete());
    assert_eq!(subst_norm(&mut s, pattern, &b), Some(target));
}

#[test]
fn a_projection_on_an_unbound_parameter_faces_anything() {
    let (mut s, mut b) = store_and_binding();
    let t0 = s.param(IMPL, 0);
    let name = Symbol(0);
    let proj = s.proj_of(t0, DefId(9), &[], name);
    let i32_ty = s.prim(PrimKind::I32);
    // Skipped, binds nothing (compared later).
    assert!(one_way_match(&mut s, proj, i32_ty, &mut b));
    assert_eq!(b.slot(IMPL, 0), no_ty());
    // Once the head is bound the projection is a neutral type and only
    // equality will do.
    assert!(one_way_match(&mut s, t0, i32_ty, &mut b));
    assert!(!one_way_match(&mut s, proj, i32_ty, &mut b));
}

#[test]
fn a_projection_on_a_bound_parameter_is_substituted_then_compared() {
    // `fn f[I: Iterator](let it: I, let x: I.Item)` called from inside
    // `fn g[U: Iterator](let u: U)` as `f(u, u.next())`: the first argument
    // binds `I := U`, so the second parameter IS `U.Item`, a different row
    // from the pattern `I.Item`, equal only after substitution.
    let (mut s, mut b) = store_and_binding();
    let i = s.param(IMPL, 0);
    let u = s.param(DefId(200), 0);
    let name = Symbol(0);
    let pat = s.proj_of(i, DefId(9), &[], name);
    let want = s.proj_of(u, DefId(9), &[], name);
    assert!(one_way_match(&mut s, i, u, &mut b));
    assert!(
        one_way_match(&mut s, pat, want, &mut b),
        "I.Item with I := U must match U.Item"
    );
    let other = s.proj_of(u, DefId(9), &[], Symbol(1));
    assert!(!one_way_match(&mut s, pat, other, &mut b), "...and only U.Item");

    // A projection whose head is bound to a concrete type needs the impl
    // index to reduce; the neutral solver cannot, so the answer is `false`.
    // It must not bind anything.
    let mut b2 = Binding::new(&[(IMPL, 2)]);
    let i32_ty = s.prim(PrimKind::I32);
    assert!(one_way_match(&mut s, i, i32_ty, &mut b2));
    assert!(!one_way_match(&mut s, pat, i32_ty, &mut b2));
    assert_eq!(b2.slot(IMPL, 1), no_ty());
}

#[test]
fn an_unbound_projection_faces_a_qualified_target_too() {
    let (mut s, mut b) = store_and_binding();
    let t0 = s.param(IMPL, 0);
    let proj = s.proj_of(t0, DefId(9), &[], Symbol(0));
    let buf = s.nominal_of(DefId(4), &[]);
    let iso_buf = s.qualified(buf, Quals(Q_ISO));
    assert!(one_way_match(&mut s, proj, iso_buf, &mut b));
    assert_eq!(b.slot(IMPL, 0), no_ty(), "a skipped projection binds nothing");
}

#[test]
fn monomorphic_substitution_is_the_identity() {
    let (mut s, b) = store_and_binding();
    let i32_ty = s.prim(PrimKind::I32);
    let mono = s.nominal_of(DefId(3), &[i32_ty]);
    let before = s.len();
    assert_eq!(subst_norm(&mut s, mono, &b), Some(mono));
    assert_eq!(subst_norm(&mut s, ty_unit(), &b), Some(ty_unit()));
    assert_eq!(s.len(), before, "substituting a monomorphic type interned nothing");
}

#[test]
fn an_unbound_slot_makes_substitution_fail() {
    let (mut s, b) = store_and_binding();
    let t0 = s.param(IMPL, 0);
    let open = s.nominal_of(DefId(3), &[t0]);
    assert_eq!(subst_norm(&mut s, open, &b), None);
}

#[test]
fn a_qualified_position_wants_exactly_its_qualifiers() {
    let (mut s, mut b) = store_and_binding();
    let t0 = s.param(IMPL, 0);
    let iso_t0 = s.qualified(t0, Quals(Q_ISO));
    let buf = s.nominal_of(DefId(4), &[]);
    let iso_buf = s.qualified(buf, Quals(Q_ISO));
    let iso_secret_buf = s.qualified(iso_buf, Quals(Q_SECRET));

    // `iso T` against `iso Buf` binds `T := Buf`, and substituting it back
    // reproduces the target.
    assert!(one_way_match(&mut s, iso_t0, iso_buf, &mut b));
    assert_eq!(b.slot(IMPL, 0), buf);
    assert_eq!(subst_norm(&mut s, iso_t0, &b), Some(iso_buf));

    // `iso T` does NOT match `iso secret Buf`: that type comes from the
    // position `iso secret T`, not from this one.
    let mut b2 = Binding::new(&[(IMPL, 2)]);
    assert!(!one_way_match(&mut s, iso_t0, iso_secret_buf, &mut b2));
}

#[test]
fn a_bare_position_takes_the_qualifiers_with_it() {
    let (mut s, mut b) = store_and_binding();
    let t0 = s.param(IMPL, 0);
    let buf = s.nominal_of(DefId(4), &[]);
    let iso_buf = s.qualified(buf, Quals(Q_ISO));
    assert!(one_way_match(&mut s, t0, iso_buf, &mut b));
    assert_eq!(b.slot(IMPL, 0), iso_buf);
    assert_eq!(subst_norm(&mut s, t0, &b), Some(iso_buf));
}

#[test]
fn a_qualified_position_refuses_an_already_qualified_argument() {
    // `iso T` with `T := imm Buf` is `iso imm Buf`, which is not a type;
    // `iso T` with `T := iso Buf` is `iso Buf`, from which `T` could never
    // be recovered. Both are "no substitution".
    let (mut s, mut b) = store_and_binding();
    let t0 = s.param(IMPL, 0);
    let iso_t0 = s.qualified(t0, Quals(Q_ISO));
    let buf = s.nominal_of(DefId(4), &[]);
    let imm_buf = s.qualified(buf, Quals(Q_IMM));
    assert!(b.bind(IMPL, 0, imm_buf));
    assert_eq!(subst_norm(&mut s, iso_t0, &b), None);

    let mut b2 = Binding::new(&[(IMPL, 2)]);
    let iso_buf = s.qualified(buf, Quals(Q_ISO));
    assert!(b2.bind(IMPL, 0, iso_buf));
    assert_eq!(subst_norm(&mut s, iso_t0, &b2), None);
}

#[test]
fn the_memo_key_separates_two_bindings_the_trait_ref_cannot() {
    // One owner, one trait reference, two different slot values.
    let mut s = TyStore::new();
    let i32_ty = s.prim(PrimKind::I32);
    let u8_ty = s.prim(PrimKind::U8);
    let mut b1 = Binding::new(&[(IMPL, 1)]);
    let mut b2 = Binding::new(&[(IMPL, 1)]);
    b1.bind(IMPL, 0, i32_ty);
    b2.bind(IMPL, 0, u8_ty);
    assert_ne!(b1.key(), b2.key());

    let rhs = s.param(IMPL, 0);
    let mut memo = SubstMemo::new();
    assert_eq!(
        subst_norm_cached(&mut s, rhs, &b1, &mut NeutralOnly, &mut memo),
        Some(i32_ty)
    );
    assert_eq!(
        subst_norm_cached(&mut s, rhs, &b2, &mut NeutralOnly, &mut memo),
        Some(u8_ty)
    );
    assert_eq!(memo.len(), 2);
}

#[test]
fn function_types_match_pairwise_on_conventions_and_raises() {
    let (mut s, mut b) = store_and_binding();
    let t0 = s.param(IMPL, 0);
    let i32_ty = s.prim(PrimKind::I32);
    let pf = s.intern_fn_ty(&[(Conv::Let, t0)], ty_unit(), no_ty(), false);
    let p = s.fn_ty(pf);
    let tf = s.intern_fn_ty(&[(Conv::Let, i32_ty)], ty_unit(), no_ty(), false);
    let t = s.fn_ty(tf);
    assert!(one_way_match(&mut s, p, t, &mut b));
    assert_eq!(b.slot(IMPL, 0), i32_ty);

    // A different convention is a different type.
    let mut b2 = Binding::new(&[(IMPL, 2)]);
    let wf = s.intern_fn_ty(&[(Conv::Inout, i32_ty)], ty_unit(), no_ty(), false);
    let w = s.fn_ty(wf);
    assert!(!one_way_match(&mut s, p, w, &mut b2));

    // And `raises E` is distinct from absent.
    let mut b3 = Binding::new(&[(IMPL, 2)]);
    let rf = s.intern_fn_ty(&[(Conv::Let, i32_ty)], ty_unit(), i32_ty, false);
    let r = s.fn_ty(rf);
    assert!(!one_way_match(&mut s, p, r, &mut b3));
}

// ---------------------------------------------------------------------------
// Further cases
// ---------------------------------------------------------------------------

#[test]
fn substitution_reinterns_tuples_dyn_and_constants() {
    let (mut s, mut b) = store_and_binding();
    let t0 = s.param(IMPL, 0);
    let i32_ty = s.prim(PrimKind::I32);
    let u8_ty = s.prim(PrimKind::U8);
    assert!(b.bind(IMPL, 0, i32_ty));
    let pair = s.tuple_of(&[t0, u8_ty]);
    let want = s.tuple_of(&[i32_ty, u8_ty]);
    assert_eq!(subst_norm(&mut s, pair, &b), Some(want));
    let d = s.proj_of(t0, DefId(9), &[], Symbol(2));
    // The head is bound to a concrete type: the neutral solver declines.
    assert_eq!(subst_norm(&mut s, d, &b), None);
}

#[test]
fn a_rigid_parameter_of_another_owner_substitutes_to_itself() {
    let (mut s, b) = store_and_binding();
    let u = s.param(DefId(300), 0);
    let v = s.nominal_of(DefId(5), &[u]);
    let before = s.len();
    assert_eq!(subst_norm(&mut s, v, &b), Some(v));
    assert_eq!(s.len(), before);
}

#[test]
fn a_binding_is_never_revised() {
    let (mut s, mut b) = store_and_binding();
    let i32_ty = s.prim(PrimKind::I32);
    let u8_ty = s.prim(PrimKind::U8);
    assert!(b.bind(IMPL, 1, i32_ty));
    assert!(!b.bind(IMPL, 1, u8_ty));
    assert_eq!(b.slot(IMPL, 1), i32_ty);
    assert!(!b.bind(DefId(1), 0, u8_ty), "not one of the binding's owners");
    assert!(!b.bind(IMPL, 2, u8_ty), "past the owner's parameters");
    assert_eq!(b.slots(), &[no_ty(), i32_ty]);
    assert_eq!(b.owner_count(), 1);
}

#[test]
fn a_memoised_answer_is_returned_without_a_walk() {
    let (mut s, mut b) = store_and_binding();
    let t0 = s.param(IMPL, 0);
    let i32_ty = s.prim(PrimKind::I32);
    assert!(b.bind(IMPL, 0, i32_ty));
    let v = s.nominal_of(DefId(6), &[t0]);
    let mut memo = SubstMemo::new();
    let first = subst_norm_cached(&mut s, v, &b, &mut NeutralOnly, &mut memo);
    let before = s.len();
    let second = subst_norm_cached(&mut s, v, &b, &mut NeutralOnly, &mut memo);
    assert_eq!(first, second);
    assert_eq!(s.len(), before);
    assert_eq!(memo.len(), 1);
    memo.clear();
    assert!(memo.is_empty());
    let k: BindingKey = b.key();
    assert_eq!(memo.get(v, k), None);
}
