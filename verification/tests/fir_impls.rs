use fors::fir::defpath::{no_def, HeadKey};
use fors::fir::impls::{contains_proj, first_unconstrained, mentions, overlap, ImplIndex, ImplRow};
use fors::fir::sig::{no_bounds, no_constraints, GParam, GParamKind, SigKind, SigStore};
use fors::fir::ty::{no_args, BrandRow, PrimKind, TyId, TyStore};
use fors::index::{DefId, Symbol};

fn row(def: DefId, trait_def: DefId, self_ty: TyId, head: HeadKey, order: u32) -> ImplRow {
    ImplRow {
        def,
        trait_def,
        inherent: trait_def == no_def(),
        trait_args: no_args(),
        self_ty,
        head,
        order,
    }
}

#[test]
fn the_exact_probe_finds_a_concrete_impl_without_a_bucket_scan() {
    let mut tys = TyStore::new();
    let defs = [DefId(0), DefId(1), DefId(2), DefId(3)];
    let tr = defs[0];
    let mut index = ImplIndex::new();
    // Four impls of one trait, all with head `Nominal(defs[1])`, told
    // apart only by their argument.
    let mut selves = Vec::new();
    for i in 0..4u32 {
        let arg = tys.prim(match i {
            0 => PrimKind::I8,
            1 => PrimKind::I16,
            2 => PrimKind::I32,
            _ => PrimKind::I64,
        });
        let ty = tys.nominal_of(defs[1], &[arg]);
        selves.push(ty);
        index.push(row(defs[2], tr, ty, tys.head_key(ty), i));
    }
    index.finish();
    let head = tys.head_key(selves[0]);
    assert_eq!(index.bucket(tr, head).len(), 4, "all four share one bucket");
    for s in &selves {
        assert_eq!(index.exact(tr, *s).len(), 1, "the exact probe answers in one step");
    }
}

#[test]
fn inherent_impls_live_in_their_own_bucket() {
    let mut tys = TyStore::new();
    let defs = [DefId(0), DefId(1), DefId(2)];
    let i32ty = tys.prim(PrimKind::I32);
    let mut index = ImplIndex::new();
    index.push(row(defs[1], no_def(), i32ty, tys.head_key(i32ty), 0));
    index.push(row(defs[2], defs[0], i32ty, tys.head_key(i32ty), 1));
    index.finish();
    assert_eq!(index.inherent(tys.head_key(i32ty)).len(), 1);
    assert_eq!(index.bucket(defs[0], tys.head_key(i32ty)).len(), 1);
}

#[test]
fn lookups_answer_row_numbers_in_increasing_order() {
    let mut tys = TyStore::new();
    let a = tys.prim(PrimKind::U8);
    let b = tys.prim(PrimKind::Bool);
    let tr = DefId(7);
    let mut index = ImplIndex::new();
    index.push(row(DefId(10), tr, b, tys.head_key(b), 0));
    index.push(row(DefId(11), tr, a, tys.head_key(a), 1));
    index.push(row(DefId(12), tr, b, tys.head_key(b), 2));
    index.push(row(DefId(13), DefId(8), b, tys.head_key(b), 3));
    index.finish();
    assert_eq!(index.exact(tr, b), vec![0, 2]);
    assert_eq!(index.exact(tr, a), vec![1]);
    assert_eq!(index.bucket(DefId(8), tys.head_key(b)), vec![3]);
    assert!(index.exact(DefId(9), a).is_empty());
    assert_eq!(index.row(2).def, DefId(12));
    assert_eq!(index.len(), 4);
}

#[test]
fn mentions_looks_through_arguments_and_qualifiers() {
    let mut tys = TyStore::new();
    let t = tys.param(DefId(3), 0);
    let u = tys.param(DefId(3), 1);
    let i32ty = tys.prim(PrimKind::I32);
    let inner = tys.nominal_of(DefId(1), &[t, i32ty]);
    let outer = tys.nominal_of(DefId(2), &[inner]);
    let mut fuel: u32 = 100;
    assert!(mentions(&tys, outer, t, &mut fuel));
    let mut fuel: u32 = 100;
    assert!(!mentions(&tys, outer, u, &mut fuel));
    // Four nodes searched, one step each.
    assert_eq!(fuel, 96);
    // With no fuel the search finds nothing.
    let mut fuel: u32 = 0;
    assert!(!mentions(&tys, outer, t, &mut fuel));
    assert!(!contains_proj(&tys, outer));
}

#[test]
fn an_impl_parameter_missing_from_the_head_is_reported() {
    let mut tys = TyStore::new();
    let mut sigs = SigStore::new();
    let def = sigs.push(SigKind::Impl);
    let ps = [
        GParam {
            name: Symbol(1),
            kind: GParamKind::Type,
            bounds: no_bounds(),
        },
        GParam {
            name: Symbol(2),
            kind: GParamKind::Brand,
            bounds: no_bounds(),
        },
    ];
    let g = sigs.generics_store.push(&ps, no_constraints());
    sigs.set_generics(def, g);
    let t = tys.param(def, 0);
    let head = tys.nominal_of(DefId(40), &[t]);
    // The brand parameter appears nowhere: ordinal 1 is unconstrained.
    assert_eq!(first_unconstrained(&mut tys, &sigs, def, &[head]), Some(1));
    let brand = tys.brand_ty(BrandRow::Param { owner: def, ordinal: 1 });
    let both = tys.nominal_of(DefId(40), &[t, brand]);
    assert_eq!(first_unconstrained(&mut tys, &sigs, def, &[both]), None);
    assert_eq!(first_unconstrained(&mut tys, &sigs, def, &[]), Some(0));
}

#[test]
fn overlap_unifies_a_generic_head_with_a_concrete_one() {
    let mut tys = TyStore::new();
    let sigs = SigStore::new();
    let (tr, pair, a, b) = (DefId(0), DefId(1), DefId(2), DefId(3));
    let t = tys.param(a, 0);
    let generic = tys.nominal_of(pair, &[t]);
    let i32ty = tys.prim(PrimKind::I32);
    let concrete = tys.nominal_of(pair, &[i32ty]);
    let x = row(a, tr, generic, tys.head_key(generic), 0);
    let y = row(b, tr, concrete, tys.head_key(concrete), 1);
    assert!(overlap(&tys, &sigs, &x, &y));
    assert!(overlap(&tys, &sigs, &y, &x), "overlap is symmetric");
}

#[test]
fn overlap_is_false_for_two_concrete_heads_that_differ() {
    let mut tys = TyStore::new();
    let sigs = SigStore::new();
    let (tr, pair, a, b) = (DefId(0), DefId(1), DefId(2), DefId(3));
    let i32ty = tys.prim(PrimKind::I32);
    let u8ty = tys.prim(PrimKind::U8);
    let x_ty = tys.nominal_of(pair, &[i32ty]);
    let y_ty = tys.nominal_of(pair, &[u8ty]);
    let x = row(a, tr, x_ty, tys.head_key(x_ty), 0);
    let y = row(b, tr, y_ty, tys.head_key(y_ty), 1);
    assert!(!overlap(&tys, &sigs, &x, &y));
}

#[test]
fn overlap_needs_the_same_trait() {
    let mut tys = TyStore::new();
    let sigs = SigStore::new();
    let i32ty = tys.prim(PrimKind::I32);
    let x = row(DefId(2), DefId(0), i32ty, tys.head_key(i32ty), 0);
    let y = row(DefId(3), DefId(1), i32ty, tys.head_key(i32ty), 1);
    assert!(!overlap(&tys, &sigs, &x, &y));
}

#[test]
fn the_occurs_check_stops_t_against_pair_of_t() {
    let mut tys = TyStore::new();
    let sigs = SigStore::new();
    let (tr, pair, a, b) = (DefId(0), DefId(1), DefId(2), DefId(3));
    let t = tys.param(a, 0);
    // `T = Pair[T]` must terminate: the occurs check refuses the binding.
    let nested = tys.nominal_of(pair, &[t]);
    let x = row(a, tr, t, HeadKey::Param, 0);
    let y = row(b, tr, nested, tys.head_key(nested), 1);
    let _ = overlap(&tys, &sigs, &x, &y);
    // With the self type bound to itself nothing is left to unify.
    assert!(!overlap(&tys, &sigs, &x, &x));
}
