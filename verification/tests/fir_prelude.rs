use fors::fir::prelude::{
    build, generic_arity, push_builtin_impls, trait_arity, PreludeEntity, PreludeNames, ADD, COPYABLE, DROPPABLE,
    EQ, ITERATOR, NEG, OPTION,
};
use fors::fir::defpath::no_def;
use fors::fir::impls::ImplIndex;
use fors::fir::sig::SigKind;
use fors::fir::ty::{ty_unit, PrimKind};
use fors::fir::Fir;
use fors::index::Symbol;

/// Distinct names, numbered as an interner would number them.
fn names() -> PreludeNames {
    let mut next = 0u32;
    let mut sym = || {
        next += 1;
        Symbol(next)
    };
    let module = sym();
    let prims: Vec<Symbol> = (0..15).map(|_| sym()).collect();
    let never = sym();
    let generics: Vec<Symbol> = (0..11).map(|_| sym()).collect();
    let type_param = sym();
    let const_param = sym();
    let some = sym();
    let none = sym();
    let item = sym();
    let output = sym();
    let self_type = sym();
    let receiver = sym();
    let rhs = sym();
    let index = sym();
    let error = sym();
    let traits: Vec<Symbol> = (0..21).map(|_| sym()).collect();
    let first_param = sym();
    let second_param = sym();
    let methods: Vec<Symbol> = (0..18).map(|_| sym()).collect();
    let opaque: Vec<Symbol> = (0..8).map(|_| sym()).collect();
    PreludeNames {
        module,
        prims,
        never,
        generics,
        type_param,
        const_param,
        some,
        none,
        item,
        output,
        self_type,
        receiver,
        rhs,
        index,
        error,
        traits,
        first_param,
        second_param,
        methods,
        opaque,
    }
}

#[test]
fn every_prelude_name_resolves_to_one_row() {
    let n = names();
    let mut fir = Fir::new();
    let p = build(&mut fir, &n);
    for s in &n.prims {
        assert!(matches!(p.lookup(*s), Some(PreludeEntity::Ty(_))));
    }
    for (i, s) in n.generics.iter().enumerate() {
        match p.lookup(*s) {
            Some(PreludeEntity::Generic { def, arity: a }) => {
                assert_eq!(a, generic_arity(i));
                assert_eq!(fir.sigs.generics_store.count(fir.sigs.generics(def)), a as usize);
            }
            other => panic!("{i}: {other:?}"),
        }
    }
    for (i, s) in n.traits.iter().enumerate() {
        match p.lookup(*s) {
            // A trait's own list is `[Self, P1..]`, so the count is arity + 1.
            Some(PreludeEntity::Trait { def, arity: a }) => {
                assert_eq!(a, trait_arity(i));
                assert_eq!(fir.sigs.generics_store.count(fir.sigs.generics(def)), a as usize + 1);
            }
            other => panic!("{i}: {other:?}"),
        }
    }
}

#[test]
fn iterator_declares_item_bounded_by_droppable() {
    let n = names();
    let mut fir = Fir::new();
    let p = build(&mut fir, &n);
    let it = p.traits[ITERATOR];
    let a = fir.sigs.assoc(it);
    assert_eq!(fir.sigs.assocs.count(a), 1);
    let row = fir.sigs.assocs.get(a, 0);
    assert_eq!(row.name, p.item_name);
    let bounds = fir.sigs.bounds.get(row.bounds);
    assert_eq!(bounds.len(), 1);
    assert_eq!(fir.tys.trait_ref(bounds[0]).0, p.traits[DROPPABLE]);
}

#[test]
fn prelude_rows_are_the_lowest_and_kinds_match() {
    let n = names();
    let mut fir = Fir::new();
    let p = build(&mut fir, &n);
    assert_eq!(p.option, p.generics[OPTION]);
    assert_eq!(fir.sigs.kind(p.option), SigKind::Enum);
    assert_eq!(fir.sigs.kind(p.generics[0]), SigKind::Struct);
    assert_eq!(fir.sigs.kind(p.traits[ADD]), SigKind::Trait);
    assert_eq!(p.traits[21], no_def());
    assert_eq!(p.generics[0].0, 0);
    assert_eq!(p.traits[0].0, 11);
    assert_eq!(p.lookup(n.never), Some(PreludeEntity::Ty(fors::fir::ty::ty_never())));
    assert_eq!(p.lookup(n.opaque[3]), Some(PreludeEntity::Opaque));
    assert_eq!(p.lookup(Symbol(100_000)), None);
    assert_eq!(p.trait_index(p.traits[EQ]), Some(EQ));
    assert_eq!(p.generic_index(p.traits[EQ]), None);
    assert_eq!(fir.keys.paths.segments(p.module()), &[n.module]);
    // `Add` declares its `add` method.
    assert_eq!(fir.sigs.member_store.count(fir.sigs.members(p.traits[ADD])), 1);
}

#[test]
fn builtin_impls_make_trait_probes_plain_lookups() {
    let n = names();
    let mut fir = Fir::new();
    let p = build(&mut fir, &n);
    let mut index = ImplIndex::new();
    push_builtin_impls(&mut fir, &p, &mut index);
    assert_eq!(index.len(), 161);
    index.finish();
    let i32ty = fir.tys.prim(PrimKind::I32);
    let u8ty = fir.tys.prim(PrimKind::U8);
    let f64ty = fir.tys.prim(PrimKind::F64);
    assert_eq!(index.exact(p.traits[ADD], i32ty).len(), 1);
    assert_eq!(index.exact(p.traits[NEG], i32ty).len(), 1);
    assert_eq!(index.exact(p.traits[NEG], u8ty).len(), 0);
    assert_eq!(index.exact(p.traits[NEG], f64ty).len(), 1);
    assert_eq!(index.exact(p.traits[COPYABLE], ty_unit()).len(), 1);
    assert_eq!(index.row(0).order, 0);
    assert_eq!(index.row(160).order, 160);
}
