use fors::fir::defpath::{no_decl_key, no_def, root_path, DeclKey, DeclKeyTable, DefKeys, HeadKey, ModulePathTable};
use fors::fir::sig::SigKind;
use fors::fir::ty::PrimKind;
use fors::fir::Fir;
use fors::index::{decl_kind_from_u8, DeclKind, DefId, Symbol, DECL_KIND_COUNT};

/// The symbols a small interner would hand out: one per distinct name, in
/// first-seen order.
fn sym(name: &str) -> Symbol {
    let names = ["core", "text", "Shape", "m", "S", "T"];
    Symbol(names.iter().position(|n| *n == name).unwrap() as u32)
}

fn key(paths: &mut ModulePathTable, module: &[&str], name: &str) -> DeclKey {
    let segs: Vec<Symbol> = module.iter().map(|s| sym(s)).collect();
    DeclKey {
        parent: no_decl_key(),
        module: paths.intern(&segs),
        kind: DeclKind::Struct,
        name: Some(sym(name)),
        disamb: 0,
    }
}

#[test]
fn equal_keys_intern_equal() {
    let mut t = DeclKeyTable::new();
    let a = key(&mut t.paths, &["core", "text"], "Shape");
    let b = key(&mut t.paths, &["core", "text"], "Shape");
    let c = key(&mut t.paths, &["core"], "Shape");
    let ia = t.intern(a);
    let ib = t.intern(b);
    let ic = t.intern(c);
    assert_eq!(ia, ib);
    assert_ne!(ia, ic);
    assert_eq!(t.row(ia), a);
    assert_eq!(t.len(), 2);
}

#[test]
fn def_keys_maps_both_ways_and_allocates() {
    let mut t = DeclKeyTable::new();
    let row = key(&mut t.paths, &["m"], "S");
    let k = t.intern(row);
    let mut d = DefKeys::new();
    d.bind(DefId(3), k);
    assert_eq!(d.key_of(DefId(3)), k);
    assert_eq!(d.def_of(k), DefId(3));
    let row2 = key(&mut t.paths, &["m"], "T");
    let k2 = t.intern(row2);
    let fresh = d.def_for_key(k2);
    assert_eq!(d.def_for_key(k2), fresh);
    assert_ne!(fresh, DefId(3));
}

#[test]
fn head_key_order_is_by_variant_then_payload() {
    assert!(HeadKey::Prim(PrimKind::I8).as_u64() < HeadKey::Nominal(DefId(0)).as_u64());
    assert!(HeadKey::Nominal(DefId(1)).as_u64() < HeadKey::Nominal(DefId(2)).as_u64());
    assert!(HeadKey::Nominal(DefId(u32::MAX - 1)).as_u64() < HeadKey::Tuple(0).as_u64());
}

#[test]
fn def_for_key_keeps_the_two_tables_aligned() {
    let mut fir = Fir::new();
    let m = fir.keys.paths.intern(&[sym("m")]);
    let k = fir.keys.intern(DeclKey {
        parent: no_decl_key(),
        module: m,
        kind: DeclKind::Struct,
        name: Some(sym("S")),
        disamb: 0,
    });
    let a = fir.def_for_key(k);
    let b = fir.def_for_key(k);
    assert_eq!(a, b);
    assert_eq!(fir.sigs.kind(a), SigKind::Absent);
    let c = fir.declare(k, SigKind::Struct);
    assert_eq!(c, a);
    assert_eq!(fir.sigs.kind(a), SigKind::Struct);
    assert_eq!(fir.defs.defs(), fir.sigs.len());
}

#[test]
fn decl_kind_bytes_round_trip() {
    let kinds = [
        DeclKind::Fn,
        DeclKind::ExternFn,
        DeclKind::Struct,
        DeclKind::Enum,
        DeclKind::Trait,
        DeclKind::Impl,
        DeclKind::Const,
        DeclKind::Use,
        DeclKind::ModuleHeader,
        DeclKind::Needs,
        DeclKind::Inputs,
        DeclKind::Contracts,
    ];
    for (i, &k) in kinds.iter().enumerate() {
        assert_eq!(k.to_u8() as usize, i, "the codes follow declaration order");
        assert_eq!(decl_kind_from_u8(i as u8), Some(k));
    }
    assert_eq!(decl_kind_from_u8(DECL_KIND_COUNT), None);
    assert_eq!(kinds.len(), DECL_KIND_COUNT as usize);
}

#[test]
fn the_root_path_is_interned_first_and_paths_are_shared() {
    let mut paths = ModulePathTable::new();
    assert_eq!(paths.len(), 1);
    assert_eq!(paths.intern(&[]), root_path());
    let a = paths.intern(&[sym("core"), sym("text")]);
    let b = paths.intern(&[sym("core"), sym("text")]);
    assert_eq!(a, b);
    assert_eq!(paths.segments(a), &[sym("core"), sym("text")]);
    assert_eq!(paths.len(), 2);
}

#[test]
fn the_absent_key_has_no_row() {
    let mut fir = Fir::new();
    assert_eq!(fir.def_for_key(no_decl_key()), no_def());
    assert_eq!(fir.sigs.len(), 0);
    let mut d = DefKeys::new();
    assert_eq!(d.key_of(DefId(5)), no_decl_key());
    assert_eq!(d.def_of(no_decl_key()), no_def());
    d.bind(DefId(1), fors::fir::defpath::DeclKeyId(0));
    assert_eq!(d.defs(), 2);
    assert_eq!(d.key_of(DefId(0)), no_decl_key());
}
