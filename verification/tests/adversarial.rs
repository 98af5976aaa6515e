
use fors::fir::defpath::DeclKeyId;
use fors::fir::sig::FnSigId;
use fors::fir::ty::{ty_unit, TyId};
use fors::fmir::alias::AliasSeed;
use fors::fmir::block::{BlockPool, BlockRow};
use fors::fmir::decl::DeclFmir;
use fors::fmir::canon::canonicalize;
use fors::fmir::encode::to_bytes;
use fors::fmir::ids::{BlockId, PlaceId, ScopeId, SiteId};
use fors::fmir::inst::InstRow;
use fors::fmir::op::{ArithMode, NO_OPERAND, Op};
use fors::fmir::value::{ValDef, ValRow};
use fors::fmir::verify::verify;
use fors::fmir::diag::DiagCode;
use fors::fmir::flags::{CT_UNSPECIFIED, SECRET_UNSPECIFIED, ValFlags};

fn canonical_bytes(d: &DeclFmir) -> Vec<u8> {
    to_bytes(&canonicalize(d.clone()))
}

fn plain(op: Op) -> InstRow {
    InstRow {
        op,
        a: NO_OPERAND,
        b: NO_OPERAND,
        c: NO_OPERAND,
        ty: ty_unit(),
        site: SiteId(0),
    }
}

fn chain(order: [u32; 3]) -> DeclFmir {
    let mut d = DeclFmir::empty(DeclKeyId(7), FnSigId(9));
    d.push_val(ValRow::new(TyId(1), false, 0, ValDef::Param(0)));
    d.push_inst(plain(Op::Add(ArithMode::Trap)), AliasSeed::NoSeed);
    let mut rows = vec![None, None, None];
    let term = |op: Op, a: u32| InstRow { a, ..plain(op) };
    rows[order[0] as usize] = Some(term(Op::Br, order[1]));
    rows[order[1] as usize] = Some(term(Op::Br, order[2]));
    rows[order[2] as usize] = Some(plain(Op::Ret));
    let mut blocks = BlockPool::new();
    for r in rows {
        blocks.push(BlockRow {
            first_inst: 0,
            inst_len: 0,
            term: r.unwrap(),
            scope: ScopeId(0),
        });
    }
    d.blocks = blocks;
    d.entry = BlockId(order[0]);
    d
}

#[test]
fn hash_is_invariant_under_every_block_permutation() {
    let base = canonical_bytes(&chain([0, 1, 2]));
    for order in [[0, 2, 1], [1, 0, 2], [1, 2, 0], [2, 0, 1], [2, 1, 0]] {
        assert_eq!(
            canonical_bytes(&chain(order)),
            base,
            "renumbering {order:?} changed the canonical encoding"
        );
    }
}

fn rich() -> DeclFmir {
    let mut d = DeclFmir::empty(DeclKeyId(3), FnSigId(4));
    d.push_val(ValRow::new(TyId(1), false, 0, ValDef::Param(0)));
    d.push_val(ValRow::new(TyId(1), false, 0, ValDef::Param(1)));
    d.push_val(ValRow::new(
        TyId(1),
        false,
        0,
        ValDef::Inst(fors::fmir::ids::InstId(0)),
    ));
    d.push_inst(
        InstRow {
            a: 0,
            b: 1,
            ..plain(Op::Add(ArithMode::Trap))
        },
        AliasSeed::NoSeed,
    );
    d.push_inst(
        InstRow {
            a: 0,
            ..plain(Op::Alloc)
        },
        AliasSeed::Own(PlaceId(0)),
    );
    d.sites.push(fors::fmir::site::SiteRow { line: 4, col: 2 });
    d.consts.intern(fors::fmir::constpool::ConstValue::Int(11));
    d
}

#[test]
fn hash_changes_on_every_single_field_edit() {
    let base = canonical_bytes(&rich());
    let mutators: Vec<(&str, fn(&mut DeclFmir))> = vec![
        ("decl key", |d| d.decl = DeclKeyId(99)),
        ("sig", |d| d.sig = FnSigId(99)),
        ("is_unsafe_invariant", |d| d.is_unsafe_invariant = true),
        ("val ty", |d| {
            let mut v = fors::fmir::value::ValPool::new();
            v.push(ValRow::new(TyId(5), false, 0, ValDef::Param(0)));
            d.vals = v;
        }),
        ("val secret bit", |d| {
            let mut v = fors::fmir::value::ValPool::new();
            v.push(ValRow::new(TyId(1), true, 0, ValDef::Param(0)));
            d.vals = v;
        }),
        ("val ct region", |d| {
            let mut v = fors::fmir::value::ValPool::new();
            v.push(ValRow::new(TyId(1), false, 3, ValDef::Param(0)));
            d.vals = v;
        }),
        ("inst operand a", |d| {
            let mut p = fors::fmir::inst::InstPool::new();
            p.push(
                InstRow {
                    a: 1,
                    b: 1,
                    ..plain(Op::Add(ArithMode::Trap))
                },
                AliasSeed::NoSeed,
            );
            d.insts = p;
        }),
        ("inst opcode", |d| {
            let mut p = fors::fmir::inst::InstPool::new();
            p.push(
                InstRow {
                    a: 0,
                    b: 1,
                    ..plain(Op::Sub(ArithMode::Trap))
                },
                AliasSeed::NoSeed,
            );
            d.insts = p;
        }),
        ("inst site", |d| {
            let mut p = fors::fmir::inst::InstPool::new();
            p.push(
                InstRow {
                    a: 0,
                    b: 1,
                    site: SiteId(1),
                    ..plain(Op::Add(ArithMode::Trap))
                },
                AliasSeed::NoSeed,
            );
            d.insts = p;
        }),
        ("alias seed", |d| {
            let mut p = fors::fmir::inst::InstPool::new();
            p.push(
                InstRow {
                    a: 0,
                    ..plain(Op::Alloc)
                },
                AliasSeed::Own(PlaceId(2)),
            );
            d.insts = p;
        }),
        ("site row", |d| {
            let mut s = fors::fmir::site::SitePool::new();
            s.push(fors::fmir::site::SiteRow { line: 0, col: 0 });
            s.push(fors::fmir::site::SiteRow { line: 5, col: 2 });
            d.sites = s;
        }),
        ("const value", |d| {
            let mut c = fors::fmir::constpool::ConstPool::new();
            c.intern(fors::fmir::constpool::ConstValue::Int(12));
            d.consts = c;
        }),
        ("block scope", |d| {
            let mut b = BlockPool::new();
            let mut row = d.blocks.row(d.entry);
            row.scope = ScopeId(1);
            d.entry = b.push(row);
            d.blocks = b;
        }),
    ];
    for (name, m) in mutators {
        let mut d = rich();
        m(&mut d);
        assert_ne!(
            canonical_bytes(&d),
            base,
            "editing `{name}` did not change the canonical encoding"
        );
    }
}

fn malformed() -> Vec<(&'static str, DeclFmir)> {
    let mut out = Vec::new();

    let mut d = DeclFmir::empty(DeclKeyId(0), FnSigId(0));
    d.push_inst(
        InstRow {
            a: 9,
            b: 9,
            ..plain(Op::Add(ArithMode::Trap))
        },
        AliasSeed::NoSeed,
    );
    out.push(("operand ValId past the end of ValPool", d));

    let mut d = DeclFmir::empty(DeclKeyId(0), FnSigId(0));
    d.push_val(ValRow::new(TyId(1), true, 0, ValDef::Param(0)));
    let mut blocks = BlockPool::new();
    d.entry = blocks.push(BlockRow {
        first_inst: 0,
        inst_len: 0,
        term: InstRow {
            a: 0,
            b: 7,
            c: 8,
            ..plain(Op::CondBr)
        },
        scope: ScopeId(0),
    });
    d.blocks = blocks;
    out.push(("cond_br targets past the end of BlockPool", d));

    let mut d = DeclFmir::empty(DeclKeyId(0), FnSigId(0));
    let mut blocks = BlockPool::new();
    d.entry = blocks.push(BlockRow {
        first_inst: 3,
        inst_len: 4,
        term: plain(Op::Ret),
        scope: ScopeId(0),
    });
    d.blocks = blocks;
    out.push(("block inst range past the end of InstPool", d));

    let mut d = DeclFmir::empty(DeclKeyId(0), FnSigId(0));
    d.push_inst(
        InstRow {
            a: 6,
            b: 2,
            ..plain(Op::AggNew)
        },
        AliasSeed::NoSeed,
    );
    out.push(("agg_new operand range with start > end", d));

    let mut d = DeclFmir::empty(DeclKeyId(0), FnSigId(0));
    d.push_inst(
        InstRow {
            a: 5,
            ..plain(Op::Intrinsic)
        },
        AliasSeed::NoSeed,
    );
    out.push(("intrinsic call index past the end of `calls`", d));

    let mut d = DeclFmir::empty(DeclKeyId(0), FnSigId(0));
    d.entry = BlockId(4);
    out.push(("entry block id past the end of BlockPool", d));

    let mut d = DeclFmir::empty(DeclKeyId(0), FnSigId(0));
    let mut blocks = BlockPool::new();
    d.entry = blocks.push(BlockRow {
        first_inst: 0,
        inst_len: 0,
        term: InstRow {
            a: 3,
            ..plain(Op::SwitchDiscr)
        },
        scope: ScopeId(0),
    });
    d.blocks = blocks;
    out.push(("switch side-table index past the end of `switches`", d));

    out
}

#[test]
fn verify_is_total_over_malformed_pools() {
    for (name, d) in malformed() {
        let _ = verify(&d);
        let _ = name;
    }
}

#[test]
fn hash_and_encode_are_total_over_malformed_pools() {
    for (name, d) in malformed() {
        let _ = canonical_bytes(&d);
        let bytes = fors::fmir::encode::to_bytes(&d);
        let back = fors::fmir::encode::from_bytes(&bytes)
            .unwrap_or_else(|e| panic!("`{name}` failed to decode: {e:?}"));
        assert_eq!(
            fors::fmir::encode::to_bytes(&back),
            bytes,
            "`{name}` did not round-trip"
        );
    }
}

#[test]
fn rows_lacking_the_mandatory_fields_are_rejected_however_built() {

    let mut d = DeclFmir::empty(DeclKeyId(0), FnSigId(0));
    d.push_val(ValRow {
        ty: ty_unit(),
        flags: ValFlags(SECRET_UNSPECIFIED),
        ct: CT_UNSPECIFIED,
        def: 0,
    });
    let codes: Vec<DiagCode> = verify(&d).iter().map(|x| x.code).collect();
    assert!(codes.contains(&DiagCode::MissingSecretField), "{codes:?}");
    assert!(codes.contains(&DiagCode::MissingCtRegion), "{codes:?}");

    let mut d = DeclFmir::empty(DeclKeyId(0), FnSigId(0));
    d.push_val(ValRow::new(ty_unit(), false, 0, ValDef::Param(0)).with_flags(SECRET_UNSPECIFIED));
    assert!(
        verify(&d)
            .iter()
            .any(|x| x.code == DiagCode::MissingSecretField),
        "with_flags(SECRET_UNSPECIFIED) slipped past verify()"
    );
}

#[test]
fn dump_is_total_over_malformed_pools() {
    for (_name, d) in malformed() {
        let _ = fors::fmir::dump::dump(&d);
    }
}

fn one_block() -> DeclFmir {
    let mut d = DeclFmir::empty(DeclKeyId(3), FnSigId(4));
    d.push_val(ValRow::new(TyId(1), false, 0, ValDef::Param(0)));
    d.push_val(ValRow::new(TyId(1), true, 2, ValDef::Param(1)));
    d.push_val(ValRow::new(TyId(1), false, 0, ValDef::Inst(fors::fmir::ids::InstId(0))));
    d.push_val(ValRow::new(TyId(6), false, 0, ValDef::Inst(fors::fmir::ids::InstId(1))));
    d.push_inst(
        InstRow {
            a: 0,
            b: 1,
            ..plain(Op::Add(ArithMode::Wrap))
        },
        AliasSeed::NoSeed,
    );
    d.push_inst(
        InstRow {
            a: 0,
            b: 2,
            ..plain(Op::Alloc)
        },
        AliasSeed::Conv(fors::fir::sig::Conv::Inout),
    );
    d.push_inst(
        InstRow {
            a: 1,
            ..plain(Op::Trap)
        },
        AliasSeed::NoSeed,
    );
    let mut blocks = BlockPool::new();
    d.entry = blocks.push(BlockRow {
        first_inst: 0,
        inst_len: 3,
        term: InstRow {
            a: 2,
            ..plain(Op::Ret)
        },
        scope: ScopeId(0),
    });
    d.blocks = blocks;
    d
}

#[test]
fn dump_writes_params_first_then_each_block_line_by_line() {
    let text = fors::fmir::dump::dump(&one_block());
    assert_eq!(
        text,
        "decl 3 sig 4\n\
         val %v0 = param 0 ty 1 nosecret ct=0\n\
         val %v1 = param 1 ty 1 secret ct=2\n\
         block bb0\n\
         val %v2 = add:wrap %v0 %v1 ty 1 nosecret ct=0\n\
         val %v3 = alloc %v0 %v2 ty 6 nosecret ct=0 seed conv-inout\n\
         do trap kind=overflow\n\
         do ret %v2\n"
    );
}

#[test]
fn dump_marks_missing_fields_and_unsafe_declarations() {
    let mut d = DeclFmir::empty(DeclKeyId(1), FnSigId(2));
    d.is_unsafe_invariant = true;
    let row = ValRow::new(TyId(1), false, 0, ValDef::Param(0)).with_flags(SECRET_UNSPECIFIED);
    let row = ValRow { ct: CT_UNSPECIFIED, ..row };
    d.push_val(row);
    let text = fors::fmir::dump::dump(&d);
    assert_eq!(
        text,
        "decl 1 sig 2 unsafe\nval %v0 = param 0 ty 1 ? ct=?\nblock bb0\ndo unreachable\n"
    );
}

#[test]
fn dump_prints_switch_arms_with_signed_values() {
    let mut d = DeclFmir::empty(DeclKeyId(0), FnSigId(0));
    d.push_val(ValRow::new(TyId(1), false, 0, ValDef::Param(0)));
    let arms = d.insts.push_switch_arms(&[
        fors::fmir::inst::SwitchArm { value: -5, target: BlockId(0) },
        fors::fmir::inst::SwitchArm { value: 7, target: BlockId(0) },
    ]);
    let sw = d.insts.push_switch(fors::fmir::inst::SwitchRow {
        discr: fors::fmir::ids::ValId(0),
        default: BlockId(0),
        arms,
    });
    let mut blocks = BlockPool::new();
    d.entry = blocks.push(BlockRow {
        first_inst: 0,
        inst_len: 0,
        term: InstRow {
            a: sw,
            ..plain(Op::SwitchDiscr)
        },
        scope: ScopeId(0),
    });
    d.blocks = blocks;
    let text = fors::fmir::dump::dump(&d);
    assert_eq!(
        text,
        "decl 0 sig 0\nval %v0 = param 0 ty 1 nosecret ct=0\nblock bb0\ndo switch_discr %v0 bb0 -5:bb0 7:bb0\n"
    );
}
