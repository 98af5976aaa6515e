use fors::fir::ty::ty_unit;
use fors::fmir::alias::{AliasSeed, AliasSeedPool};
use fors::fmir::flags::{ValFlags, LINEAR, SECRET, SECRET_UNSPECIFIED};
use fors::fmir::ids::{BrandId, InstId, PlaceId, RegionId, ScopeId, ValId};
use fors::fmir::op::{ArithMode, CmpPred, Op, Policy, Relax, TrapKind};
use fors::fmir::place::{PlacePool, Seg};
use fors::fmir::region::{RegionKind, RegionRow};
use fors::fmir::scope::{PlaceListPool, ScopePool, ScopeRow};
use fors::fmir::site::{SitePool, SiteRow};
use fors::fmir::value::{ValDef, ValRow};

#[test]
fn split_sides_are_distinct_seeds() {
    let parent = PlaceId(0);
    let left = AliasSeed::Split { parent, side: 0 };
    let right = AliasSeed::Split { parent, side: 1 };
    assert_ne!(left, right);
}

#[test]
fn missing_detects_none_on_a_memory_producing_row_only() {
    let mut pool = AliasSeedPool::new();
    pool.push(AliasSeed::NoSeed);
    pool.push(AliasSeed::NoSeed);
    let ops = [Op::Alloc, Op::Add(ArithMode::Trap)];
    assert_eq!(pool.missing(&ops), Some(0));
}

#[test]
fn secret_cannot_be_omitted_from_the_constructor() {
    assert!(ValFlags::new(true).is_secret());
    assert!(!ValFlags::new(false).is_secret());
}

#[test]
fn union_is_or_of_bits() {
    let a = ValFlags::new(true);
    let b = ValFlags::new(false).with(LINEAR);
    assert_eq!(a.union(b).0, SECRET | LINEAR);
}

#[test]
fn unspecified_is_not_secret() {
    let row = ValFlags(SECRET_UNSPECIFIED);
    assert!(!row.is_secret());
    assert!(row.is_secret_unspecified());
}

#[test]
fn absent_sentinels_round_trip() {
    assert_eq!(ScopeId::none().0, u32::MAX);
    assert_eq!(RegionId::none().0, u32::MAX);
    assert_eq!(BrandId::none().0, u32::MAX);
}

#[test]
fn index_newtype_index_matches_field() {
    let v = ValId(7);
    assert_eq!(v.index(), 7usize);
}

#[test]
fn trap_kind_strings_are_stable_and_total() {
    for i in 0..8u32 {
        let k = TrapKind::from_u32(i).unwrap();
        assert_eq!(TrapKind::parse_name(k.as_str()), Some(k));
    }
    assert_eq!(TrapKind::from_u32(8), None);
}

#[test]
fn exactly_71_opcodes_excluding_the_tile_sentinel() {
    let all = [
        Op::ConstInt,
        Op::ConstFloat,
        Op::ConstBool,
        Op::ConstUnit,
        Op::ConstStr,
        Op::ConstFn,
        Op::Add(ArithMode::Trap),
        Op::Sub(ArithMode::Trap),
        Op::Mul(ArithMode::Trap),
        Op::Div(ArithMode::Trap),
        Op::Rem(ArithMode::Trap),
        Op::Shl(ArithMode::Trap),
        Op::Shr(ArithMode::Trap),
        Op::Neg(ArithMode::Trap),
        Op::Fadd(Relax::none()),
        Op::Fsub(Relax::none()),
        Op::Fmul(Relax::none()),
        Op::Fdiv(Relax::none()),
        Op::Frem(Relax::none()),
        Op::Fneg(Relax::none()),
        Op::Icmp(CmpPred::Eq),
        Op::Fcmp(CmpPred::Eq),
        Op::And,
        Op::Or,
        Op::Xor,
        Op::Not,
        Op::ConvChecked,
        Op::ConvWrap,
        Op::ConvSat,
        Op::ConvTrunc,
        Op::AggNew,
        Op::Field,
        Op::VariantNew,
        Op::Discr,
        Op::Payload,
        Op::TupleNew,
        Op::MoveFrom,
        Op::CopyFrom,
        Op::Init,
        Op::Borrow,
        Op::BorrowMut,
        Op::BorrowOut,
        Op::Index,
        Op::SliceRange,
        Op::Alloc,
        Op::Free,
        Op::ArenaAlloc,
        Op::ArenaDeref,
        Op::ArenaReset,
        Op::CallDirect,
        Op::CallWitness,
        Op::CallClosure,
        Op::Intrinsic,
        Op::CheckPre(Policy::Runtime),
        Op::CheckPost(Policy::Runtime),
        Op::CheckInv(Policy::Runtime),
        Op::ReduceTree,
        Op::EraseToDyn,
        Op::Declassify,
        Op::RegionEnter,
        Op::RegionExit,
        Op::Spawn,
        Op::Sync,
        Op::Br,
        Op::CondBr,
        Op::SwitchDiscr,
        Op::TryBr,
        Op::Ret,
        Op::Raise,
        Op::Trap,
        Op::Unreachable,
    ];
    assert_eq!(all.len(), 71, "the opcode count is 71");
    assert_eq!(all.iter().filter(|op| op.is_terminator()).count(), 8);
}

#[test]
fn every_discriminant_0_to_71_round_trips_through_from_parts() {
    for d in 0..=71u32 {
        let op = Op::from_parts(d, 0).expect("every discriminant 0..=71 is assigned");
        assert_eq!(op.discriminant(), d);
    }
    assert!(Op::from_parts(72, 0).is_none());
}

#[test]
fn arith_mode_payload_round_trips() {
    for mode in [ArithMode::Trap, ArithMode::Wrap, ArithMode::Sat, ArithMode::Unchecked] {
        let op = Op::Add(mode);
        let back = Op::from_parts(op.discriminant(), op.payload()).unwrap();
        assert_eq!(back, op);
    }
}

#[test]
fn tile_op_is_not_among_the_71_and_is_always_rejected_shape() {
    assert!(!Op::TileOp.is_terminator());
    assert!(!Op::TileOp.is_memory_producing());
    assert!(!Op::TileOp.is_call());
}

#[test]
fn interning_is_shape_sensitive() {
    let mut pool = PlacePool::new();
    let a = pool.intern(0, &[Seg::Field(1)], ty_unit());
    let b = pool.intern(0, &[Seg::Field(1)], ty_unit());
    let c = pool.intern(0, &[Seg::Field(2)], ty_unit());
    let d = pool.intern(1, &[Seg::Field(1)], ty_unit());
    assert_eq!(a, b);
    assert_ne!(a, c);
    assert_ne!(a, d);
    assert_eq!(pool.len(), 3);
}

#[test]
fn segs_read_back_in_order() {
    let mut pool = PlacePool::new();
    let path = [Seg::Deref, Seg::Field(3), Seg::Index(ValId(9))];
    let id = pool.intern(2, &path, ty_unit());
    assert_eq!(pool.segs(id), &path);
}

#[test]
fn absent_and_empty_captures_are_distinguishable() {
    let absent = RegionRow {
        kind: RegionKind::Spawn,
        captures: RegionRow::absent_captures(),
        brand: BrandId::none(),
    };
    let empty = RegionRow { kind: RegionKind::Spawn, captures: 0..0, brand: BrandId::none() };
    assert!(absent.captures_absent());
    assert!(!empty.captures_absent());
}

#[test]
fn place_list_pool_slices_round_trip() {
    let mut pool = PlaceListPool::new();
    let places = [PlaceId(1), PlaceId(2), PlaceId(3)];
    let range = pool.push_list(&places);
    assert_eq!(pool.get(range), &places);
}

#[test]
fn ancestor_walk_reaches_root() {
    let mut scopes = ScopePool::new();
    let root = scopes.push(ScopeRow::root(BrandId::none()));
    let mut child = ScopeRow::root(BrandId::none());
    child.parent = root;
    let child = scopes.push(child);
    assert!(scopes.is_ancestor_or_self(child, root));
    assert!(scopes.is_ancestor_or_self(child, child));
    assert!(!scopes.is_ancestor_or_self(root, child));
}

#[test]
fn ancestor_walk_terminates_on_a_cycle() {
    let mut scopes = ScopePool::new();
    let a = scopes.push(ScopeRow::root(BrandId::none()));
    let mut b_row = ScopeRow::root(BrandId::none());
    b_row.parent = a;
    let b = scopes.push(b_row);
    let rows = &mut scopes.rows;
    rows[a.index()].parent = b;
    assert!(!scopes.is_ancestor_or_self(a, ScopeId(999)));
}

#[test]
fn push_then_row_round_trips() {
    let mut pool = SitePool::new();
    let id = pool.push(SiteRow { line: 12, col: 3 });
    assert_eq!(pool.row(id), SiteRow { line: 12, col: 3 });
}

#[test]
fn val_def_param_round_trips() {
    let d = ValDef::Param(12);
    assert_eq!(ValDef::decode(d.encode()), d);
}

#[test]
fn val_def_inst_round_trips() {
    let d = ValDef::Inst(InstId(5));
    assert_eq!(ValDef::decode(d.encode()), d);
}

#[test]
fn new_row_is_never_secret_unspecified() {
    let row = ValRow::new(ty_unit(), false, 0, ValDef::Param(0));
    assert!(!row.flags.is_secret_unspecified());
    assert_eq!(row.ct, 0);
}

#[test]
fn a_seed_column_shorter_than_the_ops_reads_as_missing() {
    let pool = fors::fmir::alias::AliasSeedPool::new();
    assert_eq!(pool.missing(&[fors::fmir::op::Op::Alloc]), Some(0));
}
