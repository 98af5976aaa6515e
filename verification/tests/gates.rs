
use fors::fir::defpath::DeclKeyId;
use fors::fir::sig::{Conv, FnSigId};
use fors::fir::ty::{ty_unit, TyId};
use fors::fmir::alias::AliasSeed;
use fors::fmir::block::BlockPool;
use fors::fmir::block::BlockRow;
use fors::fmir::constpool::ConstPool;
use fors::fmir::decl::DeclFmir;
use fors::fmir::canon::canonicalize;
use fors::fmir::encode::{from_bytes, to_bytes};
use fors::fmir::ids::{BlockId, BrandId, PlaceId, ScopeId, ValId};
use fors::fmir::inst::{InstPool, InstRow};
use fors::fmir::op::{CmpPred, Op, Policy};
use fors::fmir::place::{PlacePool, Seg};
use fors::fmir::region::{CapturePool, RegionKind, RegionPool, RegionRow};
use fors::fmir::scope::{DeferPool, PlaceListPool, ScopePool, ScopeRow};
use fors::fmir::site::SitePool;
use fors::fmir::value::{ValDef, ValPool, ValRow};
use fors::fmir::verify::verify;

fn canonical_bytes(d: &DeclFmir) -> Vec<u8> {
    to_bytes(&canonicalize(d.clone()))
}

struct Xorshift64(u64);

impl Xorshift64 {
    const SEED: u64 = 0x9E3779B97F4A7C15;

    fn new() -> Self {
        Xorshift64(Self::SEED)
    }

    fn next_u64(&mut self) -> u64 {
        let mut x = self.0;
        x ^= x << 13;
        x ^= x >> 7;
        x ^= x << 17;
        self.0 = x;
        x
    }

    fn next_u32(&mut self) -> u32 {
        (self.next_u64() >> 32) as u32
    }

    fn range(&mut self, n: u32) -> u32 {
        if n == 0 { 0 } else { self.next_u32() % n }
    }

    fn bool(&mut self) -> bool {
        self.next_u32() & 1 == 0
    }
}

fn random_op(rng: &mut Xorshift64, discriminants: &[u32]) -> Op {
    loop {
        let d = discriminants[rng.range(discriminants.len() as u32) as usize];
        let payload = match d {
            6..=13 => rng.range(4),           // ArithMode
            14..=19 => rng.next_u32() & 0xFF, // Relax: any byte
            20..=21 => rng.range(6),          // CmpPred
            53..=55 => rng.range(2),          // Policy
            _ => 0,
        };
        if let Some(op) = Op::from_parts(d, payload) {
            return op;
        }
    }
}

const NON_TERMINATOR_DISCRIMINANTS: [u32; 63] = {
    let mut arr = [0u32; 63];
    let mut i = 0;
    while i < 63 {
        arr[i] = i as u32;
        i += 1;
    }
    arr
};
const TERMINATOR_DISCRIMINANTS: [u32; 8] = [63, 64, 65, 66, 67, 68, 69, 70];

fn gen_decl(rng: &mut Xorshift64) -> DeclFmir {
    let decl_key = DeclKeyId(rng.next_u32());
    let sig = FnSigId(rng.next_u32());

    let mut vals = ValPool::new();
    let n_params = 1 + rng.range(4);
    for i in 0..n_params {
        let ty = TyId(rng.range(6));
        vals.push(ValRow::new(ty, rng.bool(), 0, ValDef::Param(i as u16)));
    }

    let mut insts = InstPool::new();
    let mut blocks = BlockPool::new();
    let n_blocks = 1 + rng.range(4);
    for _ in 0..n_blocks {
        let first_inst = insts.len() as u32;
        let n_regular = rng.range(4);
        for _ in 0..n_regular {
            let op = random_op(rng, &NON_TERMINATOR_DISCRIMINANTS);
            let ty = TyId(rng.range(6));
            let row = InstRow {
                op,
                a: rng.next_u32() % 64,
                b: rng.next_u32() % 64,
                c: rng.next_u32() % 64,
                ty,
                site: fors::fmir::ids::SiteId(rng.next_u32() % 8),
            };
            let seed = if op.is_memory_producing() {
                [
                    AliasSeed::NoSeed,
                    AliasSeed::Conv(Conv::Let),
                    AliasSeed::Own(PlaceId(rng.next_u32() % 8)),
                    AliasSeed::Arena(BrandId(rng.next_u32() % 8)),
                    AliasSeed::Split {
                        parent: PlaceId(rng.next_u32() % 8),
                        side: (rng.next_u32() % 2) as u8,
                    },
                ][rng.range(5) as usize]
            } else {
                AliasSeed::NoSeed
            };
            let inst_id = insts.push(row, seed);
            if rng.bool() {
                vals.push(ValRow::new(ty, rng.bool(), 0, ValDef::Inst(inst_id)));
            }
        }
        let term_op = random_op(rng, &TERMINATOR_DISCRIMINANTS);
        let term = InstRow {
            op: term_op,
            a: rng.next_u32() % 8,
            b: rng.next_u32() % 8,
            c: rng.next_u32() % 8,
            ty: ty_unit(),
            site: fors::fmir::ids::SiteId(rng.next_u32() % 8),
        };
        let inst_len = insts.len() as u32 - first_inst;
        blocks.push(BlockRow {
            first_inst,
            inst_len,
            term,
            scope: ScopeId(0),
        });
    }

    let mut scopes = ScopePool::new();
    scopes.push(ScopeRow::root(BrandId::none()));

    let mut regions = RegionPool::new();
    let n_regions = rng.range(3);
    for _ in 0..n_regions {
        let kind = [
            RegionKind::Spawn,
            RegionKind::Parallel,
            RegionKind::WithArena,
        ][rng.range(3) as usize];
        let captures = if rng.bool() {
            RegionRow::absent_captures()
        } else {
            let start = regions.captures.len() as u32;
            for _ in 0..rng.range(3) {
                let conv = [Conv::Let, Conv::Inout, Conv::Sink, Conv::Out][rng.range(4) as usize];
                regions.captures.push(fors::fmir::region::CaptureRow {
                    value: ValId(rng.next_u32() % 8),
                    conv,
                });
            }
            start..(regions.captures.len() as u32)
        };
        regions.push(RegionRow {
            kind,
            captures,
            brand: BrandId::none(),
        });
    }

    DeclFmir {
        decl: decl_key,
        sig,
        vals,
        blocks,
        insts,
        scopes,
        places: PlacePool::new(),
        regions,
        sites: SitePool::new(),
        consts: ConstPool::new(),
        obligations: PlaceListPool::new(),
        scoped_sources: PlaceListPool::new(),
        defers: DeferPool::new(),
        entry: BlockId(0),
        is_unsafe_invariant: rng.bool(),
        fingerprint: 0,
    }
}

#[test]
fn encode_decode_roundtrip() {
    let mut rng = Xorshift64::new();
    for i in 0..10_000u32 {
        let decl = gen_decl(&mut rng);
        let bytes = to_bytes(&decl);
        let decoded =
            from_bytes(&bytes).unwrap_or_else(|e| panic!("decl {i} failed to decode: {e:?}"));
        let re_encoded = to_bytes(&decoded);
        assert_eq!(re_encoded, bytes, "decl {i} did not round-trip");
    }
}

#[test]
fn fmir_hash_is_invariant_under_block_renumbering_and_changes_on_operand_edit() {
    let mut rng = Xorshift64::new();
    for _ in 0..500 {
        let decl = gen_decl(&mut rng);
        assert_eq!(canonical_bytes(&decl), canonical_bytes(&decl));
    }

    let mut decl = DeclFmir::empty(DeclKeyId(0), FnSigId(0));
    decl.vals
        .push(ValRow::new(ty_unit(), false, 0, ValDef::Param(0)));
    let before = canonical_bytes(&decl);
    let mut flipped = DeclFmir::empty(DeclKeyId(0), FnSigId(0));
    flipped
        .vals
        .push(ValRow::new(ty_unit(), true, 0, ValDef::Param(0)));
    assert_ne!(before, canonical_bytes(&flipped));
}

#[test]
fn alias_seed_present_on_every_memory_op() {
    let mut decl = DeclFmir::empty(DeclKeyId(0), FnSigId(0));
    let with_seed = InstRow {
        op: Op::Alloc,
        a: 0,
        b: 0,
        c: fors::fmir::op::NO_OPERAND,
        ty: ty_unit(),
        site: fors::fmir::ids::SiteId(0),
    };
    decl.push_inst(with_seed, AliasSeed::Own(PlaceId(0)));
    assert!(
        verify(&decl).is_empty(),
        "a memory op WITH a seed must not be rejected: {:?}",
        verify(&decl)
    );

    let mut missing = DeclFmir::empty(DeclKeyId(0), FnSigId(0));
    missing.push_inst(with_seed, AliasSeed::NoSeed);
    assert!(
        verify(&missing)
            .iter()
            .any(|d| d.code == fors::fmir::diag::DiagCode::MemoryOpMissingAliasSeed),
        "a memory op with NO seed must be rejected"
    );
}

#[test]
fn arena_brand_survives_lowering() {
    let brand = BrandId(42);
    let mut decl = DeclFmir::empty(DeclKeyId(0), FnSigId(0));
    let arena_val = decl.push_val(ValRow::new(ty_unit(), false, 0, ValDef::Param(0)));
    let deref = InstRow {
        op: Op::ArenaDeref,
        a: arena_val.0,
        b: fors::fmir::op::NO_OPERAND,
        c: fors::fmir::op::NO_OPERAND,
        ty: ty_unit(),
        site: fors::fmir::ids::SiteId(0),
    };
    decl.push_inst(deref, AliasSeed::Arena(brand));
    decl.scopes = {
        let mut scopes = ScopePool::new();
        scopes.push(ScopeRow::root(brand));
        scopes
    };

    assert!(verify(&decl).is_empty(), "{:?}", verify(&decl));
    let bytes = to_bytes(&decl);
    let decoded = from_bytes(&bytes).expect("decode");

    assert_eq!(
        decoded.insts.aliases.get(0),
        AliasSeed::Arena(brand),
        "the alias seed's brand must survive byte for byte"
    );
    assert_eq!(
        decoded.scopes.row(ScopeId(0)).brand,
        brand,
        "the scope's own brand must survive byte for byte"
    );
}

#[test]
fn split_at_halves_get_distinct_seeds() {
    let mut decl = DeclFmir::empty(DeclKeyId(0), FnSigId(0));
    let parent = decl.places.intern(0, &[], ty_unit());
    let base = decl.push_val(ValRow::new(ty_unit(), false, 0, ValDef::Param(0)));
    let mid = decl.push_val(ValRow::new(ty_unit(), false, 0, ValDef::Param(1)));
    let end = decl.push_val(ValRow::new(ty_unit(), false, 0, ValDef::Param(2)));

    let left = InstRow {
        op: Op::SliceRange,
        a: base.0,
        b: 0,
        c: mid.0,
        ty: ty_unit(),
        site: fors::fmir::ids::SiteId(0),
    };
    let left_id = decl.push_inst(left, AliasSeed::Split { parent, side: 0 });
    let right = InstRow {
        op: Op::SliceRange,
        a: base.0,
        b: mid.0,
        c: end.0,
        ty: ty_unit(),
        site: fors::fmir::ids::SiteId(0),
    };
    let right_id = decl.push_inst(right, AliasSeed::Split { parent, side: 1 });

    let left_seed = decl.insts.aliases.get(left_id.index());
    let right_seed = decl.insts.aliases.get(right_id.index());
    assert_ne!(
        left_seed, right_seed,
        "the two halves must not get the same alias seed"
    );
    assert!(
        verify(&decl).is_empty(),
        "both halves carry a seed, so verify() must accept them: {:?}",
        verify(&decl)
    );

    let decoded = from_bytes(&to_bytes(&decl)).expect("decode");
    assert_ne!(
        decoded.insts.aliases.get(left_id.index()),
        decoded.insts.aliases.get(right_id.index())
    );
}

#[test]
fn unused_import_guards() {
    let _ = CmpPred::Eq;
    let _ = Policy::Runtime;
    let _: PlaceListPool = PlaceListPool::new();
    let _ = Seg::Deref;
    let _: CapturePool = CapturePool::new();
}
