//! One declaration's body: self-contained, every index relative to its own
//! pools, so it is content-hashable and movable without fixups.

use vstd::prelude::*;

use crate::fir::defpath::DeclKeyId;
use crate::fir::sig::FnSigId;
use crate::fir::ty::TyId;
use crate::fmir::alias::{seed_at, seed_missing, AliasSeed};
use crate::fmir::block::{BlockPool, BlockRow};
use crate::fmir::constpool::ConstPool;
use crate::fmir::ids::{BlockId, BrandId, InstId, ScopeId, SiteId, ValId, ABSENT};
use crate::fmir::inst::{InstPool, InstRow};
use crate::fmir::op::{Op, NO_OPERAND};
use crate::fmir::place::PlacePool;
use crate::fmir::region::RegionPool;
use crate::fmir::scope::{DeferPool, PlaceListPool, ScopePool, ScopeRow};
use crate::fmir::site::{SitePool, SiteRow};
use crate::fmir::value::{ValPool, ValRow};

verus! {

/// One declaration's IR body.
#[derive(Clone, Debug)]
pub struct DeclFmir {
    pub decl: DeclKeyId,
    pub sig: FnSigId,
    pub vals: ValPool,
    pub blocks: BlockPool,
    pub insts: InstPool,
    pub scopes: ScopePool,
    pub places: PlacePool,
    pub regions: RegionPool,
    pub sites: SitePool,
    pub consts: ConstPool,
    /// Scope obligation ranges resolve here.
    pub obligations: PlaceListPool,
    /// A scoped value's `sources` ranges resolve here.
    pub scoped_sources: PlaceListPool,
    pub defers: DeferPool,
    /// The entry block: the root of reachability and of the canonical
    /// block numbering the content hash uses.
    pub entry: BlockId,
    /// Does this declaration carry `@unsafe(invariant: "...")`? `declassify`
    /// is legal only inside such a declaration.
    pub is_unsafe_invariant: bool,
    /// The content hash of the canonical encoding, once computed.
    pub fingerprint: u128,
}

impl DeclFmir {
    /// The pools' internal invariants hold.
    pub open spec fn wf(&self) -> bool {
        &&& self.vals.wf()
        &&& self.places.wf()
    }

    /// A minimal, verifier-clean declaration: one root scope, one site, one
    /// block terminated `unreachable`, no values.
    pub fn empty(decl: DeclKeyId, sig: FnSigId) -> (r: DeclFmir)
        ensures
            r.wf(),
            r.decl == decl,
            r.sig == sig,
            r.vals.spec_rows().len() == 0,
            r.insts@.len() == 0,
            r.insts.aliases@.len() == 0,
            r.insts.operands@.len() == 0,
            r.insts.arg_convs@.len() == 0,
            r.insts.calls@.len() == 0,
            r.insts.reduces@.len() == 0,
            r.insts.switches@.len() == 0,
            r.insts.switch_arms@.len() == 0,
            r.blocks@ == seq![BlockRow {
                first_inst: 0,
                inst_len: 0,
                term: InstRow { op: Op::Unreachable, a: ABSENT, b: ABSENT, c: ABSENT, ty: TyId(1), site: SiteId(0) },
                scope: ScopeId(0),
            }],
            r.scopes.spec_rows().len() == 1,
            r.scopes.spec_rows()[0].parent == ScopeId(ABSENT),
            r.scopes.spec_rows()[0].brand == BrandId(ABSENT),
            r.sites@ == seq![SiteRow { line: 0, col: 0 }],
            r.places.spec_rows().len() == 0,
            r.places.spec_segs().len() == 0,
            r.regions.spec_rows().len() == 0,
            r.regions.captures@.len() == 0,
            r.consts@.len() == 0,
            r.obligations@.len() == 0,
            r.scoped_sources@.len() == 0,
            r.defers@.len() == 0,
            r.entry == BlockId(0),
            !r.is_unsafe_invariant,
            r.fingerprint == 0,
    {
        let mut blocks = BlockPool::new();
        let mut scopes = ScopePool::new();
        let _root = scopes.push(ScopeRow::root(BrandId::none()));
        let entry = blocks.push(BlockRow {
            first_inst: 0,
            inst_len: 0,
            term: InstRow {
                op: Op::Unreachable,
                a: NO_OPERAND,
                b: NO_OPERAND,
                c: NO_OPERAND,
                ty: crate::fir::ty::ty_unit(),
                site: SiteId(0),
            },
            scope: ScopeId(0),
        });
        let mut sites = SitePool::new();
        sites.push(SiteRow { line: 0, col: 0 });
        let r = DeclFmir {
            decl,
            sig,
            vals: ValPool::new(),
            blocks,
            insts: InstPool::new(),
            scopes,
            places: PlacePool::new(),
            regions: RegionPool::new(),
            sites,
            consts: ConstPool::new(),
            obligations: PlaceListPool::new(),
            scoped_sources: PlaceListPool::new(),
            defers: DeferPool::new(),
            entry,
            is_unsafe_invariant: false,
            fingerprint: 0,
        };
        assert(r.blocks@ =~= seq![BlockRow {
            first_inst: 0,
            inst_len: 0,
            term: InstRow { op: Op::Unreachable, a: ABSENT, b: ABSENT, c: ABSENT, ty: TyId(1), site: SiteId(0) },
            scope: ScopeId(0),
        }]);
        assert(r.sites@ =~= seq![SiteRow { line: 0, col: 0 }]);
        r
    }

    /// The first instruction that is memory-producing but has no alias
    /// seed; a seed column shorter than the instruction pool reads as
    /// `NoSeed` past its end.
    pub fn first_missing_alias_seed(&self) -> (r: Option<InstId>)
        ensures
            r matches Some(id) ==> exists|i: int| {
                &&& id == InstId(i as u32)
                &&& 0 <= i < self.insts@.len()
                &&& seed_missing(self.insts@[i].op, seed_at(self.insts.aliases@, i))
                &&& forall|j: int| 0 <= j < i ==> !seed_missing(#[trigger] self.insts@[j].op, seed_at(self.insts.aliases@, j))
            },
            r is None ==> forall|j: int| 0 <= j < self.insts@.len()
                ==> !seed_missing(#[trigger] self.insts@[j].op, seed_at(self.insts.aliases@, j)),
    {
        let rows = self.insts.all_rows();
        let mut ops: Vec<Op> = Vec::new();
        let mut i: usize = 0;
        while i < rows.len()
            invariant
                rows@.len() == self.insts@.len(),
                forall|k: int| 0 <= k < rows@.len() ==> #[trigger] rows@[k] == (InstId(k as u32), self.insts@[k]),
                i <= rows@.len(),
                ops@.len() == i,
                forall|k: int| 0 <= k < i ==> #[trigger] ops@[k] == self.insts@[k].op,
            decreases rows@.len() - i,
        {
            ops.push(rows[i].1.op);
            i += 1;
        }
        assert(ops@.len() == self.insts@.len());
        match self.insts.aliases.missing(ops.as_slice()) {
            Some(k) => {
                assert(ops@[k as int] == self.insts@[k as int].op);
                assert forall|j: int| 0 <= j < k implies !seed_missing(#[trigger] self.insts@[j].op, seed_at(self.insts.aliases@, j)) by {
                    assert(ops@[j] == self.insts@[j].op);
                }
                Some(InstId(k as u32))
            },
            None => {
                assert forall|j: int| 0 <= j < self.insts@.len()
                    implies !seed_missing(#[trigger] self.insts@[j].op, seed_at(self.insts.aliases@, j)) by {
                    assert(ops@[j] == self.insts@[j].op);
                }
                None
            },
        }
    }

    pub fn push_val(&mut self, row: ValRow) -> (r: ValId)
        requires
            old(self).vals.wf(),
        ensures
            r == ValId(old(self).vals.spec_rows().len() as u32),
            final(self).vals.wf(),
            final(self).vals.spec_rows() == old(self).vals.spec_rows().push(row),
            final(self).vals.spec_sources() == old(self).vals.spec_sources().push(None),
            final(self).insts == old(self).insts,
            final(self).blocks == old(self).blocks,
            final(self).places == old(self).places,
            final(self).entry == old(self).entry,
    {
        self.vals.push(row)
    }

    pub fn push_inst(&mut self, row: InstRow, seed: AliasSeed) -> (r: InstId)
        ensures
            r == InstId(old(self).insts@.len() as u32),
            final(self).insts@ == old(self).insts@.push(row),
            final(self).insts.aliases@ == old(self).insts.aliases@.push(seed),
            final(self).insts.operands == old(self).insts.operands,
            final(self).insts.calls == old(self).insts.calls,
            final(self).insts.switches == old(self).insts.switches,
            final(self).insts.switch_arms == old(self).insts.switch_arms,
            final(self).insts.arg_convs == old(self).insts.arg_convs,
            final(self).insts.reduces == old(self).insts.reduces,
            final(self).vals == old(self).vals,
            final(self).blocks == old(self).blocks,
            final(self).places == old(self).places,
            final(self).entry == old(self).entry,
    {
        self.insts.push(row, seed)
    }
}

} // verus!
