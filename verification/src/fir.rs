//! The type and signature universe: hash-consed tables, interned lists and
//! the canonical signature-encoding primitives.

pub mod ty;
pub mod sig;
pub mod defpath;
pub mod cons;
pub mod pool;
pub mod encode;
pub mod subst;
pub mod constval;
pub mod impls;
pub mod prelude;

use vstd::prelude::*;

use crate::fir::defpath::{no_decl_key, no_def, DeclKeyId, DeclKeyTable, DefKeys};
use crate::fir::sig::{empty_row, Assoc, GParam, Member, SigKind, SigRow, SigStore, TraitRefListId};
use crate::fir::ty::{TraitRefId, TyId, TyStore};
use crate::index::{DefId, Symbol};

verus! {

/// The four tables a build's type universe is: types, signatures,
/// declaration keys, and the map between the build's row numbers and those
/// keys. They travel together because keeping the signature rows and the key
/// map the same length is an invariant worth one owner: a `DefId` comes into
/// existence only through [`Fir::def_for_key`], which appends to both.
pub struct Fir {
    pub tys: TyStore,
    pub sigs: SigStore,
    pub keys: DeclKeyTable,
    pub defs: DefKeys,
}

impl Fir {
    /// The signature rows and the key map cover the same rows, and every
    /// key bound to a row names an existing row bound back to it.
    pub open spec fn aligned(&self) -> bool {
        &&& self.defs.spec_key().len() == self.sigs.spec_rows().len()
        &&& forall|k: DeclKeyId|
            #[trigger] self.defs.def_at(k) != DefId(0xFFFF_FFFFu32) ==> self.defs.def_at(k).0
                < self.sigs.spec_rows().len() && self.defs.key_at(self.defs.def_at(k)) == k
    }

    pub fn new() -> (f: Fir)
        ensures
            f.tys.wf(),
            f.tys.spec_rows().len() == 3,
            f.tys.spec_args().len() == 1,
            f.tys.spec_trait_refs().len() == 0,
            f.tys.spec_proj_keys().len() == 0,
            f.tys.spec_fns().len() == 0,
            f.tys.spec_brands().len() == 0,
            f.tys.spec_consts().len() == 0,
            f.keys.wf(),
            f.keys.spec_keys().len() == 0,
            f.keys.spec_path_table().wf(),
            f.keys.spec_path_table().spec_paths() == seq![Seq::<Symbol>::empty()],
            f.sigs.spec_rows().len() == 0,
            f.sigs.generics_store.wf(),
            f.sigs.generics_store.spec_params() == seq![Seq::<GParam>::empty()],
            f.sigs.fn_sigs.wf(),
            f.sigs.fn_sigs.spec_params().len() == 0,
            f.sigs.member_store.wf(),
            f.sigs.member_store.spec_lists() == seq![Seq::<Member>::empty()],
            f.sigs.assocs.wf(),
            f.sigs.assocs.spec_lists() == seq![Seq::<Assoc>::empty()],
            f.sigs.constraints.wf(),
            f.sigs.constraints@ == seq![Seq::<(TyId, TraitRefListId)>::empty()],
            f.sigs.bounds.wf(),
            f.sigs.bounds@.len() == 1,
            f.sigs.bounds@[0] == Seq::<TraitRefId>::empty(),
            f.defs.spec_key() == Seq::<DeclKeyId>::empty(),
            f.defs.spec_def() == Seq::<DefId>::empty(),
            f.sigs.bounds.items_len() == 0,
            f.sigs.generics_store.params_len() == 0,
            f.sigs.fn_sigs.params_len() == 0,
            f.sigs.member_store.members_len() == 0,
            f.sigs.assocs.entries_len() == 0,
            f.sigs.constraints.entries_len() == 0,
            f.aligned(),
            crate::fir::prelude::fir_ok(&f),
            crate::fir::prelude::fir_room(&f, 2048),
            forall|k: DeclKeyId| #[trigger] f.defs.def_at(k) == DefId(0xFFFF_FFFFu32),
    {
        let f = Fir { tys: TyStore::new(), sigs: SigStore::new(), keys: DeclKeyTable::new(), defs: DefKeys::new() };
        f
    }

    /// This build's row for `key`, allocating an `Absent` row if the
    /// declaration has not been seen: the honest state for a name something
    /// referred to before, or without, its signature being lowered. The
    /// absent key has no row.
    pub fn def_for_key(&mut self, key: DeclKeyId) -> (r: DefId)
        requires
            old(self).aligned(),
            old(self).sigs.spec_rows().len() < u32::MAX,
        ensures
            final(self).aligned(),
            final(self).tys == old(self).tys,
            final(self).keys == old(self).keys,
            key == DeclKeyId(0xFFFF_FFFFu32) ==> r == DefId(0xFFFF_FFFFu32) && *final(self) == *old(self),
            key != DeclKeyId(0xFFFF_FFFFu32) && old(self).defs.def_at(key) != DefId(0xFFFF_FFFFu32) ==> r
                == old(self).defs.def_at(key) && *final(self) == *old(self),
            key != DeclKeyId(0xFFFF_FFFFu32) && old(self).defs.def_at(key) == DefId(0xFFFF_FFFFu32) ==> {
                &&& r.0 == old(self).sigs.spec_rows().len()
                &&& final(self).sigs.spec_rows() == old(self).sigs.spec_rows().push(empty_row(SigKind::Absent))
                &&& SigStore::same_pools(&old(self).sigs, &final(self).sigs)
                &&& final(self).defs.key_at(r) == key
                &&& forall|d: DefId| d != r ==> #[trigger] final(self).defs.key_at(d) == old(self).defs.key_at(d)
                &&& forall|k: DeclKeyId| #[trigger] final(self).defs.def_at(k) == if k == key {
                    r
                } else {
                    old(self).defs.def_at(k)
                }
            },
    {
        if key == no_decl_key() {
            return no_def();
        }
        let existing = self.defs.def_of(key);
        if existing != no_def() {
            return existing;
        }
        let def = self.sigs.push(SigKind::Absent);
        self.defs.bind(def, key);
        def
    }

    /// [`Fir::def_for_key`], then sets the row's kind.
    pub fn declare(&mut self, key: DeclKeyId, kind: SigKind) -> (r: DefId)
        requires
            old(self).aligned(),
            old(self).sigs.spec_rows().len() < u32::MAX,
            key != DeclKeyId(0xFFFF_FFFFu32),
        ensures
            final(self).aligned(),
            final(self).tys == old(self).tys,
            final(self).keys == old(self).keys,
            SigStore::same_pools(&old(self).sigs, &final(self).sigs),
            final(self).defs.def_at(key) == r,
            final(self).defs.key_at(r) == key,
            r.0 < final(self).sigs.spec_rows().len(),
            final(self).sigs.spec_rows()[r.0 as int].kind == kind,
            old(self).defs.def_at(key) != DefId(0xFFFF_FFFFu32) ==> {
                &&& r == old(self).defs.def_at(key)
                &&& final(self).defs == old(self).defs
                &&& final(self).sigs.spec_rows() == old(self).sigs.spec_rows().update(
                    r.0 as int,
                    SigRow { kind, ..old(self).sigs.spec_rows()[r.0 as int] },
                )
            },
            old(self).defs.def_at(key) == DefId(0xFFFF_FFFFu32) ==> {
                &&& r.0 == old(self).sigs.spec_rows().len()
                &&& final(self).sigs.spec_rows() == old(self).sigs.spec_rows().push(empty_row(kind))
                &&& forall|d: DefId| d != r ==> #[trigger] final(self).defs.key_at(d) == old(self).defs.key_at(d)
                &&& forall|k: DeclKeyId| k != key ==> #[trigger] final(self).defs.def_at(k) == old(
                    self,
                ).defs.def_at(k)
            },
    {
        let def = self.def_for_key(key);
        self.sigs.set_kind(def, kind);
        def
    }
}

} // verus!
