//! A hash-consed pool: rows in id order, each stored once, found again
//! through a [`ConsTable`] keyed by the row's content.

use vstd::prelude::*;

use crate::fir::cons::ConsTable;

verus! {

/// A row a pool can intern: its content (the view), a table key that is a
/// function of that content, and an equality on content.
pub trait Interns: View + Sized {
    /// What a row must satisfy to be stored.
    spec fn storable(v: Self::V) -> bool;

    spec fn key_of(v: Self::V) -> u64;

    fn key(&self) -> (k: u64)
        requires
            Self::storable(self@),
        ensures
            k == Self::key_of(self@),
    ;

    fn same(&self, other: &Self) -> (b: bool)
        ensures
            b == (self@ == other@),
    ;
}

/// Rows in id order, pairwise distinct, every one of them stored in the
/// table under its key.
pub struct Pool<R: Interns> {
    rows: Vec<R>,
    cons: ConsTable,
}

impl<R: Interns> Pool<R> {
    /// The rows' contents, in id order.
    pub closed spec fn rows(&self) -> Seq<R::V> {
        self.rows@.map_values(|r: R| r@)
    }

    pub closed spec fn wf(&self) -> bool {
        &&& self.cons.wf()
        &&& self.cons.spec_len() == self.rows@.len()
        &&& self.rows@.len() <= u32::MAX
        &&& forall|i: int|
            0 <= i < self.rows@.len() ==> #[trigger] self.cons.holds(
                R::key_of(self.rows@[i]@),
                i as u32,
            )
        &&& forall|k: u64, v: u32| #[trigger] self.cons.holds(k, v) ==> v < self.rows@.len()
        &&& forall|i: int, j: int|
            0 <= i < j < self.rows@.len() ==> #[trigger] self.rows@[i]@ != #[trigger] self.rows@[j]@
        &&& forall|i: int| 0 <= i < self.rows@.len() ==> R::storable(#[trigger] self.rows@[i]@)
    }

    /// Room for one more row.
    pub open spec fn has_room(&self) -> bool {
        self.rows().len() + 1 < u32::MAX && self.rows().len() + 1 < usize::MAX / 64
    }

    pub fn new() -> (p: Pool<R>)
        ensures
            p.wf(),
            p.rows() == Seq::<R::V>::empty(),
    {
        let p = Pool { rows: Vec::new(), cons: ConsTable::new() };
        proof {
            assert forall|k: u64, v: u32| #[trigger] p.cons.holds(k, v) implies v < p.rows@.len() by {
                assert(p.cons@.contains((k, v)));
            }
            assert(p.rows() =~= Seq::<R::V>::empty());
        }
        p
    }

    pub fn len(&self) -> (r: usize)
        ensures
            r == self.rows().len(),
    {
        self.rows.len()
    }

    pub fn get(&self, i: usize) -> (r: &R)
        requires
            i < self.rows().len(),
        ensures
            r@ == self.rows()[i as int],
    {
        &self.rows[i]
    }

    /// The id of the row equal to `r`, if there is one.
    pub fn find(&self, r: &R) -> (f: Option<u32>)
        requires
            self.wf(),
            R::storable(r@),
        ensures
            f matches Some(i) ==> i < self.rows().len() && self.rows()[i as int] == r@,
            f is None ==> forall|i: int| 0 <= i < self.rows().len() ==> self.rows()[i] != r@,
    {
        let key = r.key();
        let same = |v: u32| -> (b: bool)
            ensures
                b == ((v as int) < self.rows().len() && self.rows()[v as int] == r@),
            {
                let k = v as usize;
                if k < self.rows.len() {
                    self.rows[k].same(r)
                } else {
                    false
                }
            };
        let found = self.cons.lookup(key, same);
        proof {
            if found is None {
                assert forall|i: int| 0 <= i < self.rows().len() implies self.rows()[i] != r@ by {
                    if self.rows()[i] == r@ {
                        assert(self.rows@[i]@ == self.rows()[i]);
                        assert(self.cons.holds(R::key_of(self.rows@[i]@), i as u32));
                        assert(self.cons.holds(key, i as u32));
                        assert(same.ensures((i as u32,), false));
                    }
                }
            }
        }
        found
    }

    /// Appends a row the pool does not hold yet.
    pub fn push_new(&mut self, r: R) -> (id: u32)
        requires
            old(self).wf(),
            old(self).has_room(),
            R::storable(r@),
            forall|i: int| 0 <= i < old(self).rows().len() ==> old(self).rows()[i] != r@,
        ensures
            final(self).wf(),
            id == old(self).rows().len(),
            final(self).rows() == old(self).rows().push(r@),
    {
        let ghost old_self = *self;
        let key = r.key();
        let id = self.rows.len() as u32;
        proof {
            assert(!self.cons.holds(key, id));
        }
        self.cons.insert(key, id);
        self.rows.push(r);
        proof {
            assert(self.rows() =~= old_self.rows().push(r@));
            assert forall|i: int| 0 <= i < self.rows@.len() implies #[trigger] self.cons.holds(
                R::key_of(self.rows@[i]@),
                i as u32,
            ) by {
                if i < old_self.rows@.len() {
                    assert(self.rows@[i] == old_self.rows@[i]);
                    assert(old_self.cons@.contains((R::key_of(old_self.rows@[i]@), i as u32)));
                    assert(self.cons@.contains((R::key_of(self.rows@[i]@), i as u32)));
                } else {
                    assert(self.cons@.contains((key, id)));
                }
            }
            assert forall|k: u64, v: u32| #[trigger] self.cons.holds(k, v) implies v
                < self.rows@.len() by {
                assert(self.cons@.contains((k, v)));
                if (k, v) != (key, id) {
                    assert(old_self.cons@.contains((k, v)));
                }
            }
            assert forall|i: int| 0 <= i < self.rows@.len() implies R::storable(
                #[trigger] self.rows@[i]@,
            ) by {
                if i < old_self.rows@.len() {
                    assert(self.rows@[i] == old_self.rows@[i]);
                }
            }
            assert forall|i: int, j: int| 0 <= i < j < self.rows@.len() implies #[trigger] self.rows@[i]@
                != #[trigger] self.rows@[j]@ by {
                assert(self.rows@[i]@ == self.rows()[i]);
                assert(self.rows@[j]@ == self.rows()[j]);
                if j < old_self.rows@.len() {
                    assert(old_self.rows@[i]@ != old_self.rows@[j]@);
                } else {
                    assert(old_self.rows()[i] == old_self.rows@[i]@);
                }
            }
        }
        id
    }

    /// The id of the row equal to `r`, appending it first if the pool does
    /// not hold one.
    pub fn intern(&mut self, r: R) -> (id: u32)
        requires
            old(self).wf(),
            old(self).has_room(),
            R::storable(r@),
        ensures
            final(self).wf(),
            id < final(self).rows().len(),
            final(self).rows()[id as int] == r@,
            old(self).rows().contains(r@) ==> final(self).rows() == old(self).rows(),
            !old(self).rows().contains(r@) ==> final(self).rows() == old(self).rows().push(r@)
                && id == old(self).rows().len(),
    {
        match self.find(&r) {
            Some(i) => i,
            None => self.push_new(r),
        }
    }

    pub proof fn lemma_storable(&self, i: int)
        requires
            self.wf(),
            0 <= i < self.rows().len(),
        ensures
            R::storable(self.rows()[i]),
    {
        assert(R::storable(self.rows@[i]@));
    }

    /// A pool holds at most `u32::MAX` rows.
    pub proof fn lemma_len(&self)
        requires
            self.wf(),
        ensures
            self.rows().len() <= u32::MAX,
    {
    }

    /// Two ids of one pool name equal rows only if they are the same id.
    pub proof fn lemma_unique(&self, i: int, j: int)
        requires
            self.wf(),
            0 <= i < self.rows().len(),
            0 <= j < self.rows().len(),
            self.rows()[i] == self.rows()[j],
        ensures
            i == j,
    {
        if i < j {
            assert(self.rows@[i]@ != self.rows@[j]@);
        } else if j < i {
            assert(self.rows@[j]@ != self.rows@[i]@);
        }
    }
}

} // verus!
