//! The impl index, and the head checks an impl declaration must pass.
//!
//! Three lookups over one row table:
//!
//! * `exact(trait, self_ty)`: the impls whose self type is exactly a given
//!   type. With it, an impl whose self type is written out in full is found
//!   by one binary search, however many impls share its head.
//! * `bucket(trait, head)`: the impls of one trait whose self type has one
//!   head, for the generic heads the exact probe cannot answer.
//! * `inherent(head)`: the inherent impls of a head.

use vstd::prelude::*;

use crate::fir::defpath::{no_def, HeadKey};
use crate::fir::sig::{GParam, GParamKind, SigStore};
use crate::fir::ty::{
    ids_below, ids_ok, lemma_grows_trans, lemma_prim_code_round_trip, no_args, no_ty, plain, ArgsId, BrandRow, FnTyId, TyId, TyStore, TyTag,
    TyUniverse, F_PROJ,
};
use crate::index::DefId;

verus! {

/// One impl as the index stores it.
#[derive(Clone, Copy, PartialEq, Eq, Structural, Debug)]
pub struct ImplRow {
    /// The impl declaration's own id.
    pub def: DefId,
    /// The trait it implements, or the absent id when it is inherent or
    /// when the written trait did not resolve: `inherent` tells the two
    /// apart.
    pub trait_def: DefId,
    /// Written without `for`.
    pub inherent: bool,
    /// The trait's arguments, `Self` excluded.
    pub trait_args: ArgsId,
    /// The self type, with `Self` already replaced.
    pub self_ty: TyId,
    /// The self type's head, the bucket's second column.
    pub head: HeadKey,
    /// Source order within the build: an overlap is reported at the later
    /// impl, the one with the greater `order`.
    pub order: u32,
}

/// A head's sort column.
pub open spec fn head_code(h: HeadKey) -> u64 {
    (h.parts().0 * 0x100_0000_0000 + h.parts().1) as u64
}

/// One index entry: a trait, a second column, a row.
pub open spec fn key_le(a: (u32, u64, u32), b: (u32, u64, u32)) -> bool {
    a.0 < b.0 || (a.0 == b.0 && (a.1 < b.1 || (a.1 == b.1 && a.2 <= b.2)))
}

pub open spec fn sorted_keys(s: Seq<(u32, u64, u32)>) -> bool {
    forall|i: int, j: int| 0 <= i < j < s.len() ==> key_le(#[trigger] s[i], #[trigger] s[j])
}

/// The bucket index's entry for row `i`.
pub open spec fn head_entry(r: ImplRow, i: int) -> (u32, u64, u32) {
    (r.trait_def.0, head_code(r.head), i as u32)
}

/// The exact index's entry for row `i`.
pub open spec fn self_entry(r: ImplRow, i: int) -> (u32, u64, u32) {
    (r.trait_def.0, r.self_ty.0 as u64, i as u32)
}

/// `s` holds each row's entry exactly once, and nothing else.
pub open spec fn indexes(s: Seq<(u32, u64, u32)>, rows: Seq<ImplRow>, by_head: bool) -> bool {
    &&& s.no_duplicates()
    &&& forall|k: int|
        0 <= k < s.len() ==> (s[k].2 as int) < rows.len() && #[trigger] s[k] == (if by_head {
            head_entry(rows[s[k].2 as int], s[k].2 as int)
        } else {
            self_entry(rows[s[k].2 as int], s[k].2 as int)
        })
    &&& forall|i: int|
        0 <= i < rows.len() ==> s.contains(
            if by_head {
                head_entry(#[trigger] rows[i], i)
            } else {
                self_entry(rows[i], i)
            },
        )
}

/// The rows of `rows` whose trait and second column are `(t, c)`, as a
/// set of row numbers.
pub open spec fn rows_keyed(rows: Seq<ImplRow>, by_head: bool, t: u32, c: u64) -> Set<u32> {
    Set::new(
        |x: u32|
            (x as int) < rows.len() && rows[x as int].trait_def.0 == t && (if by_head {
                head_code(rows[x as int].head)
            } else {
                rows[x as int].self_ty.0 as u64
            }) == c,
    )
}

/// The sorted impl table.
pub struct ImplIndex {
    rows: Vec<ImplRow>,
    /// `(trait, head, row)`: the bucket scan.
    by_head: Vec<(u32, u64, u32)>,
    /// `(trait, self type, row)`: the exact probe.
    by_self: Vec<(u32, u64, u32)>,
}

impl ImplIndex {
    /// The rows, in push order.
    pub closed spec fn spec_rows(&self) -> Seq<ImplRow> {
        self.rows@
    }

    pub closed spec fn wf(&self) -> bool {
        &&& self.rows@.len() <= u32::MAX
        &&& indexes(self.by_head@, self.rows@, true)
        &&& indexes(self.by_self@, self.rows@, false)
    }

    /// Both indexes are sorted: the lookups answer.
    pub closed spec fn finished(&self) -> bool {
        &&& self.wf()
        &&& sorted_keys(self.by_head@)
        &&& sorted_keys(self.by_self@)
    }

    pub fn new() -> (x: ImplIndex)
        ensures
            x.finished(),
            x.wf(),
            x.spec_rows() == Seq::<ImplRow>::empty(),
    {
        ImplIndex { rows: Vec::new(), by_head: Vec::new(), by_self: Vec::new() }
    }

    pub fn len(&self) -> (r: usize)
        ensures
            r == self.spec_rows().len(),
    {
        self.rows.len()
    }

    pub fn is_empty(&self) -> (r: bool)
        ensures
            r == (self.spec_rows().len() == 0),
    {
        self.rows.len() == 0
    }

    pub fn row(&self, i: u32) -> (r: ImplRow)
        requires
            i < self.spec_rows().len(),
        ensures
            r == self.spec_rows()[i as int],
    {
        self.rows[i as usize]
    }

    pub fn rows(&self) -> (r: &[ImplRow])
        ensures
            r@ == self.spec_rows(),
    {
        self.rows.as_slice()
    }
}

/// `a` sorts strictly before `b`.
fn key_lt(a: (u32, u64, u32), b: (u32, u64, u32)) -> (r: bool)
    ensures
        r == !key_le(b, a),
{
    a.0 < b.0 || (a.0 == b.0 && (a.1 < b.1 || (a.1 == b.1 && a.2 < b.2)))
}

/// Swapping two positions keeps the elements, each once.
proof fn lemma_swap_keeps(s: Seq<(u32, u64, u32)>, i: int, m: int)
    requires
        0 <= i < s.len(),
        0 <= m < s.len(),
    ensures
        ({
            let t = s.update(i, s[m]).update(m, s[i]);
            &&& t.len() == s.len()
            &&& forall|e: (u32, u64, u32)| t.contains(e) == s.contains(e)
            &&& s.no_duplicates() ==> t.no_duplicates()
            &&& forall|k: int| 0 <= k < s.len() ==> t[k] == s[if k == i { m } else if k == m { i } else { k }]
        }),
{
    let t = s.update(i, s[m]).update(m, s[i]);
    assert forall|k: int| 0 <= k < s.len() implies t[k] == s[if k == i { m } else if k == m { i } else { k }] by {
    }
    assert forall|e: (u32, u64, u32)| t.contains(e) == s.contains(e) by {
        if t.contains(e) {
            let k = choose|k: int| 0 <= k < t.len() && t[k] == e;
            let k2 = if k == i { m } else if k == m { i } else { k };
            assert(s[k2] == e);
        }
        if s.contains(e) {
            let k = choose|k: int| 0 <= k < s.len() && s[k] == e;
            let k2 = if k == i { m } else if k == m { i } else { k };
            assert(t[k2] == e);
        }
    }
    if s.no_duplicates() {
        assert forall|a: int, b: int| 0 <= a < t.len() && 0 <= b < t.len() && a != b implies t[a] != t[b] by {
            let a2 = if a == i { m } else if a == m { i } else { a };
            let b2 = if b == i { m } else if b == m { i } else { b };
            assert(s[a2] != s[b2]);
        }
    }
}

/// Sorts `v` by selection: the prefix is sorted and no greater than the
/// rest. The elements are kept, each as often as before.
fn sort_keys(v: &mut Vec<(u32, u64, u32)>)
    ensures
        sorted_keys(final(v)@),
        final(v)@.len() == old(v)@.len(),
        forall|e: (u32, u64, u32)| final(v)@.contains(e) == old(v)@.contains(e),
        old(v)@.no_duplicates() ==> final(v)@.no_duplicates(),
        forall|k: int| 0 <= k < final(v)@.len() ==> old(v)@.contains(#[trigger] final(v)@[k]),
{
    let ghost v0 = v@;
    let n = v.len();
    let mut i: usize = 0;
    while i < n
        invariant
            n == v@.len(),
            n == v0.len(),
            i <= n,
            forall|a: int, b: int| 0 <= a < b < i ==> key_le(#[trigger] v@[a], #[trigger] v@[b]),
            forall|a: int, b: int| 0 <= a < i <= b < n ==> key_le(#[trigger] v@[a], #[trigger] v@[b]),
            forall|e: (u32, u64, u32)| v@.contains(e) == v0.contains(e),
            v0.no_duplicates() ==> v@.no_duplicates(),
        decreases n - i,
    {
        let mut m: usize = i;
        let mut j: usize = i + 1;
        while j < n
            invariant
                n == v@.len(),
                i < n,
                i <= m < n,
                i < j <= n,
                forall|b: int| i <= b < j ==> key_le(v@[m as int], #[trigger] v@[b]),
            decreases n - j,
        {
            if key_lt(v[j], v[m]) {
                m = j;
            }
            j = j + 1;
        }
        let ghost s = v@;
        let a = v[i];
        let b = v[m];
        v.set(i, b);
        v.set(m, a);
        proof {
            lemma_swap_keeps(s, i as int, m as int);
            assert(v@ =~= s.update(i as int, s[m as int]).update(m as int, s[i as int]));
        }
        i = i + 1;
    }
    proof {
        assert forall|k: int| 0 <= k < v@.len() implies v0.contains(#[trigger] v@[k]) by {
            assert(v@.contains(v@[k]));
        }
    }
}

impl ImplIndex {
    /// Appends one impl. Call [`ImplIndex::finish`] once every impl is in.
    pub fn push(&mut self, row: ImplRow) -> (r: u32)
        requires
            old(self).wf(),
            old(self).spec_rows().len() < u32::MAX,
        ensures
            final(self).wf(),
            r == old(self).spec_rows().len(),
            final(self).spec_rows() == old(self).spec_rows().push(row),
    {
        let ghost s0 = *self;
        let i = self.rows.len() as u32;
        self.by_head.push((row.trait_def.0, row.head.as_u64(), i));
        self.by_self.push((row.trait_def.0, row.self_ty.0 as u64, i));
        self.rows.push(row);
        proof {
            let n = s0.rows@.len() as int;
            let nh = s0.by_head@.len() as int;
            let ns = s0.by_self@.len() as int;
            assert(self.by_head@[nh] == head_entry(row, n));
            assert(self.by_self@[ns] == self_entry(row, n));
            assert forall|k: int| 0 <= k < self.by_head@.len() implies (self.by_head@[k].2 as int) < self.rows@.len()
                && #[trigger] self.by_head@[k] == head_entry(self.rows@[self.by_head@[k].2 as int], self.by_head@[k].2 as int) by {
                if k < nh {
                    assert(self.by_head@[k] == s0.by_head@[k]);
                }
            }
            assert forall|k: int| 0 <= k < self.by_self@.len() implies (self.by_self@[k].2 as int) < self.rows@.len()
                && #[trigger] self.by_self@[k] == self_entry(self.rows@[self.by_self@[k].2 as int], self.by_self@[k].2 as int) by {
                if k < ns {
                    assert(self.by_self@[k] == s0.by_self@[k]);
                }
            }
            assert forall|x: int| 0 <= x < self.rows@.len() implies self.by_head@.contains(
                head_entry(#[trigger] self.rows@[x], x),
            ) && self.by_self@.contains(self_entry(self.rows@[x], x)) by {
                if x < n {
                    assert(s0.by_head@.contains(head_entry(s0.rows@[x], x)));
                    assert(s0.by_self@.contains(self_entry(s0.rows@[x], x)));
                    let p = choose|p: int| 0 <= p < s0.by_head@.len() && s0.by_head@[p] == head_entry(s0.rows@[x], x);
                    let q = choose|q: int| 0 <= q < s0.by_self@.len() && s0.by_self@[q] == self_entry(s0.rows@[x], x);
                    assert(self.by_head@[p] == s0.by_head@[p]);
                    assert(self.by_self@[q] == s0.by_self@[q]);
                } else {
                    assert(self.by_head@[nh] == head_entry(self.rows@[x], x));
                    assert(self.by_self@[ns] == self_entry(self.rows@[x], x));
                }
            }
            assert forall|a: int, b: int|
                0 <= a < self.by_head@.len() && 0 <= b < self.by_head@.len() && a != b implies self.by_head@[a]
                != self.by_head@[b] by {
                if a < nh && b < nh {
                    assert(s0.by_head@[a] != s0.by_head@[b]);
                } else if a < nh {
                    assert(s0.by_head@[a].2 < n);
                } else if b < nh {
                    assert(s0.by_head@[b].2 < n);
                }
            }
            assert forall|a: int, b: int|
                0 <= a < self.by_self@.len() && 0 <= b < self.by_self@.len() && a != b implies self.by_self@[a]
                != self.by_self@[b] by {
                if a < ns && b < ns {
                    assert(s0.by_self@[a] != s0.by_self@[b]);
                } else if a < ns {
                    assert(s0.by_self@[a].2 < n);
                } else if b < ns {
                    assert(s0.by_self@[b].2 < n);
                }
            }
        }
        i
    }

    /// Sorts both indexes. Idempotent.
    pub fn finish(&mut self)
        requires
            old(self).wf(),
        ensures
            final(self).finished(),
            final(self).spec_rows() == old(self).spec_rows(),
    {
        let ghost s0 = *self;
        sort_keys(&mut self.by_head);
        sort_keys(&mut self.by_self);
        proof {
            assert forall|x: int| 0 <= x < self.rows@.len() implies self.by_head@.contains(
                head_entry(#[trigger] self.rows@[x], x),
            ) && self.by_self@.contains(self_entry(self.rows@[x], x)) by {
                assert(s0.by_head@.contains(head_entry(s0.rows@[x], x)));
                assert(s0.by_self@.contains(self_entry(s0.rows@[x], x)));
            }
            assert forall|k: int| 0 <= k < self.by_head@.len() implies (self.by_head@[k].2 as int) < self.rows@.len()
                && #[trigger] self.by_head@[k] == head_entry(self.rows@[self.by_head@[k].2 as int], self.by_head@[k].2 as int) by {
                assert(s0.by_head@.contains(self.by_head@[k]));
                let p = choose|p: int| 0 <= p < s0.by_head@.len() && s0.by_head@[p] == self.by_head@[k];
            }
            assert forall|k: int| 0 <= k < self.by_self@.len() implies (self.by_self@[k].2 as int) < self.rows@.len()
                && #[trigger] self.by_self@[k] == self_entry(self.rows@[self.by_self@[k].2 as int], self.by_self@[k].2 as int) by {
                assert(s0.by_self@.contains(self.by_self@[k]));
                let p = choose|p: int| 0 <= p < s0.by_self@.len() && s0.by_self@[p] == self.by_self@[k];
            }
        }
    }
}

/// A head's sort column names the head.
pub proof fn lemma_head_code_names_the_head(h1: HeadKey, h2: HeadKey)
    requires
        head_code(h1) == head_code(h2),
    ensures
        h1 == h2,
{
    let (d1, p1) = h1.parts();
    let (d2, p2) = h2.parts();
    match h1 {
        HeadKey::Prim(k) => lemma_prim_code_round_trip(k),
        _ => {},
    }
    match h2 {
        HeadKey::Prim(k) => lemma_prim_code_round_trip(k),
        _ => {},
    }
    assert(p1 < 0x1_0000_0000 && p2 < 0x1_0000_0000);
    assert(d1 <= 12 && d2 <= 12);
    assert(d1 == d2) by {
        if d1 < d2 {
            assert(d1 * 0x100_0000_0000 + p1 < d2 * 0x100_0000_0000 + p2) by (nonlinear_arith)
                requires
                    d1 < d2,
                    p1 < 0x1_0000_0000,
            ;
        } else if d2 < d1 {
            assert(d2 * 0x100_0000_0000 + p2 < d1 * 0x100_0000_0000 + p1) by (nonlinear_arith)
                requires
                    d2 < d1,
                    p2 < 0x1_0000_0000,
            ;
        }
    }
    assert(p1 == p2);
}

/// `e`'s trait and second column sort below `(t, c)`.
pub open spec fn pair_lt(e: (u32, u64, u32), t: u32, c: u64) -> bool {
    e.0 < t || (e.0 == t && e.1 < c)
}

/// The first position whose trait and second column are not below `(t, c)`.
fn lower_bound(s: &Vec<(u32, u64, u32)>, t: u32, c: u64) -> (r: usize)
    requires
        sorted_keys(s@),
    ensures
        r <= s@.len(),
        forall|p: int| 0 <= p < r ==> pair_lt(#[trigger] s@[p], t, c),
        forall|p: int| r <= p < s@.len() ==> !pair_lt(#[trigger] s@[p], t, c),
{
    let mut lo: usize = 0;
    let mut hi: usize = s.len();
    while lo < hi
        invariant
            lo <= hi <= s@.len(),
            sorted_keys(s@),
            forall|p: int| 0 <= p < lo ==> pair_lt(#[trigger] s@[p], t, c),
            forall|p: int| hi <= p < s@.len() ==> !pair_lt(#[trigger] s@[p], t, c),
        decreases hi - lo,
    {
        let mid = lo + (hi - lo) / 2;
        let e = s[mid];
        if e.0 < t || (e.0 == t && e.1 < c) {
            proof {
                assert forall|p: int| 0 <= p < mid + 1 implies pair_lt(#[trigger] s@[p], t, c) by {
                    if p < mid {
                        assert(key_le(s@[p], s@[mid as int]));
                    }
                }
            }
            lo = mid + 1;
        } else {
            proof {
                assert forall|p: int| mid <= p < s@.len() implies !pair_lt(#[trigger] s@[p], t, c) by {
                    if p > mid {
                        assert(key_le(s@[mid as int], s@[p]));
                    }
                }
            }
            hi = mid;
        }
    }
    lo
}

/// The row numbers an index holds under `(t, c)`, in increasing order.
fn lookup(
    s: &Vec<(u32, u64, u32)>,
    Ghost(rows): Ghost<Seq<ImplRow>>,
    Ghost(by_head): Ghost<bool>,
    t: u32,
    c: u64,
) -> (r: Vec<u32>)
    requires
        sorted_keys(s@),
        indexes(s@, rows, by_head),
    ensures
        forall|x: u32| r@.contains(x) <==> rows_keyed(rows, by_head, t, c).contains(x),
        forall|a: int, b: int| 0 <= a < b < r@.len() ==> r@[a] < r@[b],
{
    let lo = lower_bound(s, t, c);
    let mut out: Vec<u32> = Vec::new();
    let mut p: usize = lo;
    while p < s.len() && s[p].0 == t && s[p].1 == c
        invariant
            lo <= p <= s@.len(),
            sorted_keys(s@),
            indexes(s@, rows, by_head),
            forall|q: int| 0 <= q < lo ==> pair_lt(#[trigger] s@[q], t, c),
            forall|q: int| lo <= q < s@.len() ==> !pair_lt(#[trigger] s@[q], t, c),
            forall|q: int| lo <= q < p ==> (#[trigger] s@[q]).0 == t && s@[q].1 == c,
            out@.len() == p - lo,
            forall|k: int| 0 <= k < out@.len() ==> #[trigger] out@[k] == s@[lo + k].2,
        decreases s@.len() - p,
    {
        out.push(s[p].2);
        p = p + 1;
    }
    proof {
        let hi = p as int;
        // Past `hi` nothing carries `(t, c)`: the first entry there does not,
        // and everything after it sorts no lower.
        assert forall|q: int| hi <= q < s@.len() implies !((#[trigger] s@[q]).0 == t && s@[q].1 == c) by {
            if s@[q].0 == t && s@[q].1 == c {
                assert(key_le(s@[hi], s@[q]));
                assert(!pair_lt(s@[hi], t, c));
            }
        }
        assert forall|x: u32| out@.contains(x) <==> rows_keyed(rows, by_head, t, c).contains(x) by {
            if out@.contains(x) {
                let k = choose|k: int| 0 <= k < out@.len() && out@[k] == x;
                let q = lo + k;
                assert(s@[q].0 == t && s@[q].1 == c);
            }
            if rows_keyed(rows, by_head, t, c).contains(x) {
                let i = x as int;
                let e = if by_head {
                    head_entry(rows[i], i)
                } else {
                    self_entry(rows[i], i)
                };
                assert(s@.contains(e));
                let q = choose|q: int| 0 <= q < s@.len() && s@[q] == e;
                assert(lo <= q < hi);
                assert(out@[q - lo] == x);
            }
        }
        assert forall|a: int, b: int| 0 <= a < b < out@.len() implies out@[a] < out@[b] by {
            let qa = lo + a;
            let qb = lo + b;
            assert(key_le(s@[qa], s@[qb]));
            assert(s@[qa] != s@[qb]);
        }
    }
    out
}

impl ImplIndex {
    /// Every impl of `trait_def` whose self type's head is `head`, in index
    /// order. `trait_def` is the absent id for the inherent impls.
    pub fn bucket(&self, trait_def: DefId, head: HeadKey) -> (r: Vec<u32>)
        requires
            self.finished(),
        ensures
            forall|x: u32|
                r@.contains(x) <==> (x as int) < self.spec_rows().len() && self.spec_rows()[x as int].trait_def
                    == trait_def && self.spec_rows()[x as int].head == head,
            forall|a: int, b: int| 0 <= a < b < r@.len() ==> r@[a] < r@[b],
    {
        let c = head.as_u64();
        let r = lookup(&self.by_head, Ghost(self.rows@), Ghost(true), trait_def.0, c);
        proof {
            assert forall|x: u32|
                r@.contains(x) <==> (x as int) < self.spec_rows().len() && self.spec_rows()[x as int].trait_def
                    == trait_def && self.spec_rows()[x as int].head == head by {
                if (x as int) < self.spec_rows().len() && head_code(self.spec_rows()[x as int].head) == head_code(head) {
                    lemma_head_code_names_the_head(self.spec_rows()[x as int].head, head);
                }
                assert(rows_keyed(self.rows@, true, trait_def.0, c).contains(x) == ((x as int) < self.rows@.len()
                    && self.rows@[x as int].trait_def.0 == trait_def.0 && head_code(self.rows@[x as int].head) == c));
            }
        }
        r
    }

    /// The impls of `trait_def` whose self type is exactly `self_ty`. At most
    /// one in a build without overlapping impls: more than one is the overlap
    /// the builder reports.
    pub fn exact(&self, trait_def: DefId, self_ty: TyId) -> (r: Vec<u32>)
        requires
            self.finished(),
        ensures
            forall|x: u32|
                r@.contains(x) <==> (x as int) < self.spec_rows().len() && self.spec_rows()[x as int].trait_def
                    == trait_def && self.spec_rows()[x as int].self_ty == self_ty,
            forall|a: int, b: int| 0 <= a < b < r@.len() ==> r@[a] < r@[b],
    {
        let r = lookup(&self.by_self, Ghost(self.rows@), Ghost(false), trait_def.0, self_ty.0 as u64);
        proof {
            assert forall|x: u32|
                r@.contains(x) <==> (x as int) < self.spec_rows().len() && self.spec_rows()[x as int].trait_def
                    == trait_def && self.spec_rows()[x as int].self_ty == self_ty by {
                assert(rows_keyed(self.rows@, false, trait_def.0, self_ty.0 as u64).contains(x) == ((x as int)
                    < self.rows@.len() && self.rows@[x as int].trait_def.0 == trait_def.0 && self.rows@[x as int].self_ty.0
                    as u64 == self_ty.0 as u64));
            }
        }
        r
    }

    /// The inherent impls of `head`.
    pub fn inherent(&self, head: HeadKey) -> (r: Vec<u32>)
        requires
            self.finished(),
        ensures
            forall|x: u32|
                r@.contains(x) <==> (x as int) < self.spec_rows().len() && self.spec_rows()[x as int].trait_def
                    == DefId(0xFFFF_FFFFu32) && self.spec_rows()[x as int].head == head,
            forall|a: int, b: int| 0 <= a < b < r@.len() ==> r@[a] < r@[b],
    {
        self.bucket(no_def(), head)
    }
}

/// Whether `hay` mentions `needle` at any depth: `hay` itself or its
/// qualifier-free row is `needle`, or one of its children mentions it.
pub open spec fn mentions_in(u: TyUniverse, hay: TyId, needle: TyId) -> bool
    decreases hay.0, 1nat, 0nat,
{
    let k = u.rows[hay.0 as int];
    if hay == needle || u.unqual[hay.0 as int] == needle {
        true
    } else {
        match k.tag {
            TyTag::Nominal | TyTag::Tuple => any_mentions(u, u.args[k.b as int], needle, hay.0),
            TyTag::Proj => k.a < hay.0 && mentions_in(u, TyId(k.a), needle),
            TyTag::Fn => {
                let f = u.fns[k.a as int];
                ||| any_mentions(u, f.ty, needle, hay.0)
                ||| (f.result.0 < hay.0 && mentions_in(u, f.result, needle))
                ||| (f.raises != TyId(0xFFFF_FFFFu32) && f.raises.0 < hay.0 && mentions_in(u, f.raises, needle))
            },
            _ => false,
        }
    }
}

/// Whether one of the types in `xs` (all below `bound`) mentions `needle`.
pub open spec fn any_mentions(u: TyUniverse, xs: Seq<TyId>, needle: TyId, bound: u32) -> bool
    decreases bound, 0nat, xs.len(),
{
    if xs.len() == 0 {
        false
    } else {
        any_mentions(u, xs.drop_last(), needle, bound) || (xs.last().0 < bound && mentions_in(
            u,
            xs.last(),
            needle,
        ))
    }
}

/// The number of nodes of `hay`'s type tree: one search step each.
pub open spec fn tree_size(u: TyUniverse, hay: TyId) -> nat
    decreases hay.0, 1nat, 0nat,
{
    let k = u.rows[hay.0 as int];
    1 + match k.tag {
        TyTag::Nominal | TyTag::Tuple => list_size(u, u.args[k.b as int], hay.0),
        TyTag::Proj => if k.a < hay.0 {
            tree_size(u, TyId(k.a))
        } else {
            0
        },
        TyTag::Fn => {
            let f = u.fns[k.a as int];
            list_size(u, f.ty, hay.0) + (if f.result.0 < hay.0 {
                tree_size(u, f.result)
            } else {
                0
            }) + (if f.raises != TyId(0xFFFF_FFFFu32) && f.raises.0 < hay.0 {
                tree_size(u, f.raises)
            } else {
                0
            })
        },
        _ => 0,
    }
}

/// The summed tree sizes of the types in `xs` (all below `bound`).
pub open spec fn list_size(u: TyUniverse, xs: Seq<TyId>, bound: u32) -> nat
    decreases bound, 0nat, xs.len(),
{
    if xs.len() == 0 {
        0
    } else {
        list_size(u, xs.drop_last(), bound) + (if xs.last().0 < bound {
            tree_size(u, xs.last())
        } else {
            0
        })
    }
}

proof fn lemma_any_prefix(u: TyUniverse, xs: Seq<TyId>, needle: TyId, bound: u32, j: int)
    requires
        0 <= j <= xs.len(),
        any_mentions(u, xs.take(j), needle, bound),
    ensures
        any_mentions(u, xs, needle, bound),
    decreases xs.len(),
{
    if j < xs.len() {
        assert(xs.drop_last().take(j) =~= xs.take(j));
        lemma_any_prefix(u, xs.drop_last(), needle, bound, j);
    } else {
        assert(xs.take(j) =~= xs);
    }
}

/// A search over the types in `xs`, sharing one fuel budget.
fn mentions_list(tys: &TyStore, xs: &[TyId], needle: TyId, fuel: &mut u32, Ghost(bound): Ghost<u32>) -> (r: bool)
    requires
        tys.wf_core(),
        ids_below(xs@, bound as int),
        bound <= tys.spec_rows().len(),
    ensures
        *final(fuel) <= *old(fuel),
        r ==> any_mentions(tys.universe(), xs@, needle, bound),
        list_size(tys.universe(), xs@, bound) <= *old(fuel) ==> r == any_mentions(tys.universe(), xs@, needle, bound),
        list_size(tys.universe(), xs@, bound) <= *old(fuel) && !r ==> *final(fuel) == *old(fuel) - list_size(
            tys.universe(),
            xs@,
            bound,
        ),
    decreases bound, 0nat, xs@.len(),
{
    let ghost u = tys.universe();
    let ghost f0: u32 = *fuel;
    let mut i: usize = 0;
    while i < xs.len()
        invariant
            tys.wf_core(),
            u == tys.universe(),
            ids_below(xs@, bound as int),
            bound <= tys.spec_rows().len(),
            i <= xs@.len(),
            *fuel <= f0,
            f0 == *old(fuel),
            list_size(u, xs@.take(i as int), bound) <= f0 ==> !any_mentions(u, xs@.take(i as int), needle, bound)
                && *fuel == f0 - list_size(u, xs@.take(i as int), bound),
        decreases xs@.len() - i,
    {
        let ghost fi: u32 = *fuel;
        proof {
            assert(xs@.take(i + 1).drop_last() =~= xs@.take(i as int));
            assert(xs@.take(i + 1).last() == xs@[i as int]);
            assert(xs@[i as int].0 < bound);
        }
        let found = mentions(tys, xs[i], needle, fuel);
        if found {
            proof {
                lemma_any_prefix(u, xs@, needle, bound, i + 1);
            }
            return true;
        }
        i = i + 1;
    }
    proof {
        assert(xs@.take(i as int) =~= xs@);
    }
    false
}

/// Whether `hay` mentions `needle` at any depth. Each step spends one unit
/// of `fuel`; with none left the search answers `false`.
pub fn mentions(tys: &TyStore, hay: TyId, needle: TyId, fuel: &mut u32) -> (r: bool)
    requires
        tys.wf_core(),
        hay.0 < tys.spec_rows().len(),
    ensures
        *final(fuel) <= *old(fuel),
        r ==> mentions_in(tys.universe(), hay, needle),
        tree_size(tys.universe(), hay) <= *old(fuel) ==> r == mentions_in(tys.universe(), hay, needle),
        tree_size(tys.universe(), hay) <= *old(fuel) && !r ==> *final(fuel) == *old(fuel) - tree_size(
            tys.universe(),
            hay,
        ),
    decreases hay.0, 1nat, 0nat,
{
    if *fuel == 0 {
        return false;
    }
    *fuel = *fuel - 1;
    if hay == needle || tys.unqual(hay) == needle {
        return true;
    }
    proof {
        tys.lemma_row_order(hay.0 as int);
        tys.lemma_columns();
    }
    match tys.tag(hay) {
        TyTag::Nominal | TyTag::Tuple => {
            let xs = tys.args(ArgsId(tys.b(hay)));
            mentions_list(tys, xs, needle, fuel, Ghost(hay.0))
        },
        TyTag::Proj => mentions(tys, TyId(tys.a(hay)), needle, fuel),
        TyTag::Fn => {
            let id = FnTyId(tys.a(hay));
            let (_, ps) = tys.fn_tys().params(id);
            let res = tys.fn_tys().result(id);
            let e = tys.fn_tys().raises(id);
            if mentions_list(tys, ps, needle, fuel, Ghost(hay.0)) {
                true
            } else if mentions(tys, res, needle, fuel) {
                true
            } else {
                e != no_ty() && mentions(tys, e, needle, fuel)
            }
        },
        _ => false,
    }
}

/// Whether `t` contains a projection at any depth: an impl head must not.
pub fn contains_proj(tys: &TyStore, t: TyId) -> (r: bool)
    requires
        tys.wf_core(),
        t.0 < tys.spec_rows().len(),
    ensures
        r == (tys.spec_flags()[t.0 as int] & F_PROJ != 0),
{
    tys.flags(t) & F_PROJ != 0
}

/// A search over old types gives the same answer, at the same cost, in a
/// store that has grown since.
proof fn lemma_mentions_stable(s: &TyStore, w: &TyStore, hay: TyId, needle: TyId)
    requires
        s.wf_core(),
        TyStore::grows(s, w),
        hay.0 < s.spec_rows().len(),
    ensures
        mentions_in(s.universe(), hay, needle) == mentions_in(w.universe(), hay, needle),
        tree_size(s.universe(), hay) == tree_size(w.universe(), hay),
    decreases hay.0, 1nat, 0nat,
{
    let u = s.universe();
    let v = w.universe();
    let h = hay.0 as int;
    s.lemma_row_order(h);
    s.lemma_columns();
    assert(v.rows.subrange(0, u.rows.len() as int)[h] == v.rows[h]);
    assert(v.unqual.subrange(0, u.unqual.len() as int)[h] == v.unqual[h]);
    let k = u.rows[h];
    match k.tag {
        TyTag::Nominal | TyTag::Tuple => {
            assert(v.args.subrange(0, u.args.len() as int)[k.b as int] == v.args[k.b as int]);
            lemma_list_stable(s, w, u.args[k.b as int], needle, hay.0);
        },
        TyTag::Proj => {
            lemma_mentions_stable(s, w, TyId(k.a), needle);
        },
        TyTag::Fn => {
            assert(v.fns.subrange(0, u.fns.len() as int)[k.a as int] == v.fns[k.a as int]);
            let f = u.fns[k.a as int];
            lemma_list_stable(s, w, f.ty, needle, hay.0);
            lemma_mentions_stable(s, w, f.result, needle);
            if f.raises != TyId(0xFFFF_FFFFu32) {
                lemma_mentions_stable(s, w, f.raises, needle);
            }
        },
        _ => {},
    }
}

proof fn lemma_list_stable(s: &TyStore, w: &TyStore, xs: Seq<TyId>, needle: TyId, bound: u32)
    requires
        s.wf_core(),
        TyStore::grows(s, w),
        ids_below(xs, bound as int),
        bound <= s.spec_rows().len(),
    ensures
        any_mentions(s.universe(), xs, needle, bound) == any_mentions(w.universe(), xs, needle, bound),
        list_size(s.universe(), xs, bound) == list_size(w.universe(), xs, bound),
    decreases bound, 0nat, xs.len(),
{
    if xs.len() > 0 {
        assert(xs.last() == xs[xs.len() - 1]);
        lemma_list_stable(s, w, xs.drop_last(), needle, bound);
        lemma_mentions_stable(s, w, xs.last(), needle);
    }
}

/// The own generic parameters of `def`.
pub open spec fn own_params(sigs: &SigStore, def: DefId) -> Seq<GParam> {
    sigs.generics_store.spec_params()[sigs.spec_rows()[def.0 as int].generics.0 as int]
}

/// `t` is the type that stands for parameter `o` of `def`: its type
/// parameter row, or for a brand parameter its brand row.
pub open spec fn is_param_ty(u: TyUniverse, t: TyId, def: DefId, o: int, brand: bool) -> bool {
    let k = u.rows[t.0 as int];
    &&& t.0 < u.rows.len()
    &&& if brand {
        &&& k.tag == TyTag::Brand
        &&& k.a == 0
        &&& k.quals == 0
        &&& k.b < u.brands.len()
        &&& u.brands[k.b as int] == (BrandRow::Param { owner: def, ordinal: o as u16 })
    } else {
        k == plain(TyTag::Param, def.0, o as u32)
    }
}

/// Some type of `hs` mentions parameter `o` of `def`.
pub open spec fn param_mentioned(u: TyUniverse, hs: Seq<TyId>, def: DefId, o: int, brand: bool) -> bool {
    exists|t: TyId, j: int|
        is_param_ty(u, t, def, o, brand) && 0 <= j < hs.len() && #[trigger] mentions_in(u, hs[j], t)
}

/// The search budget for one head type.
pub open spec fn head_fuel() -> nat {
    0x10000
}

proof fn lemma_mentioned_stable(s: &TyStore, w: &TyStore, hs: Seq<TyId>, def: DefId, o: int, brand: bool)
    requires
        s.wf_core(),
        TyStore::grows(s, w),
        ids_ok(s.universe(), hs),
        param_mentioned(s.universe(), hs, def, o, brand),
    ensures
        param_mentioned(w.universe(), hs, def, o, brand),
{
    let u = s.universe();
    let v = w.universe();
    let (t, j) = choose|t: TyId, j: int|
        is_param_ty(u, t, def, o, brand) && 0 <= j < hs.len() && #[trigger] mentions_in(u, hs[j], t);
    lemma_mentions_stable(s, w, hs[j], t);
    assert(v.rows.subrange(0, u.rows.len() as int)[t.0 as int] == v.rows[t.0 as int]);
    let b = u.rows[t.0 as int].b as int;
    if brand {
        assert(v.brands.subrange(0, u.brands.len() as int)[b] == v.brands[b]);
    }
    assert(is_param_ty(v, t, def, o, brand));
}

/// Whether every generic parameter of `def` occurs in `head_tys` (an impl
/// parameter that does not is unconstrained): the ordinal of the first that
/// does not, or `None`. Each head type is searched with a budget of
/// `head_fuel()` steps; a parameter the budget does not reach counts as
/// absent.
pub fn first_unconstrained(tys: &mut TyStore, sigs: &SigStore, def: DefId, head_tys: &[TyId]) -> (r: Option<u16>)
    requires
        old(tys).wf_core(),
        sigs.generics_store.wf(),
        def.0 < sigs.spec_rows().len(),
        sigs.spec_rows()[def.0 as int].generics.0 < sigs.generics_store.spec_params().len(),
        own_params(sigs, def).len() <= 0x10000,
        old(tys).has_room_for(own_params(sigs, def).len() + 8),
        ids_ok(old(tys).universe(), head_tys@),
    ensures
        final(tys).wf_core(),
        old(tys).reserved() ==> final(tys).reserved(),
        TyStore::grows(old(tys), final(tys)),
        r is None ==> forall|o: int|
            0 <= o < own_params(sigs, def).len() ==> param_mentioned(
                final(tys).universe(),
                head_tys@,
                def,
                o,
                #[trigger] own_params(sigs, def)[o].kind is Brand,
            ),
        r matches Some(x) ==> {
            &&& (x as int) < own_params(sigs, def).len()
            &&& forall|o: int|
                0 <= o < x ==> param_mentioned(
                    final(tys).universe(),
                    head_tys@,
                    def,
                    o,
                    #[trigger] own_params(sigs, def)[o].kind is Brand,
                )
            &&& exists|t: TyId|
                #[trigger] is_param_ty(final(tys).universe(), t, def, x as int, own_params(sigs, def)[x as int].kind is Brand)
                    && forall|j: int|
                    0 <= j < head_tys@.len() && tree_size(final(tys).universe(), #[trigger] head_tys@[j])
                        <= head_fuel() ==> !mentions_in(final(tys).universe(), head_tys@[j], t)
        },
{
    let ghost s0 = *tys;
    let ghost ps = own_params(sigs, def);
    let g = sigs.generics(def);
    let n = sigs.generics_store.count(g);
    proof {
        TyStore::lemma_grows_refl(&s0);
    }
    let mut o: usize = 0;
    while o < n
        invariant
            s0 == *old(tys),
            s0.wf_core(),
            ps == own_params(sigs, def),
            n == ps.len(),
            n <= 0x10000,
            g == sigs.spec_rows()[def.0 as int].generics,
            g.0 < sigs.generics_store.spec_params().len(),
            sigs.generics_store.wf(),
            s0.has_room_for((n + 8) as nat),
            ids_ok(s0.universe(), head_tys@),
            o <= n,
            tys.wf_core(),
            s0.reserved() ==> tys.reserved(),
            TyStore::grows(&s0, tys),
            TyStore::grew_at_most(&s0, tys, o as nat),
            forall|p: int| 0 <= p < o ==> param_mentioned(tys.universe(), head_tys@, def, p, #[trigger] ps[p].kind is Brand),
        decreases n - o,
    {
        let ghost s1 = *tys;
        let gp = sigs.generics_store.param(g, o);
        let brand = match gp.kind {
            GParamKind::Brand => true,
            _ => false,
        };
        let want = if brand {
            tys.brand_ty(BrandRow::Param { owner: def, ordinal: o as u16 })
        } else {
            tys.param(def, o as u16)
        };
        let ghost s2 = *tys;
        proof {
            lemma_grows_trans(&s0, &s1, &s2);
            assert forall|p: int| 0 <= p < o implies param_mentioned(s2.universe(), head_tys@, def, p, #[trigger] ps[p].kind is Brand) by {
                lemma_mentioned_stable(&s1, &s2, head_tys@, def, p, ps[p].kind is Brand);
            }
            assert(is_param_ty(s2.universe(), want, def, o as int, brand));
            assert forall|j: int| 0 <= j < head_tys@.len() implies (#[trigger] head_tys@[j]).0 < s2.spec_rows().len() by {
                assert(s0.spec_rows().len() <= s2.spec_rows().len());
            }
        }
        let mut found = false;
        let mut j: usize = 0;
        while j < head_tys.len()
            invariant
                tys.wf_core(),
                *tys == s2,
                j <= head_tys@.len(),
                forall|q: int| 0 <= q < head_tys@.len() ==> (#[trigger] head_tys@[q]).0 < s2.spec_rows().len(),
                found ==> exists|q: int| 0 <= q < head_tys@.len() && #[trigger] mentions_in(s2.universe(), head_tys@[q], want),
                !found ==> forall|q: int|
                    0 <= q < j && tree_size(s2.universe(), #[trigger] head_tys@[q]) <= head_fuel() ==> !mentions_in(
                        s2.universe(),
                        head_tys@[q],
                        want,
                    ),
            ensures
                !found ==> j == head_tys@.len(),
            decreases head_tys@.len() - j,
        {
            let mut fuel: u32 = 0x10000;
            if mentions(tys, head_tys[j], want, &mut fuel) {
                found = true;
                break;
            }
            j = j + 1;
        }
        if !found {
            proof {
                assert(gp == ps[o as int]);
                assert((o as u16) as int == o as int);
                assert(is_param_ty(tys.universe(), want, def, o as int, ps[o as int].kind is Brand));
            }
            return Some(o as u16);
        }
        o = o + 1;
    }
    None
}

/// A variable of the overlap test: an owner's parameter, by owner row and
/// ordinal.
pub type VarKey = (u32, u16);

/// The variable `t` is, when it is a type or brand parameter of one of the
/// two impls `o1`, `o2`.
pub open spec fn var_of(u: TyUniverse, t: TyId, o1: DefId, o2: DefId) -> Option<VarKey> {
    let k = u.rows[t.0 as int];
    if k.tag == TyTag::Param {
        if k.a == o1.0 || k.a == o2.0 {
            Some((k.a, k.b as u16))
        } else {
            None
        }
    } else if k.tag == TyTag::Brand {
        match u.brands[k.b as int] {
            BrandRow::Param { owner, ordinal } => if owner == o1 || owner == o2 {
                Some((owner.0, ordinal))
            } else {
                None
            },
            BrandRow::Fresh { .. } => None,
        }
    } else {
        None
    }
}

/// The type the first binding of `k` in `s` gives it.
pub open spec fn slot_of(s: Seq<(VarKey, TyId)>, k: VarKey) -> Option<TyId>
    decreases s.len(),
{
    if s.len() == 0 {
        None
    } else if s[0].0 == k {
        Some(s[0].1)
    } else {
        slot_of(s.drop_first(), k)
    }
}

/// The occurs check with `fuel` steps: whether `k` occurs in `t` through
/// the bindings `s` (an exhausted budget answers yes), and the fuel left.
pub open spec fn occurs_spec(u: TyUniverse, k: VarKey, t: TyId, o1: DefId, o2: DefId, s: Seq<(VarKey, TyId)>, fuel: nat) -> (bool, nat)
    decreases fuel, 0nat,
{
    if fuel == 0 {
        (true, 0)
    } else {
        let f = (fuel - 1) as nat;
        match var_of(u, t, o1, o2) {
            Some(v) => if v == k {
                (true, f)
            } else {
                match slot_of(s, v) {
                    Some(p) => occurs_spec(u, k, p, o1, o2, s, f),
                    None => (false, f),
                }
            },
            None => {
                let r = u.rows[t.0 as int];
                if r.tag == TyTag::Nominal || r.tag == TyTag::Tuple {
                    occurs_list(u, k, u.args[r.b as int], o1, o2, s, f)
                } else {
                    (false, f)
                }
            },
        }
    }
}

/// The occurs check over the types of `xs` in order, sharing the fuel.
pub open spec fn occurs_list(u: TyUniverse, k: VarKey, xs: Seq<TyId>, o1: DefId, o2: DefId, s: Seq<(VarKey, TyId)>, fuel: nat) -> (bool, nat)
    decreases fuel, xs.len() + 1,
{
    if xs.len() == 0 {
        (false, fuel)
    } else {
        let (r, f2) = occurs_spec(u, k, xs[0], o1, o2, s, fuel);
        if r {
            (true, f2)
        } else {
            occurs_list(u, k, xs.drop_first(), o1, o2, s, if f2 <= fuel { f2 } else { fuel })
        }
    }
}

/// First-order unification of `a` with `b` with `fuel` steps, the two
/// impls' parameters being the variables: whether it succeeds, the bindings
/// after it, and the fuel left.
pub open spec fn unify_spec(u: TyUniverse, a: TyId, b: TyId, o1: DefId, o2: DefId, s: Seq<(VarKey, TyId)>, fuel: nat) -> (bool, Seq<(VarKey, TyId)>, nat)
    decreases fuel, 0nat,
{
    if fuel == 0 {
        (false, s, 0)
    } else {
        let f = (fuel - 1) as nat;
        if a == b {
            (true, s, f)
        } else {
            match var_of(u, a, o1, o2) {
                Some(k) => match slot_of(s, k) {
                    Some(prev) => unify_spec(u, prev, b, o1, o2, s, f),
                    None => if occurs_spec(u, k, b, o1, o2, s, 4096).0 {
                        (false, s, f)
                    } else {
                        (true, s.push((k, b)), f)
                    },
                },
                None => if var_of(u, b, o1, o2) is Some {
                    unify_spec(u, b, a, o1, o2, s, f)
                } else {
                    let ra = u.rows[a.0 as int];
                    let rb = u.rows[b.0 as int];
                    if ra.tag != rb.tag || ra.quals != rb.quals {
                        (false, s, f)
                    } else if ra.tag == TyTag::Nominal {
                        if ra.a != rb.a {
                            (false, s, f)
                        } else {
                            unify_list(u, u.args[ra.b as int], u.args[rb.b as int], o1, o2, s, f)
                        }
                    } else if ra.tag == TyTag::Tuple {
                        unify_list(u, u.args[ra.b as int], u.args[rb.b as int], o1, o2, s, f)
                    } else if ra.tag == TyTag::Dyn {
                        (ra.a == rb.a, s, f)
                    } else {
                        (false, s, f)
                    }
                },
            }
        }
    }
}

/// Pairwise unification of two lists of one length, in order, sharing the
/// bindings and the fuel; lists of different lengths do not unify.
pub open spec fn unify_list(u: TyUniverse, xs: Seq<TyId>, ys: Seq<TyId>, o1: DefId, o2: DefId, s: Seq<(VarKey, TyId)>, fuel: nat) -> (bool, Seq<(VarKey, TyId)>, nat)
    decreases fuel, xs.len() + 1,
{
    if xs.len() != ys.len() {
        (false, s, fuel)
    } else if xs.len() == 0 {
        (true, s, fuel)
    } else {
        let (r, s2, f2) = unify_spec(u, xs[0], ys[0], o1, o2, s, fuel);
        if !r {
            (false, s2, f2)
        } else {
            unify_list(u, xs.drop_first(), ys.drop_first(), o1, o2, s2, if f2 <= fuel { f2 } else { fuel })
        }
    }
}

/// The trait arguments of an impl row.
pub open spec fn row_trait_args(u: TyUniverse, r: ImplRow) -> Seq<TyId> {
    if r.trait_args == ArgsId(0) {
        Seq::empty()
    } else {
        u.args[r.trait_args.0 as int]
    }
}

/// Whether two impls overlap: they implement one trait, are two impls, and
/// their self types, then their trait arguments, unify first-order with
/// `0x10000` steps, each impl's parameters being variables.
pub open spec fn overlap_spec(u: TyUniverse, a: ImplRow, b: ImplRow) -> bool {
    if a.trait_def != b.trait_def || a.def == b.def {
        false
    } else {
        let (r, s, f) = unify_spec(u, a.self_ty, b.self_ty, a.def, b.def, Seq::empty(), 0x10000);
        r && unify_list(u, row_trait_args(u, a), row_trait_args(u, b), a.def, b.def, s, f).0
    }
}

/// Two types that no binding of the impls' parameters can make equal at
/// their outermost level: neither is a parameter of either impl, and their
/// tags or qualifiers differ, or they name different nominals or different
/// traits, or they are distinct leaf types.
pub open spec fn heads_clash(u: TyUniverse, x: TyId, y: TyId, o1: DefId, o2: DefId) -> bool {
    let rx = u.rows[x.0 as int];
    let ry = u.rows[y.0 as int];
    &&& var_of(u, x, o1, o2) is None
    &&& var_of(u, y, o1, o2) is None
    &&& {
        ||| rx.tag != ry.tag
        ||| rx.quals != ry.quals
        ||| (rx.tag == TyTag::Nominal || rx.tag == TyTag::Dyn) && rx.a != ry.a
        ||| rx.tag != TyTag::Nominal && rx.tag != TyTag::Tuple && rx.tag != TyTag::Dyn && rx != ry
    }
}

/// Two types that no binding of the impls' parameters can make equal,
/// looking `depth` levels into nominal and tuple arguments: their heads
/// clash, or they are the same nominal (or both tuples) with the same
/// qualifiers and argument lists of one length, and at some position the
/// arguments clash one level down.
pub open spec fn types_clash(u: TyUniverse, x: TyId, y: TyId, o1: DefId, o2: DefId, depth: nat) -> bool
    decreases depth,
{
    let rx = u.rows[x.0 as int];
    let ry = u.rows[y.0 as int];
    ||| heads_clash(u, x, y, o1, o2)
    ||| {
        &&& depth > 0
        &&& var_of(u, x, o1, o2) is None
        &&& var_of(u, y, o1, o2) is None
        &&& rx.tag == ry.tag
        &&& rx.quals == ry.quals
        &&& (rx.tag == TyTag::Nominal && rx.a == ry.a || rx.tag == TyTag::Tuple)
        &&& u.args[rx.b as int].len() == u.args[ry.b as int].len()
        &&& exists|i: int|
            0 <= i < u.args[rx.b as int].len() && types_clash(
                u,
                #[trigger] u.args[rx.b as int][i],
                u.args[ry.b as int][i],
                o1,
                o2,
                (depth - 1) as nat,
            )
    }
}

/// No type clashes with itself.
proof fn lemma_no_self_clash(u: TyUniverse, x: TyId, o1: DefId, o2: DefId, depth: nat)
    ensures
        !types_clash(u, x, x, o1, o2, depth),
    decreases depth,
{
    let rx = u.rows[x.0 as int];
    if depth > 0 {
        assert forall|i: int| 0 <= i < u.args[rx.b as int].len() implies !types_clash(
            u,
            #[trigger] u.args[rx.b as int][i],
            u.args[rx.b as int][i],
            o1,
            o2,
            (depth - 1) as nat,
        ) by {
            lemma_no_self_clash(u, u.args[rx.b as int][i], o1, o2, (depth - 1) as nat);
        }
    }
}

/// Clashing types never unify, whatever the bindings and fuel.
proof fn lemma_clash_fails(
    u: TyUniverse,
    x: TyId,
    y: TyId,
    o1: DefId,
    o2: DefId,
    s: Seq<(VarKey, TyId)>,
    fuel: nat,
    depth: nat,
)
    requires
        types_clash(u, x, y, o1, o2, depth),
    ensures
        !unify_spec(u, x, y, o1, o2, s, fuel).0,
    decreases depth, 0nat, 0int,
{
    if x == y {
        lemma_no_self_clash(u, x, o1, o2, depth);
    }
    if fuel > 0 && !heads_clash(u, x, y, o1, o2) {
        let rx = u.rows[x.0 as int];
        let ry = u.rows[y.0 as int];
        let i = choose|i: int|
            0 <= i < u.args[rx.b as int].len() && types_clash(
                u,
                #[trigger] u.args[rx.b as int][i],
                u.args[ry.b as int][i],
                o1,
                o2,
                (depth - 1) as nat,
            );
        lemma_list_clash_fails(
            u,
            u.args[rx.b as int],
            u.args[ry.b as int],
            o1,
            o2,
            s,
            (fuel - 1) as nat,
            i,
            (depth - 1) as nat,
        );
    }
}

/// Lists with a clashing pair at some position never unify.
proof fn lemma_list_clash_fails(
    u: TyUniverse,
    xs: Seq<TyId>,
    ys: Seq<TyId>,
    o1: DefId,
    o2: DefId,
    s: Seq<(VarKey, TyId)>,
    fuel: nat,
    i: int,
    depth: nat,
)
    requires
        0 <= i < xs.len(),
        i < ys.len(),
        types_clash(u, xs[i], ys[i], o1, o2, depth),
    ensures
        !unify_list(u, xs, ys, o1, o2, s, fuel).0,
    decreases depth, 1nat, i,
{
    if xs.len() == ys.len() {
        let (r, s2, f2) = unify_spec(u, xs[0], ys[0], o1, o2, s, fuel);
        if i == 0 {
            lemma_clash_fails(u, xs[0], ys[0], o1, o2, s, fuel, depth);
        } else if r {
            let f3: nat = if f2 <= fuel {
                f2
            } else {
                fuel
            };
            assert(xs.drop_first()[i - 1] == xs[i]);
            assert(ys.drop_first()[i - 1] == ys[i]);
            lemma_list_clash_fails(u, xs.drop_first(), ys.drop_first(), o1, o2, s2, f3, i - 1, depth);
        }
    }
}

/// Two impls that no binding of their parameters makes alike do not
/// overlap: when their self types clash, when their trait argument lists
/// differ in length, or when at some position the two trait arguments clash
/// (as `Tr<i32>` and `Tr<u8>` do, or `Tr<Vec<i32>>` and `Tr<Vec<u8>>`), the
/// coherence check reports no overlap.
pub proof fn lemma_clashing_impls_never_overlap(u: TyUniverse, a: ImplRow, b: ImplRow, i: int, depth: nat)
    requires
        types_clash(u, a.self_ty, b.self_ty, a.def, b.def, depth) || row_trait_args(u, a).len() != row_trait_args(
            u,
            b,
        ).len() || (0 <= i < row_trait_args(u, a).len() && i < row_trait_args(u, b).len() && types_clash(
            u,
            row_trait_args(u, a)[i],
            row_trait_args(u, b)[i],
            a.def,
            b.def,
            depth,
        )),
    ensures
        !overlap_spec(u, a, b),
{
    if a.trait_def == b.trait_def && a.def != b.def {
        let (r, s, f) = unify_spec(u, a.self_ty, b.self_ty, a.def, b.def, Seq::empty(), 0x10000);
        if types_clash(u, a.self_ty, b.self_ty, a.def, b.def, depth) {
            lemma_clash_fails(u, a.self_ty, b.self_ty, a.def, b.def, Seq::empty(), 0x10000, depth);
        } else if row_trait_args(u, a).len() == row_trait_args(u, b).len() {
            lemma_list_clash_fails(u, row_trait_args(u, a), row_trait_args(u, b), a.def, b.def, s, f, i, depth);
        }
    }
}

/// A list unifies with itself, one step of fuel per element, binding
/// nothing.
proof fn lemma_list_refl(u: TyUniverse, xs: Seq<TyId>, o1: DefId, o2: DefId, s: Seq<(VarKey, TyId)>, fuel: nat)
    requires
        xs.len() <= fuel,
    ensures
        unify_list(u, xs, xs, o1, o2, s, fuel) == (true, s, (fuel - xs.len()) as nat),
    decreases xs.len(),
{
    if xs.len() > 0 {
        assert(unify_spec(u, xs[0], xs[0], o1, o2, s, fuel) == (true, s, (fuel - 1) as nat));
        lemma_list_refl(u, xs.drop_first(), o1, o2, s, (fuel - 1) as nat);
    }
}

/// Two impls of one trait for the same self type with the same trait
/// arguments overlap.
pub proof fn lemma_identical_impls_overlap(u: TyUniverse, a: ImplRow, b: ImplRow)
    requires
        a.trait_def == b.trait_def,
        a.def != b.def,
        a.self_ty == b.self_ty,
        row_trait_args(u, a) == row_trait_args(u, b),
        row_trait_args(u, a).len() < 0x10000,
    ensures
        overlap_spec(u, a, b),
{
    lemma_list_refl(u, row_trait_args(u, a), a.def, b.def, Seq::empty(), 0xffff);
}

// ---------------------------------------------------------------------------
// What an overlap means: one binding of the parameters makes both impls alike.

/// `x` and `y` are the same type once the impls' parameters stand for what
/// the bindings `s` bind them to, looking `n` levels deep: the same type, a
/// bound parameter standing for its binding, or one constructor (the same
/// nominal, or tuples; the same trait object) with the same qualifiers and
/// arguments that are pairwise the same one level down.
pub open spec fn same_under(u: TyUniverse, s: Seq<(VarKey, TyId)>, x: TyId, y: TyId, o1: DefId, o2: DefId, n: nat) -> bool
    decreases n,
{
    if n == 0 {
        false
    } else {
        let m = (n - 1) as nat;
        let rx = u.rows[x.0 as int];
        let ry = u.rows[y.0 as int];
        ||| x == y
        ||| (var_of(u, x, o1, o2) matches Some(k) && slot_of(s, k) matches Some(p) && same_under(u, s, p, y, o1, o2, m))
        ||| (var_of(u, y, o1, o2) matches Some(k) && slot_of(s, k) matches Some(p) && same_under(u, s, x, p, o1, o2, m))
        ||| {
            &&& rx.tag == ry.tag
            &&& rx.quals == ry.quals
            &&& (rx.tag == TyTag::Nominal && rx.a == ry.a || rx.tag == TyTag::Tuple)
            &&& u.args[rx.b as int].len() == u.args[ry.b as int].len()
            &&& forall|i: int|
                0 <= i < u.args[rx.b as int].len() ==> same_under(
                    u,
                    s,
                    #[trigger] u.args[rx.b as int][i],
                    u.args[ry.b as int][i],
                    o1,
                    o2,
                    m,
                )
        }
        ||| rx.tag == TyTag::Dyn && ry.tag == TyTag::Dyn && rx.quals == ry.quals && rx.a == ry.a
    }
}

/// `s2` keeps the bindings of `s` and may add more after them.
pub open spec fn extends(s: Seq<(VarKey, TyId)>, s2: Seq<(VarKey, TyId)>) -> bool {
    s.len() <= s2.len() && s2.subrange(0, s.len() as int) == s
}

proof fn lemma_extends_trans(s: Seq<(VarKey, TyId)>, s1: Seq<(VarKey, TyId)>, s2: Seq<(VarKey, TyId)>)
    requires
        extends(s, s1),
        extends(s1, s2),
    ensures
        extends(s, s2),
{
    assert(s2.subrange(0, s.len() as int) =~= s1.subrange(0, s.len() as int));
}

/// A binding made before stays the binding after more are added.
proof fn lemma_slot_kept(s: Seq<(VarKey, TyId)>, s2: Seq<(VarKey, TyId)>, k: VarKey)
    requires
        extends(s, s2),
        slot_of(s, k) is Some,
    ensures
        slot_of(s2, k) == slot_of(s, k),
    decreases s.len(),
{
    assert(s2[0] == s[0]);
    if s[0].0 != k {
        assert(s2.drop_first().subrange(0, s.drop_first().len() as int) =~= s.drop_first());
        lemma_slot_kept(s.drop_first(), s2.drop_first(), k);
    }
}

/// Binding an unbound variable at the end makes that its binding.
proof fn lemma_slot_pushed(s: Seq<(VarKey, TyId)>, k: VarKey, t: TyId)
    requires
        slot_of(s, k) is None,
    ensures
        slot_of(s.push((k, t)), k) == Some(t),
    decreases s.len(),
{
    if s.len() > 0 {
        assert(s.push((k, t)).drop_first() =~= s.drop_first().push((k, t)));
        lemma_slot_pushed(s.drop_first(), k, t);
    } else {
        assert(s.push((k, t))[0] == (k, t));
    }
}

proof fn lemma_same_more_bindings(
    u: TyUniverse,
    s: Seq<(VarKey, TyId)>,
    s2: Seq<(VarKey, TyId)>,
    x: TyId,
    y: TyId,
    o1: DefId,
    o2: DefId,
    n: nat,
)
    requires
        extends(s, s2),
        same_under(u, s, x, y, o1, o2, n),
    ensures
        same_under(u, s2, x, y, o1, o2, n),
    decreases n,
{
    let m = (n - 1) as nat;
    let rx = u.rows[x.0 as int];
    let ry = u.rows[y.0 as int];
    if x == y {
    } else if var_of(u, x, o1, o2) is Some && slot_of(s, var_of(u, x, o1, o2)->0) is Some && same_under(
        u,
        s,
        slot_of(s, var_of(u, x, o1, o2)->0)->0,
        y,
        o1,
        o2,
        m,
    ) {
        let k = var_of(u, x, o1, o2)->0;
        let p = slot_of(s, k)->0;
        lemma_slot_kept(s, s2, k);
        lemma_same_more_bindings(u, s, s2, p, y, o1, o2, m);
    } else if var_of(u, y, o1, o2) is Some && slot_of(s, var_of(u, y, o1, o2)->0) is Some && same_under(
        u,
        s,
        x,
        slot_of(s, var_of(u, y, o1, o2)->0)->0,
        o1,
        o2,
        m,
    ) {
        let k = var_of(u, y, o1, o2)->0;
        let p = slot_of(s, k)->0;
        lemma_slot_kept(s, s2, k);
        lemma_same_more_bindings(u, s, s2, x, p, o1, o2, m);
    } else if rx.tag == TyTag::Dyn && ry.tag == TyTag::Dyn && rx.quals == ry.quals && rx.a == ry.a {
    } else {
        assert forall|i: int| 0 <= i < u.args[rx.b as int].len() implies same_under(
            u,
            s2,
            #[trigger] u.args[rx.b as int][i],
            u.args[ry.b as int][i],
            o1,
            o2,
            m,
        ) by {
            lemma_same_more_bindings(u, s, s2, u.args[rx.b as int][i], u.args[ry.b as int][i], o1, o2, m);
        }
    }
}

proof fn lemma_same_deeper(u: TyUniverse, s: Seq<(VarKey, TyId)>, x: TyId, y: TyId, o1: DefId, o2: DefId, n: nat, n2: nat)
    requires
        n <= n2,
        same_under(u, s, x, y, o1, o2, n),
    ensures
        same_under(u, s, x, y, o1, o2, n2),
    decreases n,
{
    let m = (n - 1) as nat;
    let m2 = (n2 - 1) as nat;
    let rx = u.rows[x.0 as int];
    let ry = u.rows[y.0 as int];
    if x == y {
    } else if var_of(u, x, o1, o2) is Some && slot_of(s, var_of(u, x, o1, o2)->0) is Some && same_under(
        u,
        s,
        slot_of(s, var_of(u, x, o1, o2)->0)->0,
        y,
        o1,
        o2,
        m,
    ) {
        let k = var_of(u, x, o1, o2)->0;
        let p = slot_of(s, k)->0;
        lemma_same_deeper(u, s, p, y, o1, o2, m, m2);
    } else if var_of(u, y, o1, o2) is Some && slot_of(s, var_of(u, y, o1, o2)->0) is Some && same_under(
        u,
        s,
        x,
        slot_of(s, var_of(u, y, o1, o2)->0)->0,
        o1,
        o2,
        m,
    ) {
        let k = var_of(u, y, o1, o2)->0;
        let p = slot_of(s, k)->0;
        lemma_same_deeper(u, s, x, p, o1, o2, m, m2);
    } else if rx.tag == TyTag::Dyn && ry.tag == TyTag::Dyn && rx.quals == ry.quals && rx.a == ry.a {
    } else {
        assert forall|i: int| 0 <= i < u.args[rx.b as int].len() implies same_under(
            u,
            s,
            #[trigger] u.args[rx.b as int][i],
            u.args[ry.b as int][i],
            o1,
            o2,
            m2,
        ) by {
            lemma_same_deeper(u, s, u.args[rx.b as int][i], u.args[ry.b as int][i], o1, o2, m, m2);
        }
    }
}

proof fn lemma_same_symmetric(u: TyUniverse, s: Seq<(VarKey, TyId)>, x: TyId, y: TyId, o1: DefId, o2: DefId, n: nat)
    requires
        same_under(u, s, x, y, o1, o2, n),
    ensures
        same_under(u, s, y, x, o1, o2, n),
    decreases n,
{
    let m = (n - 1) as nat;
    let rx = u.rows[x.0 as int];
    let ry = u.rows[y.0 as int];
    if x == y {
    } else if var_of(u, x, o1, o2) is Some && slot_of(s, var_of(u, x, o1, o2)->0) is Some && same_under(
        u,
        s,
        slot_of(s, var_of(u, x, o1, o2)->0)->0,
        y,
        o1,
        o2,
        m,
    ) {
        let k = var_of(u, x, o1, o2)->0;
        let p = slot_of(s, k)->0;
        lemma_same_symmetric(u, s, p, y, o1, o2, m);
    } else if var_of(u, y, o1, o2) is Some && slot_of(s, var_of(u, y, o1, o2)->0) is Some && same_under(
        u,
        s,
        x,
        slot_of(s, var_of(u, y, o1, o2)->0)->0,
        o1,
        o2,
        m,
    ) {
        let k = var_of(u, y, o1, o2)->0;
        let p = slot_of(s, k)->0;
        lemma_same_symmetric(u, s, x, p, o1, o2, m);
    } else if rx.tag == TyTag::Dyn && ry.tag == TyTag::Dyn && rx.quals == ry.quals && rx.a == ry.a {
    } else {
        assert forall|i: int| 0 <= i < u.args[ry.b as int].len() implies same_under(
            u,
            s,
            #[trigger] u.args[ry.b as int][i],
            u.args[rx.b as int][i],
            o1,
            o2,
            m,
        ) by {
            lemma_same_symmetric(u, s, u.args[rx.b as int][i], u.args[ry.b as int][i], o1, o2, m);
        }
    }
}

/// A successful unification keeps the bindings it was given and ends with
/// bindings under which the two types are the same.
proof fn lemma_unify_sound(u: TyUniverse, x: TyId, y: TyId, o1: DefId, o2: DefId, s: Seq<(VarKey, TyId)>, fuel: nat)
    requires
        unify_spec(u, x, y, o1, o2, s, fuel).0,
    ensures
        extends(s, unify_spec(u, x, y, o1, o2, s, fuel).1),
        same_under(u, unify_spec(u, x, y, o1, o2, s, fuel).1, x, y, o1, o2, fuel + 1),
    decreases fuel, 0nat,
{
    let f = (fuel - 1) as nat;
    let r = unify_spec(u, x, y, o1, o2, s, fuel);
    assert(s.subrange(0, s.len() as int) =~= s);
    if x == y {
    } else if var_of(u, x, o1, o2) is Some {
        let k = var_of(u, x, o1, o2)->0;
        if slot_of(s, k) is Some {
            let prev = slot_of(s, k)->0;
            lemma_unify_sound(u, prev, y, o1, o2, s, f);
            lemma_slot_kept(s, r.1, k);
        } else {
            assert(r.1 == s.push((k, y)));
            assert(r.1.subrange(0, s.len() as int) =~= s);
            lemma_slot_pushed(s, k, y);
            assert(same_under(u, r.1, y, y, o1, o2, fuel));
        }
    } else if var_of(u, y, o1, o2) is Some {
        lemma_unify_sound(u, y, x, o1, o2, s, f);
        lemma_same_symmetric(u, r.1, y, x, o1, o2, fuel);
        lemma_same_deeper(u, r.1, x, y, o1, o2, fuel, fuel + 1);
    } else {
        let ra = u.rows[x.0 as int];
        let rb = u.rows[y.0 as int];
        if ra.tag == TyTag::Nominal || ra.tag == TyTag::Tuple {
            lemma_list_sound(u, u.args[ra.b as int], u.args[rb.b as int], o1, o2, s, f);
            assert(ra.tag == rb.tag && ra.quals == rb.quals);
            assert(forall|i: int|
                0 <= i < u.args[ra.b as int].len() ==> same_under(
                    u,
                    r.1,
                    #[trigger] u.args[ra.b as int][i],
                    u.args[rb.b as int][i],
                    o1,
                    o2,
                    fuel,
                ));
        }
    }
}

/// A successful unification of two lists keeps the bindings it was given
/// and ends with bindings under which the lists are pairwise the same.
proof fn lemma_list_sound(u: TyUniverse, xs: Seq<TyId>, ys: Seq<TyId>, o1: DefId, o2: DefId, s: Seq<(VarKey, TyId)>, fuel: nat)
    requires
        unify_list(u, xs, ys, o1, o2, s, fuel).0,
    ensures
        xs.len() == ys.len(),
        extends(s, unify_list(u, xs, ys, o1, o2, s, fuel).1),
        forall|i: int|
            0 <= i < xs.len() ==> same_under(
                u,
                unify_list(u, xs, ys, o1, o2, s, fuel).1,
                #[trigger] xs[i],
                ys[i],
                o1,
                o2,
                fuel + 1,
            ),
    decreases fuel, xs.len() + 1,
{
    let r = unify_list(u, xs, ys, o1, o2, s, fuel);
    assert(s.subrange(0, s.len() as int) =~= s);
    if xs.len() > 0 {
        let (r1, s1, f1) = unify_spec(u, xs[0], ys[0], o1, o2, s, fuel);
        let f3: nat = if f1 <= fuel {
            f1
        } else {
            fuel
        };
        lemma_unify_sound(u, xs[0], ys[0], o1, o2, s, fuel);
        lemma_list_sound(u, xs.drop_first(), ys.drop_first(), o1, o2, s1, f3);
        lemma_extends_trans(s, s1, r.1);
        assert forall|i: int| 0 <= i < xs.len() implies same_under(u, r.1, #[trigger] xs[i], ys[i], o1, o2, fuel + 1) by {
            if i == 0 {
                lemma_same_more_bindings(u, s1, r.1, xs[0], ys[0], o1, o2, fuel + 1);
            } else {
                assert(xs.drop_first()[i - 1] == xs[i]);
                assert(ys.drop_first()[i - 1] == ys[i]);
                lemma_same_deeper(u, r.1, xs[i], ys[i], o1, o2, f3 + 1, fuel + 1);
            }
        }
    }
}

/// Two impls overlap only where one binding of their parameters makes them
/// alike: when the coherence check reports an overlap, there are bindings
/// under which the self types are the same type and the trait argument
/// lists have one length and are pairwise the same.
pub proof fn lemma_overlap_has_common_binding(u: TyUniverse, a: ImplRow, b: ImplRow)
    requires
        overlap_spec(u, a, b),
    ensures
        exists|s: Seq<(VarKey, TyId)>, n: nat|
            {
                &&& same_under(u, s, a.self_ty, b.self_ty, a.def, b.def, n)
                &&& row_trait_args(u, a).len() == row_trait_args(u, b).len()
                &&& forall|i: int|
                    0 <= i < row_trait_args(u, a).len() ==> same_under(
                        u,
                        s,
                        #[trigger] row_trait_args(u, a)[i],
                        row_trait_args(u, b)[i],
                        a.def,
                        b.def,
                        n,
                    )
            },
{
    let (r, s1, f1) = unify_spec(u, a.self_ty, b.self_ty, a.def, b.def, Seq::empty(), 0x10000);
    let xs = row_trait_args(u, a);
    let ys = row_trait_args(u, b);
    lemma_unify_sound(u, a.self_ty, b.self_ty, a.def, b.def, Seq::empty(), 0x10000);
    lemma_list_sound(u, xs, ys, a.def, b.def, s1, f1);
    let s2 = unify_list(u, xs, ys, a.def, b.def, s1, f1).1;
    let n: nat = if f1 + 1 > 0x10001 {
        f1 + 1
    } else {
        0x10001
    };
    lemma_same_more_bindings(u, s1, s2, a.self_ty, b.self_ty, a.def, b.def, 0x10001);
    lemma_same_deeper(u, s2, a.self_ty, b.self_ty, a.def, b.def, 0x10001, n);
    assert forall|i: int| 0 <= i < xs.len() implies same_under(u, s2, #[trigger] xs[i], ys[i], a.def, b.def, n) by {
        lemma_same_deeper(u, s2, xs[i], ys[i], a.def, b.def, f1 + 1, n);
    }
}

/// Bindings whose types are all rows of `u`.
pub open spec fn slots_ok(u: TyUniverse, s: Seq<(VarKey, TyId)>) -> bool {
    forall|i: int| 0 <= i < s.len() ==> (#[trigger] s[i]).1.0 < u.rows.len()
}

/// The bindings of one overlap test.
struct Unifier {
    slots: Vec<(VarKey, TyId)>,
}

impl Unifier {
    fn get(&self, k: VarKey) -> (r: Option<TyId>)
        ensures
            r == slot_of(self.slots@, k),
    {
        let mut i: usize = 0;
        assert(self.slots@.subrange(0, self.slots@.len() as int) =~= self.slots@);
        while i < self.slots.len()
            invariant
                i <= self.slots@.len(),
                slot_of(self.slots@.subrange(i as int, self.slots@.len() as int), k) == slot_of(self.slots@, k),
            decreases self.slots@.len() - i,
        {
            let ghost rest = self.slots@.subrange(i as int, self.slots@.len() as int);
            proof {
                assert(rest.drop_first() =~= self.slots@.subrange(i + 1, self.slots@.len() as int));
                assert(rest[0] == self.slots@[i as int]);
            }
            let key = self.slots[i].0;
            if key.0 == k.0 && key.1 == k.1 {
                return Some(self.slots[i].1);
            }
            i += 1;
        }
        proof {
            assert(self.slots@.subrange(i as int, self.slots@.len() as int).len() == 0);
        }
        None
    }

    fn set(&mut self, k: VarKey, t: TyId)
        ensures
            final(self).slots@ == old(self).slots@.push((k, t)),
    {
        self.slots.push((k, t));
    }
}

/// `t` as a variable of the impls `o1`, `o2`.
fn is_var(tys: &TyStore, t: TyId, o1: DefId, o2: DefId) -> (r: Option<VarKey>)
    requires
        tys.wf_core(),
        t.0 < tys.spec_rows().len(),
    ensures
        r == var_of(tys.universe(), t, o1, o2),
{
    proof {
        tys.lemma_row_order(t.0 as int);
    }
    match tys.tag(t) {
        TyTag::Param => {
            let owner = tys.a(t);
            if owner == o1.0 || owner == o2.0 {
                Some((owner, tys.b(t) as u16))
            } else {
                None
            }
        },
        TyTag::Brand => match tys.brand(crate::fir::ty::BrandId(tys.b(t))) {
            BrandRow::Param { owner, ordinal } => if owner == o1 || owner == o2 {
                Some((owner.0, ordinal))
            } else {
                None
            },
            BrandRow::Fresh { .. } => None,
        },
        _ => None,
    }
}

/// The occurs check: whether `k` occurs in `t` through the bindings of `u`,
/// spending one unit of `fuel` per step; with none left it answers yes.
fn occurs(tys: &TyStore, k: VarKey, t: TyId, o1: DefId, o2: DefId, u: &Unifier, fuel: &mut u32) -> (r: bool)
    requires
        tys.wf_core(),
        t.0 < tys.spec_rows().len(),
        slots_ok(tys.universe(), u.slots@),
    ensures
        (r, *final(fuel) as nat) == occurs_spec(tys.universe(), k, t, o1, o2, u.slots@, *old(fuel) as nat),
        *final(fuel) <= *old(fuel),
    decreases *old(fuel), 0nat,
{
    if *fuel == 0 {
        return true;
    }
    *fuel = *fuel - 1;
    proof {
        tys.lemma_row_order(t.0 as int);
    }
    match is_var(tys, t, o1, o2) {
        Some(v) => {
            if v.0 == k.0 && v.1 == k.1 {
                return true;
            }
            match u.get(v) {
                Some(prev) => {
                    proof {
                        lemma_slot_of_in(u.slots@, v);
                    }
                    occurs(tys, k, prev, o1, o2, u, fuel)
                },
                None => false,
            }
        },
        None => match tys.tag(t) {
            TyTag::Nominal | TyTag::Tuple => {
                let xs = tys.args_vec(ArgsId(tys.b(t)));
                occurs_args(tys, k, &xs, o1, o2, u, fuel)
            },
            _ => false,
        },
    }
}

/// A bound variable's type is one of the bindings' types.
proof fn lemma_slot_of_in(s: Seq<(VarKey, TyId)>, k: VarKey)
    ensures
        slot_of(s, k) matches Some(t) ==> exists|i: int| 0 <= i < s.len() && s[i].1 == t,
    decreases s.len(),
{
    if s.len() > 0 && s[0].0 != k {
        lemma_slot_of_in(s.drop_first(), k);
        if slot_of(s, k) is Some {
            let i = choose|i: int| 0 <= i < s.drop_first().len() && s.drop_first()[i].1 == slot_of(s, k)->0;
            assert(s[i + 1].1 == slot_of(s, k)->0);
        }
    } else if s.len() > 0 {
        assert(s[0].1 == slot_of(s, k)->0);
    }
}

fn occurs_args(tys: &TyStore, k: VarKey, xs: &Vec<TyId>, o1: DefId, o2: DefId, u: &Unifier, fuel: &mut u32) -> (r: bool)
    requires
        tys.wf_core(),
        ids_ok(tys.universe(), xs@),
        slots_ok(tys.universe(), u.slots@),
    ensures
        (r, *final(fuel) as nat) == occurs_list(tys.universe(), k, xs@, o1, o2, u.slots@, *old(fuel) as nat),
        *final(fuel) <= *old(fuel),
    decreases *old(fuel), xs@.len() + 1,
{
    let ghost f0 = *fuel as nat;
    let ghost target = occurs_list(tys.universe(), k, xs@, o1, o2, u.slots@, f0);
    let mut i: usize = 0;
    assert(xs@.subrange(0, xs@.len() as int) =~= xs@);
    while i < xs.len()
        invariant
            tys.wf_core(),
            ids_ok(tys.universe(), xs@),
            slots_ok(tys.universe(), u.slots@),
            i <= xs@.len(),
            *fuel <= f0,
            f0 == *old(fuel),
            occurs_list(tys.universe(), k, xs@.subrange(i as int, xs@.len() as int), o1, o2, u.slots@, *fuel as nat)
                == target,
            target == occurs_list(tys.universe(), k, xs@, o1, o2, u.slots@, f0),
        decreases xs@.len() - i,
    {
        let ghost rest = xs@.subrange(i as int, xs@.len() as int);
        proof {
            assert(rest[0] == xs@[i as int]);
            assert(rest.drop_first() =~= xs@.subrange(i + 1, xs@.len() as int));
        }
        let ghost fb = *fuel as nat;
        let hit = occurs(tys, k, xs[i], o1, o2, u, fuel);
        proof {
            assert(occurs_list(tys.universe(), k, rest, o1, o2, u.slots@, fb) == (if hit {
                (true, *fuel as nat)
            } else {
                occurs_list(tys.universe(), k, rest.drop_first(), o1, o2, u.slots@, *fuel as nat)
            }));
        }
        if hit {
            assert((true, *fuel as nat) == target);
            return true;
        }
        i += 1;
    }
    false
}

/// First-order unification of `a` with `b`, the parameters of the impls
/// `o1` and `o2` being the variables, with bindings in `u`.
fn unify(tys: &TyStore, a: TyId, b: TyId, o1: DefId, o2: DefId, u: &mut Unifier, fuel: &mut u32) -> (r: bool)
    requires
        tys.wf_core(),
        a.0 < tys.spec_rows().len(),
        b.0 < tys.spec_rows().len(),
        slots_ok(tys.universe(), old(u).slots@),
    ensures
        (r, final(u).slots@, *final(fuel) as nat) == unify_spec(tys.universe(), a, b, o1, o2, old(u).slots@, *old(fuel) as nat),
        slots_ok(tys.universe(), final(u).slots@),
        *final(fuel) <= *old(fuel),
    decreases *old(fuel), 0nat,
{
    if *fuel == 0 {
        return false;
    }
    *fuel = *fuel - 1;
    if a == b {
        return true;
    }
    proof {
        tys.lemma_row_order(a.0 as int);
        tys.lemma_row_order(b.0 as int);
    }
    match is_var(tys, a, o1, o2) {
        Some(k) => {
            match u.get(k) {
                Some(prev) => {
                    proof {
                        lemma_slot_of_in(u.slots@, k);
                    }
                    return unify(tys, prev, b, o1, o2, u, fuel);
                },
                None => {
                    let mut f2: u32 = 4096;
                    if occurs(tys, k, b, o1, o2, u, &mut f2) {
                        return false;
                    }
                    u.set(k, b);
                    return true;
                },
            }
        },
        None => {},
    }
    if is_var(tys, b, o1, o2).is_some() {
        return unify(tys, b, a, o1, o2, u, fuel);
    }
    let ta = tys.tag(a);
    let tb = tys.tag(b);
    if ta != tb || tys.quals(a).0 != tys.quals(b).0 {
        return false;
    }
    match ta {
        TyTag::Nominal => {
            if tys.a(a) != tys.a(b) {
                return false;
            }
            unify_args(tys, ArgsId(tys.b(a)), ArgsId(tys.b(b)), o1, o2, u, fuel)
        },
        TyTag::Tuple => unify_args(tys, ArgsId(tys.b(a)), ArgsId(tys.b(b)), o1, o2, u, fuel),
        TyTag::Dyn => tys.a(a) == tys.a(b),
        _ => false,
    }
}

fn unify_args(tys: &TyStore, a: ArgsId, b: ArgsId, o1: DefId, o2: DefId, u: &mut Unifier, fuel: &mut u32) -> (r: bool)
    requires
        tys.wf_core(),
        a.0 < tys.spec_args().len(),
        b.0 < tys.spec_args().len(),
        ids_ok(tys.universe(), tys.spec_args()[a.0 as int]),
        ids_ok(tys.universe(), tys.spec_args()[b.0 as int]),
        slots_ok(tys.universe(), old(u).slots@),
    ensures
        (r, final(u).slots@, *final(fuel) as nat) == unify_list(
            tys.universe(),
            tys.spec_args()[a.0 as int],
            tys.spec_args()[b.0 as int],
            o1,
            o2,
            old(u).slots@,
            *old(fuel) as nat,
        ),
        slots_ok(tys.universe(), final(u).slots@),
        *final(fuel) <= *old(fuel),
    decreases *old(fuel), 2nat,
{
    let xs = tys.args_vec(a);
    let ys = tys.args_vec(b);
    unify_seq(tys, &xs, &ys, o1, o2, u, fuel)
}

/// Pairwise unification of `xs` with `ys`, in order; lists of different
/// lengths do not unify.
fn unify_seq(tys: &TyStore, xs: &Vec<TyId>, ys: &Vec<TyId>, o1: DefId, o2: DefId, u: &mut Unifier, fuel: &mut u32) -> (r: bool)
    requires
        tys.wf_core(),
        ids_ok(tys.universe(), xs@),
        ids_ok(tys.universe(), ys@),
        slots_ok(tys.universe(), old(u).slots@),
    ensures
        (r, final(u).slots@, *final(fuel) as nat) == unify_list(tys.universe(), xs@, ys@, o1, o2, old(u).slots@, *old(fuel) as nat),
        slots_ok(tys.universe(), final(u).slots@),
        *final(fuel) <= *old(fuel),
    decreases *old(fuel), 1nat,
{
    if xs.len() != ys.len() {
        return false;
    }
    let ghost f0 = *fuel as nat;
    let ghost target = unify_list(tys.universe(), xs@, ys@, o1, o2, u.slots@, f0);
    let mut i: usize = 0;
    assert(xs@.subrange(0, xs@.len() as int) =~= xs@);
    assert(ys@.subrange(0, ys@.len() as int) =~= ys@);
    while i < xs.len()
        invariant
            tys.wf_core(),
            ids_ok(tys.universe(), xs@),
            ids_ok(tys.universe(), ys@),
            xs@.len() == ys@.len(),
            slots_ok(tys.universe(), u.slots@),
            i <= xs@.len(),
            *fuel <= f0,
            f0 == *old(fuel),
            unify_list(
                tys.universe(),
                xs@.subrange(i as int, xs@.len() as int),
                ys@.subrange(i as int, ys@.len() as int),
                o1,
                o2,
                u.slots@,
                *fuel as nat,
            ) == target,
            target == unify_list(tys.universe(), xs@, ys@, o1, o2, old(u).slots@, f0),
        decreases xs@.len() - i,
    {
        let ghost rx = xs@.subrange(i as int, xs@.len() as int);
        let ghost ry = ys@.subrange(i as int, ys@.len() as int);
        proof {
            assert(rx[0] == xs@[i as int]);
            assert(ry[0] == ys@[i as int]);
            assert(rx.drop_first() =~= xs@.subrange(i + 1, xs@.len() as int));
            assert(ry.drop_first() =~= ys@.subrange(i + 1, ys@.len() as int));
        }
        let ghost fb = *fuel as nat;
        let ghost sb = u.slots@;
        let ok = unify(tys, xs[i], ys[i], o1, o2, u, fuel);
        proof {
            assert(unify_list(tys.universe(), rx, ry, o1, o2, sb, fb) == (if !ok {
                (false, u.slots@, *fuel as nat)
            } else {
                unify_list(tys.universe(), rx.drop_first(), ry.drop_first(), o1, o2, u.slots@, *fuel as nat)
            }));
        }
        if !ok {
            assert((false, u.slots@, *fuel as nat) == target);
            return false;
        }
        i += 1;
    }
    true
}

/// Whether two impls of the same trait overlap: their parameters (renamed
/// apart already, a parameter row carrying its owner) are variables, and
/// their self types, then their trait arguments, unify first-order.
/// Bounds and associated types play no part.
pub fn overlap(tys: &TyStore, sigs: &SigStore, a: &ImplRow, b: &ImplRow) -> (r: bool)
    requires
        tys.wf_core(),
        a.self_ty.0 < tys.spec_rows().len(),
        b.self_ty.0 < tys.spec_rows().len(),
        a.trait_args == ArgsId(0) || a.trait_args.0 < tys.spec_args().len(),
        b.trait_args == ArgsId(0) || b.trait_args.0 < tys.spec_args().len(),
        ids_ok(tys.universe(), row_trait_args(tys.universe(), *a)),
        ids_ok(tys.universe(), row_trait_args(tys.universe(), *b)),
    ensures
        r == overlap_spec(tys.universe(), *a, *b),
{
    if a.trait_def != b.trait_def || a.def == b.def {
        return false;
    }
    let mut u = Unifier { slots: Vec::new() };
    let mut fuel: u32 = 0x10000;
    if !unify(tys, a.self_ty, b.self_ty, a.def, b.def, &mut u, &mut fuel) {
        return false;
    }
    let xa = if a.trait_args == no_args() {
        Vec::new()
    } else {
        tys.args_vec(a.trait_args)
    };
    let xb = if b.trait_args == no_args() {
        Vec::new()
    } else {
        tys.args_vec(b.trait_args)
    };
    proof {
        assert(xa@ =~= row_trait_args(tys.universe(), *a));
        assert(xb@ =~= row_trait_args(tys.universe(), *b));
    }
    unify_seq(tys, &xa, &xb, a.def, b.def, &mut u, &mut fuel)
}

} // verus!
