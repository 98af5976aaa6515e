//! The hash-consing table: open addressing with linear probing over a
//! power-of-two slot array, `u64` keys and `u32` values, keys mixed with the
//! build's one avalanche step. Interning order, and so every id a build hands
//! out, is reproducible.
//!
//! The table stores each key beside its value, so growing rehashes without
//! the caller, and the caller confirms a candidate itself: `lookup` takes an
//! equality closure, so two entries whose keys collide are never confused.

use vstd::prelude::*;
use vstd::bits::{low_bits_mask, lemma_usize_low_bits_mask_is_mod};
use vstd::arithmetic::power2::{pow2, lemma_pow2_unfold, lemma_pow2_pos, lemma2_to64};

use crate::index::{spec_splitmix64, splitmix64};

verus! {

/// Marks an empty slot; a pool therefore holds at most `u32::MAX` entries.
pub const EMPTY: u32 = 0xFFFF_FFFFu32;

pub struct ConsTable {
    keys: Vec<u64>,
    vals: Vec<u32>,
    mask: usize,
    len: usize,
    exp: Ghost<nat>,
}

/// How many of the first `n` slots are occupied.
pub open spec fn occupied_count(vals: Seq<u32>, n: int) -> nat
    decreases n,
{
    if n <= 0 {
        0
    } else {
        occupied_count(vals, n - 1) + if vals[n - 1] != EMPTY {
            1nat
        } else {
            0nat
        }
    }
}

proof fn lemma_count_bound(vals: Seq<u32>, n: int)
    requires
        0 <= n <= vals.len(),
    ensures
        occupied_count(vals, n) <= n,
        occupied_count(vals, n) == n ==> forall|i: int| 0 <= i < n ==> vals[i] != EMPTY,
    decreases n,
{
    if n > 0 {
        lemma_count_bound(vals, n - 1);
    }
}

proof fn lemma_count_update(vals: Seq<u32>, n: int, p: int, v: u32)
    requires
        0 <= p < vals.len(),
        0 <= n <= vals.len(),
        vals[p] == EMPTY,
        v != EMPTY,
    ensures
        occupied_count(vals.update(p, v), n) == occupied_count(vals, n) + if p < n {
            1nat
        } else {
            0nat
        },
    decreases n,
{
    if n > 0 {
        lemma_count_update(vals, n - 1, p, v);
    }
}

/// `xs` folded into `h`, one avalanche step per word, in order.
pub open spec fn fold_mix(h: u64, xs: Seq<u64>) -> u64
    decreases xs.len(),
{
    if xs.len() == 0 {
        h
    } else {
        spec_splitmix64(fold_mix(h, xs.drop_last()) ^ xs.last())
    }
}

/// The key of a word sequence: its length first, then each word.
pub open spec fn spec_key_words(salt: u64, len: u64, xs: Seq<u64>) -> u64 {
    fold_mix(spec_splitmix64(salt ^ len), xs)
}

pub open spec fn widen(xs: Seq<u32>) -> Seq<u64> {
    xs.map_values(|x: u32| x as u64)
}

impl ConsTable {
    pub closed spec fn cap(&self) -> int {
        self.vals@.len() as int
    }

    /// The slot a key's probe starts at.
    pub closed spec fn home(&self, key: u64) -> int {
        ((key as usize) as int) % self.cap()
    }

    /// Slot `(h + t)` modulo the capacity.
    spec fn slot(&self, h: int, t: int) -> int {
        (h + t) % self.cap()
    }

    spec fn occupied(&self, i: int) -> bool {
        self.vals@[i] != EMPTY
    }

    /// How far slot `i` lies past slot `h` along the probe order.
    spec fn dist(&self, h: int, i: int) -> int {
        if h <= i {
            i - h
        } else {
            i - h + self.cap()
        }
    }

    /// The pair `(key, val)` is stored.
    pub closed spec fn holds(&self, key: u64, val: u32) -> bool {
        exists|i: int| 0 <= i < self.cap() && self.occupied(i) && self.keys@[i] == key && self.vals@[i] == val
    }

    /// How many entries the table holds.
    pub closed spec fn spec_len(&self) -> nat {
        occupied_count(self.vals@, self.cap())
    }

    pub closed spec fn wf(&self) -> bool {
        &&& self.wf_shape()
        &&& self.len * 8 <= self.cap() * 7
    }

    /// Everything but the load bound.
    spec fn wf_shape(&self) -> bool {
        &&& self.keys@.len() == self.vals@.len()
        &&& 3 <= self.exp@
        &&& self.cap() <= usize::MAX / 2
        &&& self.cap() == pow2(self.exp@)
        &&& self.mask == low_bits_mask(self.exp@)
        &&& self.len == self.spec_len()
        // Linear probing: every slot between an entry's home and the entry is
        // occupied.
        &&& forall|i: int, t: int|
            0 <= i < self.cap() && self.occupied(i) && 0 <= t < self.dist(self.home(self.keys@[i]), i) ==> #[trigger] self.occupied(
                self.slot(self.home(self.keys@[i]), t),
            )
        // No pair is stored twice.
        &&& forall|i: int, j: int|
            0 <= i < j < self.cap() && self.occupied(i) && self.occupied(j) ==> !(self.keys@[i] == self.keys@[j]
                && self.vals@[i] == self.vals@[j])
    }
}

impl View for ConsTable {
    type V = Set<(u64, u32)>;

    /// The stored `(key, value)` pairs.
    open spec fn view(&self) -> Set<(u64, u32)> {
        Set::new(|p: (u64, u32)| self.holds(p.0, p.1))
    }
}


impl ConsTable {
    proof fn lemma_mask(&self, x: usize)
        requires
            self.wf_shape(),
        ensures
            x & self.mask == x % (self.cap() as usize),
            self.cap() >= 8,
    {
        lemma2_to64();
        vstd::arithmetic::power2::lemma2_to64_rest();
        if self.exp@ >= usize::BITS {
            if self.exp@ > usize::BITS {
                vstd::arithmetic::power2::lemma_pow2_strictly_increases(usize::BITS as nat, self.exp@);
            }
            assert(false);
        }
        lemma_usize_low_bits_mask_is_mod(x, self.exp@);
        if self.exp@ > 3 {
            vstd::arithmetic::power2::lemma_pow2_strictly_increases(3, self.exp@);
        }
    }

    proof fn lemma_slot_dist(&self, h: int, p: int)
        requires
            0 <= h < self.cap(),
            0 <= p < self.cap(),
        ensures
            0 <= self.dist(h, p) < self.cap(),
            self.slot(h, self.dist(h, p)) == p,
    {
        vstd::arithmetic::div_mod::lemma_mod_self_0(self.cap());
        if h <= p {
            vstd::arithmetic::div_mod::lemma_small_mod(p as nat, self.cap() as nat);
        } else {
            vstd::arithmetic::div_mod::lemma_mod_multiples_vanish(1, p, self.cap());
            vstd::arithmetic::div_mod::lemma_small_mod(p as nat, self.cap() as nat);
        }
    }

    proof fn lemma_dist_slot(&self, h: int, s: int)
        requires
            0 <= h < self.cap(),
            0 <= s < self.cap(),
        ensures
            0 <= self.slot(h, s) < self.cap(),
            self.dist(h, self.slot(h, s)) == s,
    {
        if h + s < self.cap() {
            vstd::arithmetic::div_mod::lemma_small_mod((h + s) as nat, self.cap() as nat);
        } else {
            vstd::arithmetic::div_mod::lemma_mod_multiples_vanish(1, h + s - self.cap(), self.cap());
            vstd::arithmetic::div_mod::lemma_small_mod((h + s - self.cap()) as nat, self.cap() as nat);
        }
    }

    proof fn lemma_slot_next(&self, h: int, s: int, i: int)
        requires
            self.cap() > 1,
            0 <= h < self.cap(),
            0 <= s,
            i == self.slot(h, s),
        ensures
            (i + 1) % self.cap() == self.slot(h, s + 1),
    {
        vstd::arithmetic::div_mod::lemma_add_mod_noop(h + s, 1, self.cap());
        vstd::arithmetic::div_mod::lemma_small_mod(1, self.cap() as nat);
    }

    /// A table of at least `capacity` slots, rounded up to a power of two no
    /// smaller than eight.
    pub fn with_capacity(capacity: usize) -> (t: ConsTable)
        requires
            capacity <= usize::MAX / 4,
        ensures
            t.wf(),
            t@ == Set::<(u64, u32)>::empty(),
            t.spec_len() == 0,
            t.cap() >= capacity,
            t.cap() >= 8,
            t.cap() == 8 || t.cap() < 2 * capacity,
            exists|e: nat| t.cap() == pow2(e),
    {
        let mut cap: usize = 8;
        let ghost mut exp: nat = 3;
        proof {
            lemma2_to64();
        }
        while cap < capacity
            invariant
                cap == pow2(exp),
                3 <= exp,
                capacity <= usize::MAX / 4,
                cap <= usize::MAX / 2,
                cap >= 8,
                cap == 8 || cap < 2 * capacity,
            decreases usize::MAX - cap,
        {
            proof {
                lemma_pow2_unfold(exp + 1);
            }
            cap = cap * 2;
            proof {
                exp = exp + 1;
            }
        }
        let mut keys: Vec<u64> = Vec::new();
        let mut vals: Vec<u32> = Vec::new();
        let mut k: usize = 0;
        while k < cap
            invariant
                k <= cap,
                keys@.len() == k,
                vals@.len() == k,
                forall|j: int| 0 <= j < k ==> vals@[j] == EMPTY,
            decreases cap - k,
        {
            keys.push(0);
            vals.push(EMPTY);
            k += 1;
        }
        proof {
            lemma_pow2_pos(exp);
            assert(low_bits_mask(exp) == pow2(exp) - 1);
        }
        let t = ConsTable { keys, vals, mask: cap - 1, len: 0, exp: Ghost(exp) };
        proof {
            assert forall|n: int| 0 <= n <= t.cap() implies occupied_count(t.vals@, n) == 0 by {
                lemma_count_zero(t.vals@, n);
            }
            assert(t@ =~= Set::<(u64, u32)>::empty());
        }
        t
    }

    pub fn new() -> (t: ConsTable)
        ensures
            t.wf(),
            t@ == Set::<(u64, u32)>::empty(),
            t.spec_len() == 0,
    {
        ConsTable::with_capacity(64)
    }

    pub fn len(&self) -> (r: usize)
        requires
            self.wf(),
        ensures
            r == self.spec_len(),
    {
        self.len
    }

    pub fn is_empty(&self) -> (r: bool)
        requires
            self.wf(),
        ensures
            r == (self.spec_len() == 0),
    {
        self.len == 0
    }
}

impl Default for ConsTable {
    fn default() -> (t: ConsTable)
        ensures
            t.wf(),
            t@ == Set::<(u64, u32)>::empty(),
            t.spec_len() == 0,
    {
        ConsTable::new()
    }
}

proof fn lemma_count_zero(vals: Seq<u32>, n: int)
    requires
        0 <= n <= vals.len(),
        forall|j: int| 0 <= j < vals.len() ==> vals[j] == EMPTY,
    ensures
        occupied_count(vals, n) == 0,
    decreases n,
{
    if n > 0 {
        lemma_count_zero(vals, n - 1);
    }
}

impl ConsTable {
    /// Mixes a triple into a table key; `salt` separates the domains sharing
    /// one pool.
    pub fn key3(salt: u64, a: u64, b: u64, c: u64) -> (r: u64)
        ensures
            r == spec_splitmix64(spec_splitmix64(spec_splitmix64(salt ^ a) ^ b) ^ c),
    {
        let mut h = splitmix64(salt ^ a);
        h = splitmix64(h ^ b);
        splitmix64(h ^ c)
    }

    /// Folds a word sequence into a table key, its length first, so that no
    /// two sequences of different lengths fold alike structurally.
    pub fn key_iter(salt: u64, len: usize, xs: &[u64]) -> (r: u64)
        ensures
            r == spec_key_words(salt, len as u64, xs@),
    {
        let mut h = splitmix64(salt ^ len as u64);
        let mut i: usize = 0;
        while i < xs.len()
            invariant
                i <= xs@.len(),
                h == fold_mix(spec_splitmix64(salt ^ len as u64), xs@.subrange(0, i as int)),
            decreases xs@.len() - i,
        {
            proof {
                assert(xs@.subrange(0, i + 1).drop_last() =~= xs@.subrange(0, i as int));
            }
            h = splitmix64(h ^ xs[i]);
            i += 1;
        }
        assert(xs@.subrange(0, i as int) =~= xs@);
        h
    }

    /// [`ConsTable::key_iter`] over a slice of `u32`s.
    pub fn key_slice(salt: u64, xs: &[u32]) -> (r: u64)
        ensures
            r == spec_key_words(salt, xs@.len() as u64, widen(xs@)),
    {
        let mut words: Vec<u64> = Vec::new();
        let mut i: usize = 0;
        while i < xs.len()
            invariant
                i <= xs@.len(),
                words@ == widen(xs@.subrange(0, i as int)),
            decreases xs@.len() - i,
        {
            words.push(xs[i] as u64);
            assert(widen(xs@.subrange(0, i + 1)) =~= widen(xs@.subrange(0, i as int)).push(xs@[i as int] as u64));
            i += 1;
        }
        assert(xs@.subrange(0, i as int) =~= xs@);
        ConsTable::key_iter(salt, xs.len(), words.as_slice())
    }

    /// A probe of `cap` steps from `h` visits every slot, and a table within
    /// its load bound has an empty one.
    proof fn lemma_probe_hits_empty(&self, h: int)
        requires
            self.wf(),
            0 <= h < self.cap(),
        ensures
            exists|t: int| 0 <= t < self.cap() && !self.occupied(#[trigger] self.slot(h, t)),
    {
        if forall|t: int| 0 <= t < self.cap() ==> self.occupied(#[trigger] self.slot(h, t)) {
            assert forall|p: int| 0 <= p < self.cap() implies self.vals@[p] != EMPTY by {
                self.lemma_slot_dist(h, p);
                assert(self.occupied(self.slot(h, self.dist(h, p))));
            }
            lemma_count_all(self.vals@, self.cap());
        }
    }

    /// The value stored under `key` for which `eq` holds, probing past
    /// collisions; `None` when no value stored under `key` satisfies `eq`.
    pub fn lookup<F: Fn(u32) -> bool>(&self, key: u64, eq: F) -> (r: Option<u32>)
        requires
            self.wf(),
            forall|v: u32| eq.requires((v,)),
        ensures
            r matches Some(v) ==> self.holds(key, v) && eq.ensures((v,), true),
            r is None ==> forall|v: u32| self.holds(key, v) ==> eq.ensures((v,), false),
    {
        proof {
            self.lemma_mask(key as usize);
        }
        let ghost h = self.home(key);
        let mut i: usize = (key as usize) & self.mask;
        let ghost mut s: int = 0;
        proof {
            vstd::arithmetic::div_mod::lemma_small_mod(h as nat, self.cap() as nat);
        }
        loop
            invariant
                self.wf(),
                forall|v: u32| eq.requires((v,)),
                h == self.home(key),
                0 <= h < self.cap(),
                0 <= s < self.cap(),
                i == self.slot(h, s),
                forall|t: int| 0 <= t < s ==> self.occupied(#[trigger] self.slot(h, t)),
                forall|t: int| 0 <= t < s && self.keys@[#[trigger] self.slot(h, t)] == key ==> eq.ensures(
                    (self.vals@[self.slot(h, t)],),
                    false,
                ),
            decreases self.cap() - s,
        {
            proof {
                self.lemma_dist_slot(h, s);
            }
            let v = self.vals[i];
            if v == EMPTY {
                proof {
                    assert forall|w: u32| self.holds(key, w) implies eq.ensures((w,), false) by {
                        let p = choose|p: int| 0 <= p < self.cap() && self.occupied(p) && self.keys@[p] == key && self.vals@[p] == w;
                        self.lemma_slot_dist(h, p);
                        let d = self.dist(h, p);
                        if d >= s {
                            if d > s {
                                assert(self.occupied(self.slot(self.home(self.keys@[p]), s)));
                            }
                            assert(false);
                        }
                        assert(self.keys@[self.slot(h, d)] == key);
                    }
                }
                return None;
            }
            if self.keys[i] == key && eq(v) {
                proof {
                    assert(self.occupied(i as int) && self.keys@[i as int] == key && self.vals@[i as int] == v);
                }
                return Some(v);
            }
            proof {
                self.lemma_mask((i + 1) as usize);
                self.lemma_slot_next(h, s, i as int);
                if s + 1 == self.cap() {
                    self.lemma_probe_hits_empty(h);
                    let t = choose|t: int| 0 <= t < self.cap() && !self.occupied(#[trigger] self.slot(h, t));
                    assert(t == s || t < s);
                }
            }
            i = (i + 1) & self.mask;
            proof {
                s = s + 1;
            }
        }
    }

    /// Stores `(key, val)` in the first empty slot of `key`'s probe.
    fn place(&mut self, key: u64, val: u32)
        requires
            old(self).wf_shape(),
            (old(self).len + 1) * 8 <= old(self).cap() * 7,
            val != EMPTY,
            !old(self).holds(key, val),
        ensures
            final(self).wf(),
            final(self).cap() == old(self).cap(),
            final(self).exp == old(self).exp,
            final(self).spec_len() == old(self).spec_len() + 1,
            forall|k: u64, v: u32| #[trigger] final(self).holds(k, v) == (old(self).holds(k, v) || (k == key && v == val)),
    {
        proof {
            self.lemma_mask(key as usize);
            lemma_count_bound(self.vals@, self.cap());
        }
        let ghost h = self.home(key);
        let mut i: usize = (key as usize) & self.mask;
        let ghost mut s: int = 0;
        proof {
            vstd::arithmetic::div_mod::lemma_small_mod(h as nat, self.cap() as nat);
        }
        while self.vals[i] != EMPTY
            invariant
                self.wf_shape(),
                self == old(self),
                (self.len + 1) * 8 <= self.cap() * 7,
                h == self.home(key),
                0 <= h < self.cap(),
                0 <= s < self.cap(),
                i == self.slot(h, s),
                forall|t: int| 0 <= t < s ==> self.occupied(#[trigger] self.slot(h, t)),
            decreases self.cap() - s,
        {
            proof {
                self.lemma_dist_slot(h, s);
                self.lemma_mask((i + 1) as usize);
                self.lemma_slot_next(h, s, i as int);
                if s + 1 == self.cap() {
                    assert forall|p: int| 0 <= p < self.cap() implies self.vals@[p] != EMPTY by {
                        self.lemma_slot_dist(h, p);
                        assert(self.occupied(self.slot(h, self.dist(h, p))));
                    }
                    lemma_count_all(self.vals@, self.cap());
                }
            }
            i = (i + 1) & self.mask;
            proof {
                s = s + 1;
            }
        }
        proof {
            self.lemma_dist_slot(h, s);
            lemma_count_update(self.vals@, self.cap(), i as int, val);
        }
        let ghost before = *self;
        self.keys.set(i, key);
        self.vals.set(i, val);
        self.len = self.len + 1;
        proof {
            let p = i as int;
            assert(self.spec_len() == before.spec_len() + 1);
            assert forall|j: int, t: int|
                0 <= j < self.cap() && self.occupied(j) && 0 <= t < self.dist(self.home(self.keys@[j]), j) implies #[trigger] self.occupied(
                self.slot(self.home(self.keys@[j]), t),
            ) by {
                if j == p {
                    assert(self.dist(h, p) == s);
                    assert(before.occupied(before.slot(h, t)));
                } else {
                    assert(before.occupied(j));
                    assert(before.occupied(before.slot(before.home(before.keys@[j]), t)));
                }
            }
            assert forall|a: int, b: int|
                0 <= a < b < self.cap() && self.occupied(a) && self.occupied(b) implies !(self.keys@[a] == self.keys@[b]
                && self.vals@[a] == self.vals@[b]) by {
                if a == p {
                    assert(before.occupied(b));
                } else if b == p {
                    assert(before.occupied(a));
                } else {
                    assert(before.occupied(a) && before.occupied(b));
                }
            }
            assert forall|k: u64, v: u32| #[trigger] self.holds(k, v) == (before.holds(k, v) || (k == key && v == val)) by {
                if self.holds(k, v) {
                    let q = choose|q: int| 0 <= q < self.cap() && self.occupied(q) && self.keys@[q] == k && self.vals@[q] == v;
                    if q != p {
                        assert(before.occupied(q));
                    }
                }
                if before.holds(k, v) {
                    let q = choose|q: int| 0 <= q < before.cap() && before.occupied(q) && before.keys@[q] == k && before.vals@[q] == v;
                    assert(q != p);
                    assert(self.occupied(q));
                }
                if k == key && v == val {
                    assert(self.occupied(p));
                }
            }
        }
    }
}

proof fn lemma_count_all(vals: Seq<u32>, n: int)
    requires
        0 <= n <= vals.len(),
        forall|j: int| 0 <= j < n ==> vals[j] != EMPTY,
    ensures
        occupied_count(vals, n) == n,
    decreases n,
{
    if n > 0 {
        lemma_count_all(vals, n - 1);
    }
}

proof fn lemma_count_mono(vals: Seq<u32>, j: int, n: int)
    requires
        0 <= j <= n <= vals.len(),
    ensures
        occupied_count(vals, j) <= occupied_count(vals, n),
    decreases n - j,
{
    if j < n {
        lemma_count_mono(vals, j, n - 1);
    }
}

impl ConsTable {
    /// Doubles the slot array and reinserts every entry in slot order.
    fn grow(&mut self)
        requires
            old(self).wf(),
            old(self).cap() * 2 <= usize::MAX / 2,
        ensures
            final(self).wf_shape(),
            final(self).cap() == old(self).cap() * 2,
            final(self).spec_len() == old(self).spec_len(),
            final(self).len == old(self).len,
            forall|k: u64, v: u32| #[trigger] final(self).holds(k, v) == old(self).holds(k, v),
    {
        let cap = self.keys.len() * 2;
        let mut keys: Vec<u64> = Vec::new();
        let mut vals: Vec<u32> = Vec::new();
        let mut k: usize = 0;
        while k < cap
            invariant
                k <= cap,
                keys@.len() == k,
                vals@.len() == k,
                forall|j: int| 0 <= j < k ==> vals@[j] == EMPTY,
            decreases cap - k,
        {
            keys.push(0);
            vals.push(EMPTY);
            k += 1;
        }
        proof {
            lemma_pow2_unfold(self.exp@ + 1);
            lemma_pow2_pos(self.exp@ + 1);
        }
        let mut fresh = ConsTable { keys, vals, mask: cap - 1, len: 0, exp: Ghost(self.exp@ + 1) };
        proof {
            lemma_count_zero(fresh.vals@, fresh.cap());
            lemma_count_bound(self.vals@, self.cap());
        }
        let mut j: usize = 0;
        while j < self.keys.len()
            invariant
                self.wf(),
                self == old(self),
                self.cap() * 2 <= usize::MAX / 2,
                fresh.wf_shape(),
                fresh.cap() == self.cap() * 2,
                j <= self.cap(),
                fresh.len == occupied_count(self.vals@, j as int),
                forall|k: u64, v: u32| #[trigger] fresh.holds(k, v) == (exists|i: int|
                    0 <= i < j && self.occupied(i) && self.keys@[i] == k && self.vals@[i] == v),
            decreases self.cap() - j,
        {
            let ghost before = fresh;
            if self.vals[j] != EMPTY {
                proof {
                    lemma_count_mono(self.vals@, j as int, self.cap());
                    self.lemma_mask(0);
                    if before.holds(self.keys@[j as int], self.vals@[j as int]) {
                        let i = choose|i: int| 0 <= i < j && self.occupied(i) && self.keys@[i] == self.keys@[j as int]
                            && self.vals@[i] == self.vals@[j as int];
                        assert(self.occupied(i) && self.occupied(j as int));
                        assert(false);
                    }
                }
                fresh.place(self.keys[j], self.vals[j]);
            }
            proof {
                let jj = j as int;
                assert forall|k: u64, v: u32| #[trigger] fresh.holds(k, v) == (exists|i: int|
                    0 <= i < jj + 1 && self.occupied(i) && self.keys@[i] == k && self.vals@[i] == v) by {
                    if fresh.holds(k, v) {
                        if before.holds(k, v) {
                            let i = choose|i: int| 0 <= i < jj && self.occupied(i) && self.keys@[i] == k && self.vals@[i] == v;
                            assert(0 <= i < jj + 1 && self.occupied(i) && self.keys@[i] == k && self.vals@[i] == v);
                        } else {
                            assert(self.occupied(jj) && self.keys@[jj] == k && self.vals@[jj] == v);
                        }
                    }
                    if exists|i: int| 0 <= i < jj + 1 && self.occupied(i) && self.keys@[i] == k && self.vals@[i] == v {
                        let i = choose|i: int| 0 <= i < jj + 1 && self.occupied(i) && self.keys@[i] == k && self.vals@[i] == v;
                        if i < jj {
                            assert(before.holds(k, v));
                        } else {
                            assert(i == jj);
                        }
                    }
                }
            }
            j += 1;
        }
        proof {
            assert forall|k: u64, v: u32| #[trigger] fresh.holds(k, v) == self.holds(k, v) by {
                if self.holds(k, v) {
                    let i = choose|i: int| 0 <= i < self.cap() && self.occupied(i) && self.keys@[i] == k && self.vals@[i] == v;
                    assert(0 <= i < j);
                }
            }
        }
        *self = fresh;
    }

    /// Adds `(key, val)`. The caller has just failed a lookup for this entry,
    /// so the pair is not stored yet; `EMPTY` is reserved for the empty slot.
    pub fn insert(&mut self, key: u64, val: u32)
        requires
            old(self).wf(),
            val != EMPTY,
            !old(self).holds(key, val),
            old(self).spec_len() < u32::MAX,
            old(self).spec_len() < usize::MAX / 64,
        ensures
            final(self).wf(),
            final(self)@ == old(self)@.insert((key, val)),
            final(self).spec_len() == old(self).spec_len() + 1,
    {
        if ((self.len as u128) + 1) * 8 > (self.keys.len() as u128) * 7 {
            proof {
                self.lemma_mask(0);
            }
            self.grow();
        }
        let ghost mid = *self;
        self.place(key, val);
        proof {
            assert(self@ =~= old(self)@.insert((key, val)));
        }
    }
}

} // verus!
