//! The canonical block numbering the content hash is computed over: blocks
//! are visited breadth-first from the entry in branch-target order, then any
//! block the entry does not reach follows in storage order, and every block
//! id carried in the declaration's data is renumbered to that order.
//!
//! Every function here stays total over malformed input: a branch target or
//! side-table index past the end is left as it is rather than trusted.

use vstd::prelude::*;
use vstd::set_lib::lemma_len_subset;

use crate::fmir::block::{BlockPool, BlockRow};
use crate::fmir::decl::DeclFmir;
use crate::fmir::ids::BlockId;
use crate::fmir::inst::{clamp_range, clamped_slice, InstPool, InstRow, SwitchArm, SwitchRow};
use crate::fmir::op::Op;
use crate::fmir::scope::{DeferPool, DeferRow};

verus! {

/// The targets of a run of switch arms, in arm order.
pub open spec fn arm_targets(arms: Seq<SwitchArm>) -> Seq<BlockId> {
    arms.map_values(|a: SwitchArm| a.target)
}

/// The blocks a terminator may branch to, in target order: a `switch_discr`
/// whose switch row is past the end has none, and its arm range is clamped
/// to the arm table.
pub open spec fn spec_successors(term: InstRow, insts: InstPool) -> Seq<BlockId> {
    match term.op {
        Op::Br => seq![BlockId(term.a)],
        Op::CondBr => seq![BlockId(term.b), BlockId(term.c)],
        Op::TryBr => seq![BlockId(term.b), BlockId(term.c)],
        Op::SwitchDiscr => if term.a < insts.switches@.len() {
            seq![insts.switches@[term.a as int].default] + arm_targets(
                clamped_slice(insts.switch_arms@, insts.switches@[term.a as int].arms),
            )
        } else {
            Seq::empty()
        },
        _ => Seq::empty(),
    }
}

pub fn successors(term: &InstRow, insts: &InstPool) -> (r: Vec<BlockId>)
    ensures
        r@ == spec_successors(*term, *insts),
{
    match term.op {
        Op::Br => {
            let mut v: Vec<BlockId> = Vec::new();
            v.push(BlockId(term.a));
            assert(v@ =~= seq![BlockId(term.a)]);
            v
        },
        Op::CondBr | Op::TryBr => {
            let mut v: Vec<BlockId> = Vec::new();
            v.push(BlockId(term.b));
            v.push(BlockId(term.c));
            assert(v@ =~= seq![BlockId(term.b), BlockId(term.c)]);
            v
        },
        Op::SwitchDiscr => {
            let k = term.a as usize;
            if k < insts.switches.len() {
                let sw = &insts.switches[k];
                let c = clamp_range(sw.arms.start..sw.arms.end, insts.switch_arms.len());
                let arms = &insts.switch_arms.as_slice()[c];
                let mut v: Vec<BlockId> = Vec::new();
                v.push(sw.default);
                let mut i: usize = 0;
                while i < arms.len()
                    invariant
                        i <= arms@.len(),
                        v@ == seq![sw.default] + arm_targets(arms@.subrange(0, i as int)),
                    decreases arms@.len() - i,
                {
                    v.push(arms[i].target);
                    proof {
                        assert(arm_targets(arms@.subrange(0, i + 1)) =~= arm_targets(arms@.subrange(0, i as int)).push(
                            arms@[i as int].target,
                        ));
                    }
                    i += 1;
                }
                assert(arms@.subrange(0, i as int) =~= arms@);
                v
            } else {
                Vec::new()
            }
        },
        _ => Vec::new(),
    }
}

// ---------------------------------------------------------------------------
// Counting distinct ids.

proof fn lemma_below_len(n: nat)
    requires
        n <= u32::MAX + 1,
    ensures
        Set::new(|x: u32| x < n).finite(),
        Set::new(|x: u32| x < n).len() == n,
    decreases n,
{
    if n == 0 {
        assert(Set::new(|x: u32| x < n) =~= Set::<u32>::empty());
    } else {
        lemma_below_len((n - 1) as nat);
        assert(Set::new(|x: u32| x < n) =~= Set::new(|x: u32| x < (n - 1) as nat).insert((n - 1) as u32));
    }
}

/// Distinct ids below `n` number at most `n`, and exactly `n` when every id
/// below `n` occurs.
proof fn lemma_distinct_below(s: Seq<u32>, n: nat)
    requires
        n <= u32::MAX + 1,
        s.no_duplicates(),
        forall|i: int| 0 <= i < s.len() ==> s[i] < n,
    ensures
        s.len() <= n,
        (forall|x: u32| x < n ==> s.contains(x)) ==> s.len() == n,
{
    s.unique_seq_to_set();
    lemma_below_len(n);
    let below = Set::new(|x: u32| x < n);
    assert(s.to_set().subset_of(below));
    lemma_len_subset(s.to_set(), below);
    if forall|x: u32| x < n ==> s.contains(x) {
        assert(s.to_set() =~= below);
    }
}

// ---------------------------------------------------------------------------
// The visit order.

/// `order` lists every id below `n` exactly once.
pub open spec fn is_permutation(order: Seq<u32>, n: nat) -> bool {
    &&& order.len() == n
    &&& order.no_duplicates()
    &&& forall|c: int| 0 <= c < order.len() ==> order[c] < n
    &&& forall|x: u32| x < n ==> order.contains(x)
}

/// `order` lists every block of a pool of `n` exactly once, starting with the
/// entry when the entry is a block of the pool.
pub open spec fn is_visit_order(order: Seq<u32>, n: nat, entry: u32) -> bool {
    &&& is_permutation(order, n)
    &&& entry < n ==> order[0] == entry
}

/// `order` with each target of `ts` that is a block of a pool of `n` and
/// not listed yet appended, in target order.
pub open spec fn push_targets(n: nat, order: Seq<u32>, ts: Seq<BlockId>) -> Seq<u32>
    decreases ts.len(),
{
    if ts.len() == 0 {
        order
    } else {
        let o = push_targets(n, order, ts.drop_last());
        let x = ts.last().0;
        if x < n && !o.contains(x) {
            o.push(x)
        } else {
            o
        }
    }
}

/// Breadth-first visiting from position `head` of the queue `order`: the
/// block there is visited and its targets queued, then the next one.
pub open spec fn bfs_from(d: DeclFmir, order: Seq<u32>, head: int, fuel: nat) -> Seq<u32>
    decreases fuel,
{
    if fuel == 0 || head < 0 || head >= order.len() {
        order
    } else {
        bfs_from(
            d,
            push_targets(d.blocks@.len(), order, spec_successors(d.blocks@[order[head] as int].term, d.insts)),
            head + 1,
            (fuel - 1) as nat,
        )
    }
}

/// `order` followed by every block below `i` it does not list, in storage
/// order.
pub open spec fn fill_unlisted(order: Seq<u32>, i: int) -> Seq<u32>
    decreases i,
{
    if i <= 0 {
        order
    } else {
        let o = fill_unlisted(order, i - 1);
        if !o.contains((i - 1) as u32) {
            o.push((i - 1) as u32)
        } else {
            o
        }
    }
}

/// The canonical visiting order, as old block ids: breadth-first from the
/// entry (when it is a block) in branch-target order, then every block the
/// entry does not reach, in storage order.
pub open spec fn spec_visit_order(d: DeclFmir) -> Seq<u32> {
    let n = d.blocks@.len();
    let start = if d.entry.0 < n {
        seq![d.entry.0]
    } else {
        Seq::<u32>::empty()
    };
    fill_unlisted(bfs_from(d, start, 0, n + 1), n as int)
}

/// The canonical visiting order, as old block ids: breadth-first from the
/// entry in branch-target order, then every block the entry does not reach,
/// in storage order.
fn block_visit_order(d: &DeclFmir) -> (order: Vec<u32>)
    requires
        d.blocks@.len() <= u32::MAX,
    ensures
        is_visit_order(order@, d.blocks@.len(), d.entry.0),
        order@ == spec_visit_order(*d),
{
    let n = d.blocks.len();
    let mut seen: Vec<bool> = Vec::new();
    let mut k: usize = 0;
    while k < n
        invariant
            k <= n,
            seen@.len() == k,
            forall|j: int| 0 <= j < k ==> !seen@[j],
        decreases n - k,
    {
        seen.push(false);
        k += 1;
    }
    let mut order: Vec<u32> = Vec::new();
    let ghost start = if d.entry.0 < n {
        seq![d.entry.0]
    } else {
        Seq::<u32>::empty()
    };
    let ghost b = bfs_from(*d, start, 0, (n + 1) as nat);
    if (d.entry.0 as usize) < n {
        order.push(d.entry.0);
        seen.set(d.entry.0 as usize, true);
        assert(order@[0] == d.entry.0);
        assert(order@.contains(d.entry.0));
        assert forall|i: int| 0 <= i < n implies seen@[i] == order@.contains(i as u32) by {
            if order@.contains(i as u32) {
                let c = choose|c: int| 0 <= c < order@.len() && order@[c] == i as u32;
                assert(c == 0);
            }
        }
    } else {
        assert forall|i: int| 0 <= i < n implies seen@[i] == order@.contains(i as u32) by {}
    }
    assert(order@ =~= start);
    let mut head: usize = 0;
    while head < order.len()
        invariant
            n == d.blocks@.len(),
            n <= u32::MAX,
            seen@.len() == n,
            head <= order@.len(),
            b == bfs_from(*d, start, 0, (n + 1) as nat),
            bfs_from(*d, order@, head as int, (n - head + 1) as nat) == b,
            order@.len() <= n,
            order@.no_duplicates(),
            forall|c: int| 0 <= c < order@.len() ==> order@[c] < n,
            forall|i: int| 0 <= i < n ==> seen@[i] == order@.contains(i as u32),
            (d.entry.0 as int) < n ==> order@.len() > 0 && order@[0] == d.entry.0,
        decreases n - head,
    {
        let id = order[head];
        let ghost o_h = order@;
        let ghost h0 = head;
        head += 1;
        let targets = successors(&d.blocks.rows[id as usize].term, &d.insts);
        proof {
            assert(d.blocks.rows@[id as int] == d.blocks@[id as int]);
            assert(push_targets(n as nat, o_h, targets@.take(0)) =~= o_h) by {
                assert(targets@.take(0).len() == 0);
            }
        }
        let mut t: usize = 0;
        while t < targets.len()
            invariant
                order@ == push_targets(n as nat, o_h, targets@.take(t as int)),
                b == bfs_from(*d, start, 0, (n + 1) as nat),
                bfs_from(*d, o_h, h0 as int, (n - h0 + 1) as nat) == b,
                h0 < o_h.len(),
                o_h[h0 as int] == id,
                head == h0 + 1,
                targets@ == spec_successors(d.blocks@[id as int].term, d.insts),
                n == d.blocks@.len(),
                n <= u32::MAX,
                seen@.len() == n,
                head <= order@.len(),
                order@.len() <= n,
                order@.no_duplicates(),
                forall|c: int| 0 <= c < order@.len() ==> order@[c] < n,
                forall|i: int| 0 <= i < n ==> seen@[i] == order@.contains(i as u32),
                (d.entry.0 as int) < n ==> order@.len() > 0 && order@[0] == d.entry.0,
                t <= targets@.len(),
            decreases targets@.len() - t,
        {
            let idx = targets[t].0;
            proof {
                assert(targets@.take(t + 1).drop_last() =~= targets@.take(t as int));
                assert(targets@.take(t + 1).last() == targets@[t as int]);
                if (idx as int) < n {
                    assert(seen@[idx as int] == order@.contains(idx));
                }
            }
            if (idx as usize) < n && !seen[idx as usize] {
                let ghost before = order@;
                order.push(idx);
                seen.set(idx as usize, true);
                proof {
                    assert(!before.contains(idx));
                    assert forall|i: int| 0 <= i < n implies seen@[i] == order@.contains(i as u32) by {
                        if i != idx as int {
                            if order@.contains(i as u32) {
                                let c = choose|c: int| 0 <= c < order@.len() && order@[c] == i as u32;
                                assert(c < before.len());
                                assert(before[c] == i as u32);
                            }
                            if before.contains(i as u32) {
                                let c = choose|c: int| 0 <= c < before.len() && before[c] == i as u32;
                                assert(order@[c] == i as u32);
                            }
                        } else {
                            assert(order@[order@.len() - 1] == idx);
                        }
                    }
                    lemma_distinct_below(order@, n as nat);
                }
            }
            t += 1;
        }
        proof {
            assert(targets@.take(t as int) =~= targets@);
            assert(o_h.len() <= n);
        }
    }
    let mut i: usize = 0;
    proof {
        assert(order@ =~= fill_unlisted(b, 0));
    }
    while i < n
        invariant
            order@ == fill_unlisted(b, i as int),
            n == d.blocks@.len(),
            n <= u32::MAX,
            seen@.len() == n,
            i <= n,
            order@.len() <= n,
            order@.no_duplicates(),
            forall|c: int| 0 <= c < order@.len() ==> order@[c] < n,
            forall|j: int| 0 <= j < n ==> seen@[j] == order@.contains(j as u32),
            forall|j: int| 0 <= j < i ==> seen@[j],
            (d.entry.0 as int) < n ==> order@.len() > 0 && order@[0] == d.entry.0,
        decreases n - i,
    {
        proof {
            assert(seen@[i as int] == order@.contains(i as u32));
        }
        if !seen[i] {
            let ghost before = order@;
            order.push(i as u32);
            seen.set(i, true);
            proof {
                assert forall|j: int| 0 <= j < n implies seen@[j] == order@.contains(j as u32) by {
                    if j != i as int {
                        if order@.contains(j as u32) {
                            let c = choose|c: int| 0 <= c < order@.len() && order@[c] == j as u32;
                            assert(c < before.len());
                            assert(before[c] == j as u32);
                        }
                        if before.contains(j as u32) {
                            let c = choose|c: int| 0 <= c < before.len() && before[c] == j as u32;
                            assert(order@[c] == j as u32);
                        }
                    } else {
                        assert(order@[order@.len() - 1] == i as u32);
                    }
                }
                lemma_distinct_below(order@, n as nat);
            }
        }
        i += 1;
    }
    proof {
        assert forall|x: u32| x < n implies order@.contains(x) by {
            assert(seen@[x as int]);
        }
        lemma_distinct_below(order@, n as nat);
    }
    order
}

/// `m` sends each block of `order` to its position: the inverse of a
/// visiting order.
pub open spec fn inverts(m: Seq<u32>, order: Seq<u32>) -> bool {
    &&& m.len() == order.len()
    &&& forall|c: int| 0 <= c < order.len() ==> m[order[c] as int] == c
}

fn invert(order: &Vec<u32>) -> (m: Vec<u32>)
    requires
        is_permutation(order@, order@.len()),
        order@.len() <= u32::MAX,
    ensures
        inverts(m@, order@),
{
    let n = order.len();
    let mut m: Vec<u32> = Vec::new();
    let mut k: usize = 0;
    while k < n
        invariant
            k <= n,
            m@.len() == k,
        decreases n - k,
    {
        m.push(0);
        k += 1;
    }
    let mut c: usize = 0;
    while c < n
        invariant
            n == order@.len(),
            n <= u32::MAX,
            is_permutation(order@, n as nat),
            m@.len() == n,
            c <= n,
            forall|j: int| 0 <= j < c ==> m@[order@[j] as int] == j,
        decreases n - c,
    {
        m.set(order[c] as usize, c as u32);
        proof {
            assert forall|j: int| 0 <= j < c + 1 implies m@[order@[j] as int] == j by {
                if j < c {
                    assert(order@[j] != order@[c as int]);
                }
            }
        }
        c += 1;
    }
    m
}

/// `old_to_canonical[old id]` is the block's position in the canonical
/// visiting order.
pub fn canonical_block_order(d: &DeclFmir) -> (r: Vec<u32>)
    requires
        d.blocks@.len() <= u32::MAX,
    ensures
        is_visit_order(spec_visit_order(*d), d.blocks@.len(), d.entry.0),
        inverts(r@, spec_visit_order(*d)),
        r@.len() == d.blocks@.len(),
        forall|i: int| 0 <= i < r@.len() ==> r@[i] < r@.len(),
        forall|i: int, j: int| 0 <= i < j < r@.len() ==> r@[i] != r@[j],
        d.entry.0 < d.blocks@.len() ==> r@[d.entry.0 as int] == 0,
{
    let order = block_visit_order(d);
    let m = invert(&order);
    proof {
        lemma_inverse_is_permutation(m@, order@, d.entry.0);
    }
    m
}

proof fn lemma_inverse_is_permutation(m: Seq<u32>, order: Seq<u32>, entry: u32)
    requires
        order.len() <= u32::MAX,
        is_visit_order(order, order.len(), entry),
        inverts(m, order),
    ensures
        forall|i: int| 0 <= i < m.len() ==> m[i] < m.len(),
        forall|i: int, j: int| 0 <= i < j < m.len() ==> m[i] != m[j],
        forall|i: int| 0 <= i < m.len() ==> order[m[i] as int] == i,
        entry < m.len() ==> m[entry as int] == 0,
{
    assert forall|i: int| 0 <= i < m.len() implies m[i] < m.len() && order[m[i] as int] == i by {
        assert(order.contains(i as u32));
        let c = choose|c: int| 0 <= c < order.len() && order[c] == i as u32;
        assert(m[order[c] as int] == c);
    }
    assert forall|i: int, j: int| 0 <= i < j < m.len() implies m[i] != m[j] by {
        assert(order[m[i] as int] == i);
        assert(order[m[j] as int] == j);
    }
}

// ---------------------------------------------------------------------------
// Renumbering.

/// A raw block id carried in data, renumbered: ids past the end of the map
/// stay as they are.
pub open spec fn remap(m: Seq<u32>, raw: u32) -> u32 {
    if raw < m.len() {
        m[raw as int]
    } else {
        raw
    }
}

pub fn safe_remap(old_to_canonical: &[u32], raw: u32) -> (r: u32)
    ensures
        r == remap(old_to_canonical@, raw),
{
    if (raw as usize) < old_to_canonical.len() {
        old_to_canonical[raw as usize]
    } else {
        raw
    }
}

/// A terminator with its block targets renumbered: `br`'s `a`, and
/// `cond_br`'s and `try_br`'s `b` and `c`. A `switch_discr`'s targets live in
/// the switch tables and are renumbered there.
pub open spec fn relabel_term(row: InstRow, m: Seq<u32>) -> InstRow {
    match row.op {
        Op::Br => InstRow { a: remap(m, row.a), ..row },
        Op::CondBr => InstRow { b: remap(m, row.b), c: remap(m, row.c), ..row },
        Op::TryBr => InstRow { b: remap(m, row.b), c: remap(m, row.c), ..row },
        _ => row,
    }
}

pub fn remap_terminator(row: InstRow, old_to_canonical: &[u32]) -> (r: InstRow)
    ensures
        r == relabel_term(row, old_to_canonical@),
{
    let mut row = row;
    match row.op {
        Op::Br => {
            row.a = safe_remap(old_to_canonical, row.a);
        },
        Op::CondBr | Op::TryBr => {
            row.b = safe_remap(old_to_canonical, row.b);
            row.c = safe_remap(old_to_canonical, row.c);
        },
        _ => {},
    }
    row
}

/// `out` is `d` with its blocks stored in `order` and every block id its data
/// carries renumbered by `m`; nothing else changes.
pub open spec fn relabeled(d: DeclFmir, out: DeclFmir, order: Seq<u32>, m: Seq<u32>) -> bool {
    &&& out.blocks@.len() == d.blocks@.len()
    &&& forall|c: int| 0 <= c < out.blocks@.len() ==> #[trigger] out.blocks@[c] == (BlockRow {
        term: relabel_term(d.blocks@[order[c] as int].term, m),
        ..d.blocks@[order[c] as int]
    })
    &&& out.entry == BlockId(remap(m, d.entry.0))
    &&& out.insts.switches@.len() == d.insts.switches@.len()
    &&& forall|k: int| 0 <= k < out.insts.switches@.len() ==> #[trigger] out.insts.switches@[k] == (SwitchRow {
        default: BlockId(remap(m, d.insts.switches@[k].default.0)),
        ..d.insts.switches@[k]
    })
    &&& out.insts.switch_arms@.len() == d.insts.switch_arms@.len()
    &&& forall|k: int| 0 <= k < out.insts.switch_arms@.len() ==> #[trigger] out.insts.switch_arms@[k] == (SwitchArm {
        target: BlockId(remap(m, d.insts.switch_arms@[k].target.0)),
        ..d.insts.switch_arms@[k]
    })
    &&& out.defers@.len() == d.defers@.len()
    &&& forall|k: int| 0 <= k < out.defers@.len() ==> #[trigger] out.defers@[k] == (DeferRow {
        body: BlockId(remap(m, d.defers@[k].body.0)),
        ..d.defers@[k]
    })
    &&& out.decl == d.decl
    &&& out.sig == d.sig
    &&& out.is_unsafe_invariant == d.is_unsafe_invariant
    &&& out.fingerprint == d.fingerprint
    &&& out.vals == d.vals
    &&& out.places == d.places
    &&& out.insts@ == d.insts@
    &&& out.insts.aliases == d.insts.aliases
    &&& out.insts.operands == d.insts.operands
    &&& out.insts.arg_convs == d.insts.arg_convs
    &&& out.insts.calls == d.insts.calls
    &&& out.insts.reduces == d.insts.reduces
    &&& out.scopes == d.scopes
    &&& out.regions == d.regions
    &&& out.sites == d.sites
    &&& out.consts == d.consts
    &&& out.obligations == d.obligations
    &&& out.scoped_sources == d.scoped_sources
}

/// The declaration with its blocks stored in the canonical visiting order,
/// so that the entry is block 0, and every block id its data carries
/// renumbered to match; every other field is left as it is. Encoding this
/// form is what makes the content hash independent of the original block
/// numbering.
pub fn canonicalize(d: DeclFmir) -> (out: DeclFmir)
    requires
        d.blocks@.len() <= u32::MAX,
    ensures
        is_visit_order(spec_visit_order(d), d.blocks@.len(), d.entry.0),
        exists|m: Seq<u32>| inverts(m, spec_visit_order(d)) && relabeled(d, out, spec_visit_order(d), m),
        d.entry.0 < d.blocks@.len() ==> out.entry == BlockId(0),
{
    let order = block_visit_order(&d);
    let m = invert(&order);
    proof {
        lemma_inverse_is_permutation(m@, order@, d.entry.0);
    }
    let ghost d0 = d;
    let n = order.len();
    let mut blocks = BlockPool::new();
    let mut c: usize = 0;
    while c < n
        invariant
            n == order@.len(),
            n == d.blocks@.len(),
            d == d0,
            is_visit_order(order@, n as nat, d.entry.0),
            c <= n,
            blocks@.len() == c,
            forall|j: int| 0 <= j < c ==> #[trigger] blocks@[j] == (BlockRow {
                term: relabel_term(d.blocks@[order@[j] as int].term, m@),
                ..d.blocks@[order@[j] as int]
            }),
        decreases n - c,
    {
        let row = d.blocks.rows[order[c] as usize];
        let term = remap_terminator(row.term, m.as_slice());
        blocks.push(BlockRow { term, ..row });
        c += 1;
    }
    let entry = BlockId(safe_remap(m.as_slice(), d.entry.0));
    let DeclFmir {
        decl,
        sig,
        vals,
        blocks: _,
        insts,
        scopes,
        places,
        regions,
        sites,
        consts,
        obligations,
        scoped_sources,
        defers,
        entry: _,
        is_unsafe_invariant,
        fingerprint,
    } = d;
    let InstPool { rows, aliases, operands, arg_convs, calls, reduces, mut switches, mut switch_arms } = insts;
    let mut k: usize = 0;
    while k < switches.len()
        invariant
            k <= switches@.len(),
            switches@.len() == d0.insts.switches@.len(),
            forall|j: int| 0 <= j < k ==> #[trigger] switches@[j] == (SwitchRow {
                default: BlockId(remap(m@, d0.insts.switches@[j].default.0)),
                ..d0.insts.switches@[j]
            }),
            forall|j: int| k <= j < switches@.len() ==> #[trigger] switches@[j] == d0.insts.switches@[j],
        decreases switches@.len() - k,
    {
        let mut sw = switches[k].clone();
        sw.default = BlockId(safe_remap(m.as_slice(), sw.default.0));
        switches.set(k, sw);
        k += 1;
    }
    let mut k: usize = 0;
    while k < switch_arms.len()
        invariant
            k <= switch_arms@.len(),
            switch_arms@.len() == d0.insts.switch_arms@.len(),
            forall|j: int| 0 <= j < k ==> #[trigger] switch_arms@[j] == (SwitchArm {
                target: BlockId(remap(m@, d0.insts.switch_arms@[j].target.0)),
                ..d0.insts.switch_arms@[j]
            }),
            forall|j: int| k <= j < switch_arms@.len() ==> #[trigger] switch_arms@[j] == d0.insts.switch_arms@[j],
        decreases switch_arms@.len() - k,
    {
        let mut arm = switch_arms[k];
        arm.target = BlockId(safe_remap(m.as_slice(), arm.target.0));
        switch_arms.set(k, arm);
        k += 1;
    }
    let old_defers = defers.as_slice();
    let mut new_defers: Vec<DeferRow> = Vec::new();
    let mut k: usize = 0;
    while k < old_defers.len()
        invariant
            old_defers@ == d0.defers@,
            k <= old_defers@.len(),
            new_defers@.len() == k,
            forall|j: int| 0 <= j < k ==> #[trigger] new_defers@[j] == (DeferRow {
                body: BlockId(remap(m@, d0.defers@[j].body.0)),
                ..d0.defers@[j]
            }),
        decreases old_defers@.len() - k,
    {
        let mut row = old_defers[k];
        row.body = BlockId(safe_remap(m.as_slice(), row.body.0));
        new_defers.push(row);
        k += 1;
    }
    let out = DeclFmir {
        decl,
        sig,
        vals,
        blocks,
        insts: InstPool { rows, aliases, operands, arg_convs, calls, reduces, switches, switch_arms },
        scopes,
        places,
        regions,
        sites,
        consts,
        obligations,
        scoped_sources,
        defers: DeferPool::from_rows(new_defers),
        entry,
        is_unsafe_invariant,
        fingerprint,
    };
    assert(relabeled(d0, out, order@, m@));
    out
}

} // verus!
