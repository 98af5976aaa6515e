//! Line diff and text edits: what a formatting check reports and what an
//! editor is sent back for a formatting request.
//!
//! Line-granular Myers over 64-bit line hashes, with a bounded edit
//! distance. Past the bound the whole differing region becomes one edit,
//! which is still correct, just coarser.

use vstd::prelude::*;

verus! {

/// A replacement of `source[start..end]` by `new_text`. Offsets are into the
/// original buffer and edits never overlap, so a consumer may apply them in
/// any order as long as it applies them from the back.
#[derive(Clone, Debug, PartialEq, Eq)]
pub struct TextEdit {
    pub start: u32,
    pub end: u32,
    pub new_text: Vec<u8>,
}

/// An edit as plain values: `(start, end, new_text)`.
pub type EditView = (int, int, Seq<u8>);

impl TextEdit {
    pub open spec fn view_of(self) -> EditView {
        (self.start as int, self.end as int, self.new_text@)
    }
}

pub open spec fn edits_view(es: Seq<TextEdit>) -> Seq<EditView> {
    es.map_values(|e: TextEdit| e.view_of())
}

// ---------------------------------------------------------------------------
// Lines
// ---------------------------------------------------------------------------

/// One past each newline of `src[0..k]`, in order.
pub open spec fn nl_ends(src: Seq<u8>, k: int) -> Seq<usize>
    decreases k,
{
    if k <= 0 {
        Seq::empty()
    } else if src[k - 1] == 10u8 {
        nl_ends(src, k - 1).push(k as usize)
    } else {
        nl_ends(src, k - 1)
    }
}

/// The start of each line plus a final entry equal to the length: line `i`
/// is `src[starts[i]..starts[i + 1]]`, terminator included. A buffer that
/// ends with a newline has no empty trailing line.
pub open spec fn spec_line_starts(src: Seq<u8>) -> Seq<usize> {
    let v = seq![0usize] + nl_ends(src, src.len() as int);
    if v.last() != src.len() {
        v.push(src.len() as usize)
    } else {
        v
    }
}

/// Strictly increasing, from 0 to the length of `src`.
pub open spec fn starts_ok(starts: Seq<usize>, len: int) -> bool {
    &&& starts.len() >= 1
    &&& starts[0] == 0
    &&& starts.last() == len
    &&& forall|i: int, j: int| 0 <= i < j < starts.len() ==> starts[i] < starts[j]
}

proof fn lemma_nl_ends(src: Seq<u8>, k: int)
    requires
        0 <= k <= src.len(),
        src.len() <= usize::MAX,
    ensures
        forall|i: int| 0 <= i < nl_ends(src, k).len() ==> 1 <= #[trigger] nl_ends(src, k)[i] <= k,
        forall|i: int, j: int|
            0 <= i < j < nl_ends(src, k).len() ==> nl_ends(src, k)[i] < nl_ends(src, k)[j],
    decreases k,
{
    if k > 0 {
        lemma_nl_ends(src, k - 1);
        let p = nl_ends(src, k - 1);
        if src[k - 1] == 10u8 {
            assert(nl_ends(src, k) == p.push(k as usize));
            assert forall|i: int| 0 <= i < p.len() implies #[trigger] p.push(k as usize)[i] == p[i] by {}
        } else {
            assert(nl_ends(src, k) == p);
        }
    }
}

pub proof fn lemma_line_starts_ok(src: Seq<u8>)
    requires
        src.len() <= usize::MAX,
    ensures
        starts_ok(spec_line_starts(src), src.len() as int),
{
    lemma_nl_ends(src, src.len() as int);
    let e = nl_ends(src, src.len() as int);
    let v = seq![0usize] + e;
    assert(v[0] == 0);
    assert forall|i: int, j: int| 0 <= i < j < v.len() implies v[i] < v[j] by {
        if i > 0 {
            assert(v[i] == e[i - 1]);
        }
        assert(v[j] == e[j - 1]);
    }
    assert forall|i: int| 0 <= i < v.len() implies v[i] <= src.len() by {
        if i > 0 {
            assert(v[i] == e[i - 1]);
        }
    }
}

fn line_starts(src: &[u8]) -> (r: Vec<usize>)
    ensures
        r@ == spec_line_starts(src@),
{
    let mut v: Vec<usize> = Vec::new();
    v.push(0);
    let mut i: usize = 0;
    while i < src.len()
        invariant
            i <= src@.len(),
            v@ == seq![0usize] + nl_ends(src@, i as int),
        decreases src@.len() - i,
    {
        if src[i] == 10u8 {
            v.push(i + 1);
        }
        i = i + 1;
        assert(v@ =~= seq![0usize] + nl_ends(src@, i as int));
    }
    if v[v.len() - 1] != src.len() {
        v.push(src.len());
    }
    v
}

/// Line `i` of a buffer split at `starts`.
pub open spec fn line_of(src: Seq<u8>, starts: Seq<usize>, i: int) -> Seq<u8> {
    src.subrange(starts[i] as int, starts[i + 1] as int)
}

/// 64-bit FNV-1a.
pub open spec fn fnv(t: Seq<u8>) -> u64
    decreases t.len(),
{
    if t.len() == 0 {
        0xcbf2_9ce4_8422_2325u64
    } else {
        (fnv(t.drop_last()) ^ (t.last() as u64)).wrapping_mul(0x0000_0100_0000_01b3u64)
    }
}

fn hashes(src: &[u8], starts: &[usize]) -> (r: Vec<u64>)
    requires
        starts_ok(starts@, src@.len() as int),
    ensures
        r@.len() == starts@.len() - 1,
        forall|i: int| 0 <= i < r@.len() ==> r@[i] == fnv(line_of(src@, starts@, i)),
{
    let mut v: Vec<u64> = Vec::new();
    let mut w: usize = 0;
    while w < starts.len() - 1
        invariant
            starts_ok(starts@, src@.len() as int),
            w + 1 <= starts@.len(),
            v@.len() == w,
            forall|i: int| 0 <= i < w ==> v@[i] == fnv(line_of(src@, starts@, i)),
        decreases starts@.len() - w,
    {
        let lo = starts[w];
        let hi = starts[w + 1];
        assert(starts@[w + 1] <= starts@.last()) by {
            if w + 1 < starts@.len() - 1 {
                assert(starts@[w + 1] < starts@[starts@.len() - 1]);
            }
        }
        let mut h: u64 = 0xcbf2_9ce4_8422_2325u64;
        let mut j: usize = lo;
        while j < hi
            invariant
                lo <= j <= hi,
                hi <= src@.len(),
                h == fnv(src@.subrange(lo as int, j as int)),
            decreases hi - j,
        {
            assert(src@.subrange(lo as int, j + 1).drop_last() =~= src@.subrange(lo as int, j as int));
            h = (h ^ (src[j] as u64)).wrapping_mul(0x0000_0100_0000_01b3u64);
            j = j + 1;
        }
        v.push(h);
        w = w + 1;
    }
    v
}

// ---------------------------------------------------------------------------
// Matched lines
// ---------------------------------------------------------------------------

/// Matched line pairs: in range, equal hashes, strictly increasing on both
/// sides.
pub open spec fn pairs_ok(p: Seq<(usize, usize)>, a: Seq<u64>, b: Seq<u64>) -> bool {
    &&& forall|i: int|
        #![trigger p[i]]
        0 <= i < p.len() ==> p[i].0 < a.len() && p[i].1 < b.len() && a[p[i].0 as int] == b[p[i].1 as int]
    &&& forall|i: int, j: int| 0 <= i < j < p.len() ==> p[i].0 < p[j].0 && p[i].1 < p[j].1
}

fn check_pairs(p: &Vec<(usize, usize)>, a: &[u64], b: &[u64]) -> (r: bool)
    ensures
        r == pairs_ok(p@, a@, b@),
{
    let mut i: usize = 0;
    while i < p.len()
        invariant
            i <= p@.len(),
            pairs_ok(p@.subrange(0, i as int), a@, b@),
        decreases p@.len() - i,
    {
        let (x, y) = p[i];
        if !(x < a.len() && y < b.len()) {
            assert(!pairs_ok(p@, a@, b@)) by {
                assert(p@[i as int] == (x, y));
            }
            return false;
        }
        if a[x] != b[y] {
            assert(!pairs_ok(p@, a@, b@)) by {
                assert(p@[i as int] == (x, y));
            }
            return false;
        }
        if i > 0 && !(p[i - 1].0 < x && p[i - 1].1 < y) {
            assert(!pairs_ok(p@, a@, b@)) by {
                assert(p@[i as int] == (x, y));
                assert(p@[i - 1] == p@[i - 1]);
            }
            return false;
        }
        proof {
            let q = p@.subrange(0, i + 1);
            assert forall|s: int, t: int| 0 <= s < t < q.len() implies q[s].0 < q[t].0 && q[s].1
                < q[t].1 by {
                if t < i {
                    assert(q[s] == p@.subrange(0, i as int)[s]);
                    assert(q[t] == p@.subrange(0, i as int)[t]);
                } else if s < i - 1 {
                    assert(q[s] == p@.subrange(0, i as int)[s]);
                    assert(q[i - 1] == p@.subrange(0, i as int)[i - 1]);
                }
            }
            assert forall|s: int| #![trigger q[s]] 0 <= s < q.len() implies q[s].0 < a@.len()
                && q[s].1 < b@.len() && a@[q[s].0 as int] == b@[q[s].1 as int] by {
                if s < i {
                    assert(q[s] == p@.subrange(0, i as int)[s]);
                }
            }
        }
        i = i + 1;
    }
    assert(p@.subrange(0, i as int) =~= p@);
    true
}

// ---------------------------------------------------------------------------
// Edits from matched lines
// ---------------------------------------------------------------------------

/// The edit replacing old lines `ai..aj` by new lines `bi..bj`, if that run
/// is not empty on both sides.
pub open spec fn flush(
    oa: Seq<usize>,
    nb: Seq<usize>,
    new: Seq<u8>,
    ai: int,
    aj: int,
    bi: int,
    bj: int,
) -> Seq<EditView> {
    if ai == aj && bi == bj {
        Seq::empty()
    } else {
        seq![
            (
                (oa[ai] as u32) as int,
                (oa[aj] as u32) as int,
                new.subrange(nb[bi] as int, nb[bj] as int),
            ),
        ]
    }
}

/// The edits for the first `k` matched pairs, and the line positions after
/// them.
pub open spec fn edits_upto(
    oa: Seq<usize>,
    nb: Seq<usize>,
    new: Seq<u8>,
    pairs: Seq<(usize, usize)>,
    k: int,
) -> (Seq<EditView>, int, int)
    decreases k,
{
    if k <= 0 {
        (Seq::empty(), 0, 0)
    } else {
        let (es, ai, bi) = edits_upto(oa, nb, new, pairs, k - 1);
        let (x, y) = pairs[k - 1];
        (es + flush(oa, nb, new, ai, x as int, bi, y as int), x + 1, y + 1)
    }
}

/// One edit per changed run of lines between the matched pairs.
pub open spec fn spec_edits(
    oa: Seq<usize>,
    nb: Seq<usize>,
    new: Seq<u8>,
    pairs: Seq<(usize, usize)>,
) -> Seq<EditView> {
    let (es, ai, bi) = edits_upto(oa, nb, new, pairs, pairs.len() as int);
    es + flush(oa, nb, new, ai, oa.len() - 1, bi, nb.len() - 1)
}

fn push_flush(
    edits: &mut Vec<TextEdit>,
    oa: &Vec<usize>,
    nb: &Vec<usize>,
    new: &[u8],
    ai: usize,
    aj: usize,
    bi: usize,
    bj: usize,
)
    requires
        ai < oa@.len(),
        aj < oa@.len(),
        bi <= bj < nb@.len(),
        nb@[bi as int] <= nb@[bj as int] <= new@.len(),
    ensures
        edits_view(final(edits)@) == edits_view(old(edits)@) + flush(
            oa@,
            nb@,
            new@,
            ai as int,
            aj as int,
            bi as int,
            bj as int,
        ),
{
    if ai == aj && bi == bj {
        assert(edits_view(edits@) =~= edits_view(edits@) + Seq::<EditView>::empty());
        return ;
    }
    let lo = nb[bi];
    let hi = nb[bj];
    let mut text: Vec<u8> = Vec::new();
    let mut j: usize = lo;
    while j < hi
        invariant
            lo <= j <= hi,
            hi <= new@.len(),
            text@ == new@.subrange(lo as int, j as int),
        decreases hi - j,
    {
        text.push(new[j]);
        j = j + 1;
        assert(text@ =~= new@.subrange(lo as int, j as int));
    }
    let ghost before = edits@;
    edits.push(TextEdit { start: oa[ai] as u32, end: oa[aj] as u32, new_text: text });
    assert(edits_view(edits@) =~= edits_view(before) + flush(
        oa@,
        nb@,
        new@,
        ai as int,
        aj as int,
        bi as int,
        bj as int,
    ));
}

/// The edits that matched pairs leave: one per changed run of lines.
fn edits_from_pairs(
    oa: &Vec<usize>,
    nb: &Vec<usize>,
    new: &[u8],
    pairs: &Vec<(usize, usize)>,
    a_hashes: &Vec<u64>,
    b_hashes: &Vec<u64>,
) -> (r: Vec<TextEdit>)
    requires
        oa@.len() == a_hashes@.len() + 1,
        starts_ok(nb@, new@.len() as int),
        nb@.len() == b_hashes@.len() + 1,
        pairs_ok(pairs@, a_hashes@, b_hashes@),
    ensures
        edits_view(r@) == spec_edits(oa@, nb@, new@, pairs@),
{
    let mut edits: Vec<TextEdit> = Vec::new();
    let mut ai: usize = 0;
    let mut bi: usize = 0;
    let mut k: usize = 0;
    proof {
        assert(edits_view(edits@) =~= Seq::<EditView>::empty());
    }
    while k < pairs.len()
        invariant
            k <= pairs@.len(),
            oa@.len() == a_hashes@.len() + 1,
            starts_ok(nb@, new@.len() as int),
            nb@.len() == b_hashes@.len() + 1,
            pairs_ok(pairs@, a_hashes@, b_hashes@),
            (edits_view(edits@), ai as int, bi as int) == edits_upto(
                oa@,
                nb@,
                new@,
                pairs@,
                k as int,
            ),
            k > 0 ==> ai == pairs@[k - 1].0 + 1 && bi == pairs@[k - 1].1 + 1,
            k == 0 ==> ai == 0 && bi == 0,
        decreases pairs@.len() - k,
    {
        let (x, y) = pairs[k];
        proof {
            assert(pairs@[k as int] == (x, y));
            assert(x < a_hashes.len());
            assert(y < b_hashes.len());
            if k > 0 {
                assert(pairs@[k - 1].0 < pairs@[k as int].0);
            }
            assert(nb@[bi as int] <= nb@[y as int] <= new@.len()) by {
                if bi < y {
                    assert(nb@[bi as int] < nb@[y as int]);
                }
                if y < nb@.len() - 1 {
                    assert(nb@[y as int] < nb@[nb@.len() - 1]);
                }
            }
        }
        push_flush(&mut edits, oa, nb, new, ai, x, bi, y);
        ai = x + 1;
        bi = y + 1;
        k = k + 1;
    }
    let n = oa.len() - 1;
    let m = nb.len() - 1;
    proof {
        assert(nb@[bi as int] <= nb@[m as int] <= new@.len()) by {
            if bi < m {
                assert(nb@[bi as int] < nb@[m as int]);
            }
        }
    }
    push_flush(&mut edits, oa, nb, new, ai, n, bi, m);
    edits
}

// ---------------------------------------------------------------------------
// Myers
// ---------------------------------------------------------------------------

/// How far a run of equal lines on diagonal `k` (where `y == x - k`)
/// reaches from `x`.
pub open spec fn snake(a: Seq<u64>, b: Seq<u64>, x: int, k: int) -> int
    decreases a.len() - x,
{
    if 0 <= x < a.len() && 0 <= x - k < b.len() && a[x] == b[x - k] {
        snake(a, b, x + 1, k)
    } else {
        x
    }
}

/// Where round `d` starts on diagonal `k`: one line further down from
/// diagonal `k + 1`, or one further across from `k - 1`, whichever reached
/// further in the round before.
pub open spec fn start_x(v: Seq<isize>, off: int, d: int, k: int) -> int {
    if k == -d || (k != d && v[k + off - 1] < v[k + off + 1]) {
        v[k + off + 1] as int
    } else {
        v[k + off - 1] + 1
    }
}

/// Round `d` of the search from diagonal `k` on: the furthest points after
/// it, and whether one of them reached the end of both sequences.
pub open spec fn myers_round(a: Seq<u64>, b: Seq<u64>, v: Seq<isize>, off: int, d: int, k: int) -> (Seq<isize>, bool)
    decreases d + 2 - k,
{
    if k > d {
        (v, false)
    } else {
        let x = snake(a, b, start_x(v, off, d, k), k);
        let v2 = v.update(k + off, x as isize);
        if x >= a.len() && x - k >= b.len() {
            (v2, true)
        } else {
            myers_round(a, b, v2, off, d, k + 2)
        }
    }
}

/// Rounds `d..=upper` of the search: the trace of windows and the round
/// that reached the end, if one did.
pub open spec fn myers_rounds(
    a: Seq<u64>,
    b: Seq<u64>,
    v: Seq<isize>,
    trace: Seq<Seq<isize>>,
    off: int,
    d: int,
    upper: int,
) -> Option<(Seq<Seq<isize>>, int)>
    decreases upper + 1 - d,
{
    if d > upper || d < 0 {
        None
    } else {
        let t2 = trace.push(v.subrange(off - d, off + d + 1));
        let (v2, found) = myers_round(a, b, v, off, d, -d);
        if found {
            Some((t2, d))
        } else {
            myers_rounds(a, b, v2, t2, off, d + 1, upper)
        }
    }
}

/// `vv[k + ddi]`, or 0 outside the window.
pub open spec fn window_spec(vv: Seq<isize>, ddi: int, k: int) -> int {
    if 0 <= k + ddi < vv.len() {
        vv[k + ddi] as int
    } else {
        0
    }
}

/// Walks a diagonal back from `(px, py)` to just past `(prev_x, prev_y)`,
/// collecting each matched pair.
pub open spec fn walk_back(px: int, py: int, prev_x: int, prev_y: int, pairs: Seq<(usize, usize)>) -> (int, int, Seq<(usize, usize)>)
    decreases px - prev_x,
{
    if px > prev_x && py > prev_y {
        walk_back(px - 1, py - 1, prev_x, prev_y, pairs.push(((px - 1) as usize, (py - 1) as usize)))
    } else {
        (px, py, pairs)
    }
}

/// The point each round's path came from, and the pairs on the way, from
/// round `dd - 1` down to round 0.
pub open spec fn back_from(trace: Seq<Seq<isize>>, dd: int, px: int, py: int, pairs: Seq<(usize, usize)>) -> Seq<(usize, usize)>
    decreases dd,
{
    if dd <= 0 {
        pairs
    } else {
        let e = dd - 1;
        let vv = trace[e];
        let kk = px - py;
        let prev_k = if kk == -e || (kk != e && window_spec(vv, e, kk - 1) < window_spec(vv, e, kk + 1)) {
            kk + 1
        } else {
            kk - 1
        };
        let prev_x = window_spec(vv, e, prev_k);
        let prev_y = prev_x - prev_k;
        let (_x, _y, p2) = walk_back(px, py, prev_x, prev_y, pairs);
        back_from(trace, e, prev_x, prev_y, p2)
    }
}

/// The matched pairs read back from the trace of a search that ended in
/// round `d`, in increasing order.
pub open spec fn backtrack_spec(trace: Seq<Seq<isize>>, n: int, m: int, d: int) -> Seq<(usize, usize)> {
    back_from(trace, d + 1, n, m, Seq::empty()).reverse()
}

/// The outcome of the bounded line search: the matched pairs along the
/// path it finds within `max_d` rounds, or `None`.
pub open spec fn myers_spec(a: Seq<u64>, b: Seq<u64>, max_d: int) -> Option<Seq<(usize, usize)>> {
    let max: int = (a.len() + b.len()) as int;
    let upper = if max < max_d {
        max
    } else {
        max_d
    };
    match myers_rounds(a, b, Seq::new((2 * max + 2) as nat, |j: int| 0isize), Seq::empty(), max, 0, upper) {
        Some(td) => Some(backtrack_spec(td.0, a.len() as int, b.len() as int, td.1)),
        None => None,
    }
}

/// `vv[k + ddi]`, or 0 outside the window.
fn window_at(vv: &Vec<isize>, ddi: isize, k: isize) -> (r: isize)
    requires
        k + ddi <= isize::MAX,
        k + ddi >= isize::MIN,
    ensures
        r == if 0 <= k + ddi < vv@.len() {
            vv@[k + ddi]
        } else {
            0
        },
        r as int == window_spec(vv@, ddi as int, k as int),
{
    let i = k + ddi;
    if i < 0 || i as usize >= vv.len() {
        0
    } else {
        vv[i as usize]
    }
}

/// Matched line pairs `(a_index, b_index)`, in increasing order, along a
/// shortest edit script of at most `max_d` edits; `None` past that bound.
/// The trace keeps only the `2d + 1` diagonals round `d` can touch.
#[verifier::rlimit(60)]
fn myers(a: &[u64], b: &[u64], max_d: usize) -> (r: Option<Vec<(usize, usize)>>)
    requires
        (a@.len() + b@.len()) * 4 + 8 <= isize::MAX,
    ensures
        match r {
            Some(p) => myers_spec(a@, b@, max_d as int) == Some(p@),
            None => myers_spec(a@, b@, max_d as int) is None,
        },
{
    let n = a.len();
    let m = b.len();
    let max = n + m;
    let offset = max as isize;
    let ghost bound: int = n + max + 1;
    let mut v: Vec<isize> = Vec::new();
    let mut z: usize = 0;
    while z < 2 * max + 2
        invariant
            z <= 2 * max + 2,
            max == n + m,
            (n + m) * 4 + 8 <= isize::MAX,
            v@.len() == z,
            forall|j: int| 0 <= j < z ==> v@[j] == 0,
        decreases 2 * max + 2 - z,
    {
        v.push(0);
        z = z + 1;
    }
    let mut trace: Vec<Vec<isize>> = Vec::new();
    let upper = if max < max_d {
        max
    } else {
        max_d
    };
    proof {
        assert(v@ =~= Seq::new((2 * max + 2) as nat, |j: int| 0isize));
        assert(trace_view(trace@) =~= Seq::<Seq<isize>>::empty());
    }
    let ghost rr = myers_rounds(a@, b@, v@, trace_view(trace@), offset as int, 0, upper as int);
    let mut d: usize = 0;
    while d <= upper
        invariant
            rr == myers_rounds(a@, b@, Seq::new((2 * max + 2) as nat, |j: int| 0isize), Seq::empty(), max as int, 0, upper as int),
            myers_rounds(a@, b@, v@, trace_view(trace@), offset as int, d as int, upper as int) == rr,
            upper == (if max < max_d { max } else { max_d }),
            n == a@.len(),
            m == b@.len(),
            max == n + m,
            offset == max,
            (n + m) * 4 + 8 <= isize::MAX,
            upper <= max,
            d <= upper + 1,
            v@.len() == 2 * max + 2,
            forall|j: int| 0 <= j < v@.len() ==> 0 <= #[trigger] v@[j] <= n + d,
            trace@.len() == d,
            forall|r: int, j: int|
                0 <= r < d && 0 <= j < trace@[r]@.len() ==> 0 <= #[trigger] trace@[r]@[j] <= n + r,
        decreases upper + 1 - d,
    {
        // the window of diagonals -d..=d as it stands at the start of round d
        let mut w: Vec<isize> = Vec::new();
        let lo = max - d;
        let hi = max + d;
        let mut j = lo;
        while j <= hi
            invariant
                lo <= j <= hi + 1,
                hi <= 2 * max,
                max == n + m,
                (n + m) * 4 + 8 <= isize::MAX,
                v@.len() == 2 * max + 2,
                w@.len() == j - lo,
                w@ == v@.subrange(lo as int, j as int),
                forall|q: int| 0 <= q < v@.len() ==> 0 <= #[trigger] v@[q] <= n + d,
                forall|q: int| 0 <= q < w@.len() ==> 0 <= #[trigger] w@[q] <= n + d,
            decreases hi + 1 - j,
        {
            w.push(v[j]);
            j = j + 1;
        }
        let ghost old_trace = trace@;
        let ghost v_d = v@;
        proof {
            assert(w@ == v@.subrange(offset - d, offset + d + 1));
        }
        trace.push(w);
        proof {
            assert(trace_view(trace@) =~= trace_view(old_trace).push(v_d.subrange(offset - d, offset + d + 1)));
        }
        proof {
            assert forall|r: int, q: int|
                0 <= r < d + 1 && 0 <= q < trace@[r]@.len() implies 0 <= #[trigger] trace@[r]@[q]
                <= n + r by {
                if r < d {
                    assert(trace@[r] == old_trace[r]);
                }
            }
        }
        let di = d as isize;
        let mut k: isize = -di;
        while k <= di
            invariant
                myers_round(a@, b@, v@, offset as int, d as int, k as int) == myers_round(a@, b@, v_d, offset as int, d as int, -(d as int)),
                myers_rounds(a@, b@, v_d, trace_view(old_trace), offset as int, d as int, upper as int) == rr,
                trace_view(trace@) == trace_view(old_trace).push(v_d.subrange(offset - d, offset + d + 1)),
                d <= upper,
                rr == myers_rounds(a@, b@, Seq::new((2 * max + 2) as nat, |j: int| 0isize), Seq::empty(), max as int, 0, upper as int),
                upper == (if max < max_d { max } else { max_d }),
                n == a@.len(),
                m == b@.len(),
                max == n + m,
                offset == max,
                (n + m) * 4 + 8 <= isize::MAX,
                d <= upper <= max,
                di == d,
                -di <= k <= di + 2,
                (k + di) % 2 == 0,
                v@.len() == 2 * max + 2,
                forall|q: int|
                    0 <= q < v@.len() ==> 0 <= #[trigger] v@[q] <= if (q - offset + d) % 2 == 0 {
                        n + d + 1
                    } else {
                        n + d
                    },
                trace@.len() == d + 1,
                forall|r: int, q: int|
                    0 <= r < d + 1 && 0 <= q < trace@[r]@.len() ==> 0 <= #[trigger] trace@[r]@[q]
                        <= n + r,
            decreases di + 2 - k,
        {
            let idx = (k + offset) as usize;
            let mut x: isize = if k == -di || (k != di && v[idx - 1] < v[idx + 1]) {
                v[idx + 1]
            } else {
                v[idx - 1] + 1
            };
            let mut y: isize = x - k;
            let ghost x0 = x as int;
            proof {
                assert(x0 == start_x(v@, offset as int, d as int, k as int));
            }
            while x < n as isize && y >= 0 && y < m as isize && a[x as usize] == b[y as usize]
                invariant
                    snake(a@, b@, x as int, k as int) == snake(a@, b@, x0, k as int),
                    0 <= x <= n + d + 1,
                    y == x - k,
                    -di <= k <= di,
                    d <= max,
                    n == a@.len(),
                    m == b@.len(),
                    (n + m) * 4 + 8 <= isize::MAX,
                decreases n - x,
            {
                x = x + 1;
                y = y + 1;
            }
            let ghost v_pre = v@;
            proof {
                assert(snake(a@, b@, x as int, k as int) == x as int);
                assert(snake(a@, b@, start_x(v_pre, offset as int, d as int, k as int), k as int) == x as int);
            }
            v.set(idx, x);
            if x >= n as isize && y >= m as isize {
                proof {
                    assert(myers_round(a@, b@, v_pre, offset as int, d as int, k as int).1);
                    assert(myers_round(a@, b@, v_d, offset as int, d as int, -(d as int)).1);
                    assert(myers_rounds(a@, b@, v_d, trace_view(old_trace), offset as int, d as int, upper as int) == Some(
                        (trace_view(trace@), d as int),
                    ));
                }
                let bt = backtrack(&trace, n, m, d, max);
                return Some(bt);
            }
            proof {
                assert(myers_round(a@, b@, v_pre, offset as int, d as int, k as int) == myers_round(
                    a@,
                    b@,
                    v@,
                    offset as int,
                    d as int,
                    k + 2,
                ));
            }
            k = k + 2;
        }
        d = d + 1;
    }
    None
}

/// Walks the trace back from `(n, m)`, collecting the diagonal runs.
#[verifier::rlimit(40)]
fn backtrack(trace: &Vec<Vec<isize>>, n: usize, m: usize, d: usize, max: usize) -> (r: Vec<(usize, usize)>)
    requires
        max == n + m,
        (n + m) * 4 + 8 <= isize::MAX,
        d <= max,
        trace@.len() == d + 1,
        forall|r: int, q: int|
            0 <= r < d + 1 && 0 <= q < trace@[r]@.len() ==> 0 <= #[trigger] trace@[r]@[q] <= n + r,
    ensures
        r@ == backtrack_spec(trace_view(trace@), n as int, m as int, d as int),
{
    let ghost tv = trace_view(trace@);
    let ghost total = back_from(tv, d + 1, n as int, m as int, Seq::empty());
    let mut pairs: Vec<(usize, usize)> = Vec::new();
    let mut px: isize = n as isize;
    let mut py: isize = m as isize;
    let mut dd: usize = d + 1;
    while dd > 0
        invariant
            tv == trace_view(trace@),
            back_from(tv, dd as int, px as int, py as int, pairs@) == total,
            max == n + m,
            (n + m) * 4 + 8 <= isize::MAX,
            d <= max,
            dd <= d + 1,
            trace@.len() == d + 1,
            forall|r: int, q: int|
                0 <= r < d + 1 && 0 <= q < trace@[r]@.len() ==> 0 <= #[trigger] trace@[r]@[q]
                    <= n + r,
            0 <= px <= n + d,
            -(max + d + 1 - dd) <= px - py <= max + d + 1 - dd,
        decreases dd,
    {
        dd = dd - 1;
        let vv = &trace[dd];
        let ddi = dd as isize;
        let kk = px - py;
        let prev_k = if kk == -ddi || (kk != ddi && window_at(vv, ddi, kk - 1) < window_at(
            vv,
            ddi,
            kk + 1,
        )) {
            kk + 1
        } else {
            kk - 1
        };
        let prev_x = window_at(vv, ddi, prev_k);
        let prev_y = prev_x - prev_k;
        let ghost w0 = walk_back(px as int, py as int, prev_x as int, prev_y as int, pairs@);
        proof {
            assert(tv[dd as int] == vv@);
        }
        while px > prev_x && py > prev_y
            invariant
                walk_back(px as int, py as int, prev_x as int, prev_y as int, pairs@) == w0,
                0 <= prev_x,
                0 <= px <= n + d,
                px - py == kk,
                -(max + d + 1) <= kk <= max + d + 1,
                (n + m) * 4 + 8 <= isize::MAX,
                max == n + m,
                d <= max,
            decreases px,
        {
            px = px - 1;
            py = py - 1;
            pairs.push((px as usize, py as usize));
        }
        px = prev_x;
        py = prev_y;
    }
    let mut out: Vec<(usize, usize)> = Vec::new();
    let mut i = pairs.len();
    while i > 0
        invariant
            i <= pairs@.len(),
            out@ == pairs@.subrange(i as int, pairs@.len() as int).reverse(),
        decreases i,
    {
        i = i - 1;
        out.push(pairs[i]);
        assert(out@ =~= pairs@.subrange(i as int, pairs@.len() as int).reverse());
    }
    assert(pairs@.subrange(0, pairs@.len() as int) =~= pairs@);
    out
}

/// The trace's windows as plain sequences.
pub open spec fn trace_view(t: Seq<Vec<isize>>) -> Seq<Seq<isize>> {
    t.map_values(|w: Vec<isize>| w@)
}

// ---------------------------------------------------------------------------
// Applying edits
// ---------------------------------------------------------------------------

/// `buf` with `buf[e.0..e.1]` replaced by `e.2`.
pub open spec fn splice(buf: Seq<u8>, e: EditView) -> Seq<u8> {
    buf.subrange(0, e.0) + e.2 + buf.subrange(e.1, buf.len() as int)
}

/// Applying edits from the back, one splice each, as a consumer does.
pub open spec fn apply_edits(buf: Seq<u8>, es: Seq<EditView>) -> Seq<u8>
    decreases es.len(),
{
    if es.len() == 0 {
        buf
    } else {
        apply_edits(splice(buf, es.last()), es.drop_last())
    }
}

/// In range, in order, and not overlapping.
pub open spec fn edits_disjoint(es: Seq<EditView>, len: int) -> bool {
    &&& forall|i: int| #![trigger es[i]] 0 <= i < es.len() ==> 0 <= es[i].0 <= es[i].1 <= len
    &&& forall|i: int, j: int| 0 <= i < j < es.len() ==> es[i].1 <= es[j].0
}

pub open spec fn prev_end(es: Seq<EditView>) -> int {
    if es.len() == 0 {
        0
    } else {
        es.last().1
    }
}

/// The rebuilt buffer up to the end of the last edit.
pub open spec fn replay(old: Seq<u8>, es: Seq<EditView>) -> Seq<u8>
    decreases es.len(),
{
    if es.len() == 0 {
        Seq::empty()
    } else {
        replay(old, es.drop_last()) + old.subrange(prev_end(es.drop_last()), es.last().0)
            + es.last().2
    }
}

proof fn lemma_disjoint_prefix(es: Seq<EditView>, len: int)
    requires
        edits_disjoint(es, len),
        es.len() > 0,
    ensures
        edits_disjoint(es.drop_last(), es.last().0),
        prev_end(es.drop_last()) <= es.last().0,
{
    let p = es.drop_last();
    assert forall|i: int| #![trigger p[i]] 0 <= i < p.len() implies 0 <= p[i].0 <= p[i].1
        <= es.last().0 by {
        assert(p[i] == es[i]);
    }
    assert forall|i: int, j: int| 0 <= i < j < p.len() implies p[i].1 <= p[j].0 by {
        assert(p[i] == es[i]);
        assert(p[j] == es[j]);
    }
    if p.len() > 0 {
        assert(p.last() == es[es.len() - 2]);
    }
}

proof fn lemma_replay_prefix(o1: Seq<u8>, o2: Seq<u8>, es: Seq<EditView>, p: int)
    requires
        0 <= p <= o1.len(),
        p <= o2.len(),
        o1.subrange(0, p) == o2.subrange(0, p),
        edits_disjoint(es, p),
    ensures
        replay(o1, es) == replay(o2, es),
    decreases es.len(),
{
    if es.len() > 0 {
        lemma_disjoint_prefix(es, p);
        let a = prev_end(es.drop_last());
        let b = es.last().0;
        assert(o1.subrange(0, b) =~= o1.subrange(0, p).subrange(0, b));
        assert(o2.subrange(0, b) =~= o2.subrange(0, p).subrange(0, b));
        lemma_replay_prefix(o1, o2, es.drop_last(), es.last().0);
        assert(o1.subrange(a, b) =~= o1.subrange(0, p).subrange(a, b));
        assert(o2.subrange(a, b) =~= o2.subrange(0, p).subrange(a, b));
        if es.drop_last().len() > 0 {
            assert(o1.subrange(0, b) =~= o1.subrange(0, p).subrange(0, b));
            assert(o2.subrange(0, b) =~= o2.subrange(0, p).subrange(0, b));
        } else {
            assert(o1.subrange(0, b) =~= o1.subrange(0, p).subrange(0, b));
            assert(o2.subrange(0, b) =~= o2.subrange(0, p).subrange(0, b));
        }
    }
}

/// Splicing from the back is rebuilding from the front.
proof fn lemma_apply_is_replay(old: Seq<u8>, es: Seq<EditView>)
    requires
        edits_disjoint(es, old.len() as int),
    ensures
        apply_edits(old, es) == replay(old, es) + old.subrange(prev_end(es), old.len() as int),
    decreases es.len(),
{
    if es.len() == 0 {
        assert(old.subrange(0, old.len() as int) =~= old);
        assert(Seq::<u8>::empty() + old =~= old);
    } else {
        let e = es.last();
        let rest = es.drop_last();
        let o2 = splice(old, e);
        lemma_disjoint_prefix(es, old.len() as int);
        assert(o2.subrange(0, e.0) =~= old.subrange(0, e.0));
        assert(edits_disjoint(rest, o2.len() as int)) by {
            assert forall|i: int| #![trigger rest[i]] 0 <= i < rest.len() implies 0 <= rest[i].0
                <= rest[i].1 <= o2.len() by {}
        }
        lemma_apply_is_replay(o2, rest);
        assert(edits_disjoint(rest, e.0));
        lemma_replay_prefix(o2, old, rest, e.0);
        let pe = prev_end(rest);
        assert(o2.subrange(pe, o2.len() as int) =~= old.subrange(pe, e.0) + e.2 + old.subrange(
            e.1,
            old.len() as int,
        ));
        assert(replay(old, es) == replay(old, rest) + old.subrange(pe, e.0) + e.2);
        assert(apply_edits(old, es) =~= replay(old, es) + old.subrange(e.1, old.len() as int));
    }
}

/// The hashes of the lines of `src`.
pub open spec fn line_hashes(src: Seq<u8>) -> Seq<u64> {
    let st = spec_line_starts(src);
    Seq::new((st.len() - 1) as nat, |i: int| fnv(line_of(src, st, i)))
}

/// No two lines, one of each buffer, share a hash without being equal.
pub open spec fn no_collision(old: Seq<u8>, new: Seq<u8>) -> bool {
    let oa = spec_line_starts(old);
    let nb = spec_line_starts(new);
    forall|i: int, j: int|
        0 <= i < oa.len() - 1 && 0 <= j < nb.len() - 1 && fnv(line_of(old, oa, i)) == fnv(
            line_of(new, nb, j),
        ) ==> line_of(old, oa, i) == line_of(new, nb, j)
}

proof fn lemma_starts_split(src: Seq<u8>, st: Seq<usize>, i: int, j: int, k: int)
    requires
        starts_ok(st, src.len() as int),
        0 <= i <= j <= k < st.len(),
    ensures
        src.subrange(st[i] as int, st[k] as int) == src.subrange(st[i] as int, st[j] as int)
            + src.subrange(st[j] as int, st[k] as int),
        st[i] <= st[j] <= st[k] <= src.len(),
{
    if i < j {
        assert(st[i] < st[j]);
    }
    if j < k {
        assert(st[j] < st[k]);
    }
    if k < st.len() - 1 {
        assert(st[k] < st[st.len() - 1]);
    }
    assert(src.subrange(st[i] as int, st[k] as int) =~= src.subrange(st[i] as int, st[j] as int)
        + src.subrange(st[j] as int, st[k] as int));
}

/// Rebuilding `old` with the edits for a list of matched lines, where the
/// matched lines really are equal, gives `new`.
#[verifier::rlimit(60)]
proof fn lemma_edits_rebuild(
    old: Seq<u8>,
    new: Seq<u8>,
    oa: Seq<usize>,
    nb: Seq<usize>,
    pairs: Seq<(usize, usize)>,
    k: int,
)
    requires
        old.len() <= u32::MAX,
        starts_ok(oa, old.len() as int),
        starts_ok(nb, new.len() as int),
        forall|i: int|
            #![trigger pairs[i]]
            0 <= i < pairs.len() ==> pairs[i].0 < oa.len() - 1 && pairs[i].1 < nb.len() - 1
                && line_of(old, oa, pairs[i].0 as int) == line_of(new, nb, pairs[i].1 as int),
        forall|i: int, j: int|
            0 <= i < j < pairs.len() ==> pairs[i].0 < pairs[j].0 && pairs[i].1 < pairs[j].1,
        0 <= k <= pairs.len(),
    ensures
        ({
            let (es, ai, bi) = edits_upto(oa, nb, new, pairs, k);
            &&& 0 <= ai < oa.len()
            &&& 0 <= bi < nb.len()
            &&& k > 0 ==> ai == pairs[k - 1].0 + 1 && bi == pairs[k - 1].1 + 1
            &&& edits_disjoint(es, oa[ai] as int)
            &&& prev_end(es) <= oa[ai]
            &&& replay(old, es) + old.subrange(prev_end(es), oa[ai] as int) == new.subrange(
                0,
                nb[bi] as int,
            )
        }),
    decreases k,
{
    if k == 0 {
        assert(old.subrange(0, 0) =~= Seq::<u8>::empty());
        assert(new.subrange(0, 0) =~= Seq::<u8>::empty());
        assert(Seq::<u8>::empty() + Seq::<u8>::empty() =~= Seq::<u8>::empty());
    } else {
        lemma_edits_rebuild(old, new, oa, nb, pairs, k - 1);
        let (es, ai, bi) = edits_upto(oa, nb, new, pairs, k - 1);
        let (x, y) = pairs[k - 1];
        let x = x as int;
        let y = y as int;
        if k > 1 {
            assert(pairs[k - 2].0 < pairs[k - 1].0 && pairs[k - 2].1 < pairs[k - 1].1);
        }
        assert(ai <= x && bi <= y);
        lemma_starts_split(old, oa, ai, x, x + 1);
        lemma_starts_split(new, nb, bi, y, y + 1);
        lemma_starts_split(new, nb, 0, bi, y);
        lemma_starts_split(new, nb, 0, y, y + 1);
        let f = flush(oa, nb, new, ai, x, bi, y);
        let es2 = es + f;
        assert(line_of(old, oa, x) == line_of(new, nb, y));
        let pe = prev_end(es);
        assert(old.subrange(pe, oa[x + 1] as int) =~= old.subrange(pe, oa[ai] as int) + old.subrange(
            oa[ai] as int,
            oa[x] as int,
        ) + old.subrange(oa[x] as int, oa[x + 1] as int));
        if ai == x && bi == y {
            assert(es2 =~= es);
            assert(new.subrange(0, nb[y + 1] as int) =~= new.subrange(0, nb[y] as int)
                + new.subrange(nb[y] as int, nb[y + 1] as int));
            assert(old.subrange(oa[ai] as int, oa[x] as int) =~= Seq::<u8>::empty());
            assert(replay(old, es2) + old.subrange(prev_end(es2), oa[x + 1] as int) =~= new.subrange(
                0,
                nb[y + 1] as int,
            ));
        } else {
            let e = f[0];
            assert(e.0 == oa[ai] && e.1 == oa[x]);
            assert(es2.drop_last() =~= es);
            assert(es2.last() == e);
            assert(replay(old, es2) == replay(old, es) + old.subrange(pe, e.0) + e.2);
            assert(new.subrange(0, nb[y] as int) =~= new.subrange(0, nb[bi] as int) + new.subrange(
                nb[bi] as int,
                nb[y] as int,
            ));
            assert(new.subrange(0, nb[y + 1] as int) =~= new.subrange(0, nb[y] as int)
                + new.subrange(nb[y] as int, nb[y + 1] as int));
            assert(replay(old, es2) + old.subrange(prev_end(es2), oa[x + 1] as int) =~= new.subrange(
                0,
                nb[y + 1] as int,
            ));
            assert(edits_disjoint(es2, oa[x + 1] as int)) by {
                assert forall|i: int| #![trigger es2[i]] 0 <= i < es2.len() implies 0 <= es2[i].0
                    <= es2[i].1 <= oa[x + 1] by {
                    if i < es.len() {
                        assert(es2[i] == es[i]);
                    }
                }
                assert forall|i: int, j: int| 0 <= i < j < es2.len() implies es2[i].1 <= es2[j].0 by {
                    if j < es.len() {
                        assert(es2[i] == es[i]);
                        assert(es2[j] == es[j]);
                    } else {
                        assert(es2[i] == es[i]);
                        if es.len() > 0 {
                            assert(es[i].1 <= prev_end(es)) by {
                                if i < es.len() - 1 {
                                    assert(es[i].1 <= es[es.len() - 1].0);
                                }
                            }
                        }
                    }
                }
            }
        }
        if ai == x && bi == y {
            assert(edits_disjoint(es2, oa[x + 1] as int)) by {
                assert forall|i: int| #![trigger es2[i]] 0 <= i < es2.len() implies 0 <= es2[i].0
                    <= es2[i].1 <= oa[x + 1] by {
                    assert(es2[i] == es[i]);
                }
            }
        }
    }
}

/// Every result [`diff`] may give for `old` and `new`.
pub open spec fn diff_result(old: Seq<u8>, new: Seq<u8>, r: Seq<EditView>) -> bool {
    if old == new {
        r.len() == 0
    } else {
        ||| r == seq![(0int, (old.len() as u32) as int, new)]
        ||| exists|p: Seq<(usize, usize)>|
            pairs_ok(p, line_hashes(old), line_hashes(new)) && r == spec_edits(
                spec_line_starts(old),
                spec_line_starts(new),
                new,
                p,
            )
    }
}

/// Applying the edits of a diff to the old buffer, from the back, gives the
/// new buffer; the edits are in order, in range and disjoint. (A line
/// diff over hashes needs lines with equal hashes to be equal.)
#[verifier::spinoff_prover]
#[verifier::rlimit(60)]
pub proof fn lemma_diff_edits_rebuild_new(old: Seq<u8>, new: Seq<u8>, r: Seq<EditView>)
    requires
        diff_result(old, new, r),
        old.len() <= u32::MAX,
        new.len() <= usize::MAX,
        no_collision(old, new),
    ensures
        edits_disjoint(r, old.len() as int),
        apply_edits(old, r) == new,
{
    if old == new {
    } else if r == seq![(0int, (old.len() as u32) as int, new)] {
        let e = r[0];
        assert(r.drop_last() =~= Seq::<EditView>::empty());
        assert(r.last() == e);
        assert(e.1 == old.len());
        assert(splice(old, e) =~= new);
        assert(apply_edits(old, r) == apply_edits(splice(old, e), r.drop_last()));
    } else {
        let p = choose|p: Seq<(usize, usize)>|
            pairs_ok(p, line_hashes(old), line_hashes(new)) && r == spec_edits(
                spec_line_starts(old),
                spec_line_starts(new),
                new,
                p,
            );
        let oa = spec_line_starts(old);
        let nb = spec_line_starts(new);
        lemma_line_starts_ok(old);
        lemma_line_starts_ok(new);
        assert forall|i: int| #![trigger p[i]] 0 <= i < p.len() implies p[i].0 < oa.len() - 1
            && p[i].1 < nb.len() - 1 && line_of(old, oa, p[i].0 as int) == line_of(
            new,
            nb,
            p[i].1 as int,
        ) by {
            assert(line_hashes(old)[p[i].0 as int] == fnv(line_of(old, oa, p[i].0 as int)));
            assert(line_hashes(new)[p[i].1 as int] == fnv(line_of(new, nb, p[i].1 as int)));
        }
        lemma_edits_rebuild(old, new, oa, nb, p, p.len() as int);
        let (es, ai, bi) = edits_upto(oa, nb, new, p, p.len() as int);
        let n = oa.len() - 1;
        let m = nb.len() - 1;
        if p.len() > 0 {
            assert(p[p.len() - 1].0 < n && p[p.len() - 1].1 < m);
        }
        lemma_starts_split(old, oa, ai, n, n);
        lemma_starts_split(new, nb, 0, bi, m);
        let f = flush(oa, nb, new, ai, n, bi, m);
        let es2 = es + f;
        assert(r == es2);
        let pe = prev_end(es);
        if ai == n && bi == m {
            assert(es2 =~= es);
            assert(new.subrange(0, nb[m] as int) =~= new);
            assert(old.subrange(pe, oa[n] as int) =~= old.subrange(pe, old.len() as int));
            assert(replay(old, es2) + old.subrange(prev_end(es2), old.len() as int) =~= new);
        } else {
            let e = f[0];
            assert(es2.drop_last() =~= es);
            assert(es2.last() == e);
            assert(edits_disjoint(es2, old.len() as int)) by {
                assert forall|i: int| #![trigger es2[i]] 0 <= i < es2.len() implies 0 <= es2[i].0
                    <= es2[i].1 <= old.len() by {
                    if i < es.len() {
                        assert(es2[i] == es[i]);
                    }
                }
                assert forall|i: int, j: int| 0 <= i < j < es2.len() implies es2[i].1 <= es2[j].0 by {
                    if j < es.len() {
                        assert(es2[i] == es[i]);
                        assert(es2[j] == es[j]);
                    } else {
                        assert(es2[i] == es[i]);
                        assert(es[i].1 <= prev_end(es)) by {
                            if i < es.len() - 1 {
                                assert(es[i].1 <= es[es.len() - 1].0);
                            }
                        }
                    }
                }
            }
            assert(new =~= new.subrange(0, nb[bi] as int) + new.subrange(
                nb[bi] as int,
                nb[m] as int,
            ));
            assert(old.subrange(oa[n] as int, old.len() as int) =~= Seq::<u8>::empty());
            assert(replay(old, es2) == replay(old, es) + old.subrange(pe, e.0) + e.2);
            assert(replay(old, es2) + old.subrange(prev_end(es2), old.len() as int) =~= new);
        }
        assert(edits_disjoint(r, old.len() as int)) by {
            if ai == n && bi == m {
                assert forall|i: int| #![trigger r[i]] 0 <= i < r.len() implies 0 <= r[i].0
                    <= r[i].1 <= old.len() by {}
            }
        }
        lemma_apply_is_replay(old, r);
    }
}

proof fn lemma_starts_count(st: Seq<usize>, len: int)
    requires
        starts_ok(st, len),
    ensures
        st.len() - 1 <= len,
{
    assert forall|i: int| 0 <= i < st.len() implies st[i] >= i by {
        lemma_starts_at_least(st, len, i);
    }
    assert(st[st.len() - 1] >= st.len() - 1);
}

proof fn lemma_starts_at_least(st: Seq<usize>, len: int, i: int)
    requires
        starts_ok(st, len),
        0 <= i < st.len(),
    ensures
        st[i] >= i,
    decreases i,
{
    if i > 0 {
        lemma_starts_at_least(st, len, i - 1);
        assert(st[i - 1] < st[i]);
    }
}

fn bytes_equal(a: &[u8], b: &[u8]) -> (r: bool)
    ensures
        r == (a@ == b@),
{
    if a.len() != b.len() {
        return false;
    }
    let mut i: usize = 0;
    while i < a.len()
        invariant
            i <= a@.len(),
            a@.len() == b@.len(),
            forall|j: int| 0 <= j < i ==> a@[j] == b@[j],
        decreases a@.len() - i,
    {
        if a[i] != b[i] {
            return false;
        }
        i = i + 1;
    }
    assert(a@ =~= b@);
    true
}

/// A copy of an edit, equal to it field by field.
pub(crate) fn copy_edit(e: &TextEdit) -> (r: TextEdit)
    ensures
        r.view_of() == e.view_of(),
        r.start == e.start,
        r.end == e.end,
{
    TextEdit { start: e.start, end: e.end, new_text: copy_bytes(e.new_text.as_slice()) }
}

fn copy_bytes(t: &[u8]) -> (r: Vec<u8>)
    ensures
        r@ == t@,
{
    let mut v: Vec<u8> = Vec::new();
    let mut i: usize = 0;
    while i < t.len()
        invariant
            i <= t@.len(),
            v@ == t@.subrange(0, i as int),
        decreases t@.len() - i,
    {
        v.push(t[i]);
        i = i + 1;
        assert(v@ =~= t@.subrange(0, i as int));
    }
    assert(t@.subrange(0, i as int) =~= t@);
    v
}

/// The edit distance past which the whole differing buffer becomes one edit.
pub const DIFF_BOUND: usize = 2048;

/// The edits `diff` gives: none for equal buffers; otherwise the edits
/// between the line pairs the bounded line search finds, or one edit for
/// the whole buffer when the search gives up or its pairs do not match.
pub open spec fn spec_diff(old: Seq<u8>, new: Seq<u8>) -> Seq<EditView> {
    if old == new {
        Seq::empty()
    } else {
        let ha = line_hashes(old);
        let hb = line_hashes(new);
        let whole = seq![(0int, (old.len() as u32) as int, new)];
        match myers_spec(ha, hb, DIFF_BOUND as int) {
            Some(p) => if pairs_ok(p, ha, hb) {
                spec_edits(spec_line_starts(old), spec_line_starts(new), new, p)
            } else {
                whole
            },
            None => whole,
        }
    }
}

/// The edits that turn `old` into `new`, one per changed run of lines.
pub fn diff(old: &[u8], new: &[u8]) -> (r: Vec<TextEdit>)
    requires
        (old@.len() + new@.len()) * 4 + 8 <= isize::MAX,
    ensures
        diff_result(old@, new@, edits_view(r@)),
        edits_view(r@) == spec_diff(old@, new@),
{
    if bytes_equal(old, new) {
        let r: Vec<TextEdit> = Vec::new();
        assert(edits_view(r@) =~= Seq::<EditView>::empty());
        return r;
    }
    let oa = line_starts(old);
    let nb = line_starts(new);
    proof {
        lemma_line_starts_ok(old@);
        lemma_line_starts_ok(new@);
        lemma_starts_count(oa@, old@.len() as int);
        lemma_starts_count(nb@, new@.len() as int);
    }
    let ha = hashes(old, &oa);
    let hb = hashes(new, &nb);
    proof {
        assert(ha@ =~= line_hashes(old@));
        assert(hb@ =~= line_hashes(new@));
    }
    let whole = TextEdit { start: 0, end: old.len() as u32, new_text: copy_bytes(new) };
    let pairs = match myers(ha.as_slice(), hb.as_slice(), DIFF_BOUND) {
        Some(p) => p,
        None => {
            // too different to diff cheaply: one edit for the whole buffer
            let mut r: Vec<TextEdit> = Vec::new();
            r.push(whole);
            assert(edits_view(r@) =~= seq![(0int, (old@.len() as u32) as int, new@)]);
            return r;
        },
    };
    if !check_pairs(&pairs, ha.as_slice(), hb.as_slice()) {
        let mut r: Vec<TextEdit> = Vec::new();
        r.push(whole);
        assert(edits_view(r@) =~= seq![(0int, (old@.len() as u32) as int, new@)]);
        return r;
    }
    let r = edits_from_pairs(&oa, &nb, new, &pairs, &ha, &hb);
    assert(pairs_ok(pairs@, line_hashes(old@), line_hashes(new@)));
    r
}

} // verus!
