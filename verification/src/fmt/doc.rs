//! The layout op stream and its two-pass renderer.
//!
//! A group prints on one line when its flat width, plus the width of what
//! follows it up to the next break opportunity, fits inside the margin from
//! the column it starts at; otherwise every `Line`/`Soft` directly inside it
//! becomes a newline. The only non-whitespace bytes the renderer ever emits
//! are slices of the source ([`Op::Src`]).

use vstd::prelude::*;

verus! {

/// The line budget.
pub const MARGIN: usize = 100;

/// The indent width.
pub const INDENT: usize = 4;

/// Width charged by [`Op::Charge`] to force a break without pretending the
/// line is infinitely long.
pub const FORCE: u32 = 1048576;

/// A width no group can fit into (`1 << 40`).
pub const INF: u64 = 1099511627776;

#[derive(Clone, Copy, PartialEq, Eq, Structural, Debug)]
pub enum Op {
    /// `source[start..end]`: the only bytes the renderer copies.
    Src(u32, u32),
    /// Counts toward a group's flat width, prints nothing.
    Charge(u32),
    /// One space, always.
    Space,
    /// A space when the enclosing group is flat, a newline when it broke.
    Line,
    /// Nothing when flat, a newline when broken.
    Soft,
    /// Always a newline.
    Hard,
    /// Always a newline and one blank line.
    Blank,
    Indent,
    Dedent,
    Open,
    Close,
}

// ---------------------------------------------------------------------------
// Widths
// ---------------------------------------------------------------------------

/// A byte that starts a column: anything but a UTF-8 continuation byte.
pub open spec fn starts_column(b: u8) -> bool {
    !(0x80 <= b && b < 0xC0)
}

/// Number of column-starting bytes in `t`.
pub open spec fn columns(t: Seq<u8>) -> nat
    decreases t.len(),
{
    if t.len() == 0 {
        0
    } else {
        columns(t.drop_last()) + (if starts_column(t.last()) { 1nat } else { 0nat })
    }
}

pub open spec fn has_newline(t: Seq<u8>) -> bool {
    exists|i: int| 0 <= i < t.len() && t[i] == 10u8
}

/// Display width of a slice: `None` when it spans lines.
pub open spec fn spec_text_width(t: Seq<u8>) -> Option<nat> {
    if has_newline(t) {
        None
    } else {
        Some(columns(t))
    }
}

/// Every `Src` op names a slice inside the source.
pub open spec fn ops_in_bounds(ops: Seq<Op>, src: Seq<u8>) -> bool {
    forall|i: int|
        #![trigger ops[i]]
        0 <= i < ops.len() ==> match ops[i] {
            Op::Src(a, b) => a <= b && b <= src.len(),
            _ => true,
        }
}

pub open spec fn slice_of(src: Seq<u8>, a: u32, b: u32) -> Seq<u8> {
    src.subrange(a as int, b as int)
}

/// The width an op adds to a line.
pub open spec fn spec_op_width(op: Op, src: Seq<u8>) -> int {
    match op {
        Op::Src(a, b) => match spec_text_width(slice_of(src, a, b)) {
            Some(w) => w as int,
            None => INF as int,
        },
        Op::Charge(n) => n as int,
        Op::Space | Op::Line => 1,
        Op::Hard | Op::Blank => INF as int,
        _ => 0,
    }
}

/// The width an op adds to the flat width of the groups around it.
pub open spec fn flat_width(op: Op, src: Seq<u8>) -> int {
    match op {
        Op::Open | Op::Close => 0,
        _ => spec_op_width(op, src),
    }
}

/// Flat width of `ops[0..k]`.
pub open spec fn spec_cum(ops: Seq<Op>, src: Seq<u8>, k: int) -> int
    decreases k,
{
    if k <= 0 {
        0
    } else {
        spec_cum(ops, src, k - 1) + flat_width(ops[k - 1], src)
    }
}

/// Scanning from `j` at nesting depth `d`, the index of the `Close` that
/// brings the depth back below zero.
pub open spec fn close_of(ops: Seq<Op>, j: int, d: nat) -> Option<int>
    decreases ops.len() - j,
{
    if j < 0 || j >= ops.len() {
        None
    } else {
        match ops[j] {
            Op::Close => if d == 0 {
                Some(j)
            } else {
                close_of(ops, j + 1, (d - 1) as nat)
            },
            Op::Open => close_of(ops, j + 1, d + 1),
            _ => close_of(ops, j + 1, d),
        }
    }
}

/// Flat width of the group opened at `i` (0 where `ops[i]` is no `Open`);
/// a group that is never closed cannot fit.
pub open spec fn spec_gw(ops: Seq<Op>, src: Seq<u8>, i: int) -> int {
    if ops[i] is Open {
        match close_of(ops, i + 1, 0) {
            Some(j) => spec_cum(ops, src, j) - spec_cum(ops, src, i),
            None => INF as int,
        }
    } else {
        0
    }
}

/// Index of the `Close` of the group opened at `i`; the last index for a
/// group that is never closed, and 0 where `ops[i]` is no `Open`.
pub open spec fn spec_gend(ops: Seq<Op>, i: int) -> int {
    if ops[i] is Open {
        match close_of(ops, i + 1, 0) {
            Some(j) => j,
            None => ops.len() - 1,
        }
    } else {
        0
    }
}

pub open spec fn sat_add(a: int, b: int) -> int {
    if a + b > u64::MAX {
        u64::MAX as int
    } else {
        a + b
    }
}

/// Width of `ops[i..]` up to the next break opportunity of any kind.
pub open spec fn spec_tail(ops: Seq<Op>, src: Seq<u8>, i: int) -> int
    decreases ops.len() - i,
{
    if i < 0 || i >= ops.len() {
        0
    } else {
        match ops[i] {
            Op::Hard | Op::Blank | Op::Line | Op::Soft | Op::Close => 0,
            Op::Open | Op::Indent | Op::Dedent => spec_tail(ops, src, i + 1),
            op => sat_add(spec_op_width(op, src), spec_tail(ops, src, i + 1)),
        }
    }
}

proof fn lemma_columns_bound(t: Seq<u8>)
    ensures
        columns(t) <= t.len(),
    decreases t.len(),
{
    if t.len() > 0 {
        lemma_columns_bound(t.drop_last());
    }
}

proof fn lemma_width_bound(op: Op, src: Seq<u8>)
    requires
        match op {
            Op::Src(a, b) => a <= b && b <= src.len(),
            _ => true,
        },
    ensures
        0 <= spec_op_width(op, src) <= INF,
        0 <= flat_width(op, src) <= INF,
{
    if let Op::Src(a, b) = op {
        lemma_columns_bound(slice_of(src, a, b));
    }
}

proof fn lemma_cum_nonneg(ops: Seq<Op>, src: Seq<u8>, k: int)
    requires
        ops_in_bounds(ops, src),
        k <= ops.len(),
    ensures
        spec_cum(ops, src, k) >= 0,
    decreases k,
{
    if k > 0 {
        lemma_cum_nonneg(ops, src, k - 1);
        lemma_width_bound(ops[k - 1], src);
    }
}

proof fn lemma_cum_mono(ops: Seq<Op>, src: Seq<u8>, i: int, j: int)
    requires
        ops_in_bounds(ops, src),
        0 <= i <= j <= ops.len(),
    ensures
        spec_cum(ops, src, i) <= spec_cum(ops, src, j),
        spec_cum(ops, src, i) >= 0,
    decreases j,
{
    if j > i {
        lemma_cum_mono(ops, src, i, j - 1);
        lemma_width_bound(ops[j - 1], src);
    } else {
        lemma_cum_nonneg(ops, src, i);
    }
}

proof fn lemma_close_after(ops: Seq<Op>, j: int, d: nat)
    ensures
        close_of(ops, j, d) matches Some(x) ==> j <= x < ops.len() && ops[x] is Close,
    decreases ops.len() - j,
{
    if 0 <= j < ops.len() {
        match ops[j] {
            Op::Close => if d > 0 {
                lemma_close_after(ops, j + 1, (d - 1) as nat);
            },
            Op::Open => lemma_close_after(ops, j + 1, d + 1),
            _ => lemma_close_after(ops, j + 1, d),
        }
    }
}

fn is_continuation(b: u8) -> (r: bool)
    ensures
        r == !starts_column(b),
{
    let r = (b & 0xC0) == 0x80;
    assert(r == (0x80 <= b && b < 0xC0)) by (bit_vector)
        requires
            r == ((b & 0xC0) == 0x80),
    ;
    r
}

/// Display width of one source slice: `None` when it spans lines (a block
/// comment or a multiline string), which is treated as unfittable.
fn text_width(t: &[u8]) -> (r: Option<usize>)
    ensures
        r matches Some(w) ==> spec_text_width(t@) == Some(w as nat),
        r is None ==> spec_text_width(t@) is None,
{
    let mut i: usize = 0;
    let mut n: usize = 0;
    while i < t.len()
        invariant
            i <= t@.len(),
            n == columns(t@.subrange(0, i as int)),
            n <= i,
            forall|j: int| 0 <= j < i ==> t@[j] != 10u8,
        decreases t@.len() - i,
    {
        if t[i] == 10u8 {
            return None;
        }
        assert(t@.subrange(0, i + 1).drop_last() =~= t@.subrange(0, i as int));
        if !is_continuation(t[i]) {
            n = n + 1;
        }
        i = i + 1;
    }
    assert(t@.subrange(0, i as int) =~= t@);
    Some(n)
}

fn op_width(op: Op, src: &[u8]) -> (r: u64)
    requires
        match op {
            Op::Src(a, b) => a <= b && b <= src@.len(),
            _ => true,
        },
    ensures
        r == spec_op_width(op, src@),
{
    match op {
        Op::Src(a, b) => {
            let t = &src[a as usize..b as usize];
            assert(t@ =~= slice_of(src@, a, b));
            match text_width(t) {
                Some(w) => {
                    proof {
                        lemma_columns_bound(t@);
                    }
                    w as u64
                },
                None => INF,
            }
        },
        Op::Charge(n) => n as u64,
        Op::Space | Op::Line => 1,
        Op::Hard | Op::Blank => INF,
        _ => 0,
    }
}

proof fn lemma_close_step(ops: Seq<Op>, k: int, d: nat)
    requires
        0 <= k < ops.len(),
    ensures
        ops[k] is Open ==> close_of(ops, k, d) == close_of(ops, k + 1, d + 1),
        ops[k] is Close && d > 0 ==> close_of(ops, k, d) == close_of(ops, k + 1, (d - 1) as nat),
        ops[k] is Close && d == 0 ==> close_of(ops, k, d) == Some(k),
        !(ops[k] is Open) && !(ops[k] is Close) ==> close_of(ops, k, d) == close_of(ops, k + 1, d),
{
}

/// A group whose scan stands at `k` with depth `d` is still open after
/// `ops[k]` unless `ops[k]` is the `Close` that ends it.
proof fn lemma_still_open(ops: Seq<Op>, o: int, k: int, d: nat)
    requires
        0 <= k < ops.len(),
        close_of(ops, o + 1, 0) == close_of(ops, k, d),
        !(ops[k] is Close && d == 0),
    ensures
        !matched_before(ops, o, k + 1),
{
    lemma_close_step(ops, k, d);
    if ops[k] is Open {
        lemma_close_after(ops, k + 1, d + 1);
    } else if ops[k] is Close {
        lemma_close_after(ops, k + 1, (d - 1) as nat);
    } else {
        lemma_close_after(ops, k + 1, d);
    }
}

/// The group state after scanning `ops[0..k]`: the groups closed so far carry
/// their final width and end, every other slot is still zero.
pub open spec fn widths_done(
    ops: Seq<Op>,
    src: Seq<u8>,
    gw: Seq<u64>,
    end: Seq<usize>,
    k: int,
) -> bool {
    &&& gw.len() == ops.len()
    &&& end.len() == ops.len()
    &&& forall|o: int|
        #![trigger gw[o]]
        0 <= o < ops.len() && o < k && ops[o] is Open && matched_before(ops, o, k) ==> gw[o]
            == spec_gw(ops, src, o) && end[o] == spec_gend(ops, o)
    &&& forall|o: int|
        #![trigger gw[o]]
        0 <= o < ops.len() && !(o < k && ops[o] is Open && matched_before(ops, o, k)) ==> gw[o]
            == 0 && end[o] == 0
}

/// The stack of groups still open after `ops[0..k]`: increasing, each an
/// `Open` whose scan stands at `k` with its nesting depth on the stack.
pub open spec fn stack_ok(ops: Seq<Op>, src: Seq<u8>, stack: Seq<(usize, u64)>, k: int) -> bool {
    &&& forall|t: int, u: int| 0 <= t < u < stack.len() ==> stack[t].0 < stack[u].0
    &&& forall|t: int|
        #![trigger stack[t]]
        0 <= t < stack.len() ==> {
            &&& stack[t].0 < k
            &&& ops[stack[t].0 as int] is Open
            &&& stack[t].1 == spec_cum(ops, src, stack[t].0 as int)
            &&& close_of(ops, stack[t].0 + 1, 0) == close_of(ops, k, (stack.len() - 1 - t) as nat)
        }
    &&& forall|o: int|
        #![trigger ops[o]]
        0 <= o < k && ops[o] is Open && !matched_before(ops, o, k) ==> exists|t: int|
            0 <= t < stack.len() && stack[t].0 == o
}

/// One pass over the ops with a stack of open groups: the groups closed
/// along the way get their width and end, the ones still open are returned.
#[verifier::rlimit(40)]
fn scan_groups(ops: &[Op], src: &[u8]) -> (r: (Vec<u64>, Vec<usize>, Vec<(usize, u64)>))
    requires
        ops_in_bounds(ops@, src@),
        spec_cum(ops@, src@, ops@.len() as int) <= u64::MAX,
    ensures
        widths_done(ops@, src@, r.0@, r.1@, ops@.len() as int),
        stack_ok(ops@, src@, r.2@, ops@.len() as int),
{
    let n = ops.len();
    let mut gw: Vec<u64> = Vec::new();
    let mut end: Vec<usize> = Vec::new();
    let mut z: usize = 0;
    while z < n
        invariant
            z <= n,
            gw@.len() == z,
            end@.len() == z,
            forall|i: int| 0 <= i < z ==> gw@[i] == 0 && end@[i] == 0,
        decreases n - z,
    {
        gw.push(0);
        end.push(0);
        z = z + 1;
    }
    let mut cum: u64 = 0;
    let mut stack: Vec<(usize, u64)> = Vec::new();
    let mut k: usize = 0;
    while k < n
        invariant
            n == ops@.len(),
            k <= n,
            ops_in_bounds(ops@, src@),
            spec_cum(ops@, src@, n as int) <= u64::MAX,
            cum == spec_cum(ops@, src@, k as int),
            widths_done(ops@, src@, gw@, end@, k as int),
            stack_ok(ops@, src@, stack@, k as int),
        decreases n - k,
    {
        let op = ops[k];
        proof {
            lemma_cum_mono(ops@, src@, k as int, k + 1);
            lemma_cum_mono(ops@, src@, k + 1, n as int);
            lemma_width_bound(op, src@);
            lemma_close_step(ops@, k as int, 0);
        }
        let ghost old_stack = stack@;
        let ghost old_gw = gw@;
        let ghost old_end = end@;
        let ghost k1: int = k + 1;
        match op {
            Op::Open => {
                stack.push((k, cum));
                proof {
                    assert forall|t: int| #![trigger stack@[t]] 0 <= t < stack@.len() implies close_of(
                        ops@,
                        stack@[t].0 + 1,
                        0,
                    ) == close_of(ops@, k1, (stack@.len() - 1 - t) as nat) by {
                        if t < old_stack.len() {
                            assert(stack@[t] == old_stack[t]);
                            lemma_close_step(ops@, k as int, (old_stack.len() - 1 - t) as nat);
                        }
                    }
                    assert forall|o: int|
                        #![trigger ops@[o]]
                        0 <= o < k1 && ops@[o] is Open && !matched_before(ops@, o, k1) implies exists|
                            t: int,
                        | 0 <= t < stack@.len() && stack@[t].0 == o by {
                        if o == k {
                            assert(stack@[stack@.len() - 1].0 == o);
                        } else {
                            assert(!matched_before(ops@, o, k as int));
                            let t = choose|t: int| 0 <= t < old_stack.len() && old_stack[t].0 == o;
                            assert(stack@[t] == old_stack[t]);
                        }
                    }
                    assert(widths_done(ops@, src@, gw@, end@, k1)) by {
                        assert forall|o: int|
                            #![trigger gw@[o]]
                            0 <= o < n && o < k1 && ops@[o] is Open && matched_before(ops@, o, k1)
                                implies o < k && matched_before(ops@, o, k as int) by {
                            if o == k {
                                lemma_close_after(ops@, k1, 0);
                            } else if !matched_before(ops@, o, k as int) {
                                let t = choose|t: int|
                                    0 <= t < old_stack.len() && old_stack[t].0 == o;
                                lemma_still_open(
                                    ops@,
                                    o,
                                    k as int,
                                    (old_stack.len() - 1 - t) as nat,
                                );
                            }
                        }
                    }
                    assert forall|o: int|
                        #![trigger gw@[o]]
                        0 <= o < n && !(o < k && ops@[o] is Open && matched_before(ops@, o, k as int))
                            implies !(o < k1 && ops@[o] is Open && matched_before(ops@, o, k1)) by {
                        if o == k {
                            lemma_close_after(ops@, k1, 0);
                        } else if o < k && ops@[o] is Open {
                            let t = choose|t: int| 0 <= t < old_stack.len() && old_stack[t].0 == o;
                            lemma_still_open(ops@, o, k as int, (old_stack.len() - 1 - t) as nat);
                        }
                    }
                }
            },
            Op::Close => {
                if stack.len() > 0 {
                    let top = stack.pop().unwrap();
                    let o = top.0;
                    let at = top.1;
                    proof {
                        lemma_cum_mono(ops@, src@, o as int, k as int);
                        assert(old_stack[old_stack.len() - 1] == top);
                        assert(close_of(ops@, o + 1, 0) == Some(k as int));
                    }
                    gw.set(o, cum - at);
                    end.set(o, k);
                    proof {
                        assert forall|t: int| #![trigger stack@[t]] 0 <= t < stack@.len() implies close_of(
                            ops@,
                            stack@[t].0 + 1,
                            0,
                        ) == close_of(ops@, k1, (stack@.len() - 1 - t) as nat) by {
                            assert(stack@[t] == old_stack[t]);
                            lemma_close_step(ops@, k as int, (old_stack.len() - 1 - t) as nat);
                        }
                        assert forall|o2: int|
                            #![trigger ops@[o2]]
                            0 <= o2 < k1 && ops@[o2] is Open && !matched_before(ops@, o2, k1)
                                implies exists|t: int| 0 <= t < stack@.len() && stack@[t].0 == o2 by {
                            assert(!matched_before(ops@, o2, k as int));
                            let t = choose|t: int|
                                0 <= t < old_stack.len() && old_stack[t].0 == o2;
                            assert(t != old_stack.len() - 1);
                            assert(stack@[t] == old_stack[t]);
                        }
                        assert forall|o2: int|
                            #![trigger gw@[o2]]
                            0 <= o2 < n && o2 != o && !(o2 < k && ops@[o2] is Open && matched_before(
                                ops@,
                                o2,
                                k as int,
                            )) implies !(o2 < k1 && ops@[o2] is Open && matched_before(
                                ops@,
                                o2,
                                k1,
                            )) by {
                            if o2 < k && ops@[o2] is Open {
                                let t = choose|t: int|
                                    0 <= t < old_stack.len() && old_stack[t].0 == o2;
                                assert(t != old_stack.len() - 1);
                                lemma_still_open(
                                    ops@,
                                    o2,
                                    k as int,
                                    (old_stack.len() - 1 - t) as nat,
                                );
                            }
                        }
                        assert forall|o2: int|
                            #![trigger gw@[o2]]
                            0 <= o2 < n && o2 != o implies gw@[o2] == old_gw[o2] && end@[o2]
                                == old_end[o2] by {}
                        assert(matched_before(ops@, o as int, k1));
                        assert(gw@[o as int] == spec_gw(ops@, src@, o as int));
                        assert(widths_done(ops@, src@, gw@, end@, k1)) by {
                            assert forall|o2: int|
                                #![trigger gw@[o2]]
                                0 <= o2 < n && o2 < k1 && ops@[o2] is Open && matched_before(
                                    ops@,
                                    o2,
                                    k1,
                                ) && o2 != o implies o2 < k && matched_before(ops@, o2, k as int) by {
                                if !(o2 < k && matched_before(ops@, o2, k as int)) {
                                    assert(gw@[o2] == old_gw[o2]);
                                }
                            }
                        }
                    }
                } else {
                    proof {
                        assert forall|o: int|
                            #![trigger gw@[o]]
                            0 <= o < n && !(o < k && ops@[o] is Open && matched_before(
                                ops@,
                                o,
                                k as int,
                            )) implies !(o < k1 && ops@[o] is Open && matched_before(ops@, o, k1)) by {
                            if o < k && ops@[o] is Open {
                                let t = choose|t: int| 0 <= t < stack@.len() && stack@[t].0 == o;
                            }
                        }
                        assert(widths_done(ops@, src@, gw@, end@, k1)) by {
                            assert forall|o: int|
                                #![trigger gw@[o]]
                                0 <= o < n && o < k1 && ops@[o] is Open && matched_before(
                                    ops@,
                                    o,
                                    k1,
                                ) implies o < k && matched_before(ops@, o, k as int) by {
                                if !matched_before(ops@, o, k as int) {
                                    let t = choose|t: int|
                                        0 <= t < stack@.len() && stack@[t].0 == o;
                                }
                            }
                        }
                    }
                }
            },
            _ => {
                proof {
                    assert forall|t: int| #![trigger stack@[t]] 0 <= t < stack@.len() implies close_of(
                        ops@,
                        stack@[t].0 + 1,
                        0,
                    ) == close_of(ops@, k1, (stack@.len() - 1 - t) as nat) by {
                        lemma_close_step(ops@, k as int, (stack@.len() - 1 - t) as nat);
                    }
                    assert forall|o: int|
                        #![trigger gw@[o]]
                        0 <= o < n && !(o < k && ops@[o] is Open && matched_before(ops@, o, k as int))
                            implies !(o < k1 && ops@[o] is Open && matched_before(ops@, o, k1)) by {
                        if o < k && ops@[o] is Open {
                            let t = choose|t: int| 0 <= t < stack@.len() && stack@[t].0 == o;
                            lemma_still_open(ops@, o, k as int, (stack@.len() - 1 - t) as nat);
                        }
                    }
                    assert(widths_done(ops@, src@, gw@, end@, k1)) by {
                        assert forall|o: int|
                            #![trigger gw@[o]]
                            0 <= o < n && o < k1 && ops@[o] is Open && matched_before(ops@, o, k1)
                                implies o < k && matched_before(ops@, o, k as int) by {
                            if !matched_before(ops@, o, k as int) {
                                let t = choose|t: int| 0 <= t < stack@.len() && stack@[t].0 == o;
                                lemma_still_open(
                                    ops@,
                                    o,
                                    k as int,
                                    (stack@.len() - 1 - t) as nat,
                                );
                            }
                        }
                    }
                }
                cum = cum + op_width(op, src);
            },
        }
        k = k + 1;
    }
    (gw, end, stack)
}

/// Flat width of each group (at the index of its `Open`) and the index of
/// its `Close`.
#[verifier::rlimit(40)]
fn group_widths(ops: &[Op], src: &[u8]) -> (r: (Vec<u64>, Vec<usize>))
    requires
        ops_in_bounds(ops@, src@),
        spec_cum(ops@, src@, ops@.len() as int) <= u64::MAX,
    ensures
        r.0@.len() == ops@.len(),
        r.1@.len() == ops@.len(),
        forall|i: int| 0 <= i < ops@.len() ==> r.0@[i] == spec_gw(ops@, src@, i),
        forall|i: int| 0 <= i < ops@.len() ==> r.1@[i] == spec_gend(ops@, i),
{
    let (mut gw, mut end, stack) = scan_groups(ops, src);
    let n = ops.len();
    // an unbalanced Open makes a group unfittable rather than wrong
    let last: usize = if n > 0 { n - 1 } else { 0 };
    proof {
        assert forall|t: int| 0 <= t < stack@.len() implies close_of(
            ops@,
            #[trigger] stack@[t].0 + 1,
            0,
        ) is None by {
            assert(close_of(ops@, n as int, (stack@.len() - 1 - t) as nat) is None);
        }
        assert forall|o: int|
            #![trigger gw@[o]]
            0 <= o < n && !(ops@[o] is Open) implies gw@[o] == 0 && end@[o] == 0 by {
            assert(!(o < n && ops@[o] is Open && matched_before(ops@, o, n as int)));
        }
    }
    let mut s: usize = 0;
    while s < stack.len()
        invariant
            n == ops@.len(),
            s <= stack@.len(),
            last == if n > 0 { n - 1 } else { 0 },
            gw@.len() == n,
            end@.len() == n,
            stack_ok(ops@, src@, stack@, n as int),
            forall|t: int| 0 <= t < stack@.len() ==> close_of(ops@, #[trigger] stack@[t].0 + 1, 0) is None,
            forall|o: int|
                #![trigger gw@[o]]
                0 <= o < n && !(ops@[o] is Open) ==> gw@[o] == 0 && end@[o] == 0,
            forall|o: int|
                #![trigger gw@[o]]
                0 <= o < n && ops@[o] is Open && matched_before(ops@, o, n as int) ==> gw@[o]
                    == spec_gw(ops@, src@, o) && end@[o] == spec_gend(ops@, o),
            forall|t: int|
                0 <= t < s ==> gw@[#[trigger] stack@[t].0 as int] == spec_gw(ops@, src@, stack@[t].0 as int)
                    && end@[stack@[t].0 as int] == spec_gend(ops@, stack@[t].0 as int),
        decreases stack@.len() - s,
    {
        let o = stack[s].0;
        let ghost old_gw = gw@;
        let ghost old_end = end@;
        gw.set(o, INF);
        end.set(o, last);
        proof {
            assert forall|o2: int|
                #![trigger gw@[o2]]
                0 <= o2 < n && ops@[o2] is Open && matched_before(ops@, o2, n as int) implies gw@[o2]
                    == spec_gw(ops@, src@, o2) && end@[o2] == spec_gend(ops@, o2) by {
                assert(o2 != o);
                assert(gw@[o2] == old_gw[o2]);
                assert(end@[o2] == old_end[o2]);
            }
            assert forall|o2: int|
                #![trigger gw@[o2]]
                0 <= o2 < n && !(ops@[o2] is Open) implies gw@[o2] == 0 && end@[o2] == 0 by {
                assert(ops@[stack@[s as int].0 as int] is Open);
                assert(gw@[o2] == old_gw[o2]);
                assert(end@[o2] == old_end[o2]);
            }
            assert forall|t: int| 0 <= t < s + 1 implies gw@[#[trigger] stack@[t].0 as int] == spec_gw(
                ops@,
                src@,
                stack@[t].0 as int,
            ) && end@[stack@[t].0 as int] == spec_gend(ops@, stack@[t].0 as int) by {
                if t < s {
                    assert(stack@[t].0 < stack@[s as int].0);
                    assert(gw@[stack@[t].0 as int] == old_gw[stack@[t].0 as int]);
                }
            }
        }
        s = s + 1;
    }
    proof {
        assert forall|i: int| 0 <= i < ops@.len() implies #[trigger] gw@[i] == spec_gw(ops@, src@, i)
            && end@[i] == spec_gend(ops@, i) by {
            if ops@[i] is Open {
                if !matched_before(ops@, i, n as int) {
                    assert(stack_ok(ops@, src@, stack@, n as int));
                    assert(0 <= i < n && ops@[i] is Open && !matched_before(ops@, i, n as int));
                    let t = choose|t: int| 0 <= t < stack@.len() && stack@[t].0 == i;
                    assert(0 <= t < s);
                    assert(gw@[stack@[t].0 as int] == spec_gw(ops@, src@, stack@[t].0 as int));
                    assert(end@[stack@[t].0 as int] == spec_gend(ops@, stack@[t].0 as int));
                } else {
                    assert(gw@[i] == spec_gw(ops@, src@, i));
                    assert(end@[i] == spec_gend(ops@, i));
                }
            } else {
                assert(0 <= i < n);
                assert(!(ops@[i] is Open));
                assert(gw@[i] == 0);
                assert(end@[i] == 0);
                assert(spec_gend(ops@, i) == 0);
            }
        }
        assert forall|i: int| 0 <= i < ops@.len() implies #[trigger] end@[i] == spec_gend(ops@, i) by {
            assert(gw@[i] == spec_gw(ops@, src@, i));
        }
    }
    (gw, end)
}

/// Whether the group opened at `o` found its `Close` before index `k`.
pub open spec fn matched_before(ops: Seq<Op>, o: int, k: int) -> bool {
    close_of(ops, o + 1, 0) matches Some(j) && j < k
}

/// Width of what follows index `i` up to the next break opportunity of any
/// kind (an optimistic tail: it stops at the first `Line`/`Soft` even inside
/// a group that has not been decided yet).
fn tail_widths(ops: &[Op], src: &[u8]) -> (r: Vec<u64>)
    requires
        ops_in_bounds(ops@, src@),
        ops@.len() < usize::MAX,
    ensures
        r@.len() == ops@.len() + 1,
        forall|i: int| 0 <= i <= ops@.len() ==> r@[i] == spec_tail(ops@, src@, i),
{
    let n = ops.len();
    let mut tail: Vec<u64> = Vec::new();
    let mut z: usize = 0;
    while z <= n
        invariant
            z <= n + 1,
            n == ops@.len(),
            n < usize::MAX,
            tail@.len() == z,
            forall|i: int| 0 <= i < z ==> tail@[i] == 0,
        decreases n + 1 - z,
    {
        tail.push(0);
        z = z + 1;
    }
    let mut i: usize = n;
    while i > 0
        invariant
            i <= n,
            n == ops@.len(),
            ops_in_bounds(ops@, src@),
            tail@.len() == n + 1,
            tail@[n as int] == 0,
            forall|j: int| i <= j <= n ==> tail@[j] == spec_tail(ops@, src@, j),
        decreases i,
    {
        i = i - 1;
        let next = tail[i + 1];
        let v: u64 = match ops[i] {
            Op::Hard | Op::Blank | Op::Line | Op::Soft | Op::Close => 0,
            Op::Open | Op::Indent | Op::Dedent => next,
            op => op_width(op, src).saturating_add(next),
        };
        tail.set(i, v);
    }
    tail
}

// ---------------------------------------------------------------------------
// The renderer
// ---------------------------------------------------------------------------

pub open spec fn identish(c: u8) -> bool {
    (48u8 <= c && c <= 57u8) || (65u8 <= c && c <= 90u8) || (97u8 <= c && c <= 122u8) || c == 95u8
}

/// Whether emitting `b` (whose second byte is `b2`) directly after `a` would
/// change the token stream under the lexer's maximal munch.
pub open spec fn spec_glues(a: u8, b: u8, b2: Option<u8>) -> bool {
    ||| identish(a) && identish(b)
    ||| a == 45u8 && (b == 62u8 || b == 61u8)
    ||| a == 61u8 && (b == 62u8 || b == 61u8)
    ||| a == 33u8 && b == 61u8
    ||| a == 60u8 && (b == 60u8 || b == 61u8)
    ||| a == 62u8 && (b == 62u8 || b == 61u8)
    ||| (a == 43u8 || a == 42u8 || a == 47u8 || a == 37u8) && b == 61u8
    ||| (a == 38u8 || a == 124u8 || a == 94u8) && b == 61u8
    ||| a == 47u8 && (b == 47u8 || b == 42u8)
    ||| a == 46u8 && b == 46u8
    ||| 48u8 <= a && a <= 57u8 && b == 46u8 && (b2 matches Some(c) && 48u8 <= c && c <= 57u8)
}

/// The renderer's state between two ops.
pub struct Layout {
    pub out: Seq<u8>,
    /// One entry per open group: whether it prints flat.
    pub flat: Seq<bool>,
    pub indent: int,
    pub col: int,
    /// 0 = nothing pending, 1 = newline, 2 = newline and a blank line.
    pub pending: int,
    pub space: bool,
    /// Last byte emitted on this line, for the token-gluing guard.
    pub last: Option<u8>,
}

pub open spec fn top_flat(flat: Seq<bool>) -> bool {
    flat.len() > 0 && flat.last()
}

pub open spec fn spaces(n: nat) -> Seq<u8> {
    Seq::new(n, |i: int| 32u8)
}

/// Index just past the last newline of `t` (0 when there is none).
pub open spec fn line_start_of_tail(t: Seq<u8>) -> int
    decreases t.len(),
{
    if t.len() == 0 {
        0
    } else if t.last() == 10u8 {
        t.len() as int
    } else {
        line_start_of_tail(t.drop_last())
    }
}

/// The column after emitting a text that spans lines.
pub open spec fn multiline_col(t: Seq<u8>) -> int {
    match spec_text_width(t.subrange(line_start_of_tail(t), t.len() as int)) {
        Some(w) => w as int,
        None => 0,
    }
}

/// Only a comment starts with `//` or `/*`.
pub open spec fn is_comment_start(t: Seq<u8>) -> bool {
    t.len() >= 2 && t[0] == 47u8 && (t[1] == 47u8 || t[1] == 42u8)
}

/// A pending line break, then the indent, before the first text of a line.
pub open spec fn break_line(s: Layout) -> Layout {
    if s.pending > 0 {
        let nl = if s.out.len() > 0 {
            if s.pending == 2 {
                s.out.push(10u8).push(10u8)
            } else {
                s.out.push(10u8)
            }
        } else {
            s.out
        };
        Layout {
            out: nl + spaces((s.indent * 4) as nat),
            flat: s.flat,
            indent: s.indent,
            col: s.indent * 4,
            pending: 0,
            space: false,
            last: None,
        }
    } else {
        s
    }
}

pub open spec fn put_space(s: Layout) -> Layout {
    if s.space {
        Layout { out: s.out.push(32u8), col: s.col + 1, space: false, last: Some(32u8), ..s }
    } else {
        s
    }
}

pub open spec fn glue_guard(s: Layout, t: Seq<u8>) -> Layout {
    let b2 = if t.len() > 1 { Some(t[1]) } else { None };
    if s.last matches Some(p) && spec_glues(p, t[0], b2) {
        Layout { out: s.out.push(32u8), col: s.col + 1, ..s }
    } else {
        s
    }
}

pub open spec fn put_text(s: Layout, t: Seq<u8>) -> Layout {
    let col = match spec_text_width(t) {
        Some(w) => s.col + w,
        None => multiline_col(t),
    };
    Layout { out: s.out + t, col: col, last: Some(t.last()), ..s }
}

/// Emitting one source slice.
pub open spec fn src_step(s: Layout, t: Seq<u8>) -> Layout {
    if t.len() == 0 {
        s
    } else {
        let s4 = put_text(glue_guard(put_space(break_line(s)), t), t);
        if s.pending > 0 && is_comment_start(t) {
            // a comment that starts a line owns that line
            Layout { pending: 1, space: false, ..s4 }
        } else {
            s4
        }
    }
}

pub open spec fn wants_break(s: Layout) -> Layout {
    Layout { pending: if s.pending > 1 { s.pending } else { 1 }, space: false, ..s }
}

/// Whether the group opened at `i` prints flat, seen from state `s`.
pub open spec fn opens_flat(ops: Seq<Op>, src: Seq<u8>, s: Layout, i: int) -> bool {
    let at = if s.pending > 0 {
        s.indent * 4
    } else {
        s.col + if s.space { 1int } else { 0int }
    };
    let need = sat_add(spec_gw(ops, src, i), spec_tail(ops, src, spec_gend(ops, i) + 1));
    top_flat(s.flat) || (need < INF && at + need <= MARGIN)
}

/// The state after `ops[i]`.
pub open spec fn step(ops: Seq<Op>, src: Seq<u8>, s: Layout, i: int) -> Layout {
    match ops[i] {
        Op::Open => Layout { flat: s.flat.push(opens_flat(ops, src, s, i)), ..s },
        Op::Close => Layout {
            flat: if s.flat.len() > 0 {
                s.flat.drop_last()
            } else {
                s.flat
            },
            ..s
        },
        Op::Indent => Layout { indent: s.indent + 1, ..s },
        Op::Dedent => Layout {
            indent: if s.indent > 0 {
                s.indent - 1
            } else {
                0
            },
            ..s
        },
        Op::Space => Layout { space: true, ..s },
        Op::Line => if top_flat(s.flat) {
            Layout { space: true, ..s }
        } else {
            wants_break(s)
        },
        Op::Soft => if top_flat(s.flat) {
            s
        } else {
            wants_break(s)
        },
        Op::Hard => wants_break(s),
        Op::Blank => Layout { pending: 2, space: false, ..s },
        Op::Charge(_) => s,
        Op::Src(a, b) => src_step(s, slice_of(src, a, b)),
    }
}

pub open spec fn initial_layout() -> Layout {
    Layout {
        out: Seq::empty(),
        flat: Seq::empty(),
        indent: 0,
        col: 0,
        pending: 0,
        space: false,
        last: None,
    }
}

/// The state after `ops[0..k]`.
pub open spec fn layout_at(ops: Seq<Op>, src: Seq<u8>, k: int) -> Layout
    decreases k,
{
    if k <= 0 {
        initial_layout()
    } else {
        step(ops, src, layout_at(ops, src, k - 1), k - 1)
    }
}

/// A non-empty output ends with exactly the newline it needs.
pub open spec fn finish(out: Seq<u8>) -> Seq<u8> {
    if out.len() > 0 && out.last() != 10u8 {
        out.push(10u8)
    } else {
        out
    }
}

/// What [`render`] returns.
pub open spec fn spec_render(ops: Seq<Op>, src: Seq<u8>) -> Seq<u8> {
    finish(layout_at(ops, src, ops.len() as int).out)
}

/// A group opened while a line break is pending starts on the new line, at
/// the indent: outside a flat group it prints flat exactly when its flat
/// width plus the text up to the next break opportunity after it fits the
/// margin from `indent * 4`, however far the previous line ran, and whether
/// it prints flat does not depend on the column the previous line ended at.
pub proof fn lemma_group_after_break_measured_from_indent(ops: Seq<Op>, src: Seq<u8>, k: int, col: int)
    requires
        0 <= k < ops.len(),
        ops[k] is Open,
        layout_at(ops, src, k).pending > 0,
    ensures
        ({
            let s = layout_at(ops, src, k);
            let need = sat_add(spec_gw(ops, src, k), spec_tail(ops, src, spec_gend(ops, k) + 1));
            &&& layout_at(ops, src, k + 1).flat.last() == (top_flat(s.flat) || (need < INF && s.indent * 4
                + need <= MARGIN))
            &&& layout_at(ops, src, k + 1).flat == step(ops, src, (Layout { col: col, ..s }), k).flat
        }),
{
    let s = layout_at(ops, src, k);
    assert(layout_at(ops, src, k + 1) == step(ops, src, s, k));
}

/// A group opened mid-line is measured from where its first text goes: a
/// pending space counts as the one column it will take, and a group that
/// prints flat from some column also prints flat from any column before it.
pub proof fn lemma_group_mid_line_measured_from_next_column(ops: Seq<Op>, src: Seq<u8>, s: Layout, k: int, c: int)
    requires
        0 <= k < ops.len(),
        ops[k] is Open,
        s.pending == 0,
    ensures
        step(ops, src, (Layout { space: true, ..s }), k).flat == step(
            ops,
            src,
            (Layout { col: s.col + 1, space: false, ..s }),
            k,
        ).flat,
        c <= s.col && step(ops, src, s, k).flat.last() ==> step(ops, src, (Layout { col: c, ..s }), k).flat.last(),
{
}

fn identish_byte(c: u8) -> (r: bool)
    ensures
        r == identish(c),
{
    (48u8 <= c && c <= 57u8) || (65u8 <= c && c <= 90u8) || (97u8 <= c && c <= 122u8) || c == 95u8
}

fn glues(a: u8, b: u8, b2: Option<u8>) -> (r: bool)
    ensures
        r == spec_glues(a, b, b2),
{
    if identish_byte(a) && identish_byte(b) {
        return true;
    }
    if a == 45u8 && (b == 62u8 || b == 61u8) {
        return true;
    }
    if a == 61u8 && (b == 62u8 || b == 61u8) {
        return true;
    }
    if a == 33u8 && b == 61u8 {
        return true;
    }
    if a == 60u8 && (b == 60u8 || b == 61u8) {
        return true;
    }
    if a == 62u8 && (b == 62u8 || b == 61u8) {
        return true;
    }
    if (a == 43u8 || a == 42u8 || a == 47u8 || a == 37u8) && b == 61u8 {
        return true;
    }
    if (a == 38u8 || a == 124u8 || a == 94u8) && b == 61u8 {
        return true;
    }
    if a == 47u8 && (b == 47u8 || b == 42u8) {
        return true;
    }
    if a == 46u8 && b == 46u8 {
        return true;
    }
    if 48u8 <= a && a <= 57u8 && b == 46u8 {
        return match b2 {
            Some(c) => 48u8 <= c && c <= 57u8,
            None => false,
        };
    }
    false
}

fn line_tail_start(t: &[u8]) -> (r: usize)
    ensures
        r == line_start_of_tail(t@),
        r <= t@.len(),
{
    let mut j = t.len();
    assert(t@.subrange(0, j as int) =~= t@);
    while j > 0 && t[j - 1] != 10u8
        invariant
            j <= t@.len(),
            line_start_of_tail(t@) == line_start_of_tail(t@.subrange(0, j as int)),
        decreases j,
    {
        assert(t@.subrange(0, j as int).drop_last() =~= t@.subrange(0, j - 1));
        j = j - 1;
    }
    if j == 0 {
        assert(t@.subrange(0, 0).len() == 0);
    }
    j
}

fn push_all(out: &mut Vec<u8>, t: &[u8])
    ensures
        final(out)@ == old(out)@ + t@,
{
    let mut i: usize = 0;
    while i < t.len()
        invariant
            i <= t@.len(),
            out@ == old(out)@ + t@.subrange(0, i as int),
        decreases t@.len() - i,
    {
        out.push(t[i]);
        i = i + 1;
        assert(out@ =~= old(out)@ + t@.subrange(0, i as int));
    }
    assert(t@.subrange(0, i as int) =~= t@);
}

proof fn lemma_multiline_col_bound(t: Seq<u8>)
    ensures
        0 <= multiline_col(t) <= t.len(),
    decreases t.len(),
{
    lemma_line_start_bound(t);
    lemma_columns_bound(t.subrange(line_start_of_tail(t), t.len() as int));
}

proof fn lemma_line_start_bound(t: Seq<u8>)
    ensures
        0 <= line_start_of_tail(t) <= t.len(),
    decreases t.len(),
{
    if t.len() > 0 && t.last() != 10u8 {
        lemma_line_start_bound(t.drop_last());
    }
}

/// Renders the op stream. Deterministic: the output is a pure function of
/// `ops` and `src`.
#[verifier::rlimit(80)]
pub fn render(ops: &[Op], src: &[u8]) -> (r: Vec<u8>)
    requires
        ops_in_bounds(ops@, src@),
        spec_cum(ops@, src@, ops@.len() as int) <= u64::MAX,
        ops@.len() <= usize::MAX / 8,
    ensures
        r@ == spec_render(ops@, src@),
{
    let (gw, gend) = group_widths(ops, src);
    let tail = tail_widths(ops, src);
    let n = ops.len();
    let mut out: Vec<u8> = Vec::new();
    let mut flat: Vec<bool> = Vec::new();
    let mut indent: usize = 0;
    let mut col: usize = 0;
    let mut pending: u8 = 0;
    let mut space = false;
    let mut last: Option<u8> = None;
    let mut i: usize = 0;
    while i < n
        invariant
            n == ops@.len(),
            n <= usize::MAX / 8,
            i <= n,
            ops_in_bounds(ops@, src@),
            gw@.len() == n,
            gend@.len() == n,
            tail@.len() == n + 1,
            forall|j: int| 0 <= j < n ==> gw@[j] == spec_gw(ops@, src@, j),
            forall|j: int| 0 <= j < n ==> gend@[j] == spec_gend(ops@, j),
            forall|j: int| 0 <= j <= n ==> tail@[j] == spec_tail(ops@, src@, j),
            out@ == layout_at(ops@, src@, i as int).out,
            flat@ == layout_at(ops@, src@, i as int).flat,
            indent == layout_at(ops@, src@, i as int).indent,
            col == layout_at(ops@, src@, i as int).col,
            pending == layout_at(ops@, src@, i as int).pending,
            space == layout_at(ops@, src@, i as int).space,
            last == layout_at(ops@, src@, i as int).last,
            indent <= i,
            col <= out@.len(),
            pending <= 2,
        decreases n - i,
    {
        let ghost s = layout_at(ops@, src@, i as int);
        proof {
            assert(out.len() == out@.len());
        }
        match ops[i] {
            Op::Open => {
                let inherited = flat.len() > 0 && flat[flat.len() - 1];
                let at: u64 = if pending > 0 {
                    (indent * INDENT) as u64
                } else if space {
                    (col as u64).saturating_add(1)
                } else {
                    col as u64
                };
                let e = gend[i];
                proof {
                    if ops@[i as int] is Open {
                        lemma_close_after(ops@, i + 1, 0);
                    }
                }
                let need = gw[i].saturating_add(tail[e + 1]);
                let fits = need < INF && at <= MARGIN as u64 && at + need <= MARGIN as u64;
                flat.push(inherited || fits);
                proof {
                    assert(flat@ =~= layout_at(ops@, src@, i + 1).flat);
                }
            },
            Op::Close => {
                flat.pop();
                proof {
                    assert(flat@ =~= layout_at(ops@, src@, i + 1).flat);
                }
            },
            Op::Indent => {
                indent = indent + 1;
            },
            Op::Dedent => {
                indent = indent.saturating_sub(1);
            },
            Op::Space => {
                space = true;
            },
            Op::Line => {
                if flat.len() > 0 && flat[flat.len() - 1] {
                    space = true;
                } else {
                    if pending < 1 {
                        pending = 1;
                    }
                    space = false;
                }
            },
            Op::Soft => {
                if !(flat.len() > 0 && flat[flat.len() - 1]) {
                    if pending < 1 {
                        pending = 1;
                    }
                    space = false;
                }
            },
            Op::Hard => {
                if pending < 1 {
                    pending = 1;
                }
                space = false;
            },
            Op::Blank => {
                pending = 2;
                space = false;
            },
            Op::Charge(_) => {},
            Op::Src(a, b) => {
                let text = &src[a as usize..b as usize];
                proof {
                    assert(text@ =~= slice_of(src@, a, b));
                }
                if text.len() > 0 {
                    let at_line_start = pending > 0;
                    if pending > 0 {
                        if out.len() > 0 {
                            out.push(10u8);
                            if pending == 2 {
                                out.push(10u8);
                            }
                        }
                        pending = 0;
                        space = false;
                        last = None;
                        let w = indent * INDENT;
                        let mut m: usize = 0;
                        let ghost base = out@;
                        while m < w
                            invariant
                                m <= w,
                                out@ == base + spaces(m as nat),
                            decreases w - m,
                        {
                            out.push(32u8);
                            m = m + 1;
                            assert(out@ =~= base + spaces(m as nat));
                        }
                        col = w;
                        proof {
                            let b1 = break_line(s);
                            assert(out@ =~= b1.out);
                        }
                    }
                    proof {
                        assert(out.len() == out@.len());
                    }
                    if space {
                        out.push(32u8);
                        proof {
                            assert(out.len() == out@.len());
                        }
                        col = col + 1;
                        space = false;
                        last = Some(32u8);
                    }
                    proof {
                        assert(out.len() == out@.len());
                    }
                    let b2 = if text.len() > 1 {
                        Some(text[1])
                    } else {
                        None
                    };
                    match last {
                        Some(p) => {
                            if glues(p, text[0], b2) {
                                out.push(32u8);
                                proof {
                                    assert(out.len() == out@.len());
                                }
                                col = col + 1;
                            }
                        },
                        None => {},
                    }
                    push_all(&mut out, text);
                    proof {
                        assert(out.len() == out@.len());
                        lemma_columns_bound(text@);
                        lemma_multiline_col_bound(text@);
                    }
                    match text_width(text) {
                        Some(w) => {
                            col = col + w;
                        },
                        None => {
                            let start = line_tail_start(text);
                            let tail_text = &text[start..text.len()];
                            proof {
                                assert(tail_text@ =~= text@.subrange(
                                    line_start_of_tail(text@),
                                    text@.len() as int,
                                ));
                            }
                            col = match text_width(tail_text) {
                                Some(w) => w,
                                None => 0,
                            };
                        },
                    }
                    last = Some(text[text.len() - 1]);
                    if at_line_start && text.len() >= 2 && text[0] == 47u8 && (text[1] == 47u8
                        || text[1] == 42u8) {
                        pending = 1;
                        space = false;
                    }
                    proof {
                        let st = src_step(s, text@);
                        assert(out@ =~= st.out);
                    }
                }
            },
        }
        i = i + 1;
    }
    if out.len() > 0 && out[out.len() - 1] != 10u8 {
        out.push(10u8);
    }
    out
}

// ---------------------------------------------------------------------------
// Losslessness
// ---------------------------------------------------------------------------

/// `t` without its spaces and newlines: what the renderer may not change.
pub open spec fn visible(t: Seq<u8>) -> Seq<u8>
    decreases t.len(),
{
    if t.len() == 0 {
        t
    } else if t.last() == 32u8 || t.last() == 10u8 {
        visible(t.drop_last())
    } else {
        visible(t.drop_last()).push(t.last())
    }
}

/// The source slices of `ops[0..k]`, in order.
pub open spec fn source_text(ops: Seq<Op>, src: Seq<u8>, k: int) -> Seq<u8>
    decreases k,
{
    if k <= 0 {
        Seq::empty()
    } else {
        match ops[k - 1] {
            Op::Src(a, b) => source_text(ops, src, k - 1) + slice_of(src, a, b),
            _ => source_text(ops, src, k - 1),
        }
    }
}

proof fn lemma_visible_concat(a: Seq<u8>, b: Seq<u8>)
    ensures
        visible(a + b) == visible(a) + visible(b),
    decreases b.len(),
{
    if b.len() == 0 {
        assert(a + b =~= a);
        assert(visible(a) + visible(b) =~= visible(a));
    } else {
        lemma_visible_concat(a, b.drop_last());
        assert((a + b).drop_last() =~= a + b.drop_last());
        assert((a + b).last() == b.last());
        if !(b.last() == 32u8 || b.last() == 10u8) {
            assert(visible(a) + visible(b.drop_last()).push(b.last()) =~= (visible(a) + visible(
                b.drop_last(),
            )).push(b.last()));
        }
    }
}

proof fn lemma_visible_spaces(n: nat)
    ensures
        visible(spaces(n)) == Seq::<u8>::empty(),
    decreases n,
{
    if n > 0 {
        assert(spaces(n).drop_last() =~= spaces((n - 1) as nat));
        lemma_visible_spaces((n - 1) as nat);
    } else {
        assert(spaces(n) =~= Seq::<u8>::empty());
    }
}

proof fn lemma_visible_blank(t: Seq<u8>, c: u8)
    requires
        c == 32u8 || c == 10u8,
    ensures
        visible(t.push(c)) == visible(t),
{
    assert(t.push(c).drop_last() =~= t);
}

proof fn lemma_src_step_visible(s: Layout, t: Seq<u8>)
    ensures
        visible(src_step(s, t).out) == visible(s.out) + visible(t),
{
    if t.len() == 0 {
        assert(visible(t) =~= Seq::<u8>::empty());
        assert(visible(s.out) + visible(t) =~= visible(s.out));
    } else {
        let b = break_line(s);
        if s.pending > 0 {
            let nl = if s.out.len() > 0 {
                if s.pending == 2 {
                    s.out.push(10u8).push(10u8)
                } else {
                    s.out.push(10u8)
                }
            } else {
                s.out
            };
            if s.out.len() > 0 {
                lemma_visible_blank(s.out, 10u8);
                if s.pending == 2 {
                    lemma_visible_blank(s.out.push(10u8), 10u8);
                }
            }
            assert(visible(nl) == visible(s.out));
            lemma_visible_concat(nl, spaces((s.indent * 4) as nat));
            lemma_visible_spaces((s.indent * 4) as nat);
            assert(visible(nl) + Seq::<u8>::empty() =~= visible(nl));
        }
        assert(visible(b.out) == visible(s.out));
        let p = put_space(b);
        if b.space {
            lemma_visible_blank(b.out, 32u8);
        }
        let g = glue_guard(p, t);
        if g.out != p.out {
            lemma_visible_blank(p.out, 32u8);
        }
        assert(visible(g.out) == visible(s.out));
        lemma_visible_concat(g.out, t);
    }
}

proof fn lemma_layout_visible(ops: Seq<Op>, src: Seq<u8>, k: int)
    requires
        0 <= k <= ops.len(),
    ensures
        visible(layout_at(ops, src, k).out) == visible(source_text(ops, src, k)),
    decreases k,
{
    if k > 0 {
        lemma_layout_visible(ops, src, k - 1);
        let s = layout_at(ops, src, k - 1);
        match ops[k - 1] {
            Op::Src(a, b) => {
                lemma_src_step_visible(s, slice_of(src, a, b));
                lemma_visible_concat(source_text(ops, src, k - 1), slice_of(src, a, b));
            },
            Op::Line => {
                if !top_flat(s.flat) {
                    assert(wants_break(s).out == s.out);
                }
            },
            _ => {},
        }
    } else {
        assert(visible(Seq::<u8>::empty()) =~= Seq::<u8>::empty());
    }
}

/// Losslessness: the renderer adds and removes only spaces and newlines.
/// With those taken out, what it returns is exactly the source slices of
/// the `Src` ops, in op order.
pub proof fn lemma_render_keeps_source_text(ops: Seq<Op>, src: Seq<u8>)
    ensures
        visible(spec_render(ops, src)) == visible(source_text(ops, src, ops.len() as int)),
{
    let out = layout_at(ops, src, ops.len() as int).out;
    lemma_layout_visible(ops, src, ops.len() as int);
    if out.len() > 0 && out.last() != 10u8 {
        lemma_visible_blank(out, 10u8);
    }
}

/// A non-empty rendering ends with a newline.
pub proof fn lemma_render_ends_with_newline(ops: Seq<Op>, src: Seq<u8>)
    ensures
        spec_render(ops, src).len() == 0 || spec_render(ops, src).last() == 10u8,
{
}

} // verus!
