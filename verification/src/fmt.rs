//! The formatter's layout renderer, its line diff, and the results a format
//! run reports.
//!
//! Lexing and parsing a buffer belong to the front end; what a format run
//! decides from their results (the check, the range filter, the newline
//! normalisation) is here.

pub mod doc;
pub mod diff;

use vstd::prelude::*;

use crate::fmt::diff::{TextEdit, EditView, edits_view, diff_result, diff, copy_edit, spec_diff};

verus! {

#[derive(Clone, Copy, PartialEq, Eq, Structural, Debug)]
pub enum Status {
    /// The buffer was formatted and the result verified.
    Formatted,
    /// The buffer does not parse (or does not lex); it was returned
    /// unchanged.
    ParseFailed,
    /// The formatter produced output that would not have re-lexed to the
    /// same tokens, so it declined: the buffer was returned unchanged.
    Bailed,
}

/// The result of formatting one buffer.
pub struct Formatted {
    pub text: Vec<u8>,
    pub status: Status,
    pub changed: bool,
    /// Parse diagnostics of the input (0 unless `status` is `ParseFailed`).
    pub parse_diagnostics: usize,
}

impl Formatted {
    pub fn is_ok(&self) -> (r: bool)
        ensures
            r == (self.status == Status::Formatted),
    {
        match self.status {
            Status::Formatted => true,
            _ => false,
        }
    }
}

/// `src` with every `\r` that directly precedes a `\n` removed (the first
/// `k` bytes of it). A lone `\r` stays where it is.
pub open spec fn lf_only(src: Seq<u8>, k: int) -> Seq<u8>
    decreases k,
{
    if k <= 0 {
        Seq::empty()
    } else if src[k - 1] == 13u8 && k < src.len() && src[k] == 10u8 {
        lf_only(src, k - 1)
    } else {
        lf_only(src, k - 1).push(src[k - 1])
    }
}

/// `CRLF` becomes `LF`: a whitespace-only change, done before lexing because
/// a `\r` before the newline that ends a line comment is part of that
/// comment's text.
pub fn normalise_newlines(src: &[u8]) -> (r: Vec<u8>)
    ensures
        r@ == lf_only(src@, src@.len() as int),
{
    let mut v: Vec<u8> = Vec::new();
    let mut i: usize = 0;
    while i < src.len()
        invariant
            i <= src@.len(),
            v@ == lf_only(src@, i as int),
        decreases src@.len() - i,
    {
        if src[i] == 13u8 && i + 1 < src.len() && src[i + 1] == 10u8 {
        } else {
            v.push(src[i]);
        }
        i = i + 1;
    }
    v
}

/// Whether a buffer is in canonical form, with the edits that would fix it.
pub struct Check {
    pub formatted: bool,
    pub status: Status,
    /// Empty when `formatted`; otherwise the line edits that turn the input
    /// into the canonical form.
    pub edits: Vec<TextEdit>,
}

/// Reports whether `src` is already in canonical form, given the result of
/// formatting it, with the edits that would fix it.
pub fn check_source(src: &[u8], formatted: &Formatted) -> (r: Check)
    requires
        (src@.len() + formatted.text@.len()) * 4 + 8 <= isize::MAX,
    ensures
        r.formatted == !formatted.changed,
        r.status == formatted.status,
        formatted.changed ==> diff_result(src@, formatted.text@, edits_view(r.edits@)),
        edits_view(r.edits@) == check_edits(src@, formatted.changed, formatted.text@),
        !formatted.changed ==> r.edits@.len() == 0,
{
    let edits = if formatted.changed {
        diff(src, formatted.text.as_slice())
    } else {
        Vec::new()
    };
    Check { formatted: !formatted.changed, status: formatted.status, edits }
}

/// The edits a check reports: the diff to the formatted text when
/// formatting changed it, none otherwise.
pub open spec fn check_edits(src: Seq<u8>, changed: bool, text: Seq<u8>) -> Seq<EditView> {
    if changed {
        spec_diff(src, text)
    } else {
        Seq::empty()
    }
}

/// Whether an edit touches the span `[start, end)` (an empty span touches
/// the edits around its position).
pub open spec fn touches(e: EditView, start: u32, end: u32) -> bool {
    let hi: int = if end >= start + 1 {
        end as int
    } else {
        start + 1
    };
    e.0 < hi && e.1 > start
}

/// The edits among `es[0..k]` that touch `[start, end)`, in order.
pub open spec fn edits_touching(es: Seq<EditView>, start: u32, end: u32, k: int) -> Seq<EditView>
    decreases k,
{
    if k <= 0 {
        Seq::empty()
    } else if touches(es[k - 1], start, end) {
        edits_touching(es, start, end, k - 1).push(es[k - 1])
    } else {
        edits_touching(es, start, end, k - 1)
    }
}

/// An edit survives range filtering exactly when it is one of the edits and
/// its bytes `[e.0, e.1)` overlap the span `[start, max(end, start + 1))`.
proof fn lemma_touching_members(es: Seq<EditView>, start: u32, end: u32, k: int, e: EditView)
    requires
        0 <= k <= es.len(),
    ensures
        edits_touching(es, start, end, k).contains(e) <==> exists|j: int|
            0 <= j < k && es[j] == e && e.0 < (if end > start {
                end as int
            } else {
                start + 1
            }) && start < e.1,
    decreases k,
{
    let hi: int = if end > start {
        end as int
    } else {
        start + 1
    };
    if k > 0 {
        lemma_touching_members(es, start, end, k - 1, e);
        let prev = edits_touching(es, start, end, k - 1);
        if edits_touching(es, start, end, k).contains(e) {
            if !prev.contains(e) {
                let t = choose|t: int| 0 <= t < edits_touching(es, start, end, k).len()
                    && edits_touching(es, start, end, k)[t] == e;
                assert(t == prev.len());
                assert(es[k - 1] == e && e.0 < hi && start < e.1);
            }
        } else {
            if exists|j: int| 0 <= j < k && es[j] == e && e.0 < hi && start < e.1 {
                let j = choose|j: int| 0 <= j < k && es[j] == e && e.0 < hi && start < e.1;
                if j < k - 1 {
                    let t = choose|t: int| 0 <= t < prev.len() && prev[t] == e;
                    assert(edits_touching(es, start, end, k)[t] == e);
                } else {
                    let cur = edits_touching(es, start, end, k);
                    assert(cur[cur.len() - 1] == e);
                }
            }
        }
    }
}

/// Whether an edit's bytes `[e.0, e.1)` overlap the span `[start,
/// max(end, start + 1))`.
pub open spec fn overlaps_span(start: u32, end: u32) -> spec_fn(EditView) -> bool {
    |e: EditView|
        e.0 < (if end > start {
            end as int
        } else {
            start + 1
        }) && start < e.1
}

/// Range filtering over the first `k` edits is the order-preserving filter
/// of those edits by overlap with the span.
proof fn lemma_touching_is_filter(es: Seq<EditView>, start: u32, end: u32, k: int)
    requires
        0 <= k <= es.len(),
    ensures
        edits_touching(es, start, end, k) == es.subrange(0, k).filter(overlaps_span(start, end)),
    decreases k,
{
    reveal(Seq::filter);
    let pred = overlaps_span(start, end);
    let pre = es.subrange(0, k);
    if k > 0 {
        lemma_touching_is_filter(es, start, end, k - 1);
        assert(pre.drop_last() =~= es.subrange(0, k - 1));
        assert(pre.last() == es[k - 1]);
        assert(pre.filter(pred) == if pred(pre.last()) {
            pre.drop_last().filter(pred).push(pre.last())
        } else {
            pre.drop_last().filter(pred)
        });
    } else {
        assert(pre.len() == 0);
    }
}

/// Range formatting keeps exactly the edits of the whole-buffer check whose
/// byte range `[e.0, e.1)` overlaps the span `[start, max(end, start + 1))`,
/// in their order; in particular an edit that covers the span's first byte
/// is always kept.
pub proof fn lemma_range_keeps_overlapping_edits(src: Seq<u8>, changed: bool, text: Seq<u8>, start: u32, end: u32, e: EditView)
    ensures
        ({
            let all = check_edits(src, changed, text);
            let kept = edits_touching(all, start, end, all.len() as int);
            &&& kept.contains(e) <==> (all.contains(e) && e.0 < (if end > start {
                end as int
            } else {
                start + 1
            }) && start < e.1)
            &&& (all.contains(e) && e.0 <= start < e.1) ==> kept.contains(e)
            &&& kept == all.filter(overlaps_span(start, end))
        }),
{
    let all = check_edits(src, changed, text);
    lemma_touching_members(all, start, end, all.len() as int, e);
    lemma_touching_is_filter(all, start, end, all.len() as int);
    assert(all.subrange(0, all.len() as int) =~= all);
}

/// Formats the lines touched by `[start, end)` and keeps only the edits
/// inside that span: whole-buffer formatting with the edits filtered, so it
/// can never disagree with formatting the whole buffer.
pub fn format_range(src: &[u8], formatted: &Formatted, start: u32, end: u32) -> (r: Check)
    requires
        (src@.len() + formatted.text@.len()) * 4 + 8 <= isize::MAX,
        start < u32::MAX,
    ensures
        r.formatted == !formatted.changed,
        r.status == formatted.status,
        exists|all: Seq<EditView>|
            (if formatted.changed {
                diff_result(src@, formatted.text@, all)
            } else {
                all.len() == 0
            }) && edits_view(r.edits@) == edits_touching(all, start, end, all.len() as int),
        edits_view(r.edits@) == edits_touching(
            check_edits(src@, formatted.changed, formatted.text@),
            start,
            end,
            check_edits(src@, formatted.changed, formatted.text@).len() as int,
        ),
{
    let c = check_source(src, formatted);
    let hi: u32 = if end >= start + 1 {
        end
    } else {
        start + 1
    };
    let mut kept: Vec<TextEdit> = Vec::new();
    let mut i: usize = 0;
    while i < c.edits.len()
        invariant
            i <= c.edits@.len(),
            hi == if end >= start + 1 { end as int } else { start + 1 },
            edits_view(kept@) == edits_touching(edits_view(c.edits@), start, end, i as int),
        decreases c.edits@.len() - i,
    {
        let e = &c.edits[i];
        let ghost before = kept@;
        if e.start < hi && e.end > start {
            kept.push(copy_edit(e));
            assert(edits_view(kept@) =~= edits_view(before).push(e.view_of()));
        }
        i = i + 1;
    }
    let ghost all = edits_view(c.edits@);
    assert(all.len() == c.edits@.len());
    assert(edits_view(kept@) == edits_touching(all, start, end, all.len() as int));
    assert(if formatted.changed {
        diff_result(src@, formatted.text@, all)
    } else {
        all.len() == 0
    });
    Check { formatted: c.formatted, status: c.status, edits: kept }
}

} // verus!
