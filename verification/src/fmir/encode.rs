//! The canonical byte encoding of one declaration: a faithful, order-preserving
//! little-endian `u32`-word serialization of every pool, its decoder, and the
//! block canonicalization the content hash is computed over.
//!
//! Every pool is written as a count followed by its rows; every row has a
//! fixed shape of words. Decoding a declaration's encoding gives back a
//! declaration with the same content, so re-encoding it gives the same bytes.

use vstd::prelude::*;

use crate::fir::defpath::DeclKeyId;
use crate::fir::sig::{Conv, FnSigId};
use crate::fir::ty::TyId;
use crate::fmir::alias::AliasSeed;
use crate::fmir::block::BlockRow;
use crate::fmir::constpool::ConstValue;
use crate::fmir::ids::{BlockId, BrandId, InstId, PlaceId, RegionId, ScopeId, SiteId, ValId};
use crate::fmir::inst::{CallRow, Callee, InstRow, ReduceRow, SwitchArm, SwitchRow};
use crate::fmir::op::{lemma_op_parts_round_trip, Op};
use crate::fmir::place::Seg;
use crate::fmir::region::{CaptureRow, RegionKind, RegionRow};
use crate::fmir::scope::{DeferKind, DeferRow, ScopeRow};
use crate::fmir::site::SiteRow;
use crate::fmir::value::{ValPool, ValRow};
use crate::fmir::decl::DeclFmir;
use crate::fmir::place::{PlacePool, PlaceRow};
use crate::fmir::alias::AliasSeedPool;
use crate::fmir::block::BlockPool;
use crate::fmir::constpool::ConstPool;
use crate::fmir::inst::InstPool;
use crate::fmir::region::{CapturePool, RegionPool};
use crate::fmir::scope::{DeferPool, PlaceListPool, ScopePool};
use crate::fmir::site::SitePool;
use crate::fmir::constpool::no_duplicates;
use crate::fmir::flags::ValFlags;
use crate::index::Symbol;

verus! {

/// Why a byte string is not a declaration's encoding.
#[derive(Debug, Clone, PartialEq, Eq)]
pub struct DecodeError(pub String);

fn err(msg: &str) -> (e: DecodeError)
    ensures
        e.0@ == msg@,
{
    DecodeError(msg.to_string())
}

// ---------------------------------------------------------------------------
// Word sequences.

/// `w` holds `s` starting at position `p`.
pub open spec fn at(w: Seq<u32>, p: int, s: Seq<u32>) -> bool {
    &&& 0 <= p
    &&& p + s.len() <= w.len()
    &&& w.subrange(p, p + s.len()) == s
}

pub proof fn lemma_at_concat(w: Seq<u32>, p: int, a: Seq<u32>, b: Seq<u32>)
    requires
        at(w, p, a + b),
    ensures
        at(w, p, a),
        at(w, p + a.len(), b),
{
    let big = w.subrange(p, p + (a + b).len());
    assert(big == a + b);
    assert forall|k: int| 0 <= k < a.len() implies w.subrange(p, p + a.len())[k] == a[k] by {
        assert(big[k] == (a + b)[k]);
    }
    assert(w.subrange(p, p + a.len()) =~= a);
    assert forall|k: int| 0 <= k < b.len() implies w.subrange(p + a.len(), p + a.len() + b.len())[k] == b[k] by {
        assert(big[a.len() + k] == (a + b)[a.len() + k]);
    }
    assert(w.subrange(p + a.len(), p + a.len() + b.len()) =~= b);
}

/// A value with a fixed word encoding, written and read back by the codec.
pub trait Wire: Sized {
    spec fn words(self) -> Seq<u32>;
}

/// The concatenated encodings of a sequence of rows.
pub open spec fn cat<A: Wire>(s: Seq<A>) -> Seq<u32>
    decreases s.len(),
{
    if s.len() == 0 {
        Seq::empty()
    } else {
        s[0].words() + cat(s.drop_first())
    }
}

/// A count word followed by the rows.
pub open spec fn counted<A: Wire>(s: Seq<A>) -> Seq<u32> {
    seq![s.len() as u32] + cat(s)
}

pub proof fn lemma_cat_push<A: Wire>(s: Seq<A>, x: A)
    ensures
        cat(s.push(x)) == cat(s) + x.words(),
    decreases s.len(),
{
    if s.len() == 0 {
        assert(s.push(x).drop_first() =~= Seq::<A>::empty());
        assert(s.push(x)[0] == x);
        assert(cat(Seq::<A>::empty()) == Seq::<u32>::empty());
        assert(cat(s.push(x)) =~= x.words());
    } else {
        assert(s.push(x).drop_first() =~= s.drop_first().push(x));
        lemma_cat_push(s.drop_first(), x);
        assert(cat(s.push(x)) =~= cat(s) + x.words());
    }
}

pub proof fn lemma_cat_front<A: Wire>(w: Seq<u32>, p: int, s: Seq<A>, i: int)
    requires
        0 <= i < s.len(),
        at(w, p, cat(s.skip(i))),
    ensures
        at(w, p, s[i].words()),
        at(w, p + s[i].words().len(), cat(s.skip(i + 1))),
{
    assert(s.skip(i)[0] == s[i]);
    assert(s.skip(i).drop_first() =~= s.skip(i + 1));
    lemma_at_concat(w, p, s[i].words(), cat(s.skip(i + 1)));
}

/// Little-endian 64-bit value as two words.
pub open spec fn u64_words(v: u64) -> Seq<u32> {
    seq![v as u32, (v >> 32u64) as u32]
}

/// One word.
pub open spec fn one(x: u32) -> Seq<u32> {
    seq![x]
}

pub open spec fn u16_words(x: u16) -> Seq<u32> {
    seq![x as u32]
}

pub open spec fn u8_words(x: u8) -> Seq<u32> {
    seq![x as u32]
}

pub open spec fn bool_words(b: bool) -> Seq<u32> {
    seq![bool_word(b)]
}

pub open spec fn range_words(r: core::ops::Range<u32>) -> Seq<u32> {
    seq![r.start, r.end]
}

pub open spec fn bool_word(b: bool) -> u32 {
    if b {
        1
    } else {
        0
    }
}

/// The 64-bit value two little-endian words hold.
pub open spec fn u64_of(lo: u32, hi: u32) -> u64 {
    (lo as u64) | ((hi as u64) << 32u64)
}

pub proof fn lemma_u64_words(v: u64)
    ensures
        u64_of(u64_words(v)[0], u64_words(v)[1]) == v,
        u64_of(u64_words(v)[0], u64_words(v)[1]) as i64 == v as i64,
{
    assert(((v as u32) as u64 | (((v >> 32u64) as u32) as u64) << 32u64) == v) by (bit_vector);
}

pub proof fn lemma_i64_words(v: i64)
    ensures
        u64_of(u64_words(v as u64)[0], u64_words(v as u64)[1]) as i64 == v,
{
    lemma_u64_words(v as u64);
    assert((v as u64) as i64 == v) by (bit_vector);
}

/// The words at `p` are `s`, element by element.
pub proof fn lemma_at_index(w: Seq<u32>, p: int, s: Seq<u32>)
    requires
        at(w, p, s),
    ensures
        forall|k: int| 0 <= k < s.len() ==> w[p + k] == #[trigger] s[k],
{
    assert forall|k: int| 0 <= k < s.len() implies w[p + k] == #[trigger] s[k] by {
        assert(w.subrange(p, p + s.len())[k] == s[k]);
    }
}

// ---------------------------------------------------------------------------
// The word writer.

struct Writer {
    words: Vec<u32>,
}

impl Writer {
    fn new() -> (w: Writer)
        ensures
            w.words@ == Seq::<u32>::empty(),
    {
        Writer { words: Vec::new() }
    }

    fn u32(&mut self, v: u32)
        ensures
            final(self).words@ == old(self).words@.push(v),
    {
        self.words.push(v);
    }

    fn u16(&mut self, v: u16)
        ensures
            final(self).words@ == old(self).words@.push(v as u32),
    {
        self.words.push(v as u32);
    }

    fn bool(&mut self, v: bool)
        ensures
            final(self).words@ == old(self).words@.push(bool_word(v)),
    {
        self.words.push(if v { 1 } else { 0 });
    }

    fn u64(&mut self, v: u64)
        ensures
            final(self).words@ == old(self).words@ + u64_words(v),
    {
        self.words.push(v as u32);
        self.words.push((v >> 32u64) as u32);
        assert(final(self).words@ =~= old(self).words@ + u64_words(v));
    }

    fn i64(&mut self, v: i64)
        ensures
            final(self).words@ == old(self).words@ + u64_words(v as u64),
    {
        self.u64(v as u64);
    }

    fn range(&mut self, r: &core::ops::Range<u32>)
        ensures
            final(self).words@ == old(self).words@ + range_words(*r),
    {
        self.words.push(r.start);
        self.words.push(r.end);
        assert(final(self).words@ =~= old(self).words@ + range_words(*r));
    }

    fn into_bytes(self) -> (b: Vec<u8>)
        ensures
            b@ == words_to_bytes(self.words@),
    {
        let mut out: Vec<u8> = Vec::new();
        let mut i: usize = 0;
        while i < self.words.len()
            invariant
                i <= self.words@.len(),
                out@ == words_to_bytes(self.words@.subrange(0, i as int)),
            decreases self.words@.len() - i,
        {
            let b = vstd::bytes::u32_to_le_bytes(self.words[i]);
            out.push(b[0]);
            out.push(b[1]);
            out.push(b[2]);
            out.push(b[3]);
            proof {
                lemma_words_to_bytes_push(self.words@.subrange(0, i as int), self.words@[i as int]);
                assert(self.words@.subrange(0, i + 1) =~= self.words@.subrange(0, i as int).push(self.words@[i as int]));
                assert(b@ =~= seq![b@[0], b@[1], b@[2], b@[3]]);
            }
            i += 1;
        }
        assert(self.words@.subrange(0, i as int) =~= self.words@);
        out
    }
}

/// Each word as its four little-endian bytes.
pub open spec fn words_to_bytes(w: Seq<u32>) -> Seq<u8>
    decreases w.len(),
{
    if w.len() == 0 {
        Seq::empty()
    } else {
        words_to_bytes(w.drop_last()) + vstd::bytes::spec_u32_to_le_bytes(w.last())
    }
}

proof fn lemma_words_to_bytes_push(w: Seq<u32>, x: u32)
    ensures
        words_to_bytes(w.push(x)) == words_to_bytes(w) + vstd::bytes::spec_u32_to_le_bytes(x),
        words_to_bytes(w.push(x)).len() == words_to_bytes(w).len() + 4,
{
    vstd::bytes::lemma_auto_spec_u32_to_from_le_bytes();
    assert(w.push(x).drop_last() =~= w);
}

proof fn lemma_words_to_bytes_len(w: Seq<u32>)
    ensures
        words_to_bytes(w).len() == 4 * w.len(),
    decreases w.len(),
{
    vstd::bytes::lemma_auto_spec_u32_to_from_le_bytes();
    if w.len() > 0 {
        lemma_words_to_bytes_len(w.drop_last());
    }
}

/// The four bytes of word `i` sit at `4 * i`.
proof fn lemma_words_to_bytes_at(w: Seq<u32>, i: int)
    requires
        0 <= i < w.len(),
    ensures
        words_to_bytes(w).subrange(4 * i, 4 * i + 4) == vstd::bytes::spec_u32_to_le_bytes(w[i]),
    decreases w.len(),
{
    vstd::bytes::lemma_auto_spec_u32_to_from_le_bytes();
    lemma_words_to_bytes_len(w.drop_last());
    if i == w.len() - 1 {
        assert(words_to_bytes(w).subrange(4 * i, 4 * i + 4) =~= vstd::bytes::spec_u32_to_le_bytes(w[i]));
    } else {
        lemma_words_to_bytes_at(w.drop_last(), i);
        assert(words_to_bytes(w).subrange(4 * i, 4 * i + 4) =~= words_to_bytes(w.drop_last()).subrange(4 * i, 4 * i + 4));
    }
}

// ---------------------------------------------------------------------------
// The word reader.

struct Reader<'a> {
    words: &'a [u32],
    pos: usize,
}

impl<'a> Reader<'a> {
    spec fn ok(&self) -> bool {
        self.pos <= self.words@.len()
    }

    fn u32(&mut self) -> (res: Result<u32, DecodeError>)
        requires
            old(self).ok(),
        ensures
            final(self).ok(),
            final(self).words == old(self).words,
            old(self).pos < old(self).words@.len() ==> res == Ok::<u32, DecodeError>(old(self).words@[old(self).pos as int])
                && final(self).pos == old(self).pos + 1,
            old(self).pos >= old(self).words@.len() ==> res is Err,
    {
        if self.pos < self.words.len() {
            let v = self.words[self.pos];
            self.pos += 1;
            Ok(v)
        } else {
            Err(err("unexpected end of input"))
        }
    }

    fn u16(&mut self) -> (res: Result<u16, DecodeError>)
        requires
            old(self).ok(),
        ensures
            final(self).ok(),
            final(self).words == old(self).words,
            old(self).pos < old(self).words@.len() && old(self).words@[old(self).pos as int] <= 0xFFFF ==>
                res == Ok::<u16, DecodeError>(old(self).words@[old(self).pos as int] as u16) && final(self).pos == old(self).pos + 1,
    {
        let v = self.u32()?;
        if v <= 0xFFFF {
            Ok(v as u16)
        } else {
            Err(err("value out of range for u16"))
        }
    }

    fn u8(&mut self) -> (res: Result<u8, DecodeError>)
        requires
            old(self).ok(),
        ensures
            final(self).ok(),
            final(self).words == old(self).words,
            old(self).pos < old(self).words@.len() && old(self).words@[old(self).pos as int] <= 0xFF ==>
                res == Ok::<u8, DecodeError>(old(self).words@[old(self).pos as int] as u8) && final(self).pos == old(self).pos + 1,
    {
        let v = self.u32()?;
        if v <= 0xFF {
            Ok(v as u8)
        } else {
            Err(err("value out of range for u8"))
        }
    }

    fn bool(&mut self) -> (res: Result<bool, DecodeError>)
        requires
            old(self).ok(),
        ensures
            final(self).ok(),
            final(self).words == old(self).words,
            old(self).pos < old(self).words@.len() ==>
                res == Ok::<bool, DecodeError>(old(self).words@[old(self).pos as int] != 0) && final(self).pos == old(self).pos + 1,
    {
        let v = self.u32()?;
        Ok(v != 0)
    }

    fn u64(&mut self) -> (res: Result<u64, DecodeError>)
        requires
            old(self).ok(),
        ensures
            final(self).ok(),
            final(self).words == old(self).words,
            old(self).pos + 2 <= old(self).words@.len() ==>
                res == Ok::<u64, DecodeError>(u64_of(old(self).words@[old(self).pos as int], old(self).words@[old(self).pos + 1]))
                && final(self).pos == old(self).pos + 2,
    {
        let lo = self.u32()?;
        let hi = self.u32()?;
        Ok((lo as u64) | ((hi as u64) << 32u64))
    }

    fn i64(&mut self) -> (res: Result<i64, DecodeError>)
        requires
            old(self).ok(),
        ensures
            final(self).ok(),
            final(self).words == old(self).words,
            old(self).pos + 2 <= old(self).words@.len() ==>
                res == Ok::<i64, DecodeError>(u64_of(old(self).words@[old(self).pos as int], old(self).words@[old(self).pos + 1]) as i64)
                && final(self).pos == old(self).pos + 2,
    {
        let v = self.u64()?;
        Ok(v as i64)
    }

    fn range(&mut self) -> (res: Result<core::ops::Range<u32>, DecodeError>)
        requires
            old(self).ok(),
        ensures
            final(self).ok(),
            final(self).words == old(self).words,
            old(self).pos + 2 <= old(self).words@.len() ==>
                res == Ok::<core::ops::Range<u32>, DecodeError>(core::ops::Range {
                    start: old(self).words@[old(self).pos as int],
                    end: old(self).words@[old(self).pos + 1],
                }) && final(self).pos == old(self).pos + 2,
    {
        let start = self.u32()?;
        let end = self.u32()?;
        Ok(start..end)
    }
}

// ---------------------------------------------------------------------------
// Rows that know how to write and read themselves.

trait Codec: Wire {
    fn put(&self, w: &mut Writer)
        ensures
            final(w).words@ == old(w).words@ + self.words(),
    ;

    fn take(r: &mut Reader) -> (res: Result<Self, DecodeError>)
        requires
            old(r).ok(),
        ensures
            final(r).ok(),
            final(r).words == old(r).words,
            forall|x: Self| #[trigger] at(old(r).words@, old(r).pos as int, x.words()) ==>
                res == Ok::<Self, DecodeError>(x) && final(r).pos == old(r).pos + x.words().len(),
    ;
}

/// Writes each row in order.
fn put_list<A: Codec>(w: &mut Writer, items: &[A])
    ensures
        final(w).words@ == old(w).words@ + cat(items@),
{
    let mut i: usize = 0;
    while i < items.len()
        invariant
            i <= items@.len(),
            w.words@ == old(w).words@ + cat(items@.subrange(0, i as int)),
        decreases items@.len() - i,
    {
        items[i].put(w);
        proof {
            lemma_cat_push(items@.subrange(0, i as int), items@[i as int]);
            assert(items@.subrange(0, i + 1) =~= items@.subrange(0, i as int).push(items@[i as int]));
        }
        i += 1;
    }
    assert(items@.subrange(0, i as int) =~= items@);
}

/// Writes the row count, then each row.
fn put_counted<A: Codec>(w: &mut Writer, items: &[A])
    ensures
        final(w).words@ == old(w).words@ + counted(items@),
{
    w.u32(items.len() as u32);
    put_list(w, items);
    assert(final(w).words@ =~= old(w).words@ + counted(items@));
}

/// Reads `n` rows.
fn take_list<A: Codec>(r: &mut Reader, n: u32) -> (res: Result<Vec<A>, DecodeError>)
    requires
        old(r).ok(),
    ensures
        final(r).ok(),
        final(r).words == old(r).words,
        forall|c: Seq<A>| c.len() == n && #[trigger] at(old(r).words@, old(r).pos as int, cat(c)) ==>
            (res matches Ok(v) && v@ == c && final(r).pos == old(r).pos + cat(c).len()),
        res matches Ok(v) ==> v@.len() == n,
{
    let ghost w = r.words@;
    let ghost p0 = r.pos as int;
    let mut out: Vec<A> = Vec::new();
    let mut i: u32 = 0;
    proof {
        assert forall|c: Seq<A>| c.len() == n && #[trigger] at(w, p0, cat(c)) implies
            out@ == c.subrange(0, 0) && at(w, r.pos as int, cat(c.skip(0)))
            && r.pos + cat(c.skip(0)).len() == p0 + cat(c).len() by {
            assert(c.skip(0) =~= c);
            assert(c.subrange(0, 0) =~= Seq::<A>::empty());
        }
    }
    while i < n
        invariant
            r.ok(),
            r.words@ == w,
            r.words == old(r).words,
            p0 == old(r).pos,
            i <= n,
            out@.len() == i,
            forall|c: Seq<A>| c.len() == n && #[trigger] at(w, p0, cat(c)) ==>
                out@ == c.subrange(0, i as int) && at(w, r.pos as int, cat(c.skip(i as int)))
                && r.pos + cat(c.skip(i as int)).len() == p0 + cat(c).len(),
        decreases n - i,
    {
        let ghost pos = r.pos as int;
        proof {
            assert forall|c: Seq<A>| c.len() == n && #[trigger] at(w, p0, cat(c)) implies
                at(w, pos, c[i as int].words()) && at(w, pos + c[i as int].words().len(), cat(c.skip(i + 1)))
                && pos + c[i as int].words().len() + cat(c.skip(i + 1)).len() == p0 + cat(c).len() by {
                lemma_cat_front(w, pos, c, i as int);
                assert(c.skip(i as int)[0] == c[i as int]);
                assert(c.skip(i as int).drop_first() =~= c.skip(i + 1));
            }
        }
        let x = A::take(r)?;
        proof {
            assert forall|c: Seq<A>| c.len() == n && #[trigger] at(w, p0, cat(c)) implies
                out@.push(x) == c.subrange(0, i + 1) by {
                assert(c.subrange(0, i + 1) =~= c.subrange(0, i as int).push(c[i as int]));
            }
        }
        out.push(x);
        i += 1;
    }
    proof {
        assert forall|c: Seq<A>| c.len() == n && #[trigger] at(w, p0, cat(c)) implies
            out@ == c && r.pos == p0 + cat(c).len() by {
            assert(c.subrange(0, n as int) =~= c);
            assert(c.skip(n as int) =~= Seq::<A>::empty());
        }
    }
    Ok(out)
}

/// Reads a row count, then that many rows.
fn take_counted<A: Codec>(r: &mut Reader) -> (res: Result<Vec<A>, DecodeError>)
    requires
        old(r).ok(),
    ensures
        final(r).ok(),
        final(r).words == old(r).words,
        forall|c: Seq<A>| c.len() <= u32::MAX && #[trigger] at(old(r).words@, old(r).pos as int, counted(c)) ==>
            (res matches Ok(v) && v@ == c && final(r).pos == old(r).pos + counted(c).len()),
        res matches Ok(v) ==> v@.len() <= u32::MAX,
{
    let ghost w = r.words@;
    let ghost p0 = r.pos as int;
    proof {
        assert forall|c: Seq<A>| c.len() <= u32::MAX && #[trigger] at(w, p0, counted(c)) implies
            p0 < w.len() && w[p0] == c.len() as u32 && at(w, p0 + 1, cat(c)) by {
            lemma_at_concat(w, p0, seq![c.len() as u32], cat(c));
            lemma_at_index(w, p0, seq![c.len() as u32]);
            assert(seq![c.len() as u32][0] == c.len() as u32);
        }
    }
    let n = r.u32()?;
    take_list(r, n)
}

impl Wire for ValRow {
    open spec fn words(self) -> Seq<u32> {
        seq![self.ty.0, self.flags.0 as u32, self.ct as u32, self.def]
    }
}

impl Codec for ValRow {
    fn put(&self, w: &mut Writer) {
        w.u32(self.ty.0);
        w.u32(self.flags.0 as u32);
        w.u16(self.ct);
        w.u32(self.def);
        assert(w.words@ =~= old(w).words@ + self.words());
    }

    fn take(r: &mut Reader) -> (res: Result<ValRow, DecodeError>) {
        let ghost w = r.words@;
        let ghost p = r.pos as int;
        proof {
            assert forall|x: ValRow| #[trigger] at(w, p, x.words()) implies p + 4 <= w.len()
                && w[p] == x.ty.0 && w[p + 1] == x.flags.0 as u32 && w[p + 2] == x.ct as u32 && w[p + 3] == x.def by {
                lemma_at_index(w, p, x.words());
                assert(x.words()[0] == x.ty.0);
                assert(x.words()[1] == x.flags.0 as u32);
                assert(x.words()[2] == x.ct as u32);
                assert(x.words()[3] == x.def);
            }
        }
        let ty = TyId(r.u32()?);
        let flags = ValFlags(r.u16()?);
        let ct = r.u16()?;
        let def = r.u32()?;
        Ok(ValRow { ty, flags, ct, def })
    }
}

impl Wire for ValId {
    open spec fn words(self) -> Seq<u32> {
        seq![self.0]
    }
}

impl Codec for ValId {
    fn put(&self, w: &mut Writer) {
        w.u32(self.0);
        assert(w.words@ =~= old(w).words@ + self.words());
    }

    fn take(r: &mut Reader) -> (res: Result<ValId, DecodeError>) {
        let ghost w = r.words@;
        let ghost p = r.pos as int;
        proof {
            assert forall|x: ValId| #[trigger] at(w, p, x.words()) implies p + 1 <= w.len() && w[p] == x.0 by {
                lemma_at_index(w, p, x.words());
                assert(x.words()[0] == x.0);
            }
        }
        let v = r.u32()?;
        Ok(ValId(v))
    }
}

impl Wire for PlaceId {
    open spec fn words(self) -> Seq<u32> {
        seq![self.0]
    }
}

impl Codec for PlaceId {
    fn put(&self, w: &mut Writer) {
        w.u32(self.0);
        assert(w.words@ =~= old(w).words@ + self.words());
    }

    fn take(r: &mut Reader) -> (res: Result<PlaceId, DecodeError>) {
        let ghost w = r.words@;
        let ghost p = r.pos as int;
        proof {
            assert forall|x: PlaceId| #[trigger] at(w, p, x.words()) implies p + 1 <= w.len() && w[p] == x.0 by {
                lemma_at_index(w, p, x.words());
                assert(x.words()[0] == x.0);
            }
        }
        let v = r.u32()?;
        Ok(PlaceId(v))
    }
}

impl Wire for Conv {
    open spec fn words(self) -> Seq<u32> {
        seq![self.code() as u32]
    }
}

fn conv_to_u32(c: Conv) -> (r: u32)
    ensures
        r == c.code() as u32,
{
    match c {
        Conv::Let => 0,
        Conv::Inout => 1,
        Conv::Sink => 2,
        Conv::Out => 3,
    }
}

fn conv_from_u32(v: u32) -> (r: Result<Conv, DecodeError>)
    ensures
        forall|c: Conv| c.code() as u32 == v ==> r == Ok::<Conv, DecodeError>(c),
{
    match v {
        0 => Ok(Conv::Let),
        1 => Ok(Conv::Inout),
        2 => Ok(Conv::Sink),
        3 => Ok(Conv::Out),
        _ => Err(err("bad Conv tag")),
    }
}

impl Codec for Conv {
    fn put(&self, w: &mut Writer) {
        w.u32(conv_to_u32(*self));
        assert(w.words@ =~= old(w).words@ + self.words());
    }

    fn take(r: &mut Reader) -> (res: Result<Conv, DecodeError>) {
        let ghost w = r.words@;
        let ghost p = r.pos as int;
        proof {
            assert forall|x: Conv| #[trigger] at(w, p, x.words()) implies p + 1 <= w.len() && w[p] == x.code() as u32 by {
                lemma_at_index(w, p, x.words());
                assert(x.words()[0] == x.code() as u32);
            }
        }
        let v = r.u32()?;
        conv_from_u32(v)
    }
}

impl Wire for Option<core::ops::Range<u32>> {
    open spec fn words(self) -> Seq<u32> {
        match self {
            None => seq![0u32],
            Some(r) => seq![1u32, r.start, r.end],
        }
    }
}

impl Codec for Option<core::ops::Range<u32>> {
    fn put(&self, w: &mut Writer) {
        match self {
            None => {
                w.bool(false);
            },
            Some(range) => {
                w.bool(true);
                w.range(range);
            },
        }
        assert(w.words@ =~= old(w).words@ + self.words());
    }

    fn take(r: &mut Reader) -> (res: Result<Option<core::ops::Range<u32>>, DecodeError>) {
        let ghost w = r.words@;
        let ghost p = r.pos as int;
        proof {
            assert forall|x: Option<core::ops::Range<u32>>| #[trigger] at(w, p, x.words()) implies p + 1 <= w.len()
                && (x is None <==> w[p] == 0)
                && (x matches Some(rr) ==> p + 3 <= w.len() && w[p + 1] == rr.start && w[p + 2] == rr.end) by {
                lemma_at_index(w, p, x.words());
                assert(x.words()[0] == if x is None { 0u32 } else { 1u32 });
                if let Some(rr) = x {
                    assert(x.words()[1] == rr.start);
                    assert(x.words()[2] == rr.end);
                }
            }
        }
        if r.bool()? {
            let range = r.range()?;
            Ok(Some(range))
        } else {
            Ok(None)
        }
    }
}

impl Wire for Seg {
    open spec fn words(self) -> Seq<u32> {
        match self {
            Seg::Field(i) => seq![0u32, i as u32],
            Seg::Index(v) => seq![1u32, v.0],
            Seg::Deref => seq![2u32, 0u32],
        }
    }
}

impl Codec for Seg {
    fn put(&self, w: &mut Writer) {
        match *self {
            Seg::Field(i) => {
                w.u32(0);
                w.u32(i as u32);
            },
            Seg::Index(v) => {
                w.u32(1);
                w.u32(v.0);
            },
            Seg::Deref => {
                w.u32(2);
                w.u32(0);
            },
        }
        assert(w.words@ =~= old(w).words@ + self.words());
    }

    fn take(r: &mut Reader) -> (res: Result<Seg, DecodeError>) {
        let ghost w = r.words@;
        let ghost p = r.pos as int;
        proof {
            assert forall|x: Seg| #[trigger] at(w, p, x.words()) implies p + 2 <= w.len() && w[p] == x.words()[0]
                && w[p + 1] == x.words()[1] by {
                lemma_at_index(w, p, x.words());
            }
        }
        let tag = r.u32()?;
        let x = r.u32()?;
        if tag == 0 {
            if x <= 0xFFFF {
                Ok(Seg::Field(x as u16))
            } else {
                Err(err("field index out of range"))
            }
        } else if tag == 1 {
            Ok(Seg::Index(ValId(x)))
        } else if tag == 2 {
            Ok(Seg::Deref)
        } else {
            Err(err("bad Seg tag"))
        }
    }
}

impl Wire for InstRow {
    open spec fn words(self) -> Seq<u32> {
        seq![self.op.spec_discriminant(), self.op.spec_payload(), self.a, self.b, self.c, self.ty.0, self.site.0]
    }
}

impl Codec for InstRow {
    fn put(&self, w: &mut Writer) {
        w.u32(self.op.discriminant());
        w.u32(self.op.payload());
        w.u32(self.a);
        w.u32(self.b);
        w.u32(self.c);
        w.u32(self.ty.0);
        w.u32(self.site.0);
        assert(w.words@ =~= old(w).words@ + self.words());
    }

    fn take(r: &mut Reader) -> (res: Result<InstRow, DecodeError>) {
        let ghost w = r.words@;
        let ghost p = r.pos as int;
        proof {
            assert forall|x: InstRow| #[trigger] at(w, p, x.words()) implies p + 7 <= w.len()
                && Op::spec_from_parts(w[p], w[p + 1]) == Some(x.op)
                && w[p + 2] == x.a && w[p + 3] == x.b && w[p + 4] == x.c && w[p + 5] == x.ty.0 && w[p + 6] == x.site.0 by {
                lemma_at_index(w, p, x.words());
                assert(x.words()[0] == x.op.spec_discriminant());
                assert(x.words()[1] == x.op.spec_payload());
                assert(x.words()[2] == x.a);
                assert(x.words()[3] == x.b);
                assert(x.words()[4] == x.c);
                assert(x.words()[5] == x.ty.0);
                assert(x.words()[6] == x.site.0);
                lemma_op_parts_round_trip(x.op);
            }
        }
        let discr = r.u32()?;
        let payload = r.u32()?;
        let op = match Op::from_parts(discr, payload) {
            Some(op) => op,
            None => {
                return Err(err("bad Op discriminant"));
            },
        };
        let a = r.u32()?;
        let b = r.u32()?;
        let c = r.u32()?;
        let ty = TyId(r.u32()?);
        let site = SiteId(r.u32()?);
        Ok(InstRow { op, a, b, c, ty, site })
    }
}

impl Wire for AliasSeed {
    open spec fn words(self) -> Seq<u32> {
        match self {
            AliasSeed::NoSeed => seq![0u32, 0u32, 0u32],
            AliasSeed::Conv(c) => seq![1u32, c.code() as u32, 0u32],
            AliasSeed::Own(pl) => seq![2u32, pl.0, 0u32],
            AliasSeed::Arena(b) => seq![3u32, b.0, 0u32],
            AliasSeed::Split { parent, side } => seq![4u32, parent.0, side as u32],
        }
    }
}

impl Codec for AliasSeed {
    fn put(&self, w: &mut Writer) {
        match *self {
            AliasSeed::NoSeed => {
                w.u32(0);
                w.u32(0);
                w.u32(0);
            },
            AliasSeed::Conv(c) => {
                w.u32(1);
                w.u32(conv_to_u32(c));
                w.u32(0);
            },
            AliasSeed::Own(pl) => {
                w.u32(2);
                w.u32(pl.0);
                w.u32(0);
            },
            AliasSeed::Arena(b) => {
                w.u32(3);
                w.u32(b.0);
                w.u32(0);
            },
            AliasSeed::Split { parent, side } => {
                w.u32(4);
                w.u32(parent.0);
                w.u32(side as u32);
            },
        }
        assert(w.words@ =~= old(w).words@ + self.words());
    }

    fn take(r: &mut Reader) -> (res: Result<AliasSeed, DecodeError>) {
        let ghost w = r.words@;
        let ghost p = r.pos as int;
        proof {
            assert forall|x: AliasSeed| #[trigger] at(w, p, x.words()) implies p + 3 <= w.len() && w[p] == x.words()[0]
                && w[p + 1] == x.words()[1] && w[p + 2] == x.words()[2] by {
                lemma_at_index(w, p, x.words());
            }
        }
        let tag = r.u32()?;
        let x = r.u32()?;
        if tag == 0 {
            r.u32()?;
            Ok(AliasSeed::NoSeed)
        } else if tag == 1 {
            r.u32()?;
            let c = conv_from_u32(x)?;
            Ok(AliasSeed::Conv(c))
        } else if tag == 2 {
            r.u32()?;
            Ok(AliasSeed::Own(PlaceId(x)))
        } else if tag == 3 {
            r.u32()?;
            Ok(AliasSeed::Arena(BrandId(x)))
        } else if tag == 4 {
            let side = r.u8()?;
            Ok(AliasSeed::Split { parent: PlaceId(x), side })
        } else {
            Err(err("bad AliasSeed tag"))
        }
    }
}

/// A callee's three words: a tag and two operands.
pub open spec fn callee_words(c: Callee) -> Seq<u32> {
    match c {
        Callee::Direct(k) => seq![0u32, k.0, 0u32],
        Callee::Witness { table, method } => seq![1u32, table, method as u32],
        Callee::Closure(v) => seq![2u32, v.0, 0u32],
        Callee::Intrinsic(s) => seq![3u32, s.0, 0u32],
    }
}

fn write_callee(w: &mut Writer, callee: Callee)
    ensures
        final(w).words@ == old(w).words@ + callee_words(callee),
{
    match callee {
        Callee::Direct(k) => {
            w.u32(0);
            w.u32(k.0);
            w.u32(0);
        },
        Callee::Witness { table, method } => {
            w.u32(1);
            w.u32(table);
            w.u32(method as u32);
        },
        Callee::Closure(v) => {
            w.u32(2);
            w.u32(v.0);
            w.u32(0);
        },
        Callee::Intrinsic(s) => {
            w.u32(3);
            w.u32(s.0);
            w.u32(0);
        },
    }
    assert(w.words@ =~= old(w).words@ + callee_words(callee));
}

fn read_callee(r: &mut Reader) -> (res: Result<Callee, DecodeError>)
    requires
        old(r).ok(),
    ensures
        final(r).ok(),
        final(r).words == old(r).words,
        forall|x: Callee| #[trigger] at(old(r).words@, old(r).pos as int, callee_words(x)) ==>
            res == Ok::<Callee, DecodeError>(x) && final(r).pos == old(r).pos + 3,
{
    let ghost w = r.words@;
    let ghost p = r.pos as int;
    proof {
        assert forall|x: Callee| #[trigger] at(w, p, callee_words(x)) implies p + 3 <= w.len() && w[p] == callee_words(x)[0]
            && w[p + 1] == callee_words(x)[1] && w[p + 2] == callee_words(x)[2] by {
            lemma_at_index(w, p, callee_words(x));
        }
    }
    let tag = r.u32()?;
    let x = r.u32()?;
    let y = r.u32()?;
    if tag == 0 {
        Ok(Callee::Direct(DeclKeyId(x)))
    } else if tag == 1 {
        if y <= 0xFFFF {
            Ok(Callee::Witness { table: x, method: y as u16 })
        } else {
            Err(err("method ordinal too large"))
        }
    } else if tag == 2 {
        Ok(Callee::Closure(ValId(x)))
    } else if tag == 3 {
        Ok(Callee::Intrinsic(Symbol(x)))
    } else {
        Err(err("bad Callee tag"))
    }
}

impl Wire for CallRow {
    open spec fn words(self) -> Seq<u32> {
        callee_words(self.callee) + seq![self.args.start, self.args.end]
    }
}

impl Codec for CallRow {
    fn put(&self, w: &mut Writer) {
        write_callee(w, self.callee);
        w.range(&self.args);
        assert(w.words@ =~= old(w).words@ + self.words());
    }

    fn take(r: &mut Reader) -> (res: Result<CallRow, DecodeError>) {
        let ghost w = r.words@;
        let ghost p = r.pos as int;
        proof {
            assert forall|x: CallRow| #[trigger] at(w, p, x.words()) implies at(w, p, callee_words(x.callee))
                && p + 5 <= w.len() && w[p + 3] == x.args.start && w[p + 4] == x.args.end by {
                lemma_at_concat(w, p, callee_words(x.callee), seq![x.args.start, x.args.end]);
                lemma_at_index(w, p + 3, seq![x.args.start, x.args.end]);
                assert(seq![x.args.start, x.args.end][0] == x.args.start);
                assert(seq![x.args.start, x.args.end][1] == x.args.end);
            }
        }
        let callee = read_callee(r)?;
        let args = r.range()?;
        Ok(CallRow { callee, args })
    }
}

impl Wire for ReduceRow {
    open spec fn words(self) -> Seq<u32> {
        callee_words(self.op) + seq![self.xs.0, self.identity.0, self.b, self.l]
    }
}

impl Codec for ReduceRow {
    fn put(&self, w: &mut Writer) {
        write_callee(w, self.op);
        w.u32(self.xs.0);
        w.u32(self.identity.0);
        w.u32(self.b);
        w.u32(self.l);
        assert(w.words@ =~= old(w).words@ + self.words());
    }

    fn take(r: &mut Reader) -> (res: Result<ReduceRow, DecodeError>) {
        let ghost w = r.words@;
        let ghost p = r.pos as int;
        proof {
            assert forall|x: ReduceRow| #[trigger] at(w, p, x.words()) implies at(w, p, callee_words(x.op))
                && p + 7 <= w.len() && w[p + 3] == x.xs.0 && w[p + 4] == x.identity.0 && w[p + 5] == x.b && w[p + 6] == x.l by {
                let tail = seq![x.xs.0, x.identity.0, x.b, x.l];
                lemma_at_concat(w, p, callee_words(x.op), tail);
                lemma_at_index(w, p + 3, tail);
                assert(tail[0] == x.xs.0);
                assert(tail[1] == x.identity.0);
                assert(tail[2] == x.b);
                assert(tail[3] == x.l);
            }
        }
        let op = read_callee(r)?;
        let xs = ValId(r.u32()?);
        let identity = ValId(r.u32()?);
        let b = r.u32()?;
        let l = r.u32()?;
        Ok(ReduceRow { op, xs, identity, b, l })
    }
}

impl Wire for SwitchRow {
    open spec fn words(self) -> Seq<u32> {
        seq![self.discr.0, self.default.0, self.arms.start, self.arms.end]
    }
}

impl Codec for SwitchRow {
    fn put(&self, w: &mut Writer) {
        w.u32(self.discr.0);
        w.u32(self.default.0);
        w.range(&self.arms);
        assert(w.words@ =~= old(w).words@ + self.words());
    }

    fn take(r: &mut Reader) -> (res: Result<SwitchRow, DecodeError>) {
        let ghost w = r.words@;
        let ghost p = r.pos as int;
        proof {
            assert forall|x: SwitchRow| #[trigger] at(w, p, x.words()) implies p + 4 <= w.len() && w[p] == x.discr.0
                && w[p + 1] == x.default.0 && w[p + 2] == x.arms.start && w[p + 3] == x.arms.end by {
                lemma_at_index(w, p, x.words());
                assert(x.words()[0] == x.discr.0);
                assert(x.words()[1] == x.default.0);
                assert(x.words()[2] == x.arms.start);
                assert(x.words()[3] == x.arms.end);
            }
        }
        let discr = ValId(r.u32()?);
        let default = BlockId(r.u32()?);
        let arms = r.range()?;
        Ok(SwitchRow { discr, default, arms })
    }
}

impl Wire for SwitchArm {
    open spec fn words(self) -> Seq<u32> {
        u64_words(self.value as u64) + seq![self.target.0]
    }
}

impl Codec for SwitchArm {
    fn put(&self, w: &mut Writer) {
        w.i64(self.value);
        w.u32(self.target.0);
        assert(w.words@ =~= old(w).words@ + self.words());
    }

    fn take(r: &mut Reader) -> (res: Result<SwitchArm, DecodeError>) {
        let ghost w = r.words@;
        let ghost p = r.pos as int;
        proof {
            assert forall|x: SwitchArm| #[trigger] at(w, p, x.words()) implies p + 3 <= w.len()
                && u64_of(w[p], w[p + 1]) as i64 == x.value && w[p + 2] == x.target.0 by {
                lemma_at_index(w, p, x.words());
                assert(x.words()[0] == u64_words(x.value as u64)[0]);
                assert(x.words()[1] == u64_words(x.value as u64)[1]);
                assert(x.words()[2] == x.target.0);
                lemma_i64_words(x.value);
            }
        }
        let value = r.i64()?;
        let target = BlockId(r.u32()?);
        Ok(SwitchArm { value, target })
    }
}

impl Wire for BlockRow {
    open spec fn words(self) -> Seq<u32> {
        seq![self.first_inst, self.inst_len] + self.term.words() + seq![self.scope.0]
    }
}

impl Codec for BlockRow {
    fn put(&self, w: &mut Writer) {
        w.u32(self.first_inst);
        w.u32(self.inst_len);
        self.term.put(w);
        w.u32(self.scope.0);
        assert(w.words@ =~= old(w).words@ + self.words());
    }

    fn take(r: &mut Reader) -> (res: Result<BlockRow, DecodeError>) {
        let ghost w = r.words@;
        let ghost p = r.pos as int;
        proof {
            assert forall|x: BlockRow| #[trigger] at(w, p, x.words()) implies p + 10 <= w.len() && w[p] == x.first_inst
                && w[p + 1] == x.inst_len && at(w, p + 2, x.term.words()) && w[p + 9] == x.scope.0 by {
                let head = seq![x.first_inst, x.inst_len];
                lemma_at_concat(w, p, head + x.term.words(), seq![x.scope.0]);
                lemma_at_concat(w, p, head, x.term.words());
                lemma_at_index(w, p, head);
                lemma_at_index(w, p + 9, seq![x.scope.0]);
                assert(head[0] == x.first_inst);
                assert(head[1] == x.inst_len);
                assert(seq![x.scope.0][0] == x.scope.0);
            }
        }
        let first_inst = r.u32()?;
        let inst_len = r.u32()?;
        let term = InstRow::take(r)?;
        let scope = ScopeId(r.u32()?);
        Ok(BlockRow { first_inst, inst_len, term, scope })
    }
}

impl Wire for ScopeRow {
    open spec fn words(self) -> Seq<u32> {
        seq![
            self.parent.0,
            self.brand.0,
            self.defers.start,
            self.defers.end,
            self.obligations.start,
            self.obligations.end,
            self.region.0,
        ]
    }
}

impl Codec for ScopeRow {
    fn put(&self, w: &mut Writer) {
        w.u32(self.parent.0);
        w.u32(self.brand.0);
        w.range(&self.defers);
        w.range(&self.obligations);
        w.u32(self.region.0);
        assert(w.words@ =~= old(w).words@ + self.words());
    }

    fn take(r: &mut Reader) -> (res: Result<ScopeRow, DecodeError>) {
        let ghost w = r.words@;
        let ghost p = r.pos as int;
        proof {
            assert forall|x: ScopeRow| #[trigger] at(w, p, x.words()) implies p + 7 <= w.len() && w[p] == x.parent.0
                && w[p + 1] == x.brand.0 && w[p + 2] == x.defers.start && w[p + 3] == x.defers.end
                && w[p + 4] == x.obligations.start && w[p + 5] == x.obligations.end && w[p + 6] == x.region.0 by {
                lemma_at_index(w, p, x.words());
                assert(x.words()[0] == x.parent.0);
                assert(x.words()[1] == x.brand.0);
                assert(x.words()[2] == x.defers.start);
                assert(x.words()[3] == x.defers.end);
                assert(x.words()[4] == x.obligations.start);
                assert(x.words()[5] == x.obligations.end);
                assert(x.words()[6] == x.region.0);
            }
        }
        let parent = ScopeId(r.u32()?);
        let brand = BrandId(r.u32()?);
        let defers = r.range()?;
        let obligations = r.range()?;
        let region = RegionId(r.u32()?);
        Ok(ScopeRow { parent, brand, defers, obligations, region })
    }
}

impl Wire for DeferRow {
    open spec fn words(self) -> Seq<u32> {
        seq![bool_word(self.kind == DeferKind::ErrDefer), self.body.0, self.stmt_order as u32]
    }
}

impl Codec for DeferRow {
    fn put(&self, w: &mut Writer) {
        w.bool(self.kind == DeferKind::ErrDefer);
        w.u32(self.body.0);
        w.u16(self.stmt_order);
        assert(w.words@ =~= old(w).words@ + self.words());
    }

    fn take(r: &mut Reader) -> (res: Result<DeferRow, DecodeError>) {
        let ghost w = r.words@;
        let ghost p = r.pos as int;
        proof {
            assert forall|x: DeferRow| #[trigger] at(w, p, x.words()) implies p + 3 <= w.len()
                && w[p] == bool_word(x.kind == DeferKind::ErrDefer) && w[p + 1] == x.body.0
                && w[p + 2] == x.stmt_order as u32 by {
                lemma_at_index(w, p, x.words());
                assert(x.words()[0] == bool_word(x.kind == DeferKind::ErrDefer));
                assert(x.words()[1] == x.body.0);
                assert(x.words()[2] == x.stmt_order as u32);
            }
        }
        let kind = if r.u32()? != 0 {
            DeferKind::ErrDefer
        } else {
            DeferKind::Defer
        };
        let body = BlockId(r.u32()?);
        let stmt_order = r.u16()?;
        Ok(DeferRow { kind, body, stmt_order })
    }
}

/// A region kind's tag word.
pub open spec fn region_kind_code(k: RegionKind) -> u32 {
    match k {
        RegionKind::Spawn => 0,
        RegionKind::Parallel => 1,
        RegionKind::WithArena => 2,
    }
}

fn region_kind_to_u32(k: RegionKind) -> (r: u32)
    ensures
        r == region_kind_code(k),
{
    match k {
        RegionKind::Spawn => 0,
        RegionKind::Parallel => 1,
        RegionKind::WithArena => 2,
    }
}

fn region_kind_from_u32(v: u32) -> (r: Result<RegionKind, DecodeError>)
    ensures
        forall|k: RegionKind| region_kind_code(k) == v ==> r == Ok::<RegionKind, DecodeError>(k),
{
    match v {
        0 => Ok(RegionKind::Spawn),
        1 => Ok(RegionKind::Parallel),
        2 => Ok(RegionKind::WithArena),
        _ => Err(err("bad RegionKind tag")),
    }
}

impl Wire for RegionRow {
    open spec fn words(self) -> Seq<u32> {
        seq![region_kind_code(self.kind), self.captures.start, self.captures.end, self.brand.0]
    }
}

impl Codec for RegionRow {
    fn put(&self, w: &mut Writer) {
        w.u32(region_kind_to_u32(self.kind));
        w.range(&self.captures);
        w.u32(self.brand.0);
        assert(w.words@ =~= old(w).words@ + self.words());
    }

    fn take(r: &mut Reader) -> (res: Result<RegionRow, DecodeError>) {
        let ghost w = r.words@;
        let ghost p = r.pos as int;
        proof {
            assert forall|x: RegionRow| #[trigger] at(w, p, x.words()) implies p + 4 <= w.len()
                && w[p] == region_kind_code(x.kind) && w[p + 1] == x.captures.start && w[p + 2] == x.captures.end
                && w[p + 3] == x.brand.0 by {
                lemma_at_index(w, p, x.words());
                assert(x.words()[0] == region_kind_code(x.kind));
                assert(x.words()[1] == x.captures.start);
                assert(x.words()[2] == x.captures.end);
                assert(x.words()[3] == x.brand.0);
            }
        }
        let kind = region_kind_from_u32(r.u32()?)?;
        let captures = r.range()?;
        let brand = BrandId(r.u32()?);
        Ok(RegionRow { kind, captures, brand })
    }
}

impl Wire for CaptureRow {
    open spec fn words(self) -> Seq<u32> {
        seq![self.value.0, self.conv.code() as u32]
    }
}

impl Codec for CaptureRow {
    fn put(&self, w: &mut Writer) {
        w.u32(self.value.0);
        w.u32(conv_to_u32(self.conv));
        assert(w.words@ =~= old(w).words@ + self.words());
    }

    fn take(r: &mut Reader) -> (res: Result<CaptureRow, DecodeError>) {
        let ghost w = r.words@;
        let ghost p = r.pos as int;
        proof {
            assert forall|x: CaptureRow| #[trigger] at(w, p, x.words()) implies p + 2 <= w.len()
                && w[p] == x.value.0 && w[p + 1] == x.conv.code() as u32 by {
                lemma_at_index(w, p, x.words());
                assert(x.words()[0] == x.value.0);
                assert(x.words()[1] == x.conv.code() as u32);
            }
        }
        let value = ValId(r.u32()?);
        let conv = conv_from_u32(r.u32()?)?;
        Ok(CaptureRow { value, conv })
    }
}

impl Wire for SiteRow {
    open spec fn words(self) -> Seq<u32> {
        seq![self.line, self.col]
    }
}

impl Codec for SiteRow {
    fn put(&self, w: &mut Writer) {
        w.u32(self.line);
        w.u32(self.col);
        assert(w.words@ =~= old(w).words@ + self.words());
    }

    fn take(r: &mut Reader) -> (res: Result<SiteRow, DecodeError>) {
        let ghost w = r.words@;
        let ghost p = r.pos as int;
        proof {
            assert forall|x: SiteRow| #[trigger] at(w, p, x.words()) implies p + 2 <= w.len()
                && w[p] == x.line && w[p + 1] == x.col by {
                lemma_at_index(w, p, x.words());
                assert(x.words()[0] == x.line);
                assert(x.words()[1] == x.col);
            }
        }
        let line = r.u32()?;
        let col = r.u32()?;
        Ok(SiteRow { line, col })
    }
}

/// A constant's tag and the 64-bit value word pair.
pub open spec fn const_parts(v: ConstValue) -> (u32, u64) {
    match v {
        ConstValue::Int(i) => (0u32, i as u64),
        ConstValue::FloatBits(f) => (1u32, f),
        ConstValue::Bool(b) => (2u32, if b { 1u64 } else { 0u64 }),
        ConstValue::Unit => (3u32, 0u64),
        ConstValue::Str(s) => (4u32, s.0 as u64),
    }
}

impl Wire for ConstValue {
    open spec fn words(self) -> Seq<u32> {
        seq![const_parts(self).0] + u64_words(const_parts(self).1)
    }
}

impl Codec for ConstValue {
    fn put(&self, w: &mut Writer) {
        match *self {
            ConstValue::Int(v) => {
                w.u32(0);
                w.i64(v);
            },
            ConstValue::FloatBits(v) => {
                w.u32(1);
                w.u64(v);
            },
            ConstValue::Bool(v) => {
                w.u32(2);
                w.u64(if v { 1 } else { 0 });
            },
            ConstValue::Unit => {
                w.u32(3);
                w.u64(0);
            },
            ConstValue::Str(s) => {
                w.u32(4);
                w.u64(s.0 as u64);
            },
        }
        assert(w.words@ =~= old(w).words@ + self.words());
    }

    fn take(r: &mut Reader) -> (res: Result<ConstValue, DecodeError>) {
        let ghost w = r.words@;
        let ghost p = r.pos as int;
        proof {
            assert forall|x: ConstValue| #[trigger] at(w, p, x.words()) implies p + 3 <= w.len()
                && w[p] == const_parts(x).0 && u64_of(w[p + 1], w[p + 2]) == const_parts(x).1 by {
                lemma_at_index(w, p, x.words());
                assert(x.words()[0] == const_parts(x).0);
                assert(x.words()[1] == u64_words(const_parts(x).1)[0]);
                assert(x.words()[2] == u64_words(const_parts(x).1)[1]);
                lemma_u64_words(const_parts(x).1);
            }
        }
        let tag = r.u32()?;
        if tag == 0 {
            let v = r.i64()?;
            proof {
                assert forall|x: ConstValue| #[trigger] at(w, p, x.words()) implies x == ConstValue::Int(v) by {
                    if let ConstValue::Int(i) = x {
                        assert((i as u64) as i64 == i) by (bit_vector);
                    }
                }
            }
            Ok(ConstValue::Int(v))
        } else if tag == 1 {
            let v = r.u64()?;
            Ok(ConstValue::FloatBits(v))
        } else if tag == 2 {
            let v = r.u64()?;
            Ok(ConstValue::Bool(v != 0))
        } else if tag == 3 {
            r.u64()?;
            Ok(ConstValue::Unit)
        } else if tag == 4 {
            let v = r.u64()?;
            if v <= 0xFFFF_FFFF {
                Ok(ConstValue::Str(Symbol(v as u32)))
            } else {
                Err(err("symbol id out of range"))
            }
        } else {
            Err(err("bad ConstValue tag"))
        }
    }
}

// ---------------------------------------------------------------------------
// The place section: each interned place as its root, type, path length and
// path steps.

impl Wire for (u32, TyId, Seq<Seg>) {
    open spec fn words(self) -> Seq<u32> {
        seq![self.0, (self.1).0, self.2.len() as u32] + cat(self.2)
    }
}

/// Each place of the pool as `(root, type, path)`, in id order.
pub open spec fn place_entries(pl: PlacePool) -> Seq<(u32, TyId, Seq<Seg>)> {
    Seq::new(pl.spec_rows().len(), |i: int| (pl.spec_rows()[i].root, pl.spec_rows()[i].ty, pl.path_of(i)))
}

/// The place count, then every place.
pub open spec fn place_words(pl: PlacePool) -> Seq<u32> {
    seq![pl.spec_rows().len() as u32] + cat(place_entries(pl))
}

fn write_places(w: &mut Writer, pool: &PlacePool)
    ensures
        final(w).words@ == old(w).words@ + place_words(*pool),
{
    let rows = pool.rows_slice();
    w.u32(rows.len() as u32);
    let ghost start = w.words@;
    let ghost entries = place_entries(*pool);
    let mut i: usize = 0;
    while i < rows.len()
        invariant
            rows@ == pool.spec_rows(),
            entries == place_entries(*pool),
            i <= rows@.len(),
            w.words@ == start + cat(entries.subrange(0, i as int)),
        decreases rows@.len() - i,
    {
        let path = pool.path_at(i);
        w.u32(rows[i].root);
        w.u32(rows[i].ty.0);
        w.u32(path.len() as u32);
        put_list(w, path);
        proof {
            let e = entries[i as int];
            assert(e == (rows@[i as int].root, rows@[i as int].ty, pool.path_of(i as int)));
            lemma_cat_push(entries.subrange(0, i as int), e);
            assert(entries.subrange(0, i + 1) =~= entries.subrange(0, i as int).push(e));
            assert(w.words@ =~= start + cat(entries.subrange(0, i as int)) + e.words());
        }
        i += 1;
    }
    assert(entries.subrange(0, i as int) =~= entries);
    assert(final(w).words@ =~= old(w).words@ + place_words(*pool));
}

// ---------------------------------------------------------------------------
// The whole declaration's layout.

/// Section `k` of a declaration's encoding, in writing order; there are
/// twenty-one, `0..21`.
pub open spec fn decl_part(d: DeclFmir, k: int) -> Seq<u32> {
    if k == 0 {
        seq![d.decl.0, d.sig.0, d.entry.0, bool_word(d.is_unsafe_invariant)]
    } else if k == 1 {
        counted(d.vals.spec_rows())
    } else if k == 2 {
        cat(d.vals.spec_sources())
    } else if k == 3 {
        place_words(d.places)
    } else if k == 4 {
        counted(d.insts@)
    } else if k == 5 {
        cat(d.insts.aliases@)
    } else if k == 6 {
        counted(d.insts.operands@)
    } else if k == 7 {
        counted(d.insts.arg_convs@)
    } else if k == 8 {
        counted(d.insts.calls@)
    } else if k == 9 {
        counted(d.insts.reduces@)
    } else if k == 10 {
        counted(d.insts.switches@)
    } else if k == 11 {
        counted(d.insts.switch_arms@)
    } else if k == 12 {
        counted(d.blocks@)
    } else if k == 13 {
        counted(d.scopes.spec_rows())
    } else if k == 14 {
        counted(d.defers@)
    } else if k == 15 {
        counted(d.regions.spec_rows())
    } else if k == 16 {
        counted(d.regions.captures@)
    } else if k == 17 {
        counted(d.sites@)
    } else if k == 18 {
        counted(d.consts@)
    } else if k == 19 {
        counted(d.obligations@)
    } else {
        counted(d.scoped_sources@)
    }
}

/// Sections `k..` of a declaration's encoding.
pub open spec fn decl_rest(d: DeclFmir, k: int) -> Seq<u32>
    decreases 21 - k,
{
    if k < 0 || k >= 21 {
        Seq::empty()
    } else {
        decl_part(d, k) + decl_rest(d, k + 1)
    }
}

/// Sections `..k` of a declaration's encoding.
pub open spec fn decl_prefix(d: DeclFmir, k: int) -> Seq<u32>
    decreases k,
{
    if k <= 0 {
        Seq::empty()
    } else {
        decl_prefix(d, k - 1) + decl_part(d, k - 1)
    }
}

/// The canonical word encoding of a declaration.
pub open spec fn decl_words(d: DeclFmir) -> Seq<u32> {
    decl_rest(d, 0)
}

proof fn lemma_prefix_rest(d: DeclFmir, k: int)
    requires
        0 <= k <= 21,
    ensures
        decl_prefix(d, k) + decl_rest(d, k) == decl_words(d),
    decreases k,
{
    if k > 0 {
        lemma_prefix_rest(d, k - 1);
        assert(decl_prefix(d, k) + decl_rest(d, k) =~= decl_prefix(d, k - 1) + decl_rest(d, k - 1));
    } else {
        assert(decl_prefix(d, 0) + decl_rest(d, 0) =~= decl_rest(d, 0));
    }
}

/// Every count fits its word, the place paths fill their storage in id
/// order, the seed column covers every instruction, and no constant occurs
/// twice: what decoding needs to rebuild the same pools.
pub open spec fn encodable(d: DeclFmir) -> bool {
    &&& d.wf()
    &&& d.insts.aliases@.len() == d.insts@.len()
    &&& no_duplicates(d.consts@)
    &&& d.vals.spec_rows().len() <= u32::MAX
    &&& d.places.spec_rows().len() <= u32::MAX
    &&& d.insts@.len() <= u32::MAX
    &&& d.insts.operands@.len() <= u32::MAX
    &&& d.insts.arg_convs@.len() <= u32::MAX
    &&& d.insts.calls@.len() <= u32::MAX
    &&& d.insts.reduces@.len() <= u32::MAX
    &&& d.insts.switches@.len() <= u32::MAX
    &&& d.insts.switch_arms@.len() <= u32::MAX
    &&& d.blocks@.len() <= u32::MAX
    &&& d.scopes.spec_rows().len() <= u32::MAX
    &&& d.defers@.len() <= u32::MAX
    &&& d.regions.spec_rows().len() <= u32::MAX
    &&& d.regions.captures@.len() <= u32::MAX
    &&& d.sites@.len() <= u32::MAX
    &&& d.consts@.len() <= u32::MAX
    &&& d.obligations@.len() <= u32::MAX
    &&& d.scoped_sources@.len() <= u32::MAX
}

/// Two declarations hold the same content: every pool and header field
/// agrees (the cached fingerprint aside).
pub open spec fn same_content(a: DeclFmir, b: DeclFmir) -> bool {
    &&& a.decl == b.decl
    &&& a.sig == b.sig
    &&& a.entry == b.entry
    &&& a.is_unsafe_invariant == b.is_unsafe_invariant
    &&& a.vals.spec_rows() == b.vals.spec_rows()
    &&& a.vals.spec_sources() == b.vals.spec_sources()
    &&& a.places.spec_rows() == b.places.spec_rows()
    &&& a.places.spec_segs() == b.places.spec_segs()
    &&& a.insts@ == b.insts@
    &&& a.insts.aliases@ == b.insts.aliases@
    &&& a.insts.operands@ == b.insts.operands@
    &&& a.insts.arg_convs@ == b.insts.arg_convs@
    &&& a.insts.calls@ == b.insts.calls@
    &&& a.insts.reduces@ == b.insts.reduces@
    &&& a.insts.switches@ == b.insts.switches@
    &&& a.insts.switch_arms@ == b.insts.switch_arms@
    &&& a.blocks@ == b.blocks@
    &&& a.scopes.spec_rows() == b.scopes.spec_rows()
    &&& a.defers@ == b.defers@
    &&& a.regions.spec_rows() == b.regions.spec_rows()
    &&& a.regions.captures@ == b.regions.captures@
    &&& a.sites@ == b.sites@
    &&& a.consts@ == b.consts@
    &&& a.obligations@ == b.obligations@
    &&& a.scoped_sources@ == b.scoped_sources@
}

/// `w` is the word encoding of the encodable declaration `d`.
pub open spec fn encodes(w: Seq<u32>, d: DeclFmir) -> bool {
    encodable(d) && w == decl_words(d)
}

/// A faithful, order-preserving encoding of every pool, as little-endian
/// bytes of the declaration's word encoding.
pub fn to_bytes(d: &DeclFmir) -> (r: Vec<u8>)
    ensures
        r@ == words_to_bytes(decl_words(*d)),
{
    let mut w = Writer::new();
    w.u32(d.decl.0);
    w.u32(d.sig.0);
    w.u32(d.entry.0);
    w.bool(d.is_unsafe_invariant);
    assert(decl_prefix(*d, 0) =~= Seq::<u32>::empty());
    assert(w.words@ =~= decl_prefix(*d, 1));
    put_counted(&mut w, d.vals.rows_slice());
    assert(w.words@ == decl_prefix(*d, 2));
    put_list(&mut w, d.vals.sources_slice());
    assert(w.words@ == decl_prefix(*d, 3));
    write_places(&mut w, &d.places);
    assert(w.words@ == decl_prefix(*d, 4));
    put_counted(&mut w, d.insts.rows.as_slice());
    assert(w.words@ == decl_prefix(*d, 5));
    put_list(&mut w, d.insts.aliases.as_slice());
    assert(w.words@ == decl_prefix(*d, 6));
    put_counted(&mut w, d.insts.operands.as_slice());
    assert(w.words@ == decl_prefix(*d, 7));
    put_counted(&mut w, d.insts.arg_convs.as_slice());
    assert(w.words@ == decl_prefix(*d, 8));
    put_counted(&mut w, d.insts.calls.as_slice());
    assert(w.words@ == decl_prefix(*d, 9));
    put_counted(&mut w, d.insts.reduces.as_slice());
    assert(w.words@ == decl_prefix(*d, 10));
    put_counted(&mut w, d.insts.switches.as_slice());
    assert(w.words@ == decl_prefix(*d, 11));
    put_counted(&mut w, d.insts.switch_arms.as_slice());
    assert(w.words@ == decl_prefix(*d, 12));
    put_counted(&mut w, d.blocks.rows.as_slice());
    assert(w.words@ == decl_prefix(*d, 13));
    put_counted(&mut w, d.scopes.rows.as_slice());
    assert(w.words@ == decl_prefix(*d, 14));
    put_counted(&mut w, d.defers.as_slice());
    assert(w.words@ == decl_prefix(*d, 15));
    put_counted(&mut w, d.regions.rows.as_slice());
    assert(w.words@ == decl_prefix(*d, 16));
    put_counted(&mut w, d.regions.captures.as_slice());
    assert(w.words@ == decl_prefix(*d, 17));
    put_counted(&mut w, d.sites.as_slice());
    assert(w.words@ == decl_prefix(*d, 18));
    put_counted(&mut w, d.consts.as_slice());
    assert(w.words@ == decl_prefix(*d, 19));
    put_counted(&mut w, d.obligations.as_slice());
    assert(w.words@ == decl_prefix(*d, 20));
    put_counted(&mut w, d.scoped_sources.as_slice());
    assert(w.words@ == decl_prefix(*d, 21));
    proof {
        lemma_prefix_rest(*d, 21);
        assert(decl_prefix(*d, 21) + decl_rest(*d, 21) =~= decl_prefix(*d, 21));
    }
    w.into_bytes()
}

/// Re-encoding a declaration of the same content gives the same words, and
/// so the same bytes: decoding an encoding and encoding the result again is
/// the identity on bytes.
pub proof fn lemma_same_content_same_words(a: DeclFmir, b: DeclFmir)
    requires
        same_content(a, b),
    ensures
        decl_words(a) == decl_words(b),
{
    assert forall|k: int| 0 <= k < 21 implies decl_part(a, k) == decl_part(b, k) by {
        assert(place_entries(a.places) =~= place_entries(b.places));
    }
    lemma_rest_same(a, b, 0);
}

proof fn lemma_rest_same(a: DeclFmir, b: DeclFmir, k: int)
    requires
        0 <= k <= 21,
        forall|j: int| 0 <= j < 21 ==> decl_part(a, j) == decl_part(b, j),
    ensures
        decl_rest(a, k) == decl_rest(b, k),
    decreases 21 - k,
{
    if k < 21 {
        lemma_rest_same(a, b, k + 1);
    }
}

// ---------------------------------------------------------------------------
// Decoding.

/// `pool` holds the first `i` places of `pl`, with their path steps.
pub open spec fn place_replayed(pool: PlacePool, pl: PlacePool, i: int) -> bool {
    &&& pool.spec_rows() == pl.spec_rows().subrange(0, i)
    &&& pool.spec_segs() == pl.spec_segs().subrange(0, pl.segs_end(i))
}

/// What decoding the place section may assume of the pool it rebuilds.
pub open spec fn place_encodable(pl: PlacePool) -> bool {
    pl.wf() && pl.spec_rows().len() <= u32::MAX
}

proof fn lemma_place_entry(w: Seq<u32>, pos: int, pl: PlacePool, i: int)
    requires
        place_encodable(pl),
        0 <= i < pl.spec_rows().len(),
        at(w, pos, cat(place_entries(pl).skip(i))),
    ensures
        pos + 3 <= w.len(),
        w[pos] == pl.spec_rows()[i].root,
        w[pos + 1] == pl.spec_rows()[i].ty.0,
        w[pos + 2] == pl.path_of(i).len(),
        at(w, pos + 3, cat(pl.path_of(i))),
        at(w, pos + 3 + cat(pl.path_of(i)).len(), cat(place_entries(pl).skip(i + 1))),
        cat(place_entries(pl).skip(i)).len() == 3 + cat(pl.path_of(i)).len() + cat(place_entries(pl).skip(i + 1)).len(),
{
    let e = place_entries(pl)[i];
    assert(e == (pl.spec_rows()[i].root, pl.spec_rows()[i].ty, pl.path_of(i)));
    lemma_cat_front(w, pos, place_entries(pl), i);
    let head = seq![e.0, (e.1).0, e.2.len() as u32];
    lemma_at_concat(w, pos, head, cat(e.2));
    lemma_at_index(w, pos, head);
    assert(head[0] == e.0);
    assert(head[1] == (e.1).0);
    assert(head[2] == e.2.len() as u32);
    assert(pl.path_of(i).len() <= pl.spec_segs().len());
    assert(place_entries(pl).skip(i)[0] == e);
    assert(place_entries(pl).skip(i).drop_first() =~= place_entries(pl).skip(i + 1));
}

proof fn lemma_place_fresh(pool: PlacePool, pl: PlacePool, i: int)
    requires
        place_encodable(pl),
        pool.wf(),
        0 <= i < pl.spec_rows().len(),
        place_replayed(pool, pl, i),
    ensures
        !(exists|j: int| 0 <= j < pool.spec_rows().len()
            && pool.has_shape(j, pl.spec_rows()[i].root, pl.path_of(i), pl.spec_rows()[i].ty)),
        pool.spec_segs().len() == pl.spec_rows()[i].segs.start,
        pool.spec_segs().len() + pl.path_of(i).len() <= u32::MAX,
{
    let row = pl.spec_rows()[i];
    assert forall|j: int| 0 <= j < pool.spec_rows().len() implies !pool.has_shape(j, row.root, pl.path_of(i), row.ty) by {
        assert(pool.spec_rows()[j] == pl.spec_rows()[j]);
        assert(pool.path_of(j) =~= pl.path_of(j));
        assert(!pl.has_shape(i, pl.spec_rows()[j].root, pl.path_of(j), pl.spec_rows()[j].ty));
    }
    if i > 0 {
        assert(pl.spec_rows()[i].segs.start == pl.spec_rows()[i - 1].segs.end);
    }
}

proof fn lemma_place_step(old_pool: PlacePool, pool: PlacePool, pl: PlacePool, i: int)
    requires
        0 <= i < pl.spec_rows().len(),
        pl.spec_rows()[i].segs.start <= pl.spec_rows()[i].segs.end <= pl.spec_segs().len(),
        pl.segs_end(i) == pl.spec_rows()[i].segs.start,
        place_replayed(old_pool, pl, i),
        old_pool.spec_segs().len() == pl.spec_rows()[i].segs.start,
        pool.spec_rows().len() == i + 1,
        pool.spec_rows().subrange(0, i) == old_pool.spec_rows(),
        pool.spec_rows()[i] == (PlaceRow {
            root: pl.spec_rows()[i].root,
            segs: core::ops::Range { start: old_pool.spec_segs().len() as u32, end: pool.spec_segs().len() as u32 },
            ty: pl.spec_rows()[i].ty,
        }),
        pool.spec_segs() == old_pool.spec_segs() + pl.path_of(i),
    ensures
        place_replayed(pool, pl, i + 1),
{
    let row = pl.spec_rows()[i];
    assert(pl.path_of(i) =~= pl.spec_segs().subrange(row.segs.start as int, row.segs.end as int));
    assert(pool.spec_segs().len() == row.segs.end);
    assert(pool.spec_rows()[i] == row);
    assert(pool.spec_rows() =~= pl.spec_rows().subrange(0, i + 1));
    assert(old_pool.spec_segs() == pl.spec_segs().subrange(0, row.segs.start as int));
    assert(pl.segs_end(i + 1) == row.segs.end);
    assert(pool.spec_segs() =~= pl.spec_segs().subrange(0, row.segs.end as int));
}

/// The place section: the count, then each place interned in order. Input
/// whose places do not intern to consecutive new ids is refused, as is a
/// path storage that would outgrow its 32-bit ranges.
#[verifier::rlimit(30)]
fn read_places(r: &mut Reader) -> (res: Result<PlacePool, DecodeError>)
    requires
        old(r).ok(),
    ensures
        final(r).ok(),
        final(r).words == old(r).words,
        res matches Ok(v) ==> v.wf(),
        forall|pl: PlacePool| place_encodable(pl) && #[trigger] at(old(r).words@, old(r).pos as int, place_words(pl)) ==>
            (res matches Ok(v) && v.spec_rows() == pl.spec_rows() && v.spec_segs() == pl.spec_segs()
                && final(r).pos == old(r).pos + place_words(pl).len()),
{
    let ghost w = r.words@;
    let ghost p0 = r.pos as int;
    proof {
        assert forall|pl: PlacePool| place_encodable(pl) && #[trigger] at(w, p0, place_words(pl)) implies
            p0 < w.len() && w[p0] == pl.spec_rows().len() as u32 && at(w, p0 + 1, cat(place_entries(pl))) by {
            lemma_at_concat(w, p0, seq![pl.spec_rows().len() as u32], cat(place_entries(pl)));
            lemma_at_index(w, p0, seq![pl.spec_rows().len() as u32]);
            assert(seq![pl.spec_rows().len() as u32][0] == pl.spec_rows().len() as u32);
        }
    }
    let n = r.u32()?;
    let mut pool = PlacePool::new();
    let mut i: u32 = 0;
    proof {
        assert forall|pl: PlacePool| place_encodable(pl) && #[trigger] at(w, p0, place_words(pl)) implies {
            &&& pl.spec_rows().len() == n
            &&& place_replayed(pool, pl, 0)
            &&& at(w, r.pos as int, cat(place_entries(pl).skip(0)))
            &&& r.pos + cat(place_entries(pl).skip(0)).len() == p0 + place_words(pl).len()
        } by {
            assert(place_entries(pl).skip(0) =~= place_entries(pl));
            assert(pool.spec_rows() =~= pl.spec_rows().subrange(0, 0));
            assert(pool.spec_segs() =~= pl.spec_segs().subrange(0, pl.segs_end(0)));
        }
    }
    while i < n
        invariant
            r.ok(),
            r.words@ == w,
            r.words == old(r).words,
            p0 == old(r).pos,
            i <= n,
            pool.wf(),
            pool.spec_rows().len() == i,
            forall|pl: PlacePool| place_encodable(pl) && #[trigger] at(w, p0, place_words(pl)) ==> {
                &&& pl.spec_rows().len() == n
                &&& place_replayed(pool, pl, i as int)
                &&& at(w, r.pos as int, cat(place_entries(pl).skip(i as int)))
                &&& r.pos + cat(place_entries(pl).skip(i as int)).len() == p0 + place_words(pl).len()
            },
        decreases n - i,
    {
        let ghost pos = r.pos as int;
        proof {
            assert forall|pl: PlacePool| place_encodable(pl) && #[trigger] at(w, p0, place_words(pl)) implies
                pos + 3 <= w.len() && at(w, pos + 3, cat(pl.path_of(i as int))) && w[pos + 2] == pl.path_of(i as int).len() by {
                lemma_place_entry(w, pos, pl, i as int);
            }
        }
        let root = r.u32()?;
        let ty = TyId(r.u32()?);
        let n_segs = r.u32()?;
        let path: Vec<Seg> = take_list(r, n_segs)?;
        let ghost old_pool = pool;
        proof {
            assert forall|pl: PlacePool| place_encodable(pl) && #[trigger] at(w, p0, place_words(pl)) implies {
                &&& root == pl.spec_rows()[i as int].root
                &&& ty == pl.spec_rows()[i as int].ty
                &&& path@ == pl.path_of(i as int)
                &&& at(w, r.pos as int, cat(place_entries(pl).skip(i + 1)))
                &&& r.pos + cat(place_entries(pl).skip(i + 1)).len() == p0 + place_words(pl).len()
                &&& !(exists|j: int| 0 <= j < old_pool.spec_rows().len() && old_pool.has_shape(j, root, path@, ty))
                &&& old_pool.spec_segs().len() == pl.spec_rows()[i as int].segs.start
                &&& old_pool.spec_segs().len() + path@.len() <= u32::MAX
            } by {
                lemma_place_entry(w, pos, pl, i as int);
                assert(at(w, pos + 3, cat(pl.path_of(i as int))));
                lemma_place_fresh(old_pool, pl, i as int);
            }
        }
        if path.len() > 0xFFFF_FFFF - pool.segs_len() {
            return Err(err("place path storage outgrows its ranges"));
        }
        let got = pool.intern(root, path.as_slice(), ty);
        if got.0 != i {
            return Err(err("place pool did not replay to the same ids (non-canonical input)"));
        }
        proof {
            assert forall|pl: PlacePool| place_encodable(pl) && #[trigger] at(w, p0, place_words(pl)) implies
                place_replayed(pool, pl, i + 1) by {
                assert(pl.spec_rows()[i as int].segs.start <= pl.spec_rows()[i as int].segs.end <= pl.spec_segs().len());
                if i > 0 {
                    assert(pl.spec_rows()[i as int].segs.start == pl.spec_rows()[i - 1].segs.end);
                }
                lemma_place_step(old_pool, pool, pl, i as int);
            }
        }
        i += 1;
    }
    proof {
        assert forall|pl: PlacePool| place_encodable(pl) && #[trigger] at(w, p0, place_words(pl)) implies
            pool.spec_rows() == pl.spec_rows() && pool.spec_segs() == pl.spec_segs() && r.pos == p0 + place_words(pl).len() by {
            assert(pl.spec_rows().subrange(0, n as int) =~= pl.spec_rows());
            assert(pl.spec_segs().subrange(0, pl.segs_end(n as int)) =~= pl.spec_segs());
            assert(place_entries(pl).skip(n as int) =~= Seq::<(u32, TyId, Seq<Seg>)>::empty());
        }
    }
    Ok(pool)
}

/// `w` holds sections `k..` of `d`'s encoding at `p`, and nothing after them.
pub open spec fn pending(w: Seq<u32>, p: int, d: DeclFmir, k: int) -> bool {
    at(w, p, decl_rest(d, k)) && p + decl_rest(d, k).len() == decl_words(d).len()
}

/// `w` starts with the encoding of the encodable declaration `d`, and may
/// hold more words after it.
pub open spec fn opens(w: Seq<u32>, d: DeclFmir) -> bool {
    &&& encodable(d)
    &&& decl_words(d).len() <= w.len()
    &&& w.subrange(0, decl_words(d).len() as int) == decl_words(d)
}

proof fn lemma_rest_step(w: Seq<u32>, p: int, d: DeclFmir, k: int)
    requires
        0 <= k < 21,
        pending(w, p, d, k),
    ensures
        at(w, p, decl_part(d, k)),
        pending(w, p + decl_part(d, k).len(), d, k + 1),
{
    lemma_at_concat(w, p, decl_part(d, k), decl_rest(d, k + 1));
}

/// Interns each constant in order; a list with no repeated value gives
/// back a pool holding exactly that list.
fn intern_all(values: Vec<ConstValue>) -> (r: ConstPool)
    requires
        values@.len() <= u32::MAX,
    ensures
        no_duplicates(values@) ==> r@ == values@,
{
    let mut pool = ConstPool::new();
    let mut i: usize = 0;
    while i < values.len()
        invariant
            i <= values@.len(),
            values@.len() <= u32::MAX,
            pool@.len() <= i,
            no_duplicates(values@) ==> pool@ == values@.subrange(0, i as int),
        decreases values@.len() - i,
    {
        let ghost before = pool@;
        pool.intern(values[i]);
        proof {
            if no_duplicates(values@) {
                assert(!before.contains(values@[i as int]));
                assert(values@.subrange(0, i + 1) =~= values@.subrange(0, i as int).push(values@[i as int]));
            }
        }
        i += 1;
    }
    assert(values@.subrange(0, i as int) =~= values@);
    pool
}

/// The header, the values and the places.
#[verifier::rlimit(30)]
fn decode_front(r: &mut Reader) -> (res: Result<(DeclKeyId, FnSigId, BlockId, bool, ValPool, PlacePool), DecodeError>)
    requires
        old(r).ok(),
        forall|d: DeclFmir| #[trigger] opens(old(r).words@, d) ==> pending(old(r).words@, old(r).pos as int, d, 0),
    ensures
        final(r).ok(),
        final(r).words == old(r).words,
        res matches Ok(x) ==> x.4.wf() && x.5.wf(),
        forall|d: DeclFmir| #[trigger] opens(old(r).words@, d) ==> (res matches Ok(x) && {
            &&& x.0 == d.decl
            &&& x.1 == d.sig
            &&& x.2 == d.entry
            &&& x.3 == d.is_unsafe_invariant
            &&& x.4.spec_rows() == d.vals.spec_rows()
            &&& x.4.spec_sources() == d.vals.spec_sources()
            &&& x.5.spec_rows() == d.places.spec_rows()
            &&& x.5.spec_segs() == d.places.spec_segs()
            &&& pending(old(r).words@, final(r).pos as int, d, 4)
        }),
{
    let ghost w = r.words@;
    let ghost p = r.pos as int;
    proof {
        assert forall|d: DeclFmir| #[trigger] opens(w, d) implies {
            &&& p + 4 <= w.len()
            &&& w[p] == d.decl.0
            &&& w[p + 1] == d.sig.0
            &&& w[p + 2] == d.entry.0
            &&& w[p + 3] == bool_word(d.is_unsafe_invariant)
            &&& pending(w, p + 4, d, 1)
        } by {
            lemma_rest_step(w, p, d, 0);
            lemma_at_index(w, p, decl_part(d, 0));
            assert(decl_part(d, 0)[0] == d.decl.0);
            assert(decl_part(d, 0)[1] == d.sig.0);
            assert(decl_part(d, 0)[2] == d.entry.0);
            assert(decl_part(d, 0)[3] == bool_word(d.is_unsafe_invariant));
        }
    }
    let decl = DeclKeyId(r.u32()?);
    let sig = FnSigId(r.u32()?);
    let entry = BlockId(r.u32()?);
    let is_unsafe_invariant = r.bool()?;
    let ghost p = r.pos as int;
    proof {
        assert forall|d: DeclFmir| #[trigger] opens(w, d) implies at(w, p, counted(d.vals.spec_rows()))
            && pending(w, p + counted(d.vals.spec_rows()).len(), d, 2) by {
            lemma_rest_step(w, p, d, 1);
        }
    }
    let rows: Vec<ValRow> = take_counted(r)?;
    proof {
        assert forall|d: DeclFmir| #[trigger] opens(w, d) implies rows@ == d.vals.spec_rows() && pending(w, r.pos as int, d, 2) by {
            assert(at(w, p, counted(d.vals.spec_rows())));
        }
    }
    let n_vals = rows.len() as u32;
    let ghost p = r.pos as int;
    proof {
        assert forall|d: DeclFmir| #[trigger] opens(w, d) implies at(w, p, cat(d.vals.spec_sources()))
            && d.vals.spec_sources().len() == n_vals && pending(w, p + cat(d.vals.spec_sources()).len(), d, 3) by {
            lemma_rest_step(w, p, d, 2);
        }
    }
    let sources: Vec<Option<core::ops::Range<u32>>> = take_list(r, n_vals)?;
    proof {
        assert forall|d: DeclFmir| #[trigger] opens(w, d) implies sources@ == d.vals.spec_sources() && pending(w, r.pos as int, d, 3) by {
            assert(at(w, p, cat(d.vals.spec_sources())));
        }
    }
    let vals = ValPool::from_columns(rows, sources);
    let ghost p = r.pos as int;
    proof {
        assert forall|d: DeclFmir| #[trigger] opens(w, d) implies at(w, p, place_words(d.places))
            && place_encodable(d.places) && pending(w, p + place_words(d.places).len(), d, 4) by {
            lemma_rest_step(w, p, d, 3);
        }
    }
    let places = read_places(r)?;
    proof {
        assert forall|d: DeclFmir| #[trigger] opens(w, d) implies places.spec_rows() == d.places.spec_rows()
            && places.spec_segs() == d.places.spec_segs() && pending(w, r.pos as int, d, 4) by {
            assert(at(w, p, place_words(d.places)));
        }
    }
    Ok((decl, sig, entry, is_unsafe_invariant, vals, places))
}

/// The instruction pool and its side tables.
#[verifier::rlimit(30)]
fn decode_insts(r: &mut Reader) -> (res: Result<InstPool, DecodeError>)
    requires
        old(r).ok(),
        forall|d: DeclFmir| #[trigger] opens(old(r).words@, d) ==> pending(old(r).words@, old(r).pos as int, d, 4),
    ensures
        final(r).ok(),
        final(r).words == old(r).words,
        forall|d: DeclFmir| #[trigger] opens(old(r).words@, d) ==> (res matches Ok(x) && {
            &&& x@ == d.insts@
            &&& x.aliases@ == d.insts.aliases@
            &&& x.operands@ == d.insts.operands@
            &&& x.arg_convs@ == d.insts.arg_convs@
            &&& x.calls@ == d.insts.calls@
            &&& x.reduces@ == d.insts.reduces@
            &&& x.switches@ == d.insts.switches@
            &&& x.switch_arms@ == d.insts.switch_arms@
            &&& pending(old(r).words@, final(r).pos as int, d, 12)
        }),
{
    let ghost w = r.words@;
    let ghost p = r.pos as int;
    proof {
        assert forall|d: DeclFmir| #[trigger] opens(w, d) implies at(w, p, counted(d.insts@))
            && pending(w, p + counted(d.insts@).len(), d, 5) by {
            lemma_rest_step(w, p, d, 4);
        }
    }
    let rows: Vec<InstRow> = take_counted(r)?;
    proof {
        assert forall|d: DeclFmir| #[trigger] opens(w, d) implies rows@ == d.insts@ && pending(w, r.pos as int, d, 5) by {
            assert(at(w, p, counted(d.insts@)));
        }
    }
    let n_insts = rows.len() as u32;
    let ghost p = r.pos as int;
    proof {
        assert forall|d: DeclFmir| #[trigger] opens(w, d) implies at(w, p, cat(d.insts.aliases@))
            && d.insts.aliases@.len() == n_insts && pending(w, p + cat(d.insts.aliases@).len(), d, 6) by {
            lemma_rest_step(w, p, d, 5);
        }
    }
    let seeds: Vec<AliasSeed> = take_list(r, n_insts)?;
    proof {
        assert forall|d: DeclFmir| #[trigger] opens(w, d) implies seeds@ == d.insts.aliases@ && pending(w, r.pos as int, d, 6) by {
            assert(at(w, p, cat(d.insts.aliases@)));
        }
    }
    let ghost p = r.pos as int;
    proof {
        assert forall|d: DeclFmir| #[trigger] opens(w, d) implies at(w, p, counted(d.insts.operands@))
            && pending(w, p + counted(d.insts.operands@).len(), d, 7) by {
            lemma_rest_step(w, p, d, 6);
        }
    }
    let operands: Vec<ValId> = take_counted(r)?;
    proof {
        assert forall|d: DeclFmir| #[trigger] opens(w, d) implies operands@ == d.insts.operands@ && pending(w, r.pos as int, d, 7) by {
            assert(at(w, p, counted(d.insts.operands@)));
        }
    }
    let ghost p = r.pos as int;
    proof {
        assert forall|d: DeclFmir| #[trigger] opens(w, d) implies at(w, p, counted(d.insts.arg_convs@))
            && pending(w, p + counted(d.insts.arg_convs@).len(), d, 8) by {
            lemma_rest_step(w, p, d, 7);
        }
    }
    let arg_convs: Vec<Conv> = take_counted(r)?;
    proof {
        assert forall|d: DeclFmir| #[trigger] opens(w, d) implies arg_convs@ == d.insts.arg_convs@ && pending(w, r.pos as int, d, 8) by {
            assert(at(w, p, counted(d.insts.arg_convs@)));
        }
    }
    let ghost p = r.pos as int;
    proof {
        assert forall|d: DeclFmir| #[trigger] opens(w, d) implies at(w, p, counted(d.insts.calls@))
            && pending(w, p + counted(d.insts.calls@).len(), d, 9) by {
            lemma_rest_step(w, p, d, 8);
        }
    }
    let calls: Vec<CallRow> = take_counted(r)?;
    proof {
        assert forall|d: DeclFmir| #[trigger] opens(w, d) implies calls@ == d.insts.calls@ && pending(w, r.pos as int, d, 9) by {
            assert(at(w, p, counted(d.insts.calls@)));
        }
    }
    let ghost p = r.pos as int;
    proof {
        assert forall|d: DeclFmir| #[trigger] opens(w, d) implies at(w, p, counted(d.insts.reduces@))
            && pending(w, p + counted(d.insts.reduces@).len(), d, 10) by {
            lemma_rest_step(w, p, d, 9);
        }
    }
    let reduces: Vec<ReduceRow> = take_counted(r)?;
    proof {
        assert forall|d: DeclFmir| #[trigger] opens(w, d) implies reduces@ == d.insts.reduces@ && pending(w, r.pos as int, d, 10) by {
            assert(at(w, p, counted(d.insts.reduces@)));
        }
    }
    let ghost p = r.pos as int;
    proof {
        assert forall|d: DeclFmir| #[trigger] opens(w, d) implies at(w, p, counted(d.insts.switches@))
            && pending(w, p + counted(d.insts.switches@).len(), d, 11) by {
            lemma_rest_step(w, p, d, 10);
        }
    }
    let switches: Vec<SwitchRow> = take_counted(r)?;
    proof {
        assert forall|d: DeclFmir| #[trigger] opens(w, d) implies switches@ == d.insts.switches@ && pending(w, r.pos as int, d, 11) by {
            assert(at(w, p, counted(d.insts.switches@)));
        }
    }
    let ghost p = r.pos as int;
    proof {
        assert forall|d: DeclFmir| #[trigger] opens(w, d) implies at(w, p, counted(d.insts.switch_arms@))
            && pending(w, p + counted(d.insts.switch_arms@).len(), d, 12) by {
            lemma_rest_step(w, p, d, 11);
        }
    }
    let switch_arms: Vec<SwitchArm> = take_counted(r)?;
    proof {
        assert forall|d: DeclFmir| #[trigger] opens(w, d) implies switch_arms@ == d.insts.switch_arms@ && pending(w, r.pos as int, d, 12) by {
            assert(at(w, p, counted(d.insts.switch_arms@)));
        }
    }
    Ok(InstPool {
        rows,
        aliases: AliasSeedPool::from_raw(seeds),
        operands,
        arg_convs,
        calls,
        reduces,
        switches,
        switch_arms,
    })
}

/// The block, scope, defer, region, capture, site, constant and place-list
/// pools.
#[verifier::rlimit(30)]
fn decode_back(r: &mut Reader) -> (res: Result<(BlockPool, ScopePool, DeferPool, RegionPool, SitePool, ConstPool, PlaceListPool, PlaceListPool), DecodeError>)
    requires
        old(r).ok(),
        forall|d: DeclFmir| #[trigger] opens(old(r).words@, d) ==> pending(old(r).words@, old(r).pos as int, d, 12),
    ensures
        final(r).ok(),
        final(r).words == old(r).words,
        forall|d: DeclFmir| #[trigger] opens(old(r).words@, d) ==> (res matches Ok(x) && {
            &&& x.0@ == d.blocks@
            &&& x.1.spec_rows() == d.scopes.spec_rows()
            &&& x.2@ == d.defers@
            &&& x.3.spec_rows() == d.regions.spec_rows()
            &&& x.3.captures@ == d.regions.captures@
            &&& x.4@ == d.sites@
            &&& x.5@ == d.consts@
            &&& x.6@ == d.obligations@
            &&& x.7@ == d.scoped_sources@
            &&& pending(old(r).words@, final(r).pos as int, d, 21)
        }),
{
    let ghost w = r.words@;
    let ghost p = r.pos as int;
    proof {
        assert forall|d: DeclFmir| #[trigger] opens(w, d) implies at(w, p, counted(d.blocks@))
            && pending(w, p + counted(d.blocks@).len(), d, 13) by {
            lemma_rest_step(w, p, d, 12);
        }
    }
    let blocks: Vec<BlockRow> = take_counted(r)?;
    proof {
        assert forall|d: DeclFmir| #[trigger] opens(w, d) implies blocks@ == d.blocks@ && pending(w, r.pos as int, d, 13) by {
            assert(at(w, p, counted(d.blocks@)));
        }
    }
    let ghost p = r.pos as int;
    proof {
        assert forall|d: DeclFmir| #[trigger] opens(w, d) implies at(w, p, counted(d.scopes.spec_rows()))
            && pending(w, p + counted(d.scopes.spec_rows()).len(), d, 14) by {
            lemma_rest_step(w, p, d, 13);
        }
    }
    let scopes: Vec<ScopeRow> = take_counted(r)?;
    proof {
        assert forall|d: DeclFmir| #[trigger] opens(w, d) implies scopes@ == d.scopes.spec_rows() && pending(w, r.pos as int, d, 14) by {
            assert(at(w, p, counted(d.scopes.spec_rows())));
        }
    }
    let ghost p = r.pos as int;
    proof {
        assert forall|d: DeclFmir| #[trigger] opens(w, d) implies at(w, p, counted(d.defers@))
            && pending(w, p + counted(d.defers@).len(), d, 15) by {
            lemma_rest_step(w, p, d, 14);
        }
    }
    let defers: Vec<DeferRow> = take_counted(r)?;
    proof {
        assert forall|d: DeclFmir| #[trigger] opens(w, d) implies defers@ == d.defers@ && pending(w, r.pos as int, d, 15) by {
            assert(at(w, p, counted(d.defers@)));
        }
    }
    let ghost p = r.pos as int;
    proof {
        assert forall|d: DeclFmir| #[trigger] opens(w, d) implies at(w, p, counted(d.regions.spec_rows()))
            && pending(w, p + counted(d.regions.spec_rows()).len(), d, 16) by {
            lemma_rest_step(w, p, d, 15);
        }
    }
    let regions: Vec<RegionRow> = take_counted(r)?;
    proof {
        assert forall|d: DeclFmir| #[trigger] opens(w, d) implies regions@ == d.regions.spec_rows() && pending(w, r.pos as int, d, 16) by {
            assert(at(w, p, counted(d.regions.spec_rows())));
        }
    }
    let ghost p = r.pos as int;
    proof {
        assert forall|d: DeclFmir| #[trigger] opens(w, d) implies at(w, p, counted(d.regions.captures@))
            && pending(w, p + counted(d.regions.captures@).len(), d, 17) by {
            lemma_rest_step(w, p, d, 16);
        }
    }
    let captures: Vec<CaptureRow> = take_counted(r)?;
    proof {
        assert forall|d: DeclFmir| #[trigger] opens(w, d) implies captures@ == d.regions.captures@ && pending(w, r.pos as int, d, 17) by {
            assert(at(w, p, counted(d.regions.captures@)));
        }
    }
    let ghost p = r.pos as int;
    proof {
        assert forall|d: DeclFmir| #[trigger] opens(w, d) implies at(w, p, counted(d.sites@))
            && pending(w, p + counted(d.sites@).len(), d, 18) by {
            lemma_rest_step(w, p, d, 17);
        }
    }
    let sites: Vec<SiteRow> = take_counted(r)?;
    proof {
        assert forall|d: DeclFmir| #[trigger] opens(w, d) implies sites@ == d.sites@ && pending(w, r.pos as int, d, 18) by {
            assert(at(w, p, counted(d.sites@)));
        }
    }
    let ghost p = r.pos as int;
    proof {
        assert forall|d: DeclFmir| #[trigger] opens(w, d) implies at(w, p, counted(d.consts@))
            && pending(w, p + counted(d.consts@).len(), d, 19) by {
            lemma_rest_step(w, p, d, 18);
        }
    }
    let consts: Vec<ConstValue> = take_counted(r)?;
    proof {
        assert forall|d: DeclFmir| #[trigger] opens(w, d) implies consts@ == d.consts@ && pending(w, r.pos as int, d, 19) by {
            assert(at(w, p, counted(d.consts@)));
        }
    }
    let ghost p = r.pos as int;
    proof {
        assert forall|d: DeclFmir| #[trigger] opens(w, d) implies at(w, p, counted(d.obligations@))
            && pending(w, p + counted(d.obligations@).len(), d, 20) by {
            lemma_rest_step(w, p, d, 19);
        }
    }
    let obligations: Vec<PlaceId> = take_counted(r)?;
    proof {
        assert forall|d: DeclFmir| #[trigger] opens(w, d) implies obligations@ == d.obligations@ && pending(w, r.pos as int, d, 20) by {
            assert(at(w, p, counted(d.obligations@)));
        }
    }
    let ghost p = r.pos as int;
    proof {
        assert forall|d: DeclFmir| #[trigger] opens(w, d) implies at(w, p, counted(d.scoped_sources@))
            && pending(w, p + counted(d.scoped_sources@).len(), d, 21) by {
            lemma_rest_step(w, p, d, 20);
        }
    }
    let sources: Vec<PlaceId> = take_counted(r)?;
    proof {
        assert forall|d: DeclFmir| #[trigger] opens(w, d) implies sources@ == d.scoped_sources@ && pending(w, r.pos as int, d, 21) by {
            assert(at(w, p, counted(d.scoped_sources@)));
        }
    }
    let consts = intern_all(consts);
    Ok((
        BlockPool { rows: blocks },
        ScopePool { rows: scopes },
        DeferPool::from_rows(defers),
        RegionPool { rows: regions, captures: CapturePool::from_rows(captures) },
        SitePool::from_rows(sites),
        consts,
        PlaceListPool::from_raw(obligations),
        PlaceListPool::from_raw(sources),
    ))
}

/// Decodes a whole word encoding; any word left over is refused.
fn decode_words(words: &[u32]) -> (res: Result<DeclFmir, DecodeError>)
    ensures
        res matches Ok(e) ==> e.wf() && e.fingerprint == 0,
        forall|d: DeclFmir| #[trigger] opens(words@, d) && words@.len() == decl_words(d).len() ==> (res matches Ok(
            e,
        ) && same_content(e, d)),
        forall|d: DeclFmir| #[trigger] opens(words@, d) && words@.len() > decl_words(d).len() ==> res is Err,
{
    let mut r = Reader { words, pos: 0 };
    let ghost w = words@;
    proof {
        assert forall|d: DeclFmir| #[trigger] opens(w, d) implies pending(w, 0, d, 0) by {
            assert(decl_rest(d, 0) == decl_words(d));
        }
    }
    let (decl, sig, entry, is_unsafe_invariant, vals, places) = decode_front(&mut r)?;
    let insts = decode_insts(&mut r)?;
    let (blocks, scopes, defers, regions, sites, consts, obligations, scoped_sources) = decode_back(&mut r)?;
    if r.pos != words.len() {
        return Err(err("trailing bytes after a complete decode"));
    }
    let e = DeclFmir {
        decl,
        sig,
        vals,
        blocks,
        insts,
        scopes,
        places,
        regions,
        sites,
        consts,
        obligations,
        scoped_sources,
        defers,
        entry,
        is_unsafe_invariant,
        fingerprint: 0,
    };
    Ok(e)
}

/// The inverse of [`to_bytes`]: a byte string that is the encoding of an
/// encodable declaration decodes to a declaration with the same content.
/// A length that is not a whole number of words is refused.
pub fn from_bytes(bytes: &[u8]) -> (res: Result<DeclFmir, DecodeError>)
    ensures
        bytes@.len() % 4 != 0 ==> res is Err,
        res matches Ok(e) ==> e.wf() && e.fingerprint == 0,
        forall|d: DeclFmir| encodable(d) && bytes@ == #[trigger] words_to_bytes(decl_words(d)) ==>
            (res matches Ok(e) && same_content(e, d)),
        forall|d: DeclFmir, extra: Seq<u32>|
            encodable(d) && extra.len() > 0 && bytes@ == #[trigger] words_to_bytes(decl_words(d) + extra) ==> res is Err,
{
    if bytes.len() % 4 != 0 {
        proof {
            assert forall|d: DeclFmir| encodable(d) && bytes@ == #[trigger] words_to_bytes(decl_words(d)) implies false by {
                lemma_words_to_bytes_len(decl_words(d));
            }
        }
        return Err(err("byte length is not a multiple of 4"));
    }
    let n = bytes.len() / 4;
    assert(bytes@.len() == 4 * n);
    let mut words: Vec<u32> = Vec::new();
    let mut i: usize = 0;
    while i < n
        invariant
            n == bytes@.len() / 4,
            bytes@.len() == 4 * n,
            bytes@.len() == bytes.len(),
            i <= n,
            words@.len() == i,
            forall|j: int| 0 <= j < i ==> #[trigger] words@[j] == vstd::bytes::spec_u32_from_le_bytes(bytes@.subrange(4 * j, 4 * j + 4)),
        decreases n - i,
    {
        let at_byte: usize = 4 * i;
        let v = vstd::bytes::u32_from_le_bytes(&bytes[at_byte..at_byte + 4]);
        words.push(v);
        i += 1;
    }
    proof {
        vstd::bytes::lemma_auto_spec_u32_to_from_le_bytes();
        assert forall|d: DeclFmir, extra: Seq<u32>|
            encodable(d) && extra.len() > 0 && bytes@ == #[trigger] words_to_bytes(decl_words(d) + extra) implies
            opens(words@, d) && words@.len() > decl_words(d).len() by {
            let dw = decl_words(d) + extra;
            lemma_words_to_bytes_len(dw);
            assert forall|j: int| 0 <= j < dw.len() implies words@[j] == dw[j] by {
                lemma_words_to_bytes_at(dw, j);
                assert(vstd::bytes::spec_u32_to_le_bytes(dw[j]).len() == 4);
                assert(words@[j] == vstd::bytes::spec_u32_from_le_bytes(bytes@.subrange(4 * j, 4 * j + 4)));
            }
            assert(words@ =~= dw);
            assert(words@.subrange(0, decl_words(d).len() as int) =~= decl_words(d));
        }
        assert forall|d: DeclFmir| encodable(d) && bytes@ == #[trigger] words_to_bytes(decl_words(d)) implies
            opens(words@, d) && words@.len() == decl_words(d).len() by {
            let dw = decl_words(d);
            lemma_words_to_bytes_len(dw);
            assert forall|j: int| 0 <= j < dw.len() implies words@[j] == dw[j] by {
                lemma_words_to_bytes_at(dw, j);
                assert(vstd::bytes::spec_u32_to_le_bytes(dw[j]).len() == 4);
                assert(words@[j] == vstd::bytes::spec_u32_from_le_bytes(bytes@.subrange(4 * j, 4 * j + 4)));
            }
            assert(words@ =~= dw);
            assert(words@.subrange(0, dw.len() as int) =~= dw);
        }
    }
    decode_words(words.as_slice())
}

} // verus!
