//! The primitives of the canonical signature encoding: the fingerprint
//! policy byte, unsigned LEB128 integers, length-prefixed byte strings, and
//! the bounds-checked reader every decoder goes through.
//!
//! Malformed bytes are an error, never a panic: every length prefix is
//! checked against what remains before anything is read.

use vstd::prelude::*;

verus! {

/// The three choices the declaration fingerprint makes, as data.
#[derive(Clone, Copy, PartialEq, Eq, Structural, Debug)]
pub struct FingerprintPolicy {
    /// Does a `const` declaration's comptime value enter its hash?
    pub include_const_value: bool,
    /// Are generic-parameter names left out (alpha-equivalence)?
    pub exclude_gparam_names: bool,
    /// Are bound lists sorted before hashing (`T: Eq + Ord` == `T: Ord + Eq`)?
    pub sort_bound_lists: bool,
}

pub open spec fn bit(b: bool) -> u8 {
    if b {
        1
    } else {
        0
    }
}

/// The policy byte: bit 0, 1 and 2 for the three choices in field order.
pub open spec fn policy_byte(p: FingerprintPolicy) -> u8 {
    bit(p.include_const_value) | (bit(p.exclude_gparam_names) << 1u8) | (bit(p.sort_bound_lists) << 2u8)
}

impl FingerprintPolicy {
    pub fn to_byte(self) -> (r: u8)
        ensures
            r == policy_byte(self),
    {
        let a: u8 = if self.include_const_value { 1 } else { 0 };
        let b: u8 = if self.exclude_gparam_names { 1 } else { 0 };
        let c: u8 = if self.sort_bound_lists { 1 } else { 0 };
        a | (b << 1u8) | (c << 2u8)
    }

    /// Reads the three choices back from their bits; higher bits are ignored.
    pub fn from_byte(v: u8) -> (r: FingerprintPolicy)
        ensures
            r == (FingerprintPolicy {
                include_const_value: v & 1 != 0,
                exclude_gparam_names: v & 2 != 0,
                sort_bound_lists: v & 4 != 0,
            }),
    {
        FingerprintPolicy { include_const_value: v & 1 != 0, exclude_gparam_names: v & 2 != 0, sort_bound_lists: v & 4 != 0 }
    }
}

/// A policy survives its byte, and a byte below eight survives the policy
/// it reads as: the two conversions are inverse on the three bits.
pub proof fn lemma_policy_byte_round_trip(p: FingerprintPolicy, v: u8)
    ensures
        policy_byte(p) < 8,
        policy_byte(p) & 1 != 0 <==> p.include_const_value,
        policy_byte(p) & 2 != 0 <==> p.exclude_gparam_names,
        policy_byte(p) & 4 != 0 <==> p.sort_bound_lists,
        v < 8 ==> policy_byte(
            FingerprintPolicy { include_const_value: v & 1 != 0, exclude_gparam_names: v & 2 != 0, sort_bound_lists: v & 4 != 0 },
        ) == v,
{
    let a = bit(p.include_const_value);
    let b = bit(p.exclude_gparam_names);
    let c = bit(p.sort_bound_lists);
    assert(a <= 1 && b <= 1 && c <= 1 ==> {
        &&& (a | (b << 1u8) | (c << 2u8)) < 8
        &&& ((a | (b << 1u8) | (c << 2u8)) & 1 != 0 <==> a == 1)
        &&& ((a | (b << 1u8) | (c << 2u8)) & 2 != 0 <==> b == 1)
        &&& ((a | (b << 1u8) | (c << 2u8)) & 4 != 0 <==> c == 1)
    }) by (bit_vector);
    let a2: u8 = if v & 1 != 0 { 1 } else { 0 };
    let b2: u8 = if v & 2 != 0 { 1 } else { 0 };
    let c2: u8 = if v & 4 != 0 { 1 } else { 0 };
    assert(v < 8 && (a2 == 1 <==> v & 1 != 0) && (b2 == 1 <==> v & 2 != 0) && (c2 == 1 <==> v & 4 != 0) && a2 <= 1
        && b2 <= 1 && c2 <= 1 ==> (a2 | (b2 << 1u8) | (c2 << 2u8)) == v) by (bit_vector);
}

// ---------------------------------------------------------------------------
// Unsigned LEB128.

/// The unsigned LEB128 encoding of `v`: seven bits per byte, least
/// significant group first, the top bit set on every byte but the last.
pub open spec fn spec_uleb(v: u64) -> Seq<u8>
    decreases v
    via uleb_decreases
{
    if v < 128 {
        seq![v as u8]
    } else {
        seq![((v & 0x7F) | 0x80) as u8] + spec_uleb(v >> 7u64)
    }
}

#[via_fn]
proof fn uleb_decreases(v: u64) {
    if v >= 128 {
        assert(v >= 128 ==> v >> 7u64 < v) by (bit_vector);
    }
}

/// The shape of an unsigned LEB128 encoding: one to ten bytes, every byte
/// but the last with its continuation bit set, the last without it.
pub proof fn lemma_uleb_shape(v: u64)
    ensures
        1 <= spec_uleb(v).len() <= 10,
        spec_uleb(v).last() < 128,
        forall|i: int| 0 <= i < spec_uleb(v).len() - 1 ==> #[trigger] spec_uleb(v)[i] >= 128,
{
    lemma_uleb_shape_below(v, 10);
}

proof fn lemma_uleb_shape_below(v: u64, k: nat)
    requires
        k >= 1,
        k >= 10 || (v as int) < pow_7(k),
    ensures
        1 <= spec_uleb(v).len() <= k,
        spec_uleb(v).last() < 128,
        forall|i: int| 0 <= i < spec_uleb(v).len() - 1 ==> #[trigger] spec_uleb(v)[i] >= 128,
    decreases k,
{
    if v < 128 {
        assert(spec_uleb(v) == seq![v as u8]);
    } else {
        let w = v >> 7u64;
        let b = ((v & 0x7F) | 0x80) as u8;
        assert(b >= 128 && (w as int) * 128 <= v as int && (v >= 128 ==> w >= 1)) by (bit_vector)
            requires
                b == ((v & 0x7F) | 0x80) as u8,
                w == v >> 7u64,
                v >= 128,
        ;
        if k == 1 {
            assert(pow_7(1) == 128);
            assert(false);
        }
        if k > 10 {
            lemma_uleb_shape_below(w, (k - 1) as nat);
        } else if k == 10 {
            assert((w as int) < pow_7(9)) by {
                reveal_with_fuel(pow_7, 10);
                assert(pow_7(9) == 0x8000_0000_0000_0000int);
                assert(w < 0x200_0000_0000_0000u64) by (bit_vector)
                    requires
                        w == v >> 7u64,
                ;
            }
            lemma_uleb_shape_below(w, 9);
        } else {
            assert(pow_7(k) == 128 * pow_7((k - 1) as nat));
            lemma_uleb_shape_below(w, (k - 1) as nat);
        }
        let t = spec_uleb(w);
        assert(spec_uleb(v) == seq![b] + t);
        assert forall|i: int| 0 <= i < spec_uleb(v).len() - 1 implies #[trigger] spec_uleb(v)[i] >= 128 by {
            if i > 0 {
                assert(spec_uleb(v)[i] == t[i - 1]);
            }
        }
    }
}

/// `128` to the power `k`.
pub open spec fn pow_7(k: nat) -> int
    decreases k,
{
    if k == 0 {
        1
    } else {
        128 * pow_7((k - 1) as nat)
    }
}

/// Appends the unsigned LEB128 encoding of `v`.
pub fn uleb(out: &mut Vec<u8>, v: u64)
    ensures
        final(out)@ == old(out)@ + spec_uleb(v),
    decreases v,
{
    let byte = (v & 0x7F) as u8;
    let rest = v >> 7u64;
    if rest == 0 {
        proof {
            assert(v >> 7u64 == 0 ==> v < 128 && (v & 0x7F) == v) by (bit_vector);
        }
        out.push(byte);
        assert(out@ =~= old(out)@ + spec_uleb(v));
    } else {
        proof {
            assert(v >> 7u64 != 0 ==> v >= 128 && (v >> 7u64) < v) by (bit_vector);
            assert(((v & 0x7F) as u8 | 0x80u8) == ((v & 0x7F) | 0x80) as u8) by (bit_vector);
        }
        out.push(byte | 0x80);
        uleb(out, rest);
        assert(spec_uleb(v) == seq![((v & 0x7F) | 0x80) as u8] + spec_uleb(v >> 7u64));
        assert(out@ =~= old(out)@ + spec_uleb(v));
    }
}

/// Appends a length-prefixed byte string.
pub fn write_bytes(out: &mut Vec<u8>, bytes: &[u8])
    ensures
        final(out)@ == old(out)@ + spec_uleb(bytes@.len() as u64) + bytes@,
{
    uleb(out, bytes.len() as u64);
    let mut i: usize = 0;
    let ghost mid = out@;
    while i < bytes.len()
        invariant
            i <= bytes@.len(),
            out@ == mid + bytes@.subrange(0, i as int),
        decreases bytes@.len() - i,
    {
        out.push(bytes[i]);
        assert(bytes@.subrange(0, i + 1) =~= bytes@.subrange(0, i as int).push(bytes@[i as int]));
        i += 1;
    }
    assert(bytes@.subrange(0, i as int) =~= bytes@);
}

// ---------------------------------------------------------------------------
// Reading.

/// Why a byte string does not decode.
#[derive(Clone, Copy, PartialEq, Eq, Structural, Debug)]
pub enum DecodeError {
    Truncated,
    BadMagic,
    BadTag(u8),
    BadRef(u32),
    /// An integer whose encoding runs past 64 bits.
    BadUtf8Length,
    /// A length prefix larger than the bytes that remain, or than the pool it
    /// would fill can hold.
    BadCount(u64),
    /// A declaration key nested deeper than any real declaration can be.
    TooDeep,
    /// A byte that violates a store invariant.
    BadShape,
}

/// A cursor over an encoding.
pub struct Dec<'a> {
    pub b: &'a [u8],
    pub i: usize,
}

/// `b` holds `s` starting at `i`.
pub open spec fn bytes_at(b: Seq<u8>, i: int, s: Seq<u8>) -> bool {
    &&& 0 <= i
    &&& i + s.len() <= b.len()
    &&& b.subrange(i, i + s.len()) == s
}

/// The low `n` bits of `v`.
pub open spec fn low_bits(v: u64, n: u64) -> u64 {
    if n >= 64 {
        v
    } else {
        v & (((1u64 << n) - 1) as u64)
    }
}

proof fn lemma_uleb_step(v: u64, s: u64)
    requires
        s <= 63,
    ensures
        (v >> s) < 128 ==> (low_bits(v, s) | ((((v >> s) & 0x7F) as u8 & 0x7F) as u64) << s) == v,
        s + 7 <= 63 ==> (low_bits(v, s) | ((((v >> s) & 0x7F) as u8 & 0x7F) as u64) << s) == low_bits(v, (s + 7) as u64),
        (v >> s) >> 7u64 == v >> ((s + 7) as u64),
{
    if s == 0 {
        assert(low_bits(v, 0) == 0) by {
            assert(v & (((1u64 << 0u64) - 1) as u64) == 0) by (bit_vector);
        }
    }
    assert((v >> s) < 128 && s <= 63 ==> ((v & (((1u64 << s) - 1) as u64)) | ((((v >> s) & 0x7F) as u8 & 0x7F) as u64) << s) == v)
        by (bit_vector);
    assert(s + 7 <= 63 ==> ((v & (((1u64 << s) - 1) as u64)) | ((((v >> s) & 0x7F) as u8 & 0x7F) as u64) << s) == (v & (((1u64 << ((s + 7) as u64)) - 1) as u64))) by (bit_vector);
    assert(s <= 63 ==> (v >> s) >> 7u64 == v >> ((s + 7) as u64)) by (bit_vector);
}

proof fn lemma_uleb_last(b: Seq<u8>, pos: int, w: u64, shift: u64, byte: u8)
    requires
        shift <= 63,
        bytes_at(b, pos, spec_uleb(w >> shift)),
        pos < b.len(),
        byte == b[pos],
        byte & 0x80 == 0,
    ensures
        (low_bits(w, shift) | (((byte & 0x7F) as u64) << shift)) == w,
        spec_uleb(w >> shift).len() == 1,
{
    let r = w >> shift;
    assert(b.subrange(pos, pos + spec_uleb(r).len())[0] == b[pos]);
    lemma_uleb_step(w, shift);
    if r >= 128 {
        assert(spec_uleb(r)[0] == ((r & 0x7F) | 0x80) as u8);
        assert((((r & 0x7F) | 0x80) as u8) & 0x80 != 0) by (bit_vector);
        assert(false);
    }
    assert(spec_uleb(r) =~= seq![r as u8]);
    assert(r < 128 ==> (r as u8) & 0x7F == ((r & 0x7F) as u8 & 0x7F)) by (bit_vector);
}

proof fn lemma_uleb_more(b: Seq<u8>, pos: int, w: u64, shift: u64, byte: u8)
    requires
        shift <= 63,
        shift % 7 == 0,
        bytes_at(b, pos, spec_uleb(w >> shift)),
        pos < b.len(),
        byte == b[pos],
        byte & 0x80 != 0,
    ensures
        shift + 7 <= 63,
        (low_bits(w, shift) | (((byte & 0x7F) as u64) << shift)) == low_bits(w, (shift + 7) as u64),
        bytes_at(b, pos + 1, spec_uleb(w >> ((shift + 7) as u64))),
        spec_uleb(w >> shift).len() == 1 + spec_uleb(w >> ((shift + 7) as u64)).len(),
{
    let r = w >> shift;
    assert(b.subrange(pos, pos + spec_uleb(r).len())[0] == b[pos]);
    if r < 128 {
        assert(spec_uleb(r) =~= seq![r as u8]);
        assert(r < 128 ==> (r as u8) & 0x80 == 0) by (bit_vector);
        assert(false);
    }
    assert(r >= 128 && shift <= 63 && shift % 7 == 0 ==> shift + 7 <= 63) by (bit_vector)
        requires
            r == w >> shift,
    ;
    lemma_uleb_step(w, shift);
    let head = ((r & 0x7F) | 0x80) as u8;
    let rest = spec_uleb(r >> 7u64);
    assert(spec_uleb(r) == seq![head] + rest);
    assert(head & 0x7F == ((r & 0x7F) as u8 & 0x7F)) by (bit_vector)
        requires
            head == ((r & 0x7F) | 0x80) as u8,
    ;
    assert(b.subrange(pos + 1, pos + 1 + rest.len()) =~= b.subrange(pos, pos + spec_uleb(r).len()).subrange(1, spec_uleb(r).len() as int));
    assert((seq![head] + rest).subrange(1, (seq![head] + rest).len() as int) =~= rest);
}

impl<'a> Dec<'a> {
    pub open spec fn ok(&self) -> bool {
        self.i <= self.b@.len()
    }

    pub fn byte(&mut self) -> (r: Result<u8, DecodeError>)
        requires
            old(self).ok(),
        ensures
            final(self).ok(),
            final(self).b == old(self).b,
            old(self).i < old(self).b@.len() ==> r == Ok::<u8, DecodeError>(old(self).b@[old(self).i as int])
                && final(self).i == old(self).i + 1,
            old(self).i >= old(self).b@.len() ==> r == Err::<u8, DecodeError>(DecodeError::Truncated),
    {
        if self.i < self.b.len() {
            let v = self.b[self.i];
            self.i = self.i + 1;
            Ok(v)
        } else {
            Err(DecodeError::Truncated)
        }
    }

    /// An unsigned LEB128 integer; an encoding that runs past 64 bits is
    /// refused.
    pub fn uleb(&mut self) -> (r: Result<u64, DecodeError>)
        requires
            old(self).ok(),
        ensures
            final(self).ok(),
            final(self).b == old(self).b,
            forall|v: u64| #[trigger] bytes_at(old(self).b@, old(self).i as int, spec_uleb(v)) ==> r == Ok::<
                u64,
                DecodeError,
            >(v) && final(self).i == old(self).i + spec_uleb(v).len(),
    {
        let ghost b = self.b@;
        let ghost i0 = self.i as int;
        let mut v: u64 = 0;
        let mut shift: u64 = 0;
        proof {
            assert forall|w: u64| #[trigger] bytes_at(b, i0, spec_uleb(w)) implies v == low_bits(w, shift) && (w >> shift) == w by {
                assert(w & (((1u64 << 0u64) - 1) as u64) == 0 && (w >> 0u64) == w) by (bit_vector);
            }
        }
        loop
            invariant
                self.ok(),
                self.b == old(self).b,
                b == self.b@,
                i0 == old(self).i,
                shift <= 63,
                shift % 7 == 0,
                forall|w: u64| #[trigger] bytes_at(b, i0, spec_uleb(w)) ==> {
                    &&& v == low_bits(w, shift)
                    &&& bytes_at(b, self.i as int, spec_uleb(w >> shift))
                    &&& self.i + spec_uleb(w >> shift).len() == i0 + spec_uleb(w).len()
                },
            decreases 63 - shift,
        {
            let ghost pos = self.i as int;
            proof {
                assert forall|w: u64| #[trigger] bytes_at(b, i0, spec_uleb(w)) implies pos < b.len() by {
                    assert(spec_uleb(w >> shift).len() > 0);
                }
            }
            let byte = self.byte()?;
            let ghost old_v = v;
            v = v | (((byte & 0x7F) as u64) << shift);
            if byte & 0x80 == 0 {
                proof {
                    assert forall|w: u64| #[trigger] bytes_at(b, i0, spec_uleb(w)) implies v == w && self.i == i0
                        + spec_uleb(w).len() by {
                        lemma_uleb_last(b, pos, w, shift, byte);
                    }
                }
                return Ok(v);
            }
            proof {
                assert forall|w: u64| #[trigger] bytes_at(b, i0, spec_uleb(w)) implies {
                    &&& shift + 7 <= 63
                    &&& v == low_bits(w, (shift + 7) as u64)
                    &&& bytes_at(b, self.i as int, spec_uleb(w >> ((shift + 7) as u64)))
                    &&& self.i + spec_uleb(w >> ((shift + 7) as u64)).len() == i0 + spec_uleb(w).len()
                } by {
                    lemma_uleb_more(b, pos, w, shift, byte);
                }
            }
            shift = shift + 7;
            if shift > 63 {
                return Err(DecodeError::BadUtf8Length);
            }
        }
    }

    /// A length prefix no larger than `max` nor than the bytes that remain:
    /// every counted item takes at least one byte.
    pub fn count(&mut self, max: usize) -> (r: Result<usize, DecodeError>)
        requires
            old(self).ok(),
        ensures
            final(self).ok(),
            final(self).b == old(self).b,
            forall|v: u64| #[trigger] bytes_at(old(self).b@, old(self).i as int, spec_uleb(v)) ==> {
                &&& final(self).i == old(self).i + spec_uleb(v).len()
                &&& (v <= max && v <= old(self).b@.len() - final(self).i) ==> r == Ok::<usize, DecodeError>(v as usize)
                &&& !(v <= max && v <= old(self).b@.len() - final(self).i) ==> r == Err::<usize, DecodeError>(
                    DecodeError::BadCount(v),
                )
            },
    {
        let n = self.uleb()?;
        let left = (self.b.len() - self.i) as u64;
        if n > max as u64 || n > left {
            return Err(DecodeError::BadCount(n));
        }
        Ok(n as usize)
    }

    /// A list ordinal: an integer that fits in `u16`.
    pub fn ordinal(&mut self) -> (r: Result<u16, DecodeError>)
        requires
            old(self).ok(),
        ensures
            final(self).ok(),
            final(self).b == old(self).b,
            forall|v: u64| #[trigger] bytes_at(old(self).b@, old(self).i as int, spec_uleb(v)) ==> {
                &&& final(self).i == old(self).i + spec_uleb(v).len()
                &&& v <= 0xFFFF ==> r == Ok::<u16, DecodeError>(v as u16)
                &&& v > 0xFFFF ==> r == Err::<u16, DecodeError>(DecodeError::BadCount(v))
            },
    {
        let v = self.uleb()?;
        if v <= 0xFFFF {
            Ok(v as u16)
        } else {
            Err(DecodeError::BadCount(v))
        }
    }

    /// A length-prefixed byte string, borrowed from the input.
    pub fn bytes(&mut self) -> (r: Result<&'a [u8], DecodeError>)
        requires
            old(self).ok(),
        ensures
            final(self).ok(),
            final(self).b == old(self).b,
            forall|s: Seq<u8>| #[trigger] bytes_at(old(self).b@, old(self).i as int, spec_uleb(s.len() as u64) + s)
                && s.len() <= u64::MAX ==> (r matches Ok(x) && x@ == s && final(self).i == old(self).i + spec_uleb(
                s.len() as u64,
            ).len() + s.len()),
    {
        let ghost b = self.b@;
        let ghost i0 = self.i as int;
        proof {
            assert forall|s: Seq<u8>| #[trigger] bytes_at(b, i0, spec_uleb(s.len() as u64) + s) && s.len() <= u64::MAX implies bytes_at(
                b,
                i0,
                spec_uleb(s.len() as u64),
            ) && bytes_at(b, i0 + spec_uleb(s.len() as u64).len(), s) by {
                let h = spec_uleb(s.len() as u64);
                assert(b.subrange(i0, i0 + h.len()) =~= b.subrange(i0, i0 + (h + s).len()).subrange(0, h.len() as int));
                assert((h + s).subrange(0, h.len() as int) =~= h);
                assert((h + s).subrange(h.len() as int, (h + s).len() as int) =~= s);
                assert(b.subrange(i0 + h.len(), i0 + h.len() + s.len()) =~= b.subrange(i0, i0 + (h + s).len()).subrange(
                    h.len() as int,
                    (h + s).len() as int,
                ));
            }
        }
        let n = self.uleb()?;
        if n > (self.b.len() - self.i) as u64 {
            return Err(DecodeError::Truncated);
        }
        let end = self.i + n as usize;
        let s = &self.b[self.i..end];
        self.i = end;
        Ok(s)
    }

    /// Sixteen little-endian bytes.
    pub fn u128(&mut self) -> (r: Result<u128, DecodeError>)
        requires
            old(self).ok(),
        ensures
            final(self).ok(),
            final(self).b == old(self).b,
            old(self).i + 16 <= old(self).b@.len() ==> r == Ok::<u128, DecodeError>(
                le_u128(old(self).b@.subrange(old(self).i as int, old(self).i + 16)),
            ) && final(self).i == old(self).i + 16,
            old(self).i + 16 > old(self).b@.len() ==> r == Err::<u128, DecodeError>(DecodeError::Truncated),
    {
        if self.b.len() - self.i < 16 {
            return Err(DecodeError::Truncated);
        }
        let mut acc: u128 = 0;
        let mut k: usize = 16;
        while k > 0
            invariant
                self.ok(),
                self.b == old(self).b,
                self.i == old(self).i,
                self.i + 16 <= self.b@.len(),
                self.b@.len() == self.b.len(),
                k <= 16,
                acc == le_u128(self.b@.subrange(self.i + k, self.i + 16)),
            decreases k,
        {
            k = k - 1;
            let byte = self.b[self.i + k];
            proof {
                let s = self.b@.subrange(self.i + k, self.i + 16);
                assert(s.drop_first() =~= self.b@.subrange(self.i + k + 1, self.i + 16));
                assert(s[0] == byte);
            }
            acc = (acc << 8u128) | (byte as u128);
        }
        self.i = self.i + 16;
        Ok(acc)
    }
}

/// A little-endian integer of up to sixteen bytes.
pub open spec fn le_u128(s: Seq<u8>) -> u128
    decreases s.len(),
{
    if s.len() == 0 {
        0
    } else {
        (le_u128(s.drop_first()) << 8u128) | (s[0] as u128)
    }
}

} // verus!
