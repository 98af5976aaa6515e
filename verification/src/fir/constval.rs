//! Comptime values for const arguments and const patterns: integers, `bool`
//! and `Str` literals, and the trapping operators over them.
//!
//! Every operator returns `None` on overflow, on division or remainder by
//! zero, on an out-of-lane shift and on mixed shapes; the caller turns that
//! into a diagnostic at the declaration. Nothing wraps, saturates or panics.

use vstd::prelude::*;

use crate::fir::ty::PrimKind;
use crate::index::Symbol;

verus! {

/// One comptime value; `i128` holds every intermediate an `i64` or `u64`
/// operand needs long enough to be recognised as not fitting.
#[derive(Clone, Copy, PartialEq, Eq, Structural, Debug)]
pub enum ConstValue {
    I(i128),
    B(bool),
    S(Symbol),
}

impl ConstValue {
    pub fn as_int(self) -> (r: Option<i128>)
        ensures
            r == (match self {
                ConstValue::I(v) => Some(v),
                _ => None,
            }),
    {
        match self {
            ConstValue::I(v) => Some(v),
            _ => None,
        }
    }

    pub fn as_bool(self) -> (r: Option<bool>)
        ensures
            r == (match self {
                ConstValue::B(v) => Some(v),
                _ => None,
            }),
    {
        match self {
            ConstValue::B(v) => Some(v),
            _ => None,
        }
    }

    pub fn as_sym(self) -> (r: Option<Symbol>)
        ensures
            r == (match self {
                ConstValue::S(v) => Some(v),
                _ => None,
            }),
    {
        match self {
            ConstValue::S(v) => Some(v),
            _ => None,
        }
    }
}

/// The inclusive range of an integer type or `bool`'s absence of one: the
/// pointer-width types are taken as 64-bit.
pub open spec fn spec_range_of(p: PrimKind) -> Option<(i128, i128)> {
    match p {
        PrimKind::I8 => Some((-0x80i128, 0x7Fi128)),
        PrimKind::I16 => Some((-0x8000i128, 0x7FFFi128)),
        PrimKind::I32 => Some((-0x8000_0000i128, 0x7FFF_FFFFi128)),
        PrimKind::I64 => Some((-0x8000_0000_0000_0000i128, 0x7FFF_FFFF_FFFF_FFFFi128)),
        PrimKind::U8 => Some((0i128, 0xFFi128)),
        PrimKind::U16 => Some((0i128, 0xFFFFi128)),
        PrimKind::U32 => Some((0i128, 0xFFFF_FFFFi128)),
        PrimKind::U64 => Some((0i128, 0xFFFF_FFFF_FFFF_FFFFi128)),
        PrimKind::Isize => Some((-0x8000_0000_0000_0000i128, 0x7FFF_FFFF_FFFF_FFFFi128)),
        PrimKind::Usize => Some((0i128, 0xFFFF_FFFF_FFFF_FFFFi128)),
        _ => None,
    }
}

/// The inclusive range of `p`, or `None` when `p` is not an integer type.
pub fn range_of(p: PrimKind) -> (r: Option<(i128, i128)>)
    ensures
        r == spec_range_of(p),
{
    match p {
        PrimKind::I8 => Some((-0x80i128, 0x7Fi128)),
        PrimKind::I16 => Some((-0x8000i128, 0x7FFFi128)),
        PrimKind::I32 => Some((-0x8000_0000i128, 0x7FFF_FFFFi128)),
        PrimKind::I64 => Some((-0x8000_0000_0000_0000i128, 0x7FFF_FFFF_FFFF_FFFFi128)),
        PrimKind::U8 => Some((0i128, 0xFFi128)),
        PrimKind::U16 => Some((0i128, 0xFFFFi128)),
        PrimKind::U32 => Some((0i128, 0xFFFF_FFFFi128)),
        PrimKind::U64 => Some((0i128, 0xFFFF_FFFF_FFFF_FFFFi128)),
        PrimKind::Isize => Some((-0x8000_0000_0000_0000i128, 0x7FFF_FFFF_FFFF_FFFFi128)),
        PrimKind::Usize => Some((0i128, 0xFFFF_FFFF_FFFF_FFFFi128)),
        _ => None,
    }
}

/// Does `v` fit `p`? `bool` takes only a boolean, `Str` only a string, an
/// integer type only an integer in its range.
pub open spec fn spec_fits(v: ConstValue, p: PrimKind) -> bool {
    match v {
        ConstValue::B(_) => p == PrimKind::Bool,
        ConstValue::S(_) => p == PrimKind::Str,
        ConstValue::I(n) => match spec_range_of(p) {
            Some((lo, hi)) => lo <= n <= hi,
            None => false,
        },
    }
}

pub fn fits(v: ConstValue, p: PrimKind) -> (r: bool)
    ensures
        r == spec_fits(v, p),
{
    match v {
        ConstValue::B(_) => p == PrimKind::Bool,
        ConstValue::S(_) => p == PrimKind::Str,
        ConstValue::I(n) => match range_of(p) {
            Some((lo, hi)) => n >= lo && n <= hi,
            None => false,
        },
    }
}

/// An integer result, or `None`.
pub open spec fn int_result(r: Option<i128>) -> Option<ConstValue> {
    match r {
        Some(z) => Some(ConstValue::I(z)),
        None => None,
    }
}

/// `a + b` on two integers; `None` on overflow or another shape.
pub fn add(a: ConstValue, b: ConstValue) -> (r: Option<ConstValue>)
    ensures
        r == (match (a, b) {
            (ConstValue::I(x), ConstValue::I(y)) => int_result(x.checked_add(y)),
            _ => None,
        }),
{
    match (a, b) {
        (ConstValue::I(x), ConstValue::I(y)) => match x.checked_add(y) {
            Some(z) => Some(ConstValue::I(z)),
            None => None,
        },
        _ => None,
    }
}

/// `a - b` on two integers; `None` on overflow or another shape.
pub fn sub(a: ConstValue, b: ConstValue) -> (r: Option<ConstValue>)
    ensures
        r == (match (a, b) {
            (ConstValue::I(x), ConstValue::I(y)) => int_result(x.checked_sub(y)),
            _ => None,
        }),
{
    match (a, b) {
        (ConstValue::I(x), ConstValue::I(y)) => match x.checked_sub(y) {
            Some(z) => Some(ConstValue::I(z)),
            None => None,
        },
        _ => None,
    }
}

/// `a * b` on two integers; `None` on overflow or another shape.
pub fn mul(a: ConstValue, b: ConstValue) -> (r: Option<ConstValue>)
    ensures
        r == (match (a, b) {
            (ConstValue::I(x), ConstValue::I(y)) => int_result(x.checked_mul(y)),
            _ => None,
        }),
{
    match (a, b) {
        (ConstValue::I(x), ConstValue::I(y)) => match x.checked_mul(y) {
            Some(z) => Some(ConstValue::I(z)),
            None => None,
        },
        _ => None,
    }
}

/// `a / b` rounded toward zero; `None` on division by zero, on overflow or on
/// another shape.
pub fn div(a: ConstValue, b: ConstValue) -> (r: Option<ConstValue>)
    ensures
        r == (match (a, b) {
            (ConstValue::I(x), ConstValue::I(y)) => int_result(x.checked_div(y)),
            _ => None,
        }),
{
    match (a, b) {
        (ConstValue::I(x), ConstValue::I(y)) => match x.checked_div(y) {
            Some(z) => Some(ConstValue::I(z)),
            None => None,
        },
        _ => None,
    }
}

/// The remainder of `a / b`, with the sign of `a`; `None` on division by
/// zero, on overflow or on another shape.
pub fn rem(a: ConstValue, b: ConstValue) -> (r: Option<ConstValue>)
    ensures
        r == (match (a, b) {
            (ConstValue::I(x), ConstValue::I(y)) => int_result(x.checked_rem(y)),
            _ => None,
        }),
{
    match (a, b) {
        (ConstValue::I(x), ConstValue::I(y)) => match x.checked_rem(y) {
            Some(z) => Some(ConstValue::I(z)),
            None => None,
        },
        _ => None,
    }
}

/// `-a` on an integer; `None` on overflow or another shape.
pub fn neg(a: ConstValue) -> (r: Option<ConstValue>)
    ensures
        r == (match a {
            ConstValue::I(x) => if x == i128::MIN {
                None
            } else {
                Some(ConstValue::I((-x) as i128))
            },
            _ => None,
        }),
{
    match a {
        ConstValue::I(x) => if x == i128::MIN {
            None
        } else {
            Some(ConstValue::I(-x))
        },
        _ => None,
    }
}

/// Logical and on two booleans, bitwise and on two integers.
pub fn bitand(a: ConstValue, b: ConstValue) -> (r: Option<ConstValue>)
    ensures
        r == (match (a, b) {
            (ConstValue::B(x), ConstValue::B(y)) => Some(ConstValue::B(x && y)),
            (ConstValue::I(x), ConstValue::I(y)) => Some(ConstValue::I(x & y)),
            _ => None,
        }),
{
    match (a, b) {
        (ConstValue::B(x), ConstValue::B(y)) => Some(ConstValue::B(x && y)),
        (ConstValue::I(x), ConstValue::I(y)) => Some(ConstValue::I(x & y)),
        _ => None,
    }
}

/// Logical or on two booleans, bitwise or on two integers.
pub fn bitor(a: ConstValue, b: ConstValue) -> (r: Option<ConstValue>)
    ensures
        r == (match (a, b) {
            (ConstValue::B(x), ConstValue::B(y)) => Some(ConstValue::B(x || y)),
            (ConstValue::I(x), ConstValue::I(y)) => Some(ConstValue::I(x | y)),
            _ => None,
        }),
{
    match (a, b) {
        (ConstValue::B(x), ConstValue::B(y)) => Some(ConstValue::B(x || y)),
        (ConstValue::I(x), ConstValue::I(y)) => Some(ConstValue::I(x | y)),
        _ => None,
    }
}

/// Exclusive or on two booleans or two integers.
pub fn bitxor(a: ConstValue, b: ConstValue) -> (r: Option<ConstValue>)
    ensures
        r == (match (a, b) {
            (ConstValue::B(x), ConstValue::B(y)) => Some(ConstValue::B(x != y)),
            (ConstValue::I(x), ConstValue::I(y)) => Some(ConstValue::I(x ^ y)),
            _ => None,
        }),
{
    match (a, b) {
        (ConstValue::B(x), ConstValue::B(y)) => Some(ConstValue::B(x != y)),
        (ConstValue::I(x), ConstValue::I(y)) => Some(ConstValue::I(x ^ y)),
        _ => None,
    }
}

/// Logical not on a boolean, bitwise not on an integer.
pub fn not(a: ConstValue) -> (r: Option<ConstValue>)
    ensures
        r == (match a {
            ConstValue::B(x) => Some(ConstValue::B(!x)),
            ConstValue::I(n) => Some(ConstValue::I(!n)),
            ConstValue::S(_) => None,
        }),
{
    match a {
        ConstValue::B(x) => Some(ConstValue::B(!x)),
        ConstValue::I(n) => Some(ConstValue::I(!n)),
        ConstValue::S(_) => None,
    }
}

/// A shift amount inside the 128-bit lane, or `None` for a negative or
/// out-of-lane amount.
pub open spec fn lane_shift(b: i128) -> Option<u32> {
    if 0 <= b < 128 {
        Some(b as u32)
    } else {
        None
    }
}

/// `a << b`; a negative or out-of-lane shift amount is refused rather than
/// masked, because a masked shift is a silently different value.
pub fn shl(a: ConstValue, b: ConstValue) -> (r: Option<ConstValue>)
    ensures
        r == (match (a, b) {
            (ConstValue::I(n), ConstValue::I(s)) => match lane_shift(s) {
                Some(k) => Some(ConstValue::I(n << k)),
                None => None,
            },
            _ => None,
        }),
{
    match (a, b) {
        (ConstValue::I(n), ConstValue::I(s)) => if 0 <= s && s < 128 {
            let k = s as u32;
            Some(ConstValue::I(n << k))
        } else {
            None
        },
        _ => None,
    }
}

/// `a >> b`, arithmetic; a negative or out-of-lane shift amount is refused.
pub fn shr(a: ConstValue, b: ConstValue) -> (r: Option<ConstValue>)
    ensures
        r == (match (a, b) {
            (ConstValue::I(n), ConstValue::I(s)) => match lane_shift(s) {
                Some(k) => Some(ConstValue::I(n >> k)),
                None => None,
            },
            _ => None,
        }),
{
    match (a, b) {
        (ConstValue::I(n), ConstValue::I(s)) => if 0 <= s && s < 128 {
            let k = s as u32;
            Some(ConstValue::I(n >> k))
        } else {
            None
        },
        _ => None,
    }
}

/// Structural equality; `None` when the shapes differ, which is a type error
/// at the comparison rather than `false`.
pub fn eq(a: ConstValue, b: ConstValue) -> (r: Option<bool>)
    ensures
        r == (match (a, b) {
            (ConstValue::I(x), ConstValue::I(y)) => Some(x == y),
            (ConstValue::B(x), ConstValue::B(y)) => Some(x == y),
            (ConstValue::S(x), ConstValue::S(y)) => Some(x == y),
            _ => None,
        }),
{
    match (a, b) {
        (ConstValue::I(x), ConstValue::I(y)) => Some(x == y),
        (ConstValue::B(x), ConstValue::B(y)) => Some(x == y),
        (ConstValue::S(x), ConstValue::S(y)) => Some(x.0 == y.0),
        _ => None,
    }
}

/// `a < b` on two integers.
pub fn lt(a: ConstValue, b: ConstValue) -> (r: Option<bool>)
    ensures
        r == (match (a, b) {
            (ConstValue::I(x), ConstValue::I(y)) => Some(x < y),
            _ => None,
        }),
{
    match (a, b) {
        (ConstValue::I(x), ConstValue::I(y)) => Some(x < y),
        _ => None,
    }
}

/// `a <= b` on two integers.
pub fn le(a: ConstValue, b: ConstValue) -> (r: Option<bool>)
    ensures
        r == (match (a, b) {
            (ConstValue::I(x), ConstValue::I(y)) => Some(x <= y),
            _ => None,
        }),
{
    match (a, b) {
        (ConstValue::I(x), ConstValue::I(y)) => Some(x <= y),
        _ => None,
    }
}

} // verus!
