use fors::fir::cons::ConsTable;
use fors::fir::constval;
use fors::fir::constval::{fits, range_of, ConstValue};
use fors::fir::encode::{uleb, write_bytes, Dec, DecodeError, FingerprintPolicy};
use fors::fir::sig::{ConstraintStore, ConstraintListId, TraitRefListId, TraitRefLists};
use fors::fir::ty::{PrimKind, TraitRefId, TyId};

#[test]
fn insert_and_lookup_round_trips() {
    let mut t = ConsTable::new();
    for i in 0..1000u32 {
        let k = ConsTable::key3(0, i as u64, 0, 0);
        assert_eq!(t.lookup(k, |v| v == i), None);
        t.insert(k, i);
    }
    assert_eq!(t.len(), 1000);
    for i in 0..1000u32 {
        let k = ConsTable::key3(0, i as u64, 0, 0);
        assert_eq!(t.lookup(k, |v| v == i), Some(i));
    }
}

#[test]
fn colliding_keys_are_separated_by_the_equality_closure() {
    let mut t = ConsTable::new();
    t.insert(7, 1);
    t.insert(7, 2);
    assert_eq!(t.lookup(7, |v| v == 2), Some(2));
    assert_eq!(t.lookup(7, |v| v == 1), Some(1));
    assert_eq!(t.lookup(7, |v| v == 3), None);
}

#[test]
fn key_slice_distinguishes_length() {
    assert_ne!(ConsTable::key_slice(0, &[5]), ConsTable::key_slice(0, &[5, 5]));
    assert_ne!(ConsTable::key_slice(0, &[1, 2]), ConsTable::key_slice(0, &[2, 1]));
    assert_eq!(ConsTable::key_slice(0, &[1, 2]), ConsTable::key_slice(0, &[1, 2]));
}

#[test]
fn key_iter_matches_key_slice_on_the_same_words() {
    assert_eq!(ConsTable::key_iter(9, 2, &[3, 4]), ConsTable::key_slice(9, &[3, 4]));
}

#[test]
fn a_small_table_grows_and_keeps_every_entry() {
    let mut t = ConsTable::with_capacity(1);
    for i in 0..100u32 {
        t.insert(i as u64, i);
    }
    assert_eq!(t.len(), 100);
    for i in 0..100u32 {
        assert_eq!(t.lookup(i as u64, |v| v == i), Some(i));
        assert_eq!(t.lookup(i as u64, |v| v == i + 1000), None);
    }
    assert!(!t.is_empty());
    assert!(ConsTable::default().is_empty());
}

#[test]
fn uleb_round_trips() {
    for v in [0u64, 1, 127, 128, 300, 16383, 16384, u32::MAX as u64, u64::MAX >> 1] {
        let mut out = Vec::new();
        uleb(&mut out, v);
        let mut d = Dec { b: &out, i: 0 };
        assert_eq!(d.uleb().unwrap(), v);
        assert_eq!(d.i, out.len());
    }
}

#[test]
fn uleb_has_the_documented_bytes() {
    let mut out = Vec::new();
    uleb(&mut out, 300);
    assert_eq!(out, vec![0xAC, 0x02]);
    let mut out = Vec::new();
    uleb(&mut out, u64::MAX);
    assert_eq!(out.len(), 10);
    let mut d = Dec { b: &out, i: 0 };
    assert_eq!(d.uleb(), Ok(u64::MAX));
}

#[test]
fn an_overlong_uleb_is_refused() {
    let bytes = [0x80u8; 11];
    let mut d = Dec { b: &bytes, i: 0 };
    assert_eq!(d.uleb(), Err(DecodeError::BadUtf8Length));
    let mut d = Dec { b: &[0x80u8], i: 0 };
    assert_eq!(d.uleb(), Err(DecodeError::Truncated));
}

#[test]
fn counts_are_checked_against_the_limit_and_what_remains() {
    let mut out = Vec::new();
    uleb(&mut out, 3);
    out.extend_from_slice(&[1, 2, 3]);
    let mut d = Dec { b: &out, i: 0 };
    assert_eq!(d.count(10), Ok(3));
    let mut d = Dec { b: &out, i: 0 };
    assert_eq!(d.count(2), Err(DecodeError::BadCount(3)));
    let mut short = Vec::new();
    uleb(&mut short, 5);
    let mut d = Dec { b: &short, i: 0 };
    assert_eq!(d.count(100), Err(DecodeError::BadCount(5)));
}

#[test]
fn byte_strings_read_back() {
    let mut out = Vec::new();
    write_bytes(&mut out, b"abc");
    write_bytes(&mut out, b"");
    let mut d = Dec { b: &out, i: 0 };
    assert_eq!(d.bytes(), Ok(&b"abc"[..]));
    assert_eq!(d.bytes(), Ok(&b""[..]));
    assert_eq!(d.byte(), Err(DecodeError::Truncated));
    let mut le = Vec::new();
    for k in 0..16u8 {
        le.push(k + 1);
    }
    let mut d = Dec { b: &le, i: 0 };
    assert_eq!(d.u128(), Ok(u128::from_le_bytes([1, 2, 3, 4, 5, 6, 7, 8, 9, 10, 11, 12, 13, 14, 15, 16])));
    let mut out = Vec::new();
    uleb(&mut out, 70000);
    let mut d = Dec { b: &out, i: 0 };
    assert_eq!(d.ordinal(), Err(DecodeError::BadCount(70000)));
}

#[test]
fn policy_byte_round_trips() {
    for bits in 0u8..8 {
        let p = FingerprintPolicy::from_byte(bits);
        assert_eq!(p.to_byte(), bits);
    }
}

#[test]
fn bound_lists_are_order_and_duplicate_insensitive() {
    let mut t = TraitRefLists::new();
    let a = t.intern(&[TraitRefId(5), TraitRefId(2)]);
    let b = t.intern(&[TraitRefId(2), TraitRefId(5)]);
    let c = t.intern(&[TraitRefId(2), TraitRefId(5), TraitRefId(5)]);
    assert_eq!(a, b);
    assert_eq!(a, c);
    assert_eq!(t.get(a), &[TraitRefId(2), TraitRefId(5)]);
    assert!(t.get(TraitRefListId(0)).is_empty());
    assert_eq!(t.len(), 2);
}

#[test]
fn constraint_lists_read_back_in_order() {
    let mut c = ConstraintStore::new();
    let id = c.push(&[(TyId(4), TraitRefListId(1)), (TyId(7), TraitRefListId(0))]);
    assert_eq!(id, ConstraintListId(1));
    assert_eq!(c.count(id), 2);
    assert_eq!(c.entry(id, 1), (TyId(7), TraitRefListId(0)));
    assert_eq!(c.count(ConstraintListId(0)), 0);
    assert_eq!(c.len(), 2);
}

#[test]
fn arithmetic_traps_instead_of_wrapping() {
    assert_eq!(constval::add(ConstValue::I(1), ConstValue::I(2)), Some(ConstValue::I(3)));
    assert_eq!(constval::add(ConstValue::I(i128::MAX), ConstValue::I(1)), None);
    assert_eq!(constval::div(ConstValue::I(1), ConstValue::I(0)), None);
    assert_eq!(constval::rem(ConstValue::I(1), ConstValue::I(0)), None);
    assert_eq!(constval::neg(ConstValue::I(i128::MIN)), None);
    assert_eq!(constval::shl(ConstValue::I(1), ConstValue::I(-1)), None);
    assert_eq!(constval::shl(ConstValue::I(1), ConstValue::I(4)), Some(ConstValue::I(16)));
}

#[test]
fn division_rounds_toward_zero() {
    assert_eq!(constval::div(ConstValue::I(-7), ConstValue::I(2)), Some(ConstValue::I(-3)));
    assert_eq!(constval::rem(ConstValue::I(-7), ConstValue::I(2)), Some(ConstValue::I(-1)));
    assert_eq!(constval::div(ConstValue::I(i128::MIN), ConstValue::I(-1)), None);
    assert_eq!(constval::shr(ConstValue::I(-16), ConstValue::I(2)), Some(ConstValue::I(-4)));
    assert_eq!(constval::bitxor(ConstValue::B(true), ConstValue::B(true)), Some(ConstValue::B(false)));
    assert_eq!(constval::not(ConstValue::I(0)), Some(ConstValue::I(-1)));
    assert_eq!(constval::bitand(ConstValue::I(6), ConstValue::B(true)), None);
}

#[test]
fn fits_is_per_primitive() {
    assert!(fits(ConstValue::I(255), PrimKind::U8));
    assert!(!fits(ConstValue::I(256), PrimKind::U8));
    assert!(!fits(ConstValue::I(-1), PrimKind::U8));
    assert!(fits(ConstValue::I(-128), PrimKind::I8));
    assert!(fits(ConstValue::B(true), PrimKind::Bool));
    assert!(!fits(ConstValue::B(true), PrimKind::U8));
    assert!(!fits(ConstValue::I(0), PrimKind::F32));
    assert_eq!(range_of(PrimKind::Str), None);
}

#[test]
fn mixed_shapes_are_errors_not_false() {
    assert_eq!(constval::eq(ConstValue::I(0), ConstValue::B(false)), None);
    assert_eq!(constval::eq(ConstValue::B(false), ConstValue::B(false)), Some(true));
    assert_eq!(constval::lt(ConstValue::B(false), ConstValue::B(true)), None);
}
