use dynuint::{DynUint, DynUintError};
use std::cmp::Ordering;

const WORD: usize = std::mem::size_of::<usize>();

/// 256 in two bytes: `[0x00, 0x01]`.
fn two_bytes_256() -> DynUint {
    DynUint::from(255u8) + DynUint::from(1u8)
}

/// 511 in two bytes: `[0xFF, 0x01]`.
fn two_bytes_511() -> DynUint {
    two_bytes_256() + DynUint::from(255u8)
}

#[test]
fn new_is_empty_zero() {
    let fresh = DynUint::new(16);
    assert_eq!(fresh.len(), 0);
    assert!(fresh.is_empty());
    assert_eq!(fresh, DynUint::zero());
    assert_eq!(fresh, DynUint::from(0u8));
}

#[test]
fn new_with_a_capacity_that_cannot_be_had() {
    let fresh = DynUint::new(usize::MAX);
    assert!(fresh.is_empty());
    assert_eq!(fresh + DynUint::from(3u8), DynUint::from(3u8));
}

#[test]
fn conversions_keep_the_source_width() {
    assert_eq!(DynUint::from(1usize).len(), WORD);
    assert_eq!(DynUint::from(1i32).len(), 4);
    assert_eq!(DynUint::from(1u8).len(), 1);
    assert_eq!(DynUint::from(true).len(), 1);
    assert_eq!(DynUint::from(false).len(), 1);
    assert!(!DynUint::from(0u8).is_empty());
    assert_eq!(DynUint::from(false), DynUint::zero());
    assert_eq!(DynUint::from(true), DynUint::from(1u8));
}

#[test]
fn conversion_of_negative_keeps_the_bit_pattern() {
    // -1 is 0xFFFFFFFF in two's complement
    let mut all_ones = DynUint::from(0x7FFF_FFFFi32) + DynUint::from(0x7FFF_FFFFi32)
        + DynUint::from(1u8);
    all_ones.resize(4);
    assert_eq!(DynUint::from(-1i32), all_ones);
    assert_eq!(DynUint::from(-1i32).len(), 4);
    assert_eq!(DynUint::from(i32::MIN), DynUint::from(0x8000_0000usize));
}

#[test]
fn add_zero_is_identity() {
    for v in [0usize, 1, 255, 256, 65535, 1_000_000] {
        let a = DynUint::from(v);
        assert_eq!(a.clone() + DynUint::zero(), a);
        assert_eq!(DynUint::zero() + a.clone(), a);
        assert_eq!(a.clone() + DynUint::from(0u8), a);
    }
}

#[test]
fn mul_zero_is_zero_and_mul_one_is_identity() {
    for v in [0usize, 1, 2, 255, 256, 65535, 1_000_000] {
        let a = DynUint::from(v);
        assert_eq!(a.clone() * DynUint::zero(), DynUint::zero());
        assert_eq!(DynUint::zero() * a.clone(), DynUint::zero());
        assert!((a.clone() * DynUint::from(0u8)).is_empty());
        assert_eq!(a.clone() * DynUint::from(1u8), a);
        assert_eq!(DynUint::from(true) * a.clone(), a);
    }
}

#[test]
fn add_commutes() {
    let pairs = [(0usize, 0usize), (1, 255), (255, 1), (65535, 1), (123456, 654321)];
    for (x, y) in pairs {
        let left = DynUint::from(x) + DynUint::from(y as u8 as usize);
        let right = DynUint::from(y as u8 as usize) + DynUint::from(x);
        assert_eq!(left, right);
        assert_eq!(left.len(), right.len());
        assert_eq!(DynUint::from(x) + DynUint::from(y), DynUint::from(x + y));
    }
    // operands of different lengths
    let short = DynUint::from(200u8);
    let long = DynUint::from(100i32);
    assert_eq!(short.clone() + long.clone(), long.clone() + short.clone());
    assert_eq!((short.clone() + long.clone()).len(), 4);
    assert_eq!((long + short).len(), 4);
}

#[test]
fn mul_commutes() {
    assert_eq!(
        DynUint::from(420) * DynUint::from(69),
        DynUint::from(69) * DynUint::from(420)
    );
    assert_eq!(
        DynUint::from(300usize) * DynUint::from(7u8),
        DynUint::from(2100)
    );
    assert_eq!(
        DynUint::from(7u8) * DynUint::from(300usize),
        DynUint::from(2100)
    );
}

#[test]
fn sub_then_add_gives_back() {
    let pairs = [(0usize, 0usize), (1, 0), (1, 1), (256, 1), (65536, 65535), (1000, 999)];
    for (x, y) in pairs {
        let a = DynUint::from(x);
        let b = DynUint::from(y);
        assert!(b <= a);
        let d = (a.clone() - b.clone()).unwrap();
        assert_eq!(d, DynUint::from(x - y));
        assert_eq!(d.len(), a.len());
        assert_eq!(d + b, a);
    }
}

#[test]
fn sub_keeps_the_length_of_the_minuend() {
    let d = (two_bytes_256() - DynUint::from(1u8)).unwrap();
    assert_eq!(d.len(), 2);
    assert_eq!(d, DynUint::from(255u8));
    let d = (DynUint::from(5u8) - DynUint::from(5usize)).unwrap();
    assert_eq!(d.len(), 1);
    assert_eq!(d, DynUint::zero());
}

#[test]
fn sub_of_larger_signature_is_unsupported() {
    assert_eq!(
        DynUint::zero() - DynUint::from(1u8),
        Err(DynUintError::Unsupported)
    );
    assert_eq!(
        DynUint::from(255u8) - two_bytes_256(),
        Err(DynUintError::Unsupported)
    );
    assert_eq!(
        DynUint::from(3u8) - DynUint::from(4usize),
        Err(DynUintError::Unsupported)
    );
}

#[test]
fn ordering_looks_at_the_highest_byte_only() {
    let a = two_bytes_256();
    let b = two_bytes_511();
    // unequal, and yet neither is less than the other
    assert_ne!(a, b);
    assert_eq!(a.partial_cmp(&b), Some(Ordering::Equal));
    assert!(a <= b);
    assert!(b <= a);
    assert!(!(a < b));
    assert!(!(b < a));
}

#[test]
fn sub_that_the_ordering_lets_pass_reports_the_borrow() {
    let a = two_bytes_256();
    let b = two_bytes_511();
    assert!(b <= a);
    assert_eq!(a - b, Err(DynUintError::BorrowPastEnd));
    assert_eq!(
        (two_bytes_511() - two_bytes_256()).unwrap(),
        DynUint::from(255u8)
    );
}

#[test]
fn ordering_by_index_then_byte() {
    let small = DynUint::from(200u8);
    let big = two_bytes_256();
    assert_eq!(small.partial_cmp(&big), Some(Ordering::Less));
    assert_eq!(big.partial_cmp(&small), Some(Ordering::Greater));
    assert_eq!(
        DynUint::from(3u8).partial_cmp(&DynUint::from(4usize)),
        Some(Ordering::Less)
    );
    assert_eq!(
        DynUint::from(4i32).partial_cmp(&DynUint::from(4usize)),
        Some(Ordering::Equal)
    );
    assert_eq!(
        DynUint::zero().partial_cmp(&DynUint::from(0usize)),
        Some(Ordering::Equal)
    );
}

#[test]
fn signature_of_a_value() {
    let v = DynUint::from(0x0102usize);
    assert_eq!(v.get_last_nzero(), Some((1, &1u8)));
    assert_eq!(v.last_nzero(), (1, &1u8));
    assert_eq!(DynUint::from(0usize).get_last_nzero(), None);
    assert_eq!(DynUint::from(0usize).last_nzero(), (0, &0u8));
    assert_eq!(DynUint::zero().last_nzero(), (0, &0u8));
    assert_eq!(DynUint::from(9u8).last_nzero(), (0, &9u8));
}

#[test]
fn long_and_short() {
    let long = DynUint::from(1usize);
    let short = DynUint::from(2u8);
    let (l, s) = DynUint::get_ls(&long, &short);
    assert_eq!((l.len(), s.len()), (WORD, 1));
    let (l, s) = DynUint::get_ls(&short, &long);
    assert_eq!((l.len(), s.len()), (WORD, 1));
    // same length: the second operand is the short one
    let first = DynUint::from(7u8);
    let second = DynUint::from(9u8);
    let (l, s) = DynUint::get_ls(&first, &second);
    assert_eq!(l, &DynUint::from(7u8));
    assert_eq!(s, &DynUint::from(9u8));
    let (l, s) = DynUint::get_ls_owned(first, second);
    assert_eq!(l, DynUint::from(7u8));
    assert_eq!(s, DynUint::from(9u8));
    let (l, s) = DynUint::get_ls_owned(DynUint::from(2u8), DynUint::from(1i32));
    assert_eq!((l.len(), s.len()), (4, 1));
}

#[test]
fn trim_is_idempotent() {
    let mut v = DynUint::from(0x0102usize);
    assert_eq!(v.len(), WORD);
    assert_eq!(v.removed_trailing().len(), 2);
    assert_eq!(v.len(), 2);
    assert_eq!(v.removed_trailing().len(), 2);
    assert_eq!(v, DynUint::from(0x0102usize));
}

#[test]
fn zero_buffers_trim_to_empty_and_are_equal() {
    let mut empty = DynUint::zero();
    assert!(empty.removed_trailing().is_empty());
    let mut zeros = DynUint::from(0usize);
    assert_eq!(zeros.len(), WORD);
    assert_eq!(zeros, DynUint::zero());
    assert_eq!(zeros, DynUint::from(0u8));
    assert!(zeros.removed_trailing().is_empty());
    assert!(zeros.is_empty());
}

#[test]
fn equality_is_an_equivalence() {
    let a = DynUint::from(77u8);
    let b = DynUint::from(77i32);
    let c = DynUint::from(77usize);
    assert_eq!(a, a);
    assert_eq!(a, b);
    assert_eq!(b, a);
    assert_eq!(b, c);
    assert_eq!(a, c);
    assert_ne!(a, DynUint::from(78u8));
    assert_ne!(DynUint::from(78u8), a);
}

#[test]
fn equality_ignores_padding() {
    let one_byte = DynUint::from(200u8);
    let mut padded = DynUint::from(200u8);
    padded.resize(8);
    assert_eq!(padded.len(), 8);
    assert_eq!(one_byte, padded);
    assert_eq!(DynUint::from(200u8), DynUint::from(200usize));
}

#[test]
fn resize_grows_with_zeros() {
    let mut v = DynUint::from(9u8);
    v.resize(5);
    assert_eq!(v.len(), 5);
    assert_eq!(v, DynUint::from(9u8));
    let mut e = DynUint::zero();
    e.resize(3);
    assert_eq!(e.len(), 3);
    assert_eq!(e, DynUint::zero());
    let mut same = DynUint::from(9u8);
    same.resize(1);
    assert_eq!(same.len(), 1);
    assert_eq!(same, DynUint::from(9u8));
}

#[test]
fn resize_drops_zero_bytes() {
    let mut v = DynUint::from(0x0102usize);
    v.resize(2);
    assert_eq!(v.len(), 2);
    assert_eq!(v, DynUint::from(0x0102usize));
    let mut z = DynUint::from(0usize);
    z.resize(0);
    assert!(z.is_empty());
}

#[test]
fn resize_saturates_where_bytes_are_lost() {
    let mut v = DynUint::from(0x0102usize);
    v.resize(1);
    assert_eq!(v.len(), 1);
    assert_eq!(v, DynUint::from(255u8));
    let mut w = DynUint::from(0x01_0000usize);
    w.resize(2);
    assert_eq!(w.len(), 2);
    assert_eq!(w, DynUint::from(0xFFFFusize));
    // the byte at the new length itself counts as lost
    let mut x = DynUint::from(0x0100usize);
    x.resize(1);
    assert_eq!(x, DynUint::from(255u8));
}

#[test]
fn add_grows_by_one_byte_on_carry() {
    let sum = DynUint::from(255u8) + DynUint::from(1u8);
    assert_eq!(sum.len(), 2);
    assert_eq!(sum, DynUint::from(256usize));
    let sum = DynUint::from(254u8) + DynUint::from(1u8);
    assert_eq!(sum.len(), 1);
    let sum = DynUint::from(0xFFFF_FFFFusize) + DynUint::from(1u8);
    assert_eq!(sum.len(), WORD);
    assert_eq!(sum, DynUint::from(0x1_0000_0000u64 as usize));
    let mut top = DynUint::from(usize::MAX);
    top = top + DynUint::from(1u8);
    assert_eq!(top.len(), WORD + 1);
    assert_eq!(top.last_nzero(), (WORD, &1u8));
}

#[test]
fn and_is_as_long_as_the_longer_operand() {
    let r = DynUint::from(0xF0u8) & DynUint::from(0x3Cusize);
    assert_eq!(r.len(), WORD);
    assert_eq!(r, DynUint::from(0x30u8));
    let r = DynUint::from(0x1234usize) & DynUint::from(0xFFu8);
    assert_eq!(r.len(), WORD);
    assert_eq!(r, DynUint::from(0x34u8));
    let r = DynUint::zero() & DynUint::from(0xFFu8);
    assert_eq!(r.len(), 1);
}

#[test]
fn div_pow2_drops_bytes_and_bits() {
    assert_eq!(
        DynUint::from(1234).div_pow2(DynUint::from(5)),
        DynUint::from(38)
    );
    let r = DynUint::from(0x0123_4567usize).div_pow2(DynUint::from(8u8));
    assert_eq!(r, DynUint::from(0x01_2345usize));
    assert_eq!(r.len(), WORD - 1);
    let r = DynUint::from(0x0123_4567usize).div_pow2(DynUint::from(20u8));
    assert_eq!(r, DynUint::from(0x12usize));
    assert_eq!(r.len(), WORD - 2);
    let r = DynUint::from(0xABCDusize).div_pow2(DynUint::from(4u8));
    assert_eq!(r, DynUint::from(0xABCusize));
    assert_eq!(r.len(), WORD);
    assert_eq!(
        DynUint::from(1u8).div_pow2(DynUint::from(1u8)),
        DynUint::zero()
    );
}

#[test]
fn div_pow2_past_the_buffer_is_empty() {
    let r = DynUint::from(255u8).div_pow2(DynUint::from(8u8));
    assert!(r.is_empty());
    let r = DynUint::from(255u8).div_pow2(DynUint::from(200u8));
    assert!(r.is_empty());
    let r = DynUint::from(0xFFFFi32).div_pow2(DynUint::from(1000usize));
    assert!(r.is_empty());
    let r = DynUint::zero().div_pow2(DynUint::from(3u8));
    assert!(r.is_empty());
}

#[test]
fn mul_pow2_adds_bytes_and_grows_on_carry() {
    assert_eq!(
        DynUint::from(25).mul_pow2(DynUint::from(12)),
        DynUint::from(102400)
    );
    let r = DynUint::from(1u8).mul_pow2(DynUint::from(8u8));
    assert_eq!(r.len(), 2);
    assert_eq!(r, DynUint::from(256usize));
    let r = DynUint::from(1u8).mul_pow2(DynUint::from(7u8));
    assert_eq!(r.len(), 1);
    assert_eq!(r, DynUint::from(128u8));
    let r = DynUint::from(0x81u8).mul_pow2(DynUint::from(1u8));
    assert_eq!(r.len(), 2);
    assert_eq!(r, DynUint::from(0x102usize));
    let r = DynUint::from(3u8).mul_pow2(DynUint::from(17u8));
    assert_eq!(r.len(), 3);
    assert_eq!(r, DynUint::from(3usize << 17));
    let r = DynUint::zero().mul_pow2(DynUint::from(16u8));
    assert_eq!(r.len(), 2);
    assert_eq!(r, DynUint::zero());
    let r = DynUint::zero().mul_pow2(DynUint::from(3u8));
    assert!(r.is_empty());
}

#[test]
fn shifts_by_zero_change_nothing() {
    let v = DynUint::from(0x1234usize);
    assert_eq!(v.clone().div_pow2(DynUint::zero()).len(), WORD);
    assert_eq!(v.clone().div_pow2(DynUint::zero()), v);
    assert_eq!(v.clone().mul_pow2(DynUint::from(0usize)).len(), WORD);
    assert_eq!(v.clone().mul_pow2(DynUint::from(0usize)), v);
    assert!((DynUint::zero() << DynUint::zero()).is_empty());
    assert!((DynUint::zero() >> DynUint::zero()).is_empty());
}

#[test]
fn operators_are_the_named_shifts() {
    let v = DynUint::from(0x1234usize);
    let n = DynUint::from(11u8);
    assert_eq!(v.clone() << n.clone(), v.clone().div_pow2(n.clone()));
    assert_eq!(v.clone() >> n.clone(), v.clone().mul_pow2(n.clone()));
    assert_eq!(v.clone() << n.clone(), DynUint::from(0x1234usize >> 11));
    assert_eq!(v >> n, DynUint::from(0x1234usize << 11));
}

#[test]
fn shift_amount_of_more_than_one_byte() {
    // 256 + 4 = 260 places
    let amount = DynUint::from(260usize);
    let r = DynUint::from(1u8).mul_pow2(amount.clone());
    assert_eq!(r.len(), 33);
    assert_eq!(r.last_nzero(), (32, &16u8));
    assert_eq!(r.div_pow2(amount), DynUint::from(1u8));
}

#[test]
fn mul_of_larger_numbers() {
    assert_eq!(
        DynUint::from(65535usize) * DynUint::from(65535usize),
        DynUint::from(4294836225u64 as usize)
    );
    assert_eq!(
        DynUint::from(255u8) * DynUint::from(255u8),
        DynUint::from(65025)
    );
    assert_eq!(
        DynUint::from(3u8) * DynUint::from(0x0100usize),
        DynUint::from(0x0300)
    );
    let square = DynUint::from(u32::MAX as usize) * DynUint::from(u32::MAX as usize);
    let expected = (DynUint::from(1u8).mul_pow2(DynUint::from(64u8))
        - DynUint::from(1u8).mul_pow2(DynUint::from(33u8)))
    .unwrap()
        + DynUint::from(1u8);
    assert_eq!(square, expected);
}

#[test]
fn rem_by_zero_fails() {
    assert_eq!(
        DynUint::from(5) % DynUint::zero(),
        Err(DynUintError::DivisionByZero)
    );
    assert_eq!(
        DynUint::from(5) % DynUint::from(0usize),
        Err(DynUintError::DivisionByZero)
    );
    assert_eq!(
        DynUint::zero() % DynUint::zero(),
        Err(DynUintError::DivisionByZero)
    );
}

#[test]
fn rem_by_one_is_zero() {
    for v in [0usize, 1, 2, 255, 256, 99999] {
        let r = (DynUint::from(v) % DynUint::from(1u8)).unwrap();
        assert_eq!(r, DynUint::zero());
        assert!(r.is_empty());
        assert_eq!(DynUint::from(v) % DynUint::from(1usize), Ok(DynUint::zero()));
    }
}

#[test]
fn rem_by_power_of_two() {
    assert_eq!(DynUint::from(5) % DynUint::from(2), Ok(DynUint::from(1)));
    assert_eq!(DynUint::from(1234) % DynUint::from(32), Ok(DynUint::from(18)));
    assert_eq!(
        DynUint::from(0x12345usize) % DynUint::from(0x1000usize),
        Ok(DynUint::from(0x345usize))
    );
    assert_eq!(
        DynUint::from(0x12345usize) % DynUint::from(0x100usize),
        Ok(DynUint::from(0x45usize))
    );
    assert_eq!(DynUint::from(7u8) % DynUint::from(1024usize), Ok(DynUint::from(7u8)));
    assert_eq!(DynUint::from(7u8) % DynUint::from(128u8), Ok(DynUint::from(7u8)));
    let r = (DynUint::from(7u8) % DynUint::from(4i32)).unwrap();
    assert_eq!(r.len(), 4);
    assert_eq!(r, DynUint::from(3u8));
}

#[test]
fn rem_by_other_divisors_is_unsupported() {
    assert_eq!(
        DynUint::from(2) % DynUint::from(5),
        Err(DynUintError::Unsupported)
    );
    assert_eq!(
        DynUint::from(100) % DynUint::from(3),
        Err(DynUintError::Unsupported)
    );
    assert_eq!(
        DynUint::from(100) % DynUint::from(0x0101usize),
        Err(DynUintError::Unsupported)
    );
    assert_eq!(
        DynUint::from(100) % DynUint::from(0x0300usize),
        Err(DynUintError::Unsupported)
    );
}

#[test]
fn powers_of_two() {
    for k in 0..(8 * WORD as u32) {
        assert!(DynUint::from(1usize << k).is_power_of_two());
    }
    assert!(DynUint::from(128u8).is_power_of_two());
    assert!(DynUint::from(1u8)
        .mul_pow2(DynUint::from(200u8))
        .is_power_of_two());
    for v in [0usize, 3, 5, 6, 7, 255, 257, 0x0300, 0x0101, 0x1_0001] {
        assert!(!DynUint::from(v).is_power_of_two());
    }
    assert!(!DynUint::zero().is_power_of_two());
}

#[test]
fn overflowing_add_is_not_offered() {
    let a = DynUint::from(1u8);
    let b = DynUint::from(2u8);
    assert_eq!(a.overflowing_add(&b), Err(DynUintError::Unsupported));
    assert_eq!(
        DynUint::zero().overflowing_add(&DynUint::zero()),
        Err(DynUintError::Unsupported)
    );
}

#[test]
fn clone_is_equal_and_independent() {
    let a = DynUint::from(0x0102usize);
    let mut b = a.clone();
    assert_eq!(a, b);
    assert_eq!(a.len(), b.len());
    b.resize(1);
    assert_eq!(a.len(), WORD);
    assert_ne!(a, b);
}
