use dynuint::DynUintError;
use dynuint::DynUint;

#[test]
fn inner_repres() {
    let zero = DynUint::zero();
    assert!(zero.clone().removed_trailing().is_empty());
}

#[test]
fn ord() {
    let zero = DynUint::zero();
    let one = DynUint::from(1);

    assert_eq!(zero, zero);
    assert_eq!(one, one);

    assert!(zero < one);
    assert!(zero <= one);
    assert!(zero <= zero);
    assert!(one > zero);
    assert!(one >= zero);
}

#[test]
fn eq() {
    let zero1 = DynUint::zero();
    let zero2 = DynUint::from(0);
    assert_eq!(zero1, zero2);

    let one1 = DynUint::from(true);
    let one2 = DynUint::from(1);
    assert_eq!(one1, one2);

    assert_ne!(one1, zero1);
    assert_ne!(one2, zero1);
    assert_ne!(one1, zero2);
    assert_ne!(one2, zero2);
}

#[test]
fn add() {
    assert_eq!(DynUint::zero() + DynUint::zero(), DynUint::zero());

    let one = DynUint::from(1);
    assert_eq!(DynUint::zero() + one.clone(), one.clone());

    let two = DynUint::from(2);
    assert_eq!(one.clone() + one.clone(), two.clone());

    let nib = DynUint::from(128);
    let obyte = DynUint::from(256usize);
    assert_eq!(nib.clone() + nib.clone(), obyte.clone());

    assert_eq!(
        DynUint::from(254u8) + DynUint::from(1u8),
        DynUint::from(255u8)
    );
}

#[test]
fn sub() {
    assert_eq!(DynUint::zero() - DynUint::zero(), Ok(DynUint::zero()));

    let one = DynUint::from(1);
    assert_eq!(one.clone() - DynUint::zero(), Ok(one.clone()));
    assert_eq!(one.clone() - one.clone(), Ok(DynUint::zero()));

    let two = DynUint::from(2);
    assert_eq!(two.clone() - one.clone(), Ok(one.clone()));

    let obyte = DynUint::from(256);
    let byte = DynUint::from(255);
    assert_eq!(obyte.clone() - one.clone(), Ok(byte.clone()));
}

#[test]
fn allocate() {
    let obyte = DynUint::from(256usize);
    let byte = DynUint::from(255u8);
    let one = DynUint::from(1u8);
    let res = byte.clone() + one.clone();
    assert_eq!(res, obyte);
    assert_eq!(res.len(), 2);
}

#[test]
fn sub_below_zero_is_unsupported() {
    assert_eq!(
        DynUint::from(1u8) - DynUint::from(2u8),
        Err(DynUintError::Unsupported)
    );
}

#[test]
fn and() {
    let one = DynUint::from(1);
    assert_eq!(DynUint::zero() & one.clone(), DynUint::zero());

    let umax = DynUint::from(usize::max_value());
    assert_eq!(umax.clone() & one.clone(), one.clone());
}

#[test]
fn shl() {
    assert_eq!(DynUint::zero() << DynUint::zero(), DynUint::zero());

    let one = DynUint::from(1);
    assert_eq!(one.clone() << DynUint::zero(), one.clone());

    let two = DynUint::from(2);
    assert_eq!(two.clone() << one.clone(), one.clone());

    let seven = DynUint::from(7);
    let byte = DynUint::from(255);
    assert_eq!(byte.clone() << seven.clone(), one.clone());

    assert_eq!(DynUint::from(1234) << 5.into(), 38.into());
}

#[test]
fn shr() {
    assert_eq!(DynUint::zero() >> DynUint::zero(), DynUint::zero());

    let one = DynUint::from(1);
    assert_eq!(one.clone() >> DynUint::zero(), one.clone());

    let two = DynUint::from(2);
    assert_eq!(one.clone() >> one.clone(), two.clone());

    let eight = DynUint::from(8);
    let byte = DynUint::from(255);
    assert_eq!((one.clone() >> eight.clone()) - one.clone(), Ok(byte));

    assert_eq!(
        DynUint::from(25) >> DynUint::from(12),
        DynUint::from(102400)
    );
}

#[test]
fn mul() {
    assert_eq!(DynUint::zero() * DynUint::from(100), DynUint::zero());
    assert_eq!(DynUint::from(true) * DynUint::from(100), DynUint::from(100));
    assert_eq!(DynUint::from(2u8) * DynUint::from(2u8), DynUint::from(4u8));
    assert_eq!(DynUint::from(69) * DynUint::from(420), DynUint::from(28980));
}
