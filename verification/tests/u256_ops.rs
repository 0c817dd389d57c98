use headerchain::u256::U256;

fn u(x: u64) -> U256 {
    U256::from_u64(x)
}

#[test]
fn from_and_low() {
    let v = u(0xdead_beef);
    assert_eq!(v.low_u64(), 0xdead_beef);
    assert_eq!(U256::zero().low_u64(), 0);
}

#[test]
fn compare_across_limbs() {
    let small = U256 { w0: u64::MAX, w1: u64::MAX, w2: u64::MAX, w3: 0 };
    let big = U256 { w0: 0, w1: 0, w2: 0, w3: 1 };
    assert!(small.lt(&big));
    assert!(big.ge(&small));
    assert!(big.ge(&big));
    assert!(big.eq_val(&big));
    assert!(!big.eq_val(&small));
}

#[test]
fn add_sub_round_trip() {
    let a = U256 { w0: u64::MAX, w1: 7, w2: 0, w3: 0 };
    let b = u(1);
    let (s, c) = a.add_with_carry(&b);
    assert_eq!(c, 0);
    assert_eq!(s.w0, 0);
    assert_eq!(s.w1, 8);
    let d = s.sub(&b);
    assert!(d.eq_val(&a));
}

#[test]
fn add_carry_out() {
    let a = U256 { w0: u64::MAX, w1: u64::MAX, w2: u64::MAX, w3: u64::MAX };
    let (s, c) = a.add_with_carry(&u(1));
    assert_eq!(c, 1);
    assert!(s.eq_val(&U256::zero()));
}

#[test]
fn shifts() {
    let v = u(1).shl(200);
    assert_eq!(v.w3, 1 << 8);
    let back = v.shr(200);
    assert_eq!(back.low_u64(), 1);
    assert_eq!(back.w3, 0);
    // shifting everything out gives zero
    assert!(u(5).shl(256).eq_val(&U256::zero()));
    assert!(u(5).shr(3).eq_val(&U256::zero()));
}

#[test]
fn multiply_small() {
    let v = u(1_000_000_007).mul_u32(1000);
    assert_eq!(v.low_u64(), 1_000_000_007_000);
    assert_eq!(v.w1, 0);
}

#[test]
fn multiply_crosses_limb() {
    let v = u(u64::MAX).mul_u32(2);
    assert_eq!(v.w0, u64::MAX - 1);
    assert_eq!(v.w1, 1);
}

#[test]
fn division_exact_and_remainder() {
    let (q, r) = u(100).div_rem(&u(7));
    assert_eq!(q.low_u64(), 14);
    assert_eq!(r.low_u64(), 2);
    let big = u(3).shl(128);
    let (q2, r2) = big.div_rem(&u(3));
    assert!(q2.eq_val(&u(1).shl(128)));
    assert!(r2.eq_val(&U256::zero()));
}

#[test]
fn bit_length_values() {
    assert_eq!(U256::zero().bit_length(), 0);
    assert_eq!(u(1).bit_length(), 1);
    assert_eq!(u(0xffff).bit_length(), 16);
    assert_eq!(u(0x10000).bit_length(), 17);
    assert_eq!(u(1).shl(255).bit_length(), 256);
}

#[test]
fn bit_probe() {
    let v = u(0b1010);
    assert!(v.bit(1));
    assert!(!v.bit(0));
    assert!(v.bit(3));
    assert!(u(1).shl(200).bit(200));
}
