use spire_calculator::bignat::BigNat;

fn to_u128(n: &BigNat) -> u128 {
    let mut v: u128 = 0;
    for (i, l) in n.limbs().iter().enumerate().rev() {
        if *l != 0 {
            assert!(i < 4);
        }
        v = (v << 32) | (*l as u128);
    }
    v
}

fn from_u64(v: u64) -> BigNat {
    let hi = BigNat::from_u32((v >> 32) as u32);
    let lo = BigNat::from_u32(v as u32);
    hi.mul_u32(0xffff_ffff).add(&hi).add(&lo)
}

#[test]
fn bignat_small_values() {
    assert_eq!(to_u128(&BigNat::zero()), 0);
    assert_eq!(to_u128(&BigNat::from_u32(42)), 42);
    assert_eq!(to_u128(&BigNat::from_u32(u32::MAX)), u32::MAX as u128);
}

#[test]
fn bignat_carries_across_limbs() {
    let a = BigNat::from_u32(u32::MAX);
    assert_eq!(to_u128(&a.add(&a)), 2 * (u32::MAX as u128));
    assert_eq!(to_u128(&a.mul_u32(u32::MAX)), (u32::MAX as u128) * (u32::MAX as u128));
    let big = from_u64(0x1234_5678_9abc_def0);
    assert_eq!(to_u128(&big), 0x1234_5678_9abc_def0);
}

#[test]
fn bignat_product_and_difference() {
    let a = from_u64(0xffff_ffff_ffff_fff1);
    let b = from_u64(0x8000_0000_0000_0003);
    let p = a.mul(&b);
    assert_eq!(
        to_u128(&p),
        0xffff_ffff_ffff_fff1u128 * 0x8000_0000_0000_0003u128
    );
    let d = p.sub(&a);
    assert_eq!(
        to_u128(&d),
        0xffff_ffff_ffff_fff1u128 * 0x8000_0000_0000_0003u128 - 0xffff_ffff_ffff_fff1u128
    );
    assert_eq!(to_u128(&a.sub(&a)), 0);
    assert_eq!(to_u128(&a.sub(&BigNat::zero())), 0xffff_ffff_ffff_fff1);
}
