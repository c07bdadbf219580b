use num_bigint::BigUint;
use rsa_modpow::bounded::{mod_add, mod_sub, mul_mod, reduce, BoundedUint, MAX_BITS};
use rsa_modpow::modpow::modpow_65537;

fn operand(v: &BigUint) -> BoundedUint {
    BoundedUint::from_be_bytes(&v.to_bytes_be()).unwrap()
}

fn value(v: &BoundedUint) -> BigUint {
    BigUint::from_bytes_be(&v.to_be_bytes())
}

fn reference(base: &BigUint, modulus: &BigUint) -> BigUint {
    base.modpow(&BigUint::from(65537u32), modulus)
}

fn max_operand() -> BigUint {
    (BigUint::from(1u32) << MAX_BITS) - BigUint::from(1u32)
}

#[test]
fn modpow_matches_reference_small_values() {
    let cases: [(u64, u64); 6] = [
        (2, 3),
        (5, 7),
        (123456789, 1000000007),
        (0xffff_ffff_ffff_ffff, 0xffff_ffff_0000_0001),
        (10, 97),
        (65537, 65539),
    ];
    for (b, m) in cases.iter() {
        let base = BigUint::from(*b);
        let modulus = BigUint::from(*m);
        let r = modpow_65537(&operand(&base), &operand(&modulus));
        assert_eq!(value(&r), reference(&base, &modulus));
    }
}

#[test]
fn modpow_matches_reference_full_width() {
    let modulus = max_operand() - BigUint::from(188u32);
    let base = (BigUint::from(0x1234_5678_9abc_def1u64) << 2000) + BigUint::from(77u32);
    let r = modpow_65537(&operand(&base), &operand(&modulus));
    assert_eq!(value(&r), reference(&base, &modulus));
}

#[test]
fn modpow_base_larger_than_modulus() {
    let base = max_operand();
    let modulus = BigUint::from(1_000_003u32);
    let r = modpow_65537(&operand(&base), &operand(&modulus));
    assert_eq!(value(&r), reference(&base, &modulus));
}

#[test]
fn modpow_small_edge_values() {
    let one = BigUint::from(1u32);
    let zero = BigUint::from(0u32);
    let seven = BigUint::from(7u32);
    // base zero gives zero
    assert_eq!(value(&modpow_65537(&operand(&zero), &operand(&seven))), zero);
    // base one gives one
    assert_eq!(value(&modpow_65537(&operand(&one), &operand(&seven))), one);
    // modulus one gives zero
    assert_eq!(value(&modpow_65537(&operand(&seven), &operand(&one))), zero);
    // modulus smaller than the exponent
    let r = modpow_65537(&operand(&BigUint::from(3u32)), &operand(&BigUint::from(5u32)));
    assert_eq!(value(&r), BigUint::from(3u32));
}

#[test]
fn mod_add_wraps_once() {
    let m = BigUint::from(1000u32);
    let r = mod_add(&operand(&BigUint::from(700u32)), &operand(&BigUint::from(600u32)), &operand(&m));
    assert_eq!(value(&r), BigUint::from(300u32));
    let r = mod_add(&operand(&BigUint::from(300u32)), &operand(&BigUint::from(600u32)), &operand(&m));
    assert_eq!(value(&r), BigUint::from(900u32));
}

#[test]
fn mod_add_with_carry_out_of_top_limb() {
    let m = max_operand();
    let a = max_operand() - BigUint::from(1u32);
    let b = max_operand() - BigUint::from(5u32);
    let r = mod_add(&operand(&a), &operand(&b), &operand(&m));
    assert_eq!(value(&r), (&a + &b) % &m);
}

#[test]
fn mul_mod_exact_values() {
    let m = BigUint::from(1_000_000_007u64);
    let a = BigUint::from(999_999_999u64);
    let b = max_operand();
    let r = mul_mod(&operand(&a), &operand(&b), &operand(&m));
    assert_eq!(value(&r), (&a * &b) % &m);
    let r = mul_mod(&operand(&BigUint::from(12u32)), &operand(&BigUint::from(13u32)), &operand(&BigUint::from(100u32)));
    assert_eq!(value(&r), BigUint::from(56u32));
}

#[test]
fn zero_and_one_constants() {
    assert!(BoundedUint::zero().is_zero());
    assert!(!BoundedUint::one().is_zero());
    assert_eq!(value(&BoundedUint::one()), BigUint::from(1u32));
    assert_eq!(BoundedUint::zero().to_be_bytes(), Vec::<u8>::new());
}

#[test]
fn mod_sub_wraps_below_zero() {
    let m = BigUint::from(1000u32);
    let r = mod_sub(&operand(&BigUint::from(300u32)), &operand(&BigUint::from(700u32)), &operand(&m));
    assert_eq!(value(&r), BigUint::from(600u32));
    let r = mod_sub(&operand(&BigUint::from(700u32)), &operand(&BigUint::from(300u32)), &operand(&m));
    assert_eq!(value(&r), BigUint::from(400u32));
}

#[test]
fn mod_sub_full_width() {
    let m = max_operand();
    let a = BigUint::from(5u32);
    let b = max_operand() - BigUint::from(2u32);
    let r = mod_sub(&operand(&a), &operand(&b), &operand(&m));
    assert_eq!(value(&r), BigUint::from(7u32));
}

#[test]
fn reduce_exact_values() {
    let x = max_operand();
    let m = BigUint::from(1_000_000_007u64);
    assert_eq!(value(&reduce(&operand(&x), &operand(&m))), &x % &m);
    let r = reduce(&operand(&BigUint::from(17u32)), &operand(&BigUint::from(5u32)));
    assert_eq!(value(&r), BigUint::from(2u32));
    let r = reduce(&operand(&BigUint::from(4u32)), &operand(&BigUint::from(9u32)));
    assert_eq!(value(&r), BigUint::from(4u32));
}
