use num_bigint::BigUint;
use rsa_modpow::bounded::{BoundedUint, MAX_BITS};

#[test]
fn decoder_accepts_full_width() {
    let v = (BigUint::from(1u32) << MAX_BITS) - BigUint::from(1u32);
    let bytes = v.to_bytes_be();
    assert_eq!(bytes.len(), 384);
    let x = BoundedUint::from_be_bytes(&bytes).unwrap();
    assert_eq!(x.to_be_bytes(), bytes);
}

#[test]
fn decoder_rejects_one_bit_over() {
    let v = BigUint::from(1u32) << MAX_BITS;
    assert!(BoundedUint::from_be_bytes(&v.to_bytes_be()).is_none());
}

#[test]
fn decoder_ignores_leading_zero_bytes() {
    let mut bytes = vec![0u8; 500];
    bytes.push(0x12);
    bytes.push(0x34);
    let x = BoundedUint::from_be_bytes(&bytes).unwrap();
    assert_eq!(x.to_be_bytes(), vec![0x12u8, 0x34]);
}

#[test]
fn decoder_reads_empty_as_zero() {
    let x = BoundedUint::from_be_bytes(&[]).unwrap();
    assert!(x.is_zero());
    assert_eq!(x.to_be_bytes(), Vec::<u8>::new());
}

#[test]
fn encoder_is_big_endian_and_minimal() {
    let bytes = vec![0x01u8, 0x02, 0x03, 0x04, 0x05, 0x06, 0x07, 0x08, 0x09];
    let x = BoundedUint::from_be_bytes(&bytes).unwrap();
    assert_eq!(x.to_be_bytes(), bytes);
    let limbs = x.limbs();
    assert_eq!(limbs[0], 0x06070809);
    assert_eq!(limbs[1], 0x02030405);
    assert_eq!(limbs[2], 0x01);
    assert_eq!(limbs[3], 0);
}
