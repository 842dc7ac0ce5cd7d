use stark_tools::fields::{
    equals, felt_add, felt_double, felt_inverse, felt_mul, felt_neg, felt_pow, felt_sub,
    from_be_bytes_mod_order, from_u64, one, root_of_unity, to_be_bytes, zero, FrConfig192,
    FrConfig64, FIELD_MODULUS, INV_TWO, TWO_ADICITY, TWO_ADIC_ROOT,
};
use stark_tools::ProofError;

#[test]
fn modulus_constants() {
    assert_eq!(FIELD_MODULUS, 18446744069414584321u64);
    assert_eq!(TWO_ADIC_ROOT, 1753635133440165772u64);
    assert_eq!(TWO_ADICITY, 32u64);
    assert_eq!(FrConfig64::modulus(), FIELD_MODULUS);
    assert_eq!(FrConfig64::element_bytes(), 8);
    assert_eq!(FrConfig192::element_bytes(), 24);
}

#[test]
fn add_sub_exact() {
    assert_eq!(
        felt_add(12345678901234567890 % FIELD_MODULUS, 9876543210987654321),
        3775478042807637890u64
    );
    assert_eq!(felt_sub(3, 5), FIELD_MODULUS - 2);
    assert_eq!(felt_neg(7), 18446744069414584314u64);
    assert_eq!(felt_double(FIELD_MODULUS - 1), FIELD_MODULUS - 2);
    assert_eq!(felt_add(zero(), one()), 1);
}

#[test]
fn mul_pow_exact() {
    assert_eq!(
        felt_mul(12345678901234567890 % FIELD_MODULUS, 9876543210987654321),
        7432351747408847865u64
    );
    assert_eq!(felt_pow(5, 1000000007), 17661066381623995699u64);
    assert_eq!(felt_pow(5, 0), 1);
    assert_eq!(felt_pow(0, 5), 0);
}

#[test]
fn inverse_exact() {
    let inv5 = felt_inverse(5).unwrap();
    assert_eq!(inv5, 14757395255531667457u64);
    assert_eq!(felt_mul(5, inv5), 1);
    assert!(felt_inverse(0).is_none());
    assert_eq!(felt_mul(2, INV_TWO), 1);
}

#[test]
fn roots_of_unity_squares() {
    // the fourth root squared is the second root
    let r4 = root_of_unity(4).unwrap();
    let r2 = root_of_unity(2).unwrap();
    assert_eq!(felt_mul(r4, r4), r2);
    assert_eq!(r2, FIELD_MODULUS - 1);
    // and the whole tower collapses the same way
    let r8 = root_of_unity(8).unwrap();
    assert_eq!(felt_mul(r8, r8), r4);
    // the order really is the requested one
    assert_eq!(felt_pow(r8, 8), 1);
    assert_ne!(felt_pow(r8, 4), 1);
}

#[test]
fn roots_of_unity_refused() {
    assert_eq!(root_of_unity(3), Err(ProofError::ConfigError));
    assert_eq!(root_of_unity(0), Err(ProofError::ConfigError));
    assert_eq!(root_of_unity(6), Err(ProofError::ConfigError));
    assert!(root_of_unity(0x100000000).is_ok());
}

#[test]
fn byte_codec_round_trip() {
    let b = to_be_bytes(0x0102030405060708);
    assert_eq!(b, vec![1, 2, 3, 4, 5, 6, 7, 8]);
    assert_eq!(from_be_bytes_mod_order(&b), 0x0102030405060708);
    // reduction happens modulo the prime
    let big = to_be_bytes(0xffffffffffffffff);
    assert_eq!(from_be_bytes_mod_order(&big), 0xffffffffffffffffu64 - FIELD_MODULUS);
    assert_eq!(from_u64(FIELD_MODULUS), 0);
    assert_eq!(from_u64(FIELD_MODULUS - 1), FIELD_MODULUS - 1);
    assert!(equals(3, 3) && !equals(3, 4));
}
