use curve25519_dalek::constants::RISTRETTO_BASEPOINT_COMPRESSED;
use verifiable_confidential_ledger::algebra::{Point, Scalar};
use verifiable_confidential_ledger::balance::{prove_sum_balance, verify_sum_balance, SumBalanceProof};
use verifiable_confidential_ledger::credit::{check_opening, make_credit, open_and_check, OwnerSecret};
use verifiable_confidential_ledger::error::LedgerError;
use verifiable_confidential_ledger::range::check_range_domain;

fn flip_low_bit(s: &Scalar) -> Scalar {
    let mut b = s.to_bytes();
    b[0] ^= 1;
    Scalar::from_bytes(b).unwrap()
}

#[test]
fn scenario_hundred_is_sixty_plus_forty() {
    let (c1, s1) = make_credit(100);
    let (c2, s2) = make_credit(60);
    let (c3, s3) = make_credit(40);
    let proof = prove_sum_balance(&s1, &s2, &s3).unwrap();
    assert!(verify_sum_balance(&c1, &c2, &c3, &proof));
    let (_, s41) = make_credit(41);
    assert_eq!(prove_sum_balance(&s1, &s2, &s41), Err(LedgerError::UnbalancedInput));
}

#[test]
fn sum_balance_holds_for_zero_and_large_values() {
    for (v2, v3) in [(0u64, 0u64), (0, 7), (u64::MAX - 5, 5), (1 << 40, 3)] {
        let (c1, s1) = make_credit(v2 + v3);
        let (c2, s2) = make_credit(v2);
        let (c3, s3) = make_credit(v3);
        let proof = prove_sum_balance(&s1, &s2, &s3).unwrap();
        assert!(verify_sum_balance(&c1, &c2, &c3, &proof));
    }
}

#[test]
fn sum_balance_refuses_unbalanced_and_overflowing_input() {
    let (_, s1) = make_credit(10);
    let (_, s2) = make_credit(4);
    let (_, s3) = make_credit(5);
    assert_eq!(prove_sum_balance(&s1, &s2, &s3), Err(LedgerError::UnbalancedInput));
    let (_, z) = make_credit(0);
    let (_, big) = make_credit(u64::MAX);
    let (_, one) = make_credit(1);
    assert_eq!(prove_sum_balance(&z, &big, &one), Err(LedgerError::UnbalancedInput));
}

#[test]
fn sum_balance_rejects_other_commitments_and_order() {
    let (c1, s1) = make_credit(9);
    let (c2, s2) = make_credit(4);
    let (c3, s3) = make_credit(5);
    let proof = prove_sum_balance(&s1, &s2, &s3).unwrap();
    let (other, _) = make_credit(9);
    assert!(!verify_sum_balance(&other, &c2, &c3, &proof));
    assert!(!verify_sum_balance(&c1, &c3, &c2, &proof));
}

#[test]
fn sum_balance_detects_a_flipped_bit() {
    let (c1, s1) = make_credit(30);
    let (c2, s2) = make_credit(10);
    let (c3, s3) = make_credit(20);
    let p = prove_sum_balance(&s1, &s2, &s3).unwrap();
    let tampered = [
        SumBalanceProof { c: flip_low_bit(&p.c), ..p },
        SumBalanceProof { m1: flip_low_bit(&p.m1), ..p },
        SumBalanceProof { m2: flip_low_bit(&p.m2), ..p },
        SumBalanceProof { m3: flip_low_bit(&p.m3), ..p },
        SumBalanceProof { m4: flip_low_bit(&p.m4), ..p },
        SumBalanceProof { m5: flip_low_bit(&p.m5), ..p },
    ];
    for t in tampered.iter() {
        assert!(!verify_sum_balance(&c1, &c2, &c3, t));
    }
}

#[test]
fn commitments_bind_distinct_values() {
    for _ in 0..20 {
        let (a, _) = make_credit(1);
        let (b, _) = make_credit(2);
        assert_ne!(a.point, b.point);
    }
}

#[test]
fn commitments_to_one_value_differ() {
    let mut seen: Vec<[u8; 32]> = Vec::new();
    for _ in 0..50 {
        let (c, s) = make_credit(77);
        assert_eq!(s.credit_value, 77);
        let b = c.get_point().to_bytes();
        assert!(!seen.contains(&b));
        seen.push(b);
    }
}

#[test]
fn opening_checks_against_its_commitment() {
    let (c, s) = make_credit(12);
    assert!(open_and_check(&s, &c));
    let wrong_value = OwnerSecret { credit_value: 13, ..s };
    assert!(!open_and_check(&wrong_value, &c));
    let (_, other) = make_credit(12);
    assert!(!open_and_check(&other, &c));
}

#[test]
fn commitment_of_zero_is_identity_and_of_one_is_base_point() {
    let zero = Scalar::from_u64(0);
    assert_eq!(Point::commit(0, &zero).to_bytes(), [0u8; 32]);
    assert_eq!(Point::commit(1, &zero).to_bytes(), RISTRETTO_BASEPOINT_COMPRESSED.to_bytes());
}

#[test]
fn scalar_arithmetic_is_modulo_the_order() {
    let two = Scalar::from_u64(2);
    let three = Scalar::from_u64(3);
    assert_eq!(two.plus(&three), Scalar::from_u64(5));
    assert_eq!(two.times(&three), Scalar::from_u64(6));
    assert_eq!(three.minus(&two), Scalar::from_u64(1));
    let minus_one = Scalar::from_u64(0).minus(&Scalar::from_u64(1));
    let mut order_less_one: [u8; 32] = [
        0xec, 0xd3, 0xf5, 0x5c, 0x1a, 0x63, 0x12, 0x58, 0xd6, 0x9c, 0xf7, 0xa2, 0xde, 0xf9, 0xde, 0x14,
        0, 0, 0, 0, 0, 0, 0, 0, 0, 0, 0, 0, 0, 0, 0, 0x10,
    ];
    assert_eq!(minus_one.to_bytes(), order_less_one);
    assert_eq!(minus_one.plus(&Scalar::from_u64(1)), Scalar::from_u64(0));
    order_less_one[0] = 0xed;
    assert_eq!(Scalar::from_bytes(order_less_one), Err(LedgerError::MalformedEncoding));
    assert_eq!(Scalar::from_bytes_mod_order(order_less_one), Scalar::from_u64(0));
}

#[test]
fn scalar_text_round_trip() {
    let zero = Scalar::from_u64(0);
    assert_eq!(zero.encode(), "AAAAAAAAAAAAAAAAAAAAAAAAAAAAAAAAAAAAAAAAAAA=");
    for _ in 0..10 {
        let x = Scalar::random();
        assert_eq!(Scalar::decode(&x.encode()), Ok(x));
    }
    assert_eq!(Scalar::decode(&zero.encode()), Ok(zero));
}

#[test]
fn scalar_decode_errors() {
    assert_eq!(Scalar::decode("bad"), Err(LedgerError::MalformedEncoding));
    assert_eq!(Scalar::decode("AAAA"), Err(LedgerError::MalformedEncoding));
    let too_large = "//////////////////////////////////////////8=";
    assert_eq!(Scalar::decode(too_large), Err(LedgerError::MalformedEncoding));
}

#[test]
fn point_text_round_trip() {
    for v in [0u64, 1, 100, u64::MAX] {
        let (c, _) = make_credit(v);
        assert_eq!(Point::decode(&c.point.encode()), Ok(c.point));
    }
}

#[test]
fn point_decode_errors() {
    assert_eq!(Point::decode("%%"), Err(LedgerError::MalformedEncoding));
    assert_eq!(Point::decode("AAAA"), Err(LedgerError::MalformedEncoding));
    assert_eq!(Point::from_bytes([0xffu8; 32]), Err(LedgerError::MalformedEncoding));
    assert_eq!(Point::from_bytes([0u8; 32]), Err(LedgerError::MalformedEncoding));
    let identity_text = "AAAAAAAAAAAAAAAAAAAAAAAAAAAAAAAAAAAAAAAAAAA=";
    assert_eq!(Point::decode(identity_text), Err(LedgerError::MalformedEncoding));
    assert!(Point::from_bytes(RISTRETTO_BASEPOINT_COMPRESSED.to_bytes()).is_ok());
}

#[test]
fn range_domain_covers_every_u64() {
    for v in [0u64, 1, u32::MAX as u64, 1u64 << 32, u64::MAX - 1, u64::MAX] {
        let (_, s) = make_credit(v);
        assert_eq!(check_range_domain(&s), Ok(()));
    }
}

#[test]
fn mismatched_opening_is_reported() {
    let (c, s) = make_credit(8);
    assert_eq!(check_opening(&s, &c), Ok(()));
    let (d, _) = make_credit(8);
    assert_eq!(check_opening(&s, &d), Err(LedgerError::InconsistentSecret));
}
