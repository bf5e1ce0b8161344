use verifiable_confidential_ledger::algebra::{Point, Scalar};
use verifiable_confidential_ledger::balance::{prove_sum_balance, verify_sum_balance};
use verifiable_confidential_ledger::credit::{make_credit, ConfidentialCredit, OwnerSecret};
use verifiable_confidential_ledger::error::LedgerError;
use verifiable_confidential_ledger::range::{prove_range, verify_range, RangeProof, RANGE_PROOF_LEN};

fn flip_bit_zero(s: &Scalar) -> Scalar {
    let mut b = s.to_bytes();
    b[0] ^= 1;
    Scalar::from_bytes(b).unwrap()
}

#[test]
fn range_proof_verifies_across_the_range() {
    for v in [0u64, 1, 100, u32::MAX as u64, 1u64 << 32, u64::MAX - 1, u64::MAX] {
        let (c, s) = make_credit(v);
        let p = prove_range(&s).unwrap();
        assert_eq!(p.bits.len(), 64);
        assert!(verify_range(&c, &p));
    }
}

#[test]
fn range_proof_fails_for_another_commitment() {
    let (a, sa) = make_credit(5);
    let (b, _) = make_credit(5);
    let p = prove_range(&sa).unwrap();
    assert!(verify_range(&a, &p));
    assert!(!verify_range(&b, &p));
}

#[test]
fn range_proof_detects_a_flipped_bit() {
    let (c, s) = make_credit(0b1011);
    let p = prove_range(&s).unwrap();
    let with_c = RangeProof { c: flip_bit_zero(&p.c), bits: p.bits.clone() };
    assert!(!verify_range(&c, &with_c));
    for i in [0usize, 1, 2, 63] {
        for field in 0..3 {
            let mut bits = p.bits.clone();
            match field {
                0 => bits[i].e0 = flip_bit_zero(&bits[i].e0),
                1 => bits[i].z0 = flip_bit_zero(&bits[i].z0),
                _ => bits[i].z1 = flip_bit_zero(&bits[i].z1),
            }
            assert!(!verify_range(&c, &RangeProof { c: p.c, bits }));
        }
    }
    let mut swapped = p.bits.clone();
    swapped.swap(0, 1);
    assert!(!verify_range(&c, &RangeProof { c: p.c, bits: swapped }));
    let mut short = p.bits.clone();
    short.pop();
    assert!(!verify_range(&c, &RangeProof { c: p.c, bits: short }));
}

#[test]
fn range_proof_text_round_trip() {
    let (c, s) = make_credit(42);
    let p = prove_range(&s).unwrap();
    let bytes = p.to_bytes();
    assert_eq!(bytes.len(), RANGE_PROOF_LEN);
    assert_eq!(RangeProof::from_bytes(&bytes), Ok(RangeProof { c: p.c, bits: p.bits.clone() }));
    let text = p.encode();
    assert_eq!(text.len(), 10968);
    let q = RangeProof::decode(&text).unwrap();
    assert!(verify_range(&c, &q));
    assert_eq!(q, p);
}

#[test]
fn range_proof_shape_is_checked() {
    let (_, s) = make_credit(3);
    let good = prove_range(&s).unwrap().to_bytes();
    let mut short = good.clone();
    short.pop();
    assert_eq!(RangeProof::from_bytes(&short), Err(LedgerError::MalformedProof));
    let mut bad_c = good.clone();
    for i in 0..32 {
        bad_c[i] = 0xff;
    }
    assert_eq!(RangeProof::from_bytes(&bad_c), Err(LedgerError::MalformedProof));
    let mut identity_bit = good.clone();
    for i in 32..64 {
        identity_bit[i] = 0;
    }
    assert_eq!(RangeProof::from_bytes(&identity_bit), Err(LedgerError::MalformedProof));
    let mut bad_z1 = good.clone();
    for i in RANGE_PROOF_LEN - 32..RANGE_PROOF_LEN {
        bad_z1[i] = 0xff;
    }
    assert_eq!(RangeProof::from_bytes(&bad_z1), Err(LedgerError::MalformedProof));
    assert_eq!(RangeProof::decode("not base64!"), Err(LedgerError::MalformedProof));
    assert_eq!(RangeProof::decode("AAAA"), Err(LedgerError::MalformedProof));
}

#[test]
fn identity_commitments_are_refused() {
    let zero = Scalar::from_u64(0);
    let identity = ConfidentialCredit { point: Point::commit(0, &zero) };
    let s0 = OwnerSecret { credit_value: 0, secret_blinding: zero };
    let p = prove_range(&s0).unwrap();
    assert!(!verify_range(&identity, &p));
    let q = prove_sum_balance(&s0, &s0, &s0).unwrap();
    assert!(!verify_sum_balance(&identity, &identity, &identity, &q));
}
