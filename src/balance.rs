//! The sum-balance proof: a non-interactive Sigma protocol showing that the
//! value in one commitment is the sum of the values in two others.

use vstd::prelude::*;
use crate::algebra::{
    canonical, combination_of, enc, group_order, is_identity_encoding, le_value, Point, Scalar,
};
use crate::credit::{opens, ConfidentialCredit, OwnerSecret};
use vstd::arithmetic::div_mod::{
    lemma_add_mod_noop, lemma_fundamental_div_mod, lemma_mod_multiples_vanish, lemma_mod_twice,
    lemma_small_mod,
};
use crate::error::LedgerError;
use sha3::{Digest, Keccak256};

verus! {

/// The Keccak-256 digest of a byte string.
pub uninterp spec fn keccak_of(t: Seq<u8>) -> Seq<u8>;

/// Relies on sha3's Keccak256: the 32-byte digest of the input.
#[verifier::external_body]
pub(crate) fn keccak_bytes(t: &Vec<u8>) -> (r: [u8; 32])
    ensures
        r@ == keccak_of(t@),
{
    let mut a = [0u8; 32];
    a.copy_from_slice(&Keccak256::digest(t.as_slice()));
    a
}

/// A proof that `value(C1) = value(C2) + value(C3)`: the challenge `c` and
/// the five responses.
#[derive(Clone, Copy, Debug, PartialEq, Eq)]
pub struct SumBalanceProof {
    pub c: Scalar,
    pub m1: Scalar,
    pub m2: Scalar,
    pub m3: Scalar,
    pub m4: Scalar,
    pub m5: Scalar,
}

/// The Fiat-Shamir challenge: the Keccak-256 digest of the three commitments
/// and the three commit elements, reduced modulo the group order.
pub open spec fn challenge_of(
    c1: Seq<u8>,
    c2: Seq<u8>,
    c3: Seq<u8>,
    t1: Seq<u8>,
    t2: Seq<u8>,
    t3: Seq<u8>,
) -> nat {
    le_value(keccak_of(c1 + c2 + c3 + t1 + t2 + t3)) % group_order()
}

/// Whether the verifier accepts `p` for the commitments `c1`, `c2`, `c3`: the
/// commit elements recomputed from the responses hash back to the challenge.
pub open spec fn accepts(c1: Seq<u8>, c2: Seq<u8>, c3: Seq<u8>, p: SumBalanceProof) -> bool {
    let t1 = combination_of(p.m1@, p.m2@, p.c@, c2);
    let t2 = combination_of(p.m3@, p.m4@, p.c@, c3);
    let t3 = combination_of(enc((le_value(p.m1@) + le_value(p.m3@)) % group_order()), p.m5@, p.c@, c1);
    p.c@ == enc(challenge_of(c1, c2, c3, t1, t2, t3))
}

/// `(n - c·w) mod ℓ`, the response for nonce `n` and witness `w`.
pub open spec fn response(n: Seq<u8>, c: nat, w: nat) -> nat {
    ((le_value(n) - (c * w) % group_order()) % (group_order() as int)) as nat
}

/// Whether `p` is the proof that the prover builds for the openings `s1`,
/// `s2`, `s3` from the nonces `na` to `ne`, where `nac` encodes `na + nc`.
pub open spec fn honest_proof(
    s1: OwnerSecret,
    s2: OwnerSecret,
    s3: OwnerSecret,
    na: Seq<u8>,
    nb: Seq<u8>,
    nc: Seq<u8>,
    nd: Seq<u8>,
    ne: Seq<u8>,
    nac: Seq<u8>,
    p: SumBalanceProof,
) -> bool {
    let c1 = commitment_of_secret(s1);
    let c2 = commitment_of_secret(s2);
    let c3 = commitment_of_secret(s3);
    let t1 = combination_of(na, nb, enc(0), c2);
    let t2 = combination_of(nc, nd, enc(0), c3);
    let t3 = combination_of(nac, ne, enc(0), c1);
    let c = challenge_of(c1, c2, c3, t1, t2, t3);
    &&& canonical(na) && canonical(nb) && canonical(nc) && canonical(nd) && canonical(ne)
    &&& canonical(nac) && le_value(nac) == (le_value(na) + le_value(nc)) % group_order()
    &&& canonical(s1.secret_blinding@) && canonical(s2.secret_blinding@)
    &&& canonical(s3.secret_blinding@)
    &&& p.c@ == enc(c) && le_value(p.c@) == c
    &&& le_value(p.m1@) == response(na, c, s2.credit_value as nat)
    &&& le_value(p.m2@) == response(nb, c, le_value(s2.secret_blinding@))
    &&& le_value(p.m3@) == response(nc, c, s3.credit_value as nat)
    &&& le_value(p.m4@) == response(nd, c, le_value(s3.secret_blinding@))
    &&& le_value(p.m5@) == response(ne, c, le_value(s1.secret_blinding@))
}

proof fn lemma_order_positive()
    ensures
        group_order() > 0,
{
    vstd::arithmetic::power2::lemma_pow2_pos(252);
}

/// Adding back `k` undoes a response `(a - k) mod l`.
proof fn lemma_undo(a: int, k: int, l: int)
    requires
        0 <= a < l,
        0 <= k,
    ensures
        ((a - k % l) % l + k) % l == a,
{
    let x = a - k % l;
    lemma_add_mod_noop(x, k, l);
    lemma_mod_twice(x, l);
    lemma_add_mod_noop(x % l, k, l);
    lemma_fundamental_div_mod(k, l);
    assert(x + k == a + l * (k / l));
    lemma_mod_multiples_vanish(k / l, a, l);
    lemma_small_mod(a as nat, l as nat);
}

/// The responses for `na` and `nc`, added, then shifted by `k2 + k3`, give `na + nc`.
proof fn lemma_undo_sum(na: int, nc: int, k2: int, k3: int, l: int)
    requires
        0 <= na < l,
        0 <= nc < l,
        0 <= k2,
        0 <= k3,
    ensures
        (((na - k2 % l) % l + (nc - k3 % l) % l) % l + (k2 + k3)) % l == (na + nc) % l,
{
    let m1 = (na - k2 % l) % l;
    let m3 = (nc - k3 % l) % l;
    lemma_undo(na, k2, l);
    lemma_undo(nc, k3, l);
    lemma_add_mod_noop(m1 + m3, k2 + k3, l);
    lemma_mod_twice(m1 + m3, l);
    lemma_add_mod_noop((m1 + m3) % l, k2 + k3, l);
    assert(m1 + m3 + (k2 + k3) == (m1 + k2) + (m3 + k3));
    lemma_add_mod_noop(m1 + k2, m3 + k3, l);
}

/// The commitment that an opening opens.
pub open spec fn commitment_of_secret(s: OwnerSecret) -> Seq<u8> {
    crate::algebra::commitment_of(s.credit_value, s.secret_blinding@)
}

/// Appends 32 bytes to `v`.
pub(crate) fn append_bytes(v: &mut Vec<u8>, a: &[u8; 32])
    ensures
        final(v)@ == old(v)@ + a@,
{
    let mut i: usize = 0;
    while i < 32
        invariant
            0 <= i <= 32,
            v@ == old(v)@ + a@.subrange(0, i as int),
        decreases 32 - i,
    {
        v.push(a[i]);
        i = i + 1;
        assert(a@.subrange(0, i as int) =~= a@.subrange(0, i - 1 as int).push(a@[i - 1]));
    }
    assert(a@.subrange(0, 32) =~= a@);
}

/// Whether two 32-byte strings are equal.
pub(crate) fn same_bytes(a: &[u8; 32], b: &[u8; 32]) -> (r: bool)
    ensures
        r == (a@ == b@),
{
    let mut i: usize = 0;
    while i < 32
        invariant
            0 <= i <= 32,
            forall|j: int| 0 <= j < i ==> a@[j] == b@[j],
        decreases 32 - i,
    {
        if a[i] != b[i] {
            assert(a@[i as int] != b@[i as int]);
            return false;
        }
        i = i + 1;
    }
    assert(a@ =~= b@);
    true
}

/// Derives the challenge from the three commitments and the three commit elements.
fn challenge(c1: &Point, c2: &Point, c3: &Point, t1: &Point, t2: &Point, t3: &Point) -> (r: Scalar)
    ensures
        r@ == enc(challenge_of(c1@, c2@, c3@, t1@, t2@, t3@)),
        le_value(r@) == challenge_of(c1@, c2@, c3@, t1@, t2@, t3@),
{
    let mut t: Vec<u8> = Vec::new();
    append_bytes(&mut t, &c1.to_bytes());
    append_bytes(&mut t, &c2.to_bytes());
    append_bytes(&mut t, &c3.to_bytes());
    append_bytes(&mut t, &t1.to_bytes());
    append_bytes(&mut t, &t2.to_bytes());
    append_bytes(&mut t, &t3.to_bytes());
    assert(t@ =~= c1@ + c2@ + c3@ + t1@ + t2@ + t3@);
    Scalar::from_bytes_mod_order(keccak_bytes(&t))
}

/// Proves that `s1`'s value is the sum of `s2`'s and `s3`'s, with fresh
/// random nonces; fails with `UnbalancedInput`, producing no proof, when it is not.
pub fn prove_sum_balance(s1: &OwnerSecret, s2: &OwnerSecret, s3: &OwnerSecret) -> (r: Result<SumBalanceProof, LedgerError>)
    ensures
        r is Ok <==> s1.credit_value == s2.credit_value + s3.credit_value,
        r is Err ==> r->Err_0 == LedgerError::UnbalancedInput,
        r is Ok ==> exists|na: Seq<u8>, nb: Seq<u8>, nc: Seq<u8>, nd: Seq<u8>, ne: Seq<u8>, nac: Seq<u8>|
            #[trigger] honest_proof(*s1, *s2, *s3, na, nb, nc, nd, ne, nac, r->Ok_0),
{
    if (s2.credit_value as u128) + (s3.credit_value as u128) != s1.credit_value as u128 {
        return Err(LedgerError::UnbalancedInput);
    }
    let c1 = Point::commit(s1.credit_value, &s1.secret_blinding);
    let c2 = Point::commit(s2.credit_value, &s2.secret_blinding);
    let c3 = Point::commit(s3.credit_value, &s3.secret_blinding);
    let na = Scalar::random();
    let nb = Scalar::random();
    let nc = Scalar::random();
    let nd = Scalar::random();
    let ne = Scalar::random();
    let zero = Scalar::from_u64(0);
    let t1 = Point::combine(&na, &nb, &zero, &c2);
    let t2 = Point::combine(&nc, &nd, &zero, &c3);
    let nac = na.plus(&nc);
    let t3 = Point::combine(&nac, &ne, &zero, &c1);
    let c = challenge(&c1, &c2, &c3, &t1, &t2, &t3);
    let v2 = Scalar::from_u64(s2.credit_value);
    let v3 = Scalar::from_u64(s3.credit_value);
    let p = SumBalanceProof {
        c,
        m1: na.minus(&c.times(&v2)),
        m2: nb.minus(&c.times(&s2.secret_blinding)),
        m3: nc.minus(&c.times(&v3)),
        m4: nd.minus(&c.times(&s3.secret_blinding)),
        m5: ne.minus(&c.times(&s1.secret_blinding)),
    };
    assert(honest_proof(*s1, *s2, *s3, na@, nb@, nc@, nd@, ne@, nac@, p));
    let r: Result<SumBalanceProof, LedgerError> = Ok(p);
    assert(r->Ok_0 == p);
    assert(exists|na: Seq<u8>, nb: Seq<u8>, nc: Seq<u8>, nd: Seq<u8>, ne: Seq<u8>, nac: Seq<u8>|
        #[trigger] honest_proof(*s1, *s2, *s3, na, nb, nc, nd, ne, nac, r->Ok_0));
    r
}

/// Checks a sum-balance proof against the commitments `(C1, C2, C3)`, using
/// public data only. An identity commitment is refused. A proof that the
/// prover built from openings of the three commitments whose values balance
/// is accepted.
pub fn verify_sum_balance(
    c1: &ConfidentialCredit,
    c2: &ConfidentialCredit,
    c3: &ConfidentialCredit,
    proof: &SumBalanceProof,
) -> (r: bool)
    ensures
        r == (!is_identity_encoding(c1.point@) && !is_identity_encoding(c2.point@)
            && !is_identity_encoding(c3.point@) && accepts(c1.point@, c2.point@, c3.point@, *proof)),
        forall|s1: OwnerSecret, s2: OwnerSecret, s3: OwnerSecret,
            na: Seq<u8>, nb: Seq<u8>, nc: Seq<u8>, nd: Seq<u8>, ne: Seq<u8>, nac: Seq<u8>|
            #[trigger] honest_proof(s1, s2, s3, na, nb, nc, nd, ne, nac, *proof)
                && opens(s1, *c1) && opens(s2, *c2) && opens(s3, *c3)
                && s1.credit_value == s2.credit_value + s3.credit_value
                && !is_identity_encoding(c1.point@) && !is_identity_encoding(c2.point@)
                && !is_identity_encoding(c3.point@) ==> r,
{
    let refused = c1.point.is_identity() || c2.point.is_identity() || c3.point.is_identity();
    let t1 = Point::combine(&proof.m1, &proof.m2, &proof.c, &c2.point);
    let t2 = Point::combine(&proof.m3, &proof.m4, &proof.c, &c3.point);
    let m13 = proof.m1.plus(&proof.m3);
    let t3 = Point::combine(&m13, &proof.m5, &proof.c, &c1.point);
    let c = challenge(&c1.point, &c2.point, &c3.point, &t1, &t2, &t3);
    let r = !refused && same_bytes(&c.to_bytes(), &proof.c.to_bytes());
    proof {
        lemma_order_positive();
        let l = group_order() as int;
        assert forall|s1: OwnerSecret, s2: OwnerSecret, s3: OwnerSecret,
            na: Seq<u8>, nb: Seq<u8>, nc: Seq<u8>, nd: Seq<u8>, ne: Seq<u8>, nac: Seq<u8>|
            #[trigger] honest_proof(s1, s2, s3, na, nb, nc, nd, ne, nac, *proof)
                && opens(s1, *c1) && opens(s2, *c2) && opens(s3, *c3)
                && s1.credit_value == s2.credit_value + s3.credit_value
                && !is_identity_encoding(c1.point@) && !is_identity_encoding(c2.point@)
                && !is_identity_encoding(c3.point@) implies r by {
            let ch = le_value(proof.c@) as int;
            let v1 = s1.credit_value as int;
            let v2 = s2.credit_value as int;
            let v3 = s3.credit_value as int;
            let b1 = le_value(s1.secret_blinding@) as int;
            let b2 = le_value(s2.secret_blinding@) as int;
            let b3 = le_value(s3.secret_blinding@) as int;
            assert(0 <= ch * v2 && 0 <= ch * v3 && 0 <= ch * b1 && 0 <= ch * b2 && 0 <= ch * b3)
                by (nonlinear_arith)
                requires 0 <= ch, 0 <= v2, 0 <= v3, 0 <= b1, 0 <= b2, 0 <= b3;
            lemma_undo(le_value(na) as int, ch * v2, l);
            lemma_undo(le_value(nb) as int, ch * b2, l);
            lemma_undo(le_value(nc) as int, ch * v3, l);
            lemma_undo(le_value(nd) as int, ch * b3, l);
            lemma_undo(le_value(ne) as int, ch * b1, l);
            lemma_undo_sum(le_value(na) as int, le_value(nc) as int, ch * v2, ch * v3, l);
            assert(ch * v1 == ch * v2 + ch * v3) by (nonlinear_arith)
                requires v1 == v2 + v3;
            assert(combination_of(na, nb, enc(0), c2.point@) == t1@);
            assert(combination_of(nc, nd, enc(0), c3.point@) == t2@);
            assert(combination_of(nac, ne, enc(0), c1.point@) == t3@);
        }
    }
    r
}

} // verus!
