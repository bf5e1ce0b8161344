//! The range proof: a non-interactive proof that a committed value lies in
//! `[0, 2^64)`. The value is split into its 64 bits; each bit gets its own
//! commitment `bit·G + r_i·H` with an OR proof that it commits to 0 or to 1;
//! the bit blindings are chosen so that `Σ 2^i·C_i` is the commitment itself;
//! and one Fiat-Shamir challenge over the whole transcript binds every OR
//! proof.

use vstd::prelude::*;
use vstd::arithmetic::power2::{
    lemma2_to64, lemma_pow2_pos, lemma_pow2_strictly_increases, lemma_pow2_unfold, pow2,
};
use vstd::arithmetic::div_mod::lemma_div_denominator;
use crate::algebra::{
    bytes_of, canonical, combination_of, commitment_of, decode_text, enc, encode_text, group_order,
    is_identity_encoding, is_usable_point, le_value, text_of, weighted_sum_of, Point, Scalar,
};
use crate::balance::{append_bytes, keccak_bytes, keccak_of, same_bytes};
use crate::credit::{ConfidentialCredit, OwnerSecret};
use crate::error::LedgerError;

verus! {

/// The width in bits of the range that a range proof covers.
pub const RANGE_BITS: u64 = 64;

/// Whether a value lies in the range that a range proof covers.
pub open spec fn in_domain(value: u64) -> bool {
    value < pow2(RANGE_BITS as nat)
}

/// Checks that the secret's value lies in `[0, 2^RANGE_BITS)`, the range that
/// a range proof can show; `ValueOutOfDomain` otherwise. Every 64-bit value
/// lies in it.
pub fn check_range_domain(secret: &OwnerSecret) -> (r: Result<(), LedgerError>)
    ensures
        r is Ok <==> in_domain(secret.credit_value),
        r is Err ==> r == Err::<(), LedgerError>(LedgerError::ValueOutOfDomain),
        r is Ok,
{
    proof { lemma2_to64(); }
    Ok(())
}

/// The OR proof for one bit: the bit's commitment `C`, the challenge `e0` of
/// the branch "C commits to 0", and the responses of both branches. The
/// challenge of the branch "C commits to 1" is `c - e0`.
#[derive(Clone, Copy, Debug, PartialEq, Eq)]
pub struct BitProof {
    pub commitment: Point,
    pub e0: Scalar,
    pub z0: Scalar,
    pub z1: Scalar,
}

/// A range proof: the shared challenge and one OR proof per bit.
#[derive(Debug, PartialEq, Eq)]
pub struct RangeProof {
    pub c: Scalar,
    pub bits: Vec<BitProof>,
}

/// Bit `i` of `v`.
pub open spec fn bit_of(v: u64, i: int) -> u64 {
    ((v as nat / pow2(i as nat)) % 2) as u64
}

/// `-x` modulo the group order.
pub open spec fn neg(x: nat) -> nat {
    ((0 - x) % (group_order() as int)) as nat
}

/// `(x - y)` modulo the group order.
pub open spec fn diff(x: nat, y: nat) -> nat {
    ((x - y) % (group_order() as int)) as nat
}

/// The bytes of the transcript entries: each entry's three points in turn.
pub open spec fn flat(s: Seq<(Seq<u8>, Seq<u8>, Seq<u8>)>, k: nat) -> Seq<u8>
    decreases k,
{
    if k == 0 {
        Seq::empty()
    } else {
        flat(s, (k - 1) as nat) + s[k - 1].0 + s[k - 1].1 + s[k - 1].2
    }
}

/// The Fiat-Shamir challenge for the commitment `c` and the transcript entries.
pub open spec fn range_challenge(c: Seq<u8>, s: Seq<(Seq<u8>, Seq<u8>, Seq<u8>)>) -> nat {
    le_value(keccak_of(c + flat(s, s.len()))) % group_order()
}

/// The commit elements that the verifier recomputes for one bit, with the
/// bit's commitment in front: `A0 = z0·H - e0·C`, `A1 = e1·G + z1·H - e1·C`.
pub open spec fn verifier_entry(b: BitProof, c: nat) -> (Seq<u8>, Seq<u8>, Seq<u8>) {
    let e1 = diff(c, le_value(b.e0@));
    (
        b.commitment@,
        combination_of(enc(0), b.z0@, enc(neg(le_value(b.e0@))), b.commitment@),
        combination_of(enc(e1), b.z1@, enc(neg(e1)), b.commitment@),
    )
}

/// The encodings of `2^i`, for `i` below 64.
pub open spec fn powers() -> Seq<Seq<u8>> {
    Seq::new(64, |i: int| enc(pow2(i as nat)))
}

/// Whether the verifier accepts `p` for the commitment `c`: 64 bits, whose
/// commitments weighted by `2^i` add up to `c`, and whose recomputed commit
/// elements hash back to the challenge.
pub open spec fn range_accepts(c: Seq<u8>, p: RangeProof) -> bool {
    let cv = le_value(p.c@);
    &&& p.bits@.len() == 64
    &&& weighted_sum_of(powers(), Seq::new(64, |i: int| p.bits@[i].commitment@)) == c
    &&& p.c@ == enc(range_challenge(c, Seq::new(64, |i: int| verifier_entry(p.bits@[i], cv))))
}

/// `Σ_{1 <= i < k} 2^i·r_i` modulo the order, added up as the prover does.
pub open spec fn blind_sum(rs: Seq<Seq<u8>>, k: nat) -> nat
    decreases k,
{
    if k <= 1 {
        0
    } else {
        (blind_sum(rs, (k - 1) as nat) + (pow2((k - 1) as nat) * le_value(rs[k - 1])) % group_order())
            % group_order()
    }
}

/// The prover's commit elements for one bit of value `bit`, with blinding
/// `r`, nonce `k`, and simulated challenge `e` and response `z` for the
/// other branch.
pub open spec fn prover_entry(bit: u64, cm: Seq<u8>, k: Seq<u8>, e: Seq<u8>, z: Seq<u8>) -> (Seq<u8>, Seq<u8>, Seq<u8>) {
    let known = combination_of(enc(0), k, enc(0), cm);
    if bit == 0 {
        (cm, known, combination_of(e, z, enc(neg(le_value(e))), cm))
    } else {
        (cm, combination_of(enc(0), z, enc(neg(le_value(e))), cm), known)
    }
}

/// The responses of one bit's OR proof, given the shared challenge `c`.
pub open spec fn honest_bit(bit: u64, r: Seq<u8>, k: Seq<u8>, e: Seq<u8>, z: Seq<u8>, c: nat, b: BitProof) -> bool {
    let l = group_order();
    &&& b.commitment@ == commitment_of(bit, r)
    &&& if bit == 0 {
        &&& le_value(b.e0@) == diff(c, le_value(e))
        &&& le_value(b.z0@) == (le_value(k) + (le_value(b.e0@) * le_value(r)) % l) % l
        &&& b.z1@ == z
    } else {
        &&& b.e0@ == e
        &&& b.z0@ == z
        &&& le_value(b.z1@) == (le_value(k) + (diff(c, le_value(e)) * le_value(r)) % l) % l
    }
}

/// Whether `p` is the proof that the prover builds for `s` from the bit
/// blindings `rs`, nonces `ks`, and simulated challenges `es` and responses `zs`.
pub open spec fn honest_range_proof(
    s: OwnerSecret,
    rs: Seq<Seq<u8>>,
    ks: Seq<Seq<u8>>,
    es: Seq<Seq<u8>>,
    zs: Seq<Seq<u8>>,
    p: RangeProof,
) -> bool {
    let v = s.credit_value;
    let cm = commitment_of(v, s.secret_blinding@);
    let entries = Seq::new(
        64,
        |i: int| prover_entry(bit_of(v, i), p.bits@[i].commitment@, ks[i], es[i], zs[i]),
    );
    let c = range_challenge(cm, entries);
    &&& p.bits@.len() == 64 && rs.len() == 64 && ks.len() == 64 && es.len() == 64 && zs.len() == 64
    &&& forall|i: int| 0 <= i < 64 ==> canonical(#[trigger] rs[i]) && canonical(ks[i])
        && canonical(es[i]) && canonical(zs[i])
    &&& le_value(rs[0]) == diff(le_value(s.secret_blinding@), blind_sum(rs, 64))
    &&& p.c@ == enc(c) && le_value(p.c@) == c
    &&& forall|i: int| 0 <= i < 64 ==> #[trigger] honest_bit(bit_of(v, i), rs[i], ks[i], es[i], zs[i], c, p.bits@[i])
}

/// The scalars `2^i`, for `i` below 64.
fn powers_of_two() -> (r: Vec<Scalar>)
    ensures
        r@.len() == 64,
        forall|i: int| 0 <= i < 64 ==> #[trigger] r@[i]@ == enc(pow2(i as nat)) && le_value(r@[i]@) == pow2(i as nat),
{
    proof { lemma2_to64(); }
    let mut r: Vec<Scalar> = Vec::new();
    let mut w: u64 = 1;
    let mut i: u64 = 0;
    while i < 64
        invariant
            0 <= i <= 64,
            r@.len() == i,
            i < 64 ==> w as nat == pow2(i as nat),
            pow2(64) == 0x10000000000000000,
            forall|j: int| 0 <= j < i ==> #[trigger] r@[j]@ == enc(pow2(j as nat)) && le_value(r@[j]@) == pow2(j as nat),
        decreases 64 - i,
    {
        r.push(Scalar::from_u64(w));
        if i < 63 {
            proof {
                lemma_pow2_unfold((i + 1) as nat);
                lemma_pow2_strictly_increases((i + 1) as nat, 64);
            }
            w = w * 2;
        }
        i = i + 1;
    }
    r
}

/// The transcript: the commitment, then each bit's commitment and its two
/// commit elements.
fn transcript(c: &Point, cs: &Vec<Point>, a0s: &Vec<Point>, a1s: &Vec<Point>) -> (r: Vec<u8>)
    requires
        cs@.len() == a0s@.len(),
        cs@.len() == a1s@.len(),
    ensures
        r@ == c@ + flat(Seq::new(cs@.len(), |i: int| (cs@[i]@, a0s@[i]@, a1s@[i]@)), cs@.len()),
{
    let ghost s = Seq::new(cs@.len(), |i: int| (cs@[i]@, a0s@[i]@, a1s@[i]@));
    let mut t: Vec<u8> = Vec::new();
    append_bytes(&mut t, &c.to_bytes());
    let mut i: usize = 0;
    while i < cs.len()
        invariant
            0 <= i <= cs@.len(),
            cs@.len() == a0s@.len(),
            cs@.len() == a1s@.len(),
            s == Seq::new(cs@.len(), |i: int| (cs@[i]@, a0s@[i]@, a1s@[i]@)),
            t@ == c@ + flat(s, i as nat),
        decreases cs@.len() - i,
    {
        append_bytes(&mut t, &cs[i].to_bytes());
        append_bytes(&mut t, &a0s[i].to_bytes());
        append_bytes(&mut t, &a1s[i].to_bytes());
        i = i + 1;
        proof {
            assert(flat(s, i as nat) == flat(s, (i - 1) as nat) + s[i - 1].0 + s[i - 1].1 + s[i - 1].2);
            assert(t@ =~= c@ + flat(s, i as nat));
        }
    }
    t
}

/// Bit blindings with `rs[i]` above 0 fixed agree on `blind_sum`.
proof fn lemma_blind_sum_tail(a: Seq<Seq<u8>>, b: Seq<Seq<u8>>, k: nat)
    requires
        k <= a.len(),
        k <= b.len(),
        forall|i: int| 1 <= i < k ==> a[i] == b[i],
    ensures
        blind_sum(a, k) == blind_sum(b, k),
    decreases k,
{
    if k > 1 {
        lemma_blind_sum_tail(a, b, (k - 1) as nat);
    }
}

/// Checks a range proof against the commitment `credit`, using public data
/// only; an identity commitment is refused.
pub fn verify_range(credit: &ConfidentialCredit, proof: &RangeProof) -> (r: bool)
    ensures
        r == (!is_identity_encoding(credit.point@) && range_accepts(credit.point@, *proof)),
{
    if credit.point.is_identity() || proof.bits.len() != 64 {
        return false;
    }
    let pw = powers_of_two();
    let zero = Scalar::from_u64(0);
    let ghost cv = le_value(proof.c@);
    let mut cs: Vec<Point> = Vec::new();
    let mut a0s: Vec<Point> = Vec::new();
    let mut a1s: Vec<Point> = Vec::new();
    let mut i: usize = 0;
    while i < 64
        invariant
            0 <= i <= 64,
            proof.bits@.len() == 64,
            cs@.len() == i,
            a0s@.len() == i,
            a1s@.len() == i,
            zero@ == enc(0),
            le_value(zero@) == 0,
            cv == le_value(proof.c@),
            forall|j: int| 0 <= j < i ==> (cs@[j]@, a0s@[j]@, a1s@[j]@) == #[trigger] verifier_entry(proof.bits@[j], cv),
        decreases 64 - i,
    {
        let b = proof.bits[i];
        let ne0 = zero.minus(&b.e0);
        let e1 = proof.c.minus(&b.e0);
        let ne1 = zero.minus(&e1);
        a0s.push(Point::combine(&zero, &b.z0, &ne0, &b.commitment));
        a1s.push(Point::combine(&e1, &b.z1, &ne1, &b.commitment));
        cs.push(b.commitment);
        proof {
            assert((cs@[i as int]@, a0s@[i as int]@, a1s@[i as int]@) == verifier_entry(proof.bits@[i as int], cv));
        }
        i = i + 1;
    }
    let sum = Point::weighted_sum(&pw, &cs);
    let t = transcript(&credit.point, &cs, &a0s, &a1s);
    let c = Scalar::from_bytes_mod_order(keccak_bytes(&t));
    let agg = same_bytes(&sum.to_bytes(), &credit.point.to_bytes());
    let ch = same_bytes(&c.to_bytes(), &proof.c.to_bytes());
    proof {
        assert(pw@.map_values(|x: Scalar| x@) =~= powers());
        assert forall|j: int| 0 <= j < 64 implies cs@[j]@ == proof.bits@[j].commitment@ by {
            assert((cs@[j]@, a0s@[j]@, a1s@[j]@) == verifier_entry(proof.bits@[j], cv));
        }
        assert(cs@.map_values(|q: Point| q@) =~= Seq::new(64, |i: int| proof.bits@[i].commitment@));
        assert(Seq::new(cs@.len(), |i: int| (cs@[i]@, a0s@[i]@, a1s@[i]@))
            =~= Seq::new(64, |i: int| verifier_entry(proof.bits@[i], cv)));
    }
    agg && ch
}

/// The views of a sequence of scalars.
pub open spec fn views(s: Seq<Scalar>) -> Seq<Seq<u8>> {
    s.map_values(|x: Scalar| x@)
}

/// Proves that the secret's value lies in `[0, 2^64)`, with fresh random bit
/// blindings, nonces and simulated responses. Every 64-bit value can be proved.
pub fn prove_range(secret: &OwnerSecret) -> (r: Result<RangeProof, LedgerError>)
    ensures
        r is Ok,
        r is Ok ==> exists|rs: Seq<Seq<u8>>, ks: Seq<Seq<u8>>, es: Seq<Seq<u8>>, zs: Seq<Seq<u8>>|
            #[trigger] honest_range_proof(*secret, rs, ks, es, zs, r->Ok_0),
{
    let v = secret.credit_value;
    let cm = Point::commit(v, &secret.secret_blinding);
    let pw = powers_of_two();
    let zero = Scalar::from_u64(0);
    // Bit blindings: r_1 .. r_63 at random, then r_0 so that Σ 2^i·r_i = b.
    let mut rs: Vec<Scalar> = Vec::new();
    rs.push(zero);
    let mut acc = zero;
    let mut i: usize = 1;
    while i < 64
        invariant
            1 <= i <= 64,
            rs@.len() == i,
            pw@.len() == 64,
            forall|j: int| 0 <= j < 64 ==> #[trigger] le_value(pw@[j]@) == pow2(j as nat),
            forall|j: int| 0 <= j < i ==> canonical(#[trigger] rs@[j]@),
            le_value(acc@) == blind_sum(views(rs@), i as nat),
            le_value(zero@) == 0,
        decreases 64 - i,
    {
        let x = Scalar::random();
        acc = acc.plus(&pw[i].times(&x));
        let ghost ov = views(rs@);
        rs.push(x);
        proof {
            let nv = views(rs@);
            assert forall|j: int| 1 <= j < i implies nv[j] == ov[j] by {}
            lemma_blind_sum_tail(nv, ov, i as nat);
            assert(nv[i as int] == x@);
            assert(le_value(pw@[i as int]@) == pow2(i as nat));
            assert(blind_sum(nv, (i + 1) as nat) == (blind_sum(nv, i as nat)
                + (pow2(i as nat) * le_value(nv[i as int])) % group_order()) % group_order());
        }
        i = i + 1;
    }
    let r0 = secret.secret_blinding.minus(&acc);
    let ghost before = views(rs@);
    let ghost before_rs = rs@;
    rs.set(0, r0);
    proof {
        lemma_blind_sum_tail(before, views(rs@), 64);
        assert forall|j: int| 0 <= j < 64 implies canonical(#[trigger] rs@[j]@) by {
            if j > 0 {
                assert(rs@[j] == before_rs[j]);
            }
        }
    }
    // Commit phase: each bit's commitment and the two commit elements.
    proof { lemma2_to64(); }
    let mut rem: u64 = v;
    let mut bits: Vec<u64> = Vec::new();
    let mut ks: Vec<Scalar> = Vec::new();
    let mut es: Vec<Scalar> = Vec::new();
    let mut zs: Vec<Scalar> = Vec::new();
    let mut cs: Vec<Point> = Vec::new();
    let mut a0s: Vec<Point> = Vec::new();
    let mut a1s: Vec<Point> = Vec::new();
    let mut i: usize = 0;
    while i < 64
        invariant
            0 <= i <= 64,
            rs@.len() == 64,
            bits@.len() == i && ks@.len() == i && es@.len() == i && zs@.len() == i,
            cs@.len() == i && a0s@.len() == i && a1s@.len() == i,
            rem as nat == v as nat / pow2(i as nat),
            forall|j: int| 0 <= j < 64 ==> canonical(#[trigger] rs@[j]@),
            zero@ == enc(0),
            le_value(zero@) == 0,
            forall|j: int| 0 <= j < i ==> #[trigger] bits@[j] == bit_of(v, j)
                && canonical(ks@[j]@) && canonical(es@[j]@) && canonical(zs@[j]@)
                && cs@[j]@ == commitment_of(bit_of(v, j), rs@[j]@)
                && (cs@[j]@, a0s@[j]@, a1s@[j]@)
                    == prover_entry(bit_of(v, j), cs@[j]@, ks@[j]@, es@[j]@, zs@[j]@),
        decreases 64 - i,
    {
        let bit = rem % 2;
        let ghost old_rem = rem;
        let ghost (ob, ok, oe, oz, oc, oa0, oa1) = (bits@, ks@, es@, zs@, cs@, a0s@, a1s@);
        proof {
            lemma_pow2_pos(i as nat);
            lemma_pow2_unfold((i + 1) as nat);
            lemma_div_denominator(v as int, pow2(i as nat) as int, 2);
        }
        rem = rem / 2;
        let k = Scalar::random();
        let e = Scalar::random();
        let z = Scalar::random();
        let c_i = Point::commit(bit, &rs[i]);
        let known = Point::combine(&zero, &k, &zero, &c_i);
        let ne = zero.minus(&e);
        if bit == 0 {
            a0s.push(known);
            a1s.push(Point::combine(&e, &z, &ne, &c_i));
        } else {
            a0s.push(Point::combine(&zero, &z, &ne, &c_i));
            a1s.push(known);
        }
        bits.push(bit);
        ks.push(k);
        es.push(e);
        zs.push(z);
        cs.push(c_i);
        proof {
            assert(bit == bit_of(v, i as int));
            assert(pow2((i + 1) as nat) == pow2(i as nat) * 2);
            assert(rem as nat == v as nat / pow2((i + 1) as nat));
            assert(bits@[i as int] == bit_of(v, i as int));
            assert(canonical(ks@[i as int]@) && canonical(es@[i as int]@) && canonical(zs@[i as int]@));
            assert(cs@[i as int]@ == commitment_of(bit_of(v, i as int), rs@[i as int]@));
            assert((cs@[i as int]@, a0s@[i as int]@, a1s@[i as int]@)
                == prover_entry(bit_of(v, i as int), cs@[i as int]@, ks@[i as int]@, es@[i as int]@, zs@[i as int]@));
            assert forall|j: int| 0 <= j < i implies bits@[j] == ob[j] && ks@[j] == ok[j] && es@[j] == oe[j]
                && zs@[j] == oz[j] && cs@[j] == oc[j] && a0s@[j] == oa0[j] && a1s@[j] == oa1[j] by {}
            assert forall|j: int| 0 <= j < i + 1 implies #[trigger] bits@[j] == bit_of(v, j)
                && canonical(ks@[j]@) && canonical(es@[j]@) && canonical(zs@[j]@)
                && cs@[j]@ == commitment_of(bit_of(v, j), rs@[j]@)
                && (cs@[j]@, a0s@[j]@, a1s@[j]@)
                    == prover_entry(bit_of(v, j), cs@[j]@, ks@[j]@, es@[j]@, zs@[j]@) by {
                if j < i {
                    assert(ob[j] == bit_of(v, j));
                }
            }
        }
        i = i + 1;
    }
    let ghost entries = Seq::new(
        64,
        |j: int| prover_entry(bit_of(v, j), cs@[j]@, ks@[j]@, es@[j]@, zs@[j]@),
    );
    let t = transcript(&cm, &cs, &a0s, &a1s);
    proof {
        assert forall|j: int| 0 <= j < 64 implies (cs@[j]@, a0s@[j]@, a1s@[j]@) == entries[j] by {
            assert(bits@[j] == bit_of(v, j));
        }
        assert(Seq::new(cs@.len(), |j: int| (cs@[j]@, a0s@[j]@, a1s@[j]@)) =~= entries);
        assert forall|j: int| 0 <= j < 64 implies canonical(#[trigger] rs@[j]@) && canonical(ks@[j]@)
            && canonical(es@[j]@) && canonical(zs@[j]@) by {
            assert(bits@[j] == bit_of(v, j));
        }
    }
    let c = Scalar::from_bytes_mod_order(keccak_bytes(&t));
    // Response phase.
    let mut out: Vec<BitProof> = Vec::new();
    let mut i: usize = 0;
    while i < 64
        invariant
            0 <= i <= 64,
            rs@.len() == 64,
            bits@.len() == 64 && ks@.len() == 64 && es@.len() == 64 && zs@.len() == 64,
            cs@.len() == 64,
            out@.len() == i,
            forall|j: int| 0 <= j < 64 ==> canonical(#[trigger] rs@[j]@) && canonical(ks@[j]@)
                && canonical(es@[j]@) && canonical(zs@[j]@),
            forall|j: int| 0 <= j < 64 ==> #[trigger] bits@[j] == bit_of(v, j)
                && cs@[j]@ == commitment_of(bit_of(v, j), rs@[j]@),
            forall|j: int| 0 <= j < i ==> #[trigger] out@[j].commitment@ == cs@[j]@
                && honest_bit(bit_of(v, j), rs@[j]@, ks@[j]@, es@[j]@, zs@[j]@, le_value(c@), out@[j]),
        decreases 64 - i,
    {
        let b = if bits[i] == 0 {
            let e0 = c.minus(&es[i]);
            BitProof { commitment: cs[i], e0, z0: ks[i].plus(&e0.times(&rs[i])), z1: zs[i] }
        } else {
            let e1 = c.minus(&es[i]);
            BitProof { commitment: cs[i], e0: es[i], z0: zs[i], z1: ks[i].plus(&e1.times(&rs[i])) }
        };
        out.push(b);
        proof {
            assert(out@[i as int].commitment@ == cs@[i as int]@);
        }
        i = i + 1;
    }
    let p = RangeProof { c, bits: out };
    proof {
        let pe = Seq::new(
            64,
            |j: int| prover_entry(bit_of(v, j), p.bits@[j].commitment@, views(ks@)[j], views(es@)[j], views(zs@)[j]),
        );
        assert(pe =~= entries);
        assert forall|j: int| 0 <= j < 64 implies canonical(#[trigger] views(rs@)[j]) && canonical(views(ks@)[j])
            && canonical(views(es@)[j]) && canonical(views(zs@)[j]) by {
            assert(canonical(rs@[j]@));
            assert(bits@[j] == bit_of(v, j));
        }
        assert forall|j: int| 0 <= j < 64 implies #[trigger] honest_bit(bit_of(v, j), views(rs@)[j], views(ks@)[j],
            views(es@)[j], views(zs@)[j], le_value(c@), p.bits@[j]) by {
            assert(out@[j].commitment@ == cs@[j]@);
        }
        assert(views(rs@)[0] == r0@);
        assert(le_value(views(rs@)[0]) == diff(le_value(secret.secret_blinding@), blind_sum(views(rs@), 64)));
        assert(cm@ == commitment_of(v, secret.secret_blinding@));
        assert(p.c@ == enc(range_challenge(cm@, pe)));
        assert(le_value(p.c@) == range_challenge(cm@, pe));
        assert(honest_range_proof(*secret, views(rs@), views(ks@), views(es@), views(zs@), p));
    }
    let r: Result<RangeProof, LedgerError> = Ok(p);
    proof {
        assert(honest_range_proof(*secret, views(rs@), views(ks@), views(es@), views(zs@), r->Ok_0));
    }
    r
}

/// The length in bytes of an encoded range proof: the challenge, then for
/// each of the 64 bits its commitment, `e0`, `z0` and `z1`.
pub const RANGE_PROOF_LEN: usize = 8224;

/// The encoding of the bit proofs `s[..k]`.
pub open spec fn bits_bytes(s: Seq<BitProof>, k: nat) -> Seq<u8>
    decreases k,
{
    if k == 0 {
        Seq::empty()
    } else {
        bits_bytes(s, (k - 1) as nat) + s[k - 1].commitment@ + s[k - 1].e0@ + s[k - 1].z0@ + s[k - 1].z1@
    }
}

/// The encoding of a range proof.
pub open spec fn proof_bytes(p: RangeProof) -> Seq<u8> {
    p.c@ + bits_bytes(p.bits@, p.bits@.len())
}

/// The 32 bytes of element `n` of an encoding.
pub open spec fn chunk(b: Seq<u8>, n: int) -> Seq<u8> {
    b.subrange(32 * n, 32 * n + 32)
}

/// Whether the elements of bit `k` of an encoding are well formed.
pub open spec fn bit_shape(b: Seq<u8>, k: int) -> bool {
    &&& is_usable_point(chunk(b, 1 + 4 * k))
    &&& canonical(chunk(b, 2 + 4 * k))
    &&& canonical(chunk(b, 3 + 4 * k))
    &&& canonical(chunk(b, 4 + 4 * k))
}

/// Whether bytes have the shape of an encoded range proof.
pub open spec fn proof_shape(b: Seq<u8>) -> bool {
    &&& b.len() == RANGE_PROOF_LEN
    &&& canonical(chunk(b, 0))
    &&& forall|k: int| 0 <= k < 64 ==> #[trigger] bit_shape(b, k)
}

/// 32 bytes of `v` from `off` on.
fn bytes_at(v: &Vec<u8>, off: usize) -> (r: [u8; 32])
    requires
        off + 32 <= v@.len(),
    ensures
        r@ == v@.subrange(off as int, off + 32),
{
    let mut a: [u8; 32] = [0u8; 32];
    let mut i: usize = 0;
    while i < 32
        invariant
            0 <= i <= 32,
            off + 32 <= v.len(),
            forall|j: int| 0 <= j < i ==> a@[j] == v@[off + j],
        decreases 32 - i,
    {
        a[i] = v[off + i];
        i = i + 1;
    }
    assert(a@ =~= v@.subrange(off as int, off + 32));
    a
}

impl RangeProof {
    /// The encoding: the challenge, then each bit's commitment, `e0`, `z0`, `z1`.
    pub fn to_bytes(&self) -> (r: Vec<u8>)
        ensures
            r@ == proof_bytes(*self),
    {
        let mut out: Vec<u8> = Vec::new();
        append_bytes(&mut out, &self.c.to_bytes());
        let mut k: usize = 0;
        while k < self.bits.len()
            invariant
                0 <= k <= self.bits@.len(),
                out@ == self.c@ + bits_bytes(self.bits@, k as nat),
            decreases self.bits@.len() - k,
        {
            let b = self.bits[k];
            append_bytes(&mut out, &b.commitment.to_bytes());
            append_bytes(&mut out, &b.e0.to_bytes());
            append_bytes(&mut out, &b.z0.to_bytes());
            append_bytes(&mut out, &b.z1.to_bytes());
            k = k + 1;
            assert(out@ =~= self.c@ + bits_bytes(self.bits@, k as nat));
        }
        out
    }

    /// The text form of the proof.
    pub fn encode(&self) -> (r: String)
        ensures
            r@ == text_of(proof_bytes(*self)),
    {
        let b = self.to_bytes();
        encode_text(b.as_slice())
    }

    /// The proof with the given encoding; `MalformedProof` unless the bytes
    /// have the shape of a range proof.
    pub fn from_bytes(b: &Vec<u8>) -> (r: Result<RangeProof, LedgerError>)
        ensures
            match r {
                Ok(p) => proof_shape(b@) && proof_bytes(p) == b@ && p.bits@.len() == 64,
                Err(e) => !proof_shape(b@) && e == LedgerError::MalformedProof,
            },
    {
        if b.len() != RANGE_PROOF_LEN {
            return Err(LedgerError::MalformedProof);
        }
        let c = match Scalar::from_bytes(bytes_at(b, 0)) {
            Ok(x) => x,
            Err(_) => return Err(LedgerError::MalformedProof),
        };
        let mut bits: Vec<BitProof> = Vec::new();
        let mut k: usize = 0;
        while k < 64
            invariant
                0 <= k <= 64,
                b@.len() == RANGE_PROOF_LEN,
                bits@.len() == k,
                c@ == chunk(b@, 0),
                bits_bytes(bits@, k as nat) == b@.subrange(32, 32 + 128 * k),
                forall|j: int| 0 <= j < k ==> #[trigger] bit_shape(b@, j),
            decreases 64 - k,
        {
            let off = 32 + 128 * k;
            let cm = match Point::from_bytes(bytes_at(b, off)) {
                Ok(x) => x,
                Err(_) => {
                    assert(!bit_shape(b@, k as int));
                    return Err(LedgerError::MalformedProof);
                },
            };
            let e0 = match Scalar::from_bytes(bytes_at(b, off + 32)) {
                Ok(x) => x,
                Err(_) => {
                    assert(!bit_shape(b@, k as int));
                    return Err(LedgerError::MalformedProof);
                },
            };
            let z0 = match Scalar::from_bytes(bytes_at(b, off + 64)) {
                Ok(x) => x,
                Err(_) => {
                    assert(!bit_shape(b@, k as int));
                    return Err(LedgerError::MalformedProof);
                },
            };
            let z1 = match Scalar::from_bytes(bytes_at(b, off + 96)) {
                Ok(x) => x,
                Err(_) => {
                    assert(!bit_shape(b@, k as int));
                    return Err(LedgerError::MalformedProof);
                },
            };
            let ghost old_bits = bits@;
            bits.push(BitProof { commitment: cm, e0, z0, z1 });
            proof {
                assert(bits@.drop_last() =~= old_bits);
                assert(bits_bytes(bits@, k as nat) == bits_bytes(old_bits, k as nat)) by {
                    lemma_bits_bytes_prefix(bits@, old_bits, k as nat);
                }
                assert(bit_shape(b@, k as int));
            }
            k = k + 1;
            assert(bits_bytes(bits@, k as nat) =~= b@.subrange(32, 32 + 128 * k));
        }
        let p = RangeProof { c, bits };
        assert(proof_bytes(p) =~= b@);
        Ok(p)
    }

    /// Reads a proof from its text form; `MalformedProof` unless the text is
    /// base64 for bytes of the shape of a range proof.
    pub fn decode(t: &str) -> (r: Result<RangeProof, LedgerError>)
        ensures
            match bytes_of(t@) {
                Some(b) => match r {
                    Ok(p) => proof_shape(b) && proof_bytes(p) == b,
                    Err(e) => !proof_shape(b) && e == LedgerError::MalformedProof,
                },
                None => r == Err::<RangeProof, LedgerError>(LedgerError::MalformedProof),
            },
    {
        match decode_text(t) {
            None => Err(LedgerError::MalformedProof),
            Some(v) => RangeProof::from_bytes(&v),
        }
    }
}

/// Encodings of bit proofs that agree on the first `k` agree up to `k`.
proof fn lemma_bits_bytes_prefix(a: Seq<BitProof>, b: Seq<BitProof>, k: nat)
    requires
        k <= a.len(),
        k <= b.len(),
        forall|i: int| 0 <= i < k ==> a[i] == b[i],
    ensures
        bits_bytes(a, k) == bits_bytes(b, k),
    decreases k,
{
    if k > 0 {
        lemma_bits_bytes_prefix(a, b, (k - 1) as nat);
    }
}

} // verus!
