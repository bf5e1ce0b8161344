//! Scalars and group elements held by their canonical 32-byte encodings.
//! The curve arithmetic is done by curve25519-dalek, the second generator is
//! derived with sha3, randomness comes from rand, and the text form is base64.

use vstd::prelude::*;
use vstd::arithmetic::power2::pow2;
use vstd::arithmetic::power::pow;
use crate::error::LedgerError;
use curve25519_dalek::ristretto::{CompressedRistretto, RistrettoPoint};
use curve25519_dalek::scalar::Scalar as DalekScalar;
use curve25519_dalek::constants::{RISTRETTO_BASEPOINT_COMPRESSED, RISTRETTO_BASEPOINT_POINT};
use curve25519_dalek::traits::MultiscalarMul;
use sha3::Sha3_512;

verus! {

broadcast use vstd::array::group_array_axioms;

/// The number that a little-endian byte string spells.
pub open spec fn le_value(b: Seq<u8>) -> nat
    decreases b.len(),
{
    if b.len() == 0 {
        0
    } else {
        b[0] as nat + 256 * le_value(b.subrange(1, b.len() as int))
    }
}

/// The order of the Ristretto group, 2^252 + 27742317777372353535851937790883648493.
pub open spec fn group_order() -> nat {
    pow2(252) + 27742317777372353535851937790883648493
}

/// The 32-byte little-endian encoding of `n`.
pub open spec fn enc(n: nat) -> Seq<u8> {
    Seq::new(32, |i: int| ((n / pow(256, i as nat) as nat) % 256) as u8)
}

/// The encoding of the identity element: 32 zero bytes.
pub open spec fn is_identity_encoding(b: Seq<u8>) -> bool {
    b.len() == 32 && forall|i: int| 0 <= i < 32 ==> b[i] == 0
}

/// An encoding accepted where a commitment or proof component is expected:
/// a group element other than the identity.
pub open spec fn is_usable_point(b: Seq<u8>) -> bool {
    is_point_encoding(b) && !is_identity_encoding(b)
}

/// A canonical scalar encoding: 32 bytes whose value is below the group order.
pub open spec fn canonical(b: Seq<u8>) -> bool {
    b.len() == 32 && le_value(b) < group_order()
}

/// The text form (base64) of a byte string.
pub uninterp spec fn text_of(b: Seq<u8>) -> Seq<char>;

/// The bytes that a text decodes to, if it is valid base64.
pub uninterp spec fn bytes_of(s: Seq<char>) -> Option<Seq<u8>>;

/// The compressed encoding of `x·G + y·H + z·P`, for the generators `G`, `H`
/// of `commitment_of` and the point `P` that `p` encodes.
pub uninterp spec fn combination_of(x: Seq<u8>, y: Seq<u8>, z: Seq<u8>, p: Seq<u8>) -> Seq<u8>;

/// The compressed encoding of `Σ s_i·P_i`, for the scalars encoded by `s`
/// and the points encoded by `p`.
pub uninterp spec fn weighted_sum_of(s: Seq<Seq<u8>>, p: Seq<Seq<u8>>) -> Seq<u8>;

/// Whether 32 bytes are the compressed encoding of a Ristretto group element.
pub uninterp spec fn is_point_encoding(b: Seq<u8>) -> bool;

/// The compressed encoding of `value·G + blinding·H`, where `G` is the
/// Ristretto base point and `H` the point that SHA3-512 of `G`'s encoding
/// hashes to: two generators of which neither is a known multiple of the other.
pub uninterp spec fn commitment_of(value: u64, blinding: Seq<u8>) -> Seq<u8>;

/// Relies on base64::encode: the standard base64 text of the bytes.
#[verifier::external_body]
pub(crate) fn encode_text(b: &[u8]) -> (r: String)
    ensures
        r@ == text_of(b@),
{
    base64::encode(b)
}

/// Relies on base64::decode: standard base64 decoding, which gives back the
/// bytes of any text that base64::encode produced.
#[verifier::external_body]
pub(crate) fn decode_text(s: &str) -> (r: Option<Vec<u8>>)
    ensures
        match r {
            Some(v) => bytes_of(s@) == Some(v@),
            None => bytes_of(s@) is None,
        },
        forall|b: Seq<u8>| #[trigger] text_of(b) == s@ ==> r is Some && r->0@ == b,
{
    base64::decode(s).ok()
}

/// Relies on curve25519_dalek's Scalar::from_canonical_bytes: it accepts
/// exactly the encodings whose little-endian value is below the group order.
#[verifier::external_body]
fn is_canonical_bytes(b: &[u8; 32]) -> (r: bool)
    ensures
        r == (le_value(b@) < group_order()),
{
    DalekScalar::from_canonical_bytes(*b).is_some()
}

/// Relies on curve25519_dalek's CompressedRistretto::decompress: whether the
/// bytes encode a group element.
#[verifier::external_body]
fn decompresses(b: &[u8; 32]) -> (r: bool)
    ensures
        r == is_point_encoding(b@),
{
    CompressedRistretto(*b).decompress().is_some()
}

/// Relies on curve25519_dalek's Scalar::random, fed by rand's thread-local
/// secure generator; to_bytes gives the canonical encoding.
#[verifier::external_body]
fn random_scalar_bytes() -> (r: [u8; 32])
    ensures
        canonical(r@),
{
    DalekScalar::random(&mut rand::thread_rng()).to_bytes()
}

/// Relies on curve25519_dalek's RistrettoPoint::multiscalar_mul over the two
/// generators of `commitment_of`; a compressed point decompresses.
#[verifier::external_body]
fn commitment_bytes(value: u64, blinding: &[u8; 32]) -> (r: [u8; 32])
    requires
        canonical(blinding@),
    ensures
        r@ == commitment_of(value, blinding@),
        is_point_encoding(r@),
{
    let b = DalekScalar::from_bits(*blinding);
    let h = RistrettoPoint::hash_from_bytes::<Sha3_512>(RISTRETTO_BASEPOINT_COMPRESSED.as_bytes());
    RistrettoPoint::multiscalar_mul(&[DalekScalar::from(value), b], &[RISTRETTO_BASEPOINT_POINT, h])
        .compress().to_bytes()
}

/// Relies on curve25519_dalek's `From<u64>` for Scalar: the value itself,
/// encoded by to_bytes.
#[verifier::external_body]
fn scalar_bytes_of_u64(v: u64) -> (r: [u8; 32])
    ensures
        r@ == enc(v as nat),
        le_value(r@) == v,
        canonical(r@),
{
    DalekScalar::from(v).to_bytes()
}

/// Relies on curve25519_dalek's `Add` for Scalar: the sum modulo the order.
#[verifier::external_body]
fn scalar_add_bytes(a: &[u8; 32], b: &[u8; 32]) -> (r: [u8; 32])
    requires
        canonical(a@),
        canonical(b@),
    ensures
        r@ == enc((le_value(a@) + le_value(b@)) % group_order()),
        le_value(r@) == (le_value(a@) + le_value(b@)) % group_order(),
        canonical(r@),
{
    (DalekScalar::from_bits(*a) + DalekScalar::from_bits(*b)).to_bytes()
}

/// Relies on curve25519_dalek's `Sub` for Scalar: the difference modulo the order.
#[verifier::external_body]
fn scalar_sub_bytes(a: &[u8; 32], b: &[u8; 32]) -> (r: [u8; 32])
    requires
        canonical(a@),
        canonical(b@),
    ensures
        r@ == enc(((le_value(a@) - le_value(b@)) % (group_order() as int)) as nat),
        le_value(r@) == (le_value(a@) - le_value(b@)) % (group_order() as int),
        canonical(r@),
{
    (DalekScalar::from_bits(*a) - DalekScalar::from_bits(*b)).to_bytes()
}

/// Relies on curve25519_dalek's `Mul` for Scalar: the product modulo the order.
#[verifier::external_body]
fn scalar_mul_bytes(a: &[u8; 32], b: &[u8; 32]) -> (r: [u8; 32])
    requires
        canonical(a@),
        canonical(b@),
    ensures
        r@ == enc((le_value(a@) * le_value(b@)) % group_order()),
        le_value(r@) == (le_value(a@) * le_value(b@)) % group_order(),
        canonical(r@),
{
    (DalekScalar::from_bits(*a) * DalekScalar::from_bits(*b)).to_bytes()
}

/// Relies on curve25519_dalek's Scalar::from_bytes_mod_order: the value of
/// the bytes reduced modulo the order.
#[verifier::external_body]
fn scalar_reduce_bytes(a: &[u8; 32]) -> (r: [u8; 32])
    ensures
        r@ == enc(le_value(a@) % group_order()),
        le_value(r@) == le_value(a@) % group_order(),
        canonical(r@),
{
    DalekScalar::from_bytes_mod_order(*a).to_bytes()
}

/// Relies on curve25519_dalek's RistrettoPoint::multiscalar_mul over the
/// generators of `commitment_of` and one more point. Where that point is a
/// commitment `v·G + b·H`, the sum is `(x + z·v)·G + (y + z·b)·H`, and equal
/// points have equal compressed encodings.
#[verifier::external_body]
fn combination_bytes(x: &[u8; 32], y: &[u8; 32], z: &[u8; 32], p: &[u8; 32]) -> (r: [u8; 32])
    requires
        canonical(x@),
        canonical(y@),
        canonical(z@),
        is_point_encoding(p@),
    ensures
        r@ == combination_of(x@, y@, z@, p@),
        is_point_encoding(r@),
        forall|v: u64, b: Seq<u8>, x2: Seq<u8>, y2: Seq<u8>|
            #![trigger commitment_of(v, b), combination_of(x2, y2, enc(0), p@)]
            p@ == commitment_of(v, b) && canonical(b) && canonical(x2) && canonical(y2)
                && le_value(x2) == (le_value(x@) + le_value(z@) * (v as nat)) % group_order()
                && le_value(y2) == (le_value(y@) + le_value(z@) * le_value(b)) % group_order()
                ==> combination_of(x2, y2, enc(0), p@) == r@,
{
    let h = RistrettoPoint::hash_from_bytes::<Sha3_512>(RISTRETTO_BASEPOINT_COMPRESSED.as_bytes());
    let q = CompressedRistretto(*p).decompress().unwrap();
    let s = [DalekScalar::from_bits(*x), DalekScalar::from_bits(*y), DalekScalar::from_bits(*z)];
    RistrettoPoint::multiscalar_mul(&s, &[RISTRETTO_BASEPOINT_POINT, h, q]).compress().to_bytes()
}

/// Relies on curve25519_dalek's RistrettoPoint::multiscalar_mul, which
/// needs as many scalars as points. Every `Point` holds a valid encoding, so
/// each decompresses.
#[verifier::external_body]
fn weighted_sum_bytes(s: &Vec<Scalar>, p: &Vec<Point>) -> (r: [u8; 32])
    requires
        s.len() == p.len(),
    ensures
        r@ == weighted_sum_of(s@.map_values(|x: Scalar| x@), p@.map_values(|q: Point| q@)),
        is_point_encoding(r@),
{
    let scalars: Vec<DalekScalar> = s.iter().map(|x| DalekScalar::from_bits(x.bytes)).collect();
    let points: Vec<RistrettoPoint> =
        p.iter().map(|q| CompressedRistretto(q.bytes).decompress().unwrap()).collect();
    RistrettoPoint::multiscalar_mul(&scalars, &points).compress().to_bytes()
}

/// Whether all 32 bytes are zero.
fn all_zero(a: &[u8; 32]) -> (r: bool)
    ensures
        r == is_identity_encoding(a@),
{
    let mut i: usize = 0;
    while i < 32
        invariant
            0 <= i <= 32,
            forall|j: int| 0 <= j < i ==> a@[j] == 0,
        decreases 32 - i,
    {
        if a[i] != 0 {
            return false;
        }
        i = i + 1;
    }
    true
}

/// Copies 32 bytes out of a vector of length 32.
fn to_array(v: &Vec<u8>) -> (r: [u8; 32])
    requires
        v@.len() == 32,
    ensures
        r@ == v@,
{
    let mut a: [u8; 32] = [0u8; 32];
    let mut i: usize = 0;
    while i < 32
        invariant
            0 <= i <= 32,
            v@.len() == 32,
            forall|j: int| 0 <= j < i ==> a@[j] == v@[j],
        decreases 32 - i,
    {
        a[i] = v[i];
        i = i + 1;
    }
    assert(a@ =~= v@);
    a
}

/// A scalar modulo the group order, held by its canonical encoding.
#[derive(Clone, Copy, Debug, PartialEq, Eq)]
pub struct Scalar {
    bytes: [u8; 32],
}

impl View for Scalar {
    type V = Seq<u8>;

    closed spec fn view(&self) -> Seq<u8> {
        self.bytes@
    }
}

impl Scalar {
    #[verifier::type_invariant]
    spec fn wf(&self) -> bool {
        canonical(self.bytes@)
    }

    /// A fresh scalar drawn from a secure random source.
    pub fn random() -> (r: Scalar)
        ensures
            canonical(r@),
    {
        Scalar { bytes: random_scalar_bytes() }
    }

    /// The scalar with the given encoding, if that encoding is canonical.
    pub fn from_bytes(b: [u8; 32]) -> (r: Result<Scalar, LedgerError>)
        ensures
            match r {
                Ok(x) => canonical(b@) && x@ == b@,
                Err(e) => !canonical(b@) && e == LedgerError::MalformedEncoding,
            },
    {
        if is_canonical_bytes(&b) {
            Ok(Scalar { bytes: b })
        } else {
            Err(LedgerError::MalformedEncoding)
        }
    }

    /// The canonical encoding.
    pub fn to_bytes(&self) -> (r: [u8; 32])
        ensures
            r@ == self@,
            canonical(r@),
    {
        proof { use_type_invariant(self); }
        self.bytes
    }

    /// The text form of the scalar.
    pub fn encode(&self) -> (r: String)
        ensures
            r@ == text_of(self@),
            canonical(self@),
    {
        proof { use_type_invariant(self); }
        encode_text(self.bytes.as_slice())
    }

    /// Reads a scalar from its text form; decoding the text of a scalar gives
    /// that scalar back.
    pub fn decode(t: &str) -> (r: Result<Scalar, LedgerError>)
        ensures
            match bytes_of(t@) {
                Some(b) => match r {
                    Ok(x) => canonical(b) && x@ == b,
                    Err(e) => !canonical(b) && e == LedgerError::MalformedEncoding,
                },
                None => r == Err::<Scalar, LedgerError>(LedgerError::MalformedEncoding),
            },
            forall|x: Scalar|
                #[trigger] text_of(x@) == t@ && canonical(x@) ==> r == Ok::<Scalar, LedgerError>(x),
    {
        match decode_text(t) {
            None => Err(LedgerError::MalformedEncoding),
            Some(v) => {
                if v.len() != 32 {
                    return Err(LedgerError::MalformedEncoding);
                }
                let a = to_array(&v);
                let r = Scalar::from_bytes(a);
                assert forall|x: Scalar|
                    #[trigger] text_of(x@) == t@ && canonical(x@) implies r == Ok::<Scalar, LedgerError>(x) by {
                    assert(v@ == x@);
                    let y = r->Ok_0;
                    assert(y.bytes =~= x.bytes);
                }
                r
            },
        }
    }

    /// The scalar whose value is `v`.
    pub fn from_u64(v: u64) -> (r: Scalar)
        ensures
            canonical(r@),
            r@ == enc(v as nat),
            le_value(r@) == v,
    {
        Scalar { bytes: scalar_bytes_of_u64(v) }
    }

    /// The scalar whose value is that of the 32 bytes, reduced modulo the order.
    pub fn from_bytes_mod_order(b: [u8; 32]) -> (r: Scalar)
        ensures
            canonical(r@),
            r@ == enc(le_value(b@) % group_order()),
            le_value(r@) == le_value(b@) % group_order(),
    {
        Scalar { bytes: scalar_reduce_bytes(&b) }
    }

    /// `self + o` modulo the order.
    pub fn plus(&self, o: &Scalar) -> (r: Scalar)
        ensures
            canonical(r@),
            r@ == enc((le_value(self@) + le_value(o@)) % group_order()),
            le_value(r@) == (le_value(self@) + le_value(o@)) % group_order(),
    {
        proof { use_type_invariant(self); use_type_invariant(o); }
        Scalar { bytes: scalar_add_bytes(&self.bytes, &o.bytes) }
    }

    /// `self - o` modulo the order.
    pub fn minus(&self, o: &Scalar) -> (r: Scalar)
        ensures
            canonical(r@),
            r@ == enc(((le_value(self@) - le_value(o@)) % (group_order() as int)) as nat),
            le_value(r@) == (le_value(self@) - le_value(o@)) % (group_order() as int),
    {
        proof { use_type_invariant(self); use_type_invariant(o); }
        Scalar { bytes: scalar_sub_bytes(&self.bytes, &o.bytes) }
    }

    /// `self · o` modulo the order.
    pub fn times(&self, o: &Scalar) -> (r: Scalar)
        ensures
            canonical(r@),
            r@ == enc((le_value(self@) * le_value(o@)) % group_order()),
            le_value(r@) == (le_value(self@) * le_value(o@)) % group_order(),
    {
        proof { use_type_invariant(self); use_type_invariant(o); }
        Scalar { bytes: scalar_mul_bytes(&self.bytes, &o.bytes) }
    }
}

/// An element of the Ristretto group, held by its compressed encoding.
#[derive(Clone, Copy, Debug, PartialEq, Eq)]
pub struct Point {
    bytes: [u8; 32],
}

impl View for Point {
    type V = Seq<u8>;

    closed spec fn view(&self) -> Seq<u8> {
        self.bytes@
    }
}

impl Point {
    #[verifier::type_invariant]
    spec fn wf(&self) -> bool {
        is_point_encoding(self.bytes@)
    }

    /// The Pedersen commitment `value·G + blinding·H`.
    pub fn commit(value: u64, blinding: &Scalar) -> (r: Point)
        ensures
            r@ == commitment_of(value, blinding@),
            canonical(blinding@),
    {
        let b = blinding.to_bytes();
        Point { bytes: commitment_bytes(value, &b) }
    }

    /// The point with the given encoding, if it encodes a group element other
    /// than the identity.
    pub fn from_bytes(b: [u8; 32]) -> (r: Result<Point, LedgerError>)
        ensures
            match r {
                Ok(p) => is_usable_point(b@) && p@ == b@,
                Err(e) => !is_usable_point(b@) && e == LedgerError::MalformedEncoding,
            },
    {
        if decompresses(&b) && !all_zero(&b) {
            Ok(Point { bytes: b })
        } else {
            Err(LedgerError::MalformedEncoding)
        }
    }

    /// Whether this is the identity element.
    pub fn is_identity(&self) -> (r: bool)
        ensures
            r == is_identity_encoding(self@),
    {
        all_zero(&self.bytes)
    }

    /// The compressed encoding.
    pub fn to_bytes(&self) -> (r: [u8; 32])
        ensures
            r@ == self@,
            is_point_encoding(r@),
    {
        proof { use_type_invariant(self); }
        self.bytes
    }

    /// The text form of the point.
    pub fn encode(&self) -> (r: String)
        ensures
            r@ == text_of(self@),
            is_point_encoding(self@),
    {
        proof { use_type_invariant(self); }
        encode_text(self.bytes.as_slice())
    }

    /// Reads a point from its text form, refusing the identity; decoding the
    /// text of any other point gives that point back.
    pub fn decode(t: &str) -> (r: Result<Point, LedgerError>)
        ensures
            match bytes_of(t@) {
                Some(b) => match r {
                    Ok(p) => b.len() == 32 && is_usable_point(b) && p@ == b,
                    Err(e) => !(b.len() == 32 && is_usable_point(b))
                        && e == LedgerError::MalformedEncoding,
                },
                None => r == Err::<Point, LedgerError>(LedgerError::MalformedEncoding),
            },
            forall|p: Point|
                #[trigger] text_of(p@) == t@ && is_usable_point(p@) ==> r == Ok::<Point, LedgerError>(p),
    {
        match decode_text(t) {
            None => Err(LedgerError::MalformedEncoding),
            Some(v) => {
                if v.len() != 32 {
                    return Err(LedgerError::MalformedEncoding);
                }
                let a = to_array(&v);
                let r = Point::from_bytes(a);
                assert forall|p: Point|
                    #[trigger] text_of(p@) == t@ && is_usable_point(p@) implies r == Ok::<Point, LedgerError>(p) by {
                    assert(v@ == p@);
                    let q = r->Ok_0;
                    assert(q.bytes =~= p.bytes);
                }
                r
            },
        }
    }

    /// The point `Σ s_i·P_i`.
    pub(crate) fn weighted_sum(s: &Vec<Scalar>, p: &Vec<Point>) -> (r: Point)
        requires
            s.len() == p.len(),
        ensures
            r@ == weighted_sum_of(s@.map_values(|x: Scalar| x@), p@.map_values(|q: Point| q@)),
    {
        Point { bytes: weighted_sum_bytes(s, p) }
    }

    /// The point `x·G + y·H + z·P`, where `p` is `P`.
    pub fn combine(x: &Scalar, y: &Scalar, z: &Scalar, p: &Point) -> (r: Point)
        ensures
            r@ == combination_of(x@, y@, z@, p@),
            forall|v: u64, b: Seq<u8>, x2: Seq<u8>, y2: Seq<u8>|
                #![trigger commitment_of(v, b), combination_of(x2, y2, enc(0), p@)]
                p@ == commitment_of(v, b) && canonical(b) && canonical(x2) && canonical(y2)
                    && le_value(x2) == (le_value(x@) + le_value(z@) * (v as nat)) % group_order()
                    && le_value(y2) == (le_value(y@) + le_value(z@) * le_value(b)) % group_order()
                    ==> combination_of(x2, y2, enc(0), p@) == r@,
    {
        proof { use_type_invariant(x); use_type_invariant(y); use_type_invariant(z); use_type_invariant(p); }
        Point { bytes: combination_bytes(&x.bytes, &y.bytes, &z.bytes, &p.bytes) }
    }
}

} // verus!
