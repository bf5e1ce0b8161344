//! Confidential credits: a public commitment to a value, and its private opening.

use vstd::prelude::*;
use crate::algebra::{commitment_of, Point, Scalar};
use crate::error::LedgerError;

verus! {

/// The private opening of a commitment: the value and its blinding scalar.
#[derive(Clone, Copy, Debug, PartialEq, Eq)]
pub struct OwnerSecret {
    pub credit_value: u64,
    pub secret_blinding: Scalar,
}

/// The public commitment `credit_value·G + secret_blinding·H`.
#[derive(Clone, Copy, Debug, PartialEq, Eq)]
pub struct ConfidentialCredit {
    pub point: Point,
}

/// Whether `credit` is the commitment that `secret` opens.
pub open spec fn opens(secret: OwnerSecret, credit: ConfidentialCredit) -> bool {
    credit.point@ == commitment_of(secret.credit_value, secret.secret_blinding@)
}

impl ConfidentialCredit {
    /// The commitment point.
    pub fn get_point(&self) -> (r: Point)
        ensures
            r == self.point,
    {
        self.point
    }
}

/// Commits to `value` under a freshly drawn blinding scalar, and returns the
/// commitment together with its opening.
pub fn make_credit(value: u64) -> (r: (ConfidentialCredit, OwnerSecret))
    ensures
        r.1.credit_value == value,
        opens(r.1, r.0),
{
    let blinding = Scalar::random();
    let point = Point::commit(value, &blinding);
    (ConfidentialCredit { point }, OwnerSecret { credit_value: value, secret_blinding: blinding })
}

/// Recomputes the commitment from the opening and compares it with `credit`.
pub fn open_and_check(secret: &OwnerSecret, credit: &ConfidentialCredit) -> (r: bool)
    ensures
        r == opens(*secret, *credit),
{
    let commitment = Point::commit(secret.credit_value, &secret.secret_blinding);
    let expected = commitment.to_bytes();
    let actual = credit.point.to_bytes();
    let mut i: usize = 0;
    while i < 32
        invariant
            0 <= i <= 32,
            expected@ == commitment@,
            actual@ == credit.point@,
            commitment@ == commitment_of(secret.credit_value, secret.secret_blinding@),
            expected@.len() == 32,
            actual@.len() == 32,
            forall|j: int| 0 <= j < i ==> expected@[j] == actual@[j],
        decreases 32 - i,
    {
        if expected[i] != actual[i] {
            assert(expected@[i as int] != actual@[i as int]);
            return false;
        }
        i = i + 1;
    }
    assert(expected@ =~= actual@);
    true
}

/// Fails with `InconsistentSecret` when `secret` does not open `credit`, so
/// that no proof material is made from a mismatched pair.
pub fn check_opening(secret: &OwnerSecret, credit: &ConfidentialCredit) -> (r: Result<(), LedgerError>)
    ensures
        r is Ok <==> opens(*secret, *credit),
        r is Err ==> r == Err::<(), LedgerError>(LedgerError::InconsistentSecret),
{
    if open_and_check(secret, credit) {
        Ok(())
    } else {
        Err(LedgerError::InconsistentSecret)
    }
}

} // verus!
