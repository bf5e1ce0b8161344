use vstd::prelude::*;

verus! {

/// The ways in which an operation on credits and proofs can fail.
#[derive(Clone, Copy, Debug, PartialEq, Eq, Structural)]
pub enum LedgerError {
    /// A textual scalar or point does not decode to a valid value.
    MalformedEncoding,
    /// An opening does not match the commitment it is paired with.
    InconsistentSecret,
    /// The values handed to the sum-balance prover do not balance.
    UnbalancedInput,
    /// A value does not fit the width covered by the range proof.
    ValueOutOfDomain,
    /// A range proof's encoding does not have the shape of a range proof.
    MalformedProof,
}

} // verus!
