//! Confidential credits: Pedersen commitments to 64-bit values, range
//! proofs on the committed values, and proofs that one committed value is
//! the sum of two others; and a small keyed store of messages.

pub mod algebra;
pub mod balance;
pub mod credit;
pub mod error;
pub mod messages;
pub mod range;
