//! Errors related to proving and verifying proofs.

use vstd::prelude::*;

verus! {

/// Represents an error in proof creation, verification, or parsing.
#[derive(Clone, Debug, PartialEq, Eq)]
pub enum ProofError {
    /// `n` must be a power of `k`.
    FoldingError,
    /// Proof verification failed.
    VerificationError,
    /// Proof data could not be parsed.
    FormatError,
    /// Wrong number of blinding factors supplied.
    WrongNumBlindingFactors,
    /// Invalid bitsize, must have `n = 8, 16, 32, 64`.
    InvalidBitsize,
    /// Invalid aggregation size, `m` must be a power of 2.
    InvalidAggregation,
    /// Invalid generators size, too few generators for the proof.
    InvalidGeneratorsLength,
    /// Internal error during proof creation.
    ProvingError(MPCError),
}

/// Represents an error in a multi-party proof aggregation.
#[derive(Clone, Debug, PartialEq, Eq)]
pub enum MPCError {
    /// The dealer gave a malicious challenge value.
    MaliciousDealer,
    /// Invalid bitsize, must have `n = 8, 16, 32, 64`.
    InvalidBitsize,
    /// Invalid aggregation size, `m` must be a power of 2.
    InvalidAggregation,
    /// Invalid generators size, too few generators for the proof.
    InvalidGeneratorsLength,
    /// Wrong number of value commitments.
    WrongNumBitCommitments,
    /// Wrong number of value commitments.
    WrongNumPolyCommitments,
    /// Wrong number of proof shares.
    WrongNumProofShares,
    /// Malformed proof shares from the listed parties.
    MalformedProofShares { bad_shares: Vec<usize> },
}

/// Represents an error during the proving or verifying of a constraint system.
#[derive(Copy, Clone, Debug, PartialEq, Eq, Structural)]
pub enum R1CSError {
    /// The shuffle size must be more than 1.
    InputLengthError,
    /// Invalid generators size, too few generators for the proof.
    InvalidGeneratorsLength,
    /// The proof did not verify correctly.
    VerificationError,
    /// A variable does not have a value assignment.
    MissingAssignment,
}

impl vstd::std_specs::convert::FromSpecImpl<MPCError> for ProofError {
    open spec fn obeys_from_spec() -> bool {
        true
    }

    /// The three errors that both enums have keep their name; every other one
    /// is wrapped.
    open spec fn from_spec(e: MPCError) -> ProofError {
        match e {
            MPCError::InvalidBitsize => ProofError::InvalidBitsize,
            MPCError::InvalidAggregation => ProofError::InvalidAggregation,
            MPCError::InvalidGeneratorsLength => ProofError::InvalidGeneratorsLength,
            _ => ProofError::ProvingError(e),
        }
    }
}

impl From<MPCError> for ProofError {
    fn from(e: MPCError) -> (r: ProofError) {
        match e {
            MPCError::InvalidBitsize => ProofError::InvalidBitsize,
            MPCError::InvalidAggregation => ProofError::InvalidAggregation,
            MPCError::InvalidGeneratorsLength => ProofError::InvalidGeneratorsLength,
            _ => ProofError::ProvingError(e),
        }
    }
}

/// No two errors of an aggregation become the same error of a proof: those
/// that both have keep their name, every other one is wrapped.
pub proof fn law_errors_kept(e: MPCError, f: MPCError)
    ensures
        ({
            let (p, r) = (
                <ProofError as vstd::std_specs::convert::FromSpec<MPCError>>::from_spec(e),
                <ProofError as vstd::std_specs::convert::FromSpec<MPCError>>::from_spec(f),
            );
            &&& p == r ==> e == f
            &&& p is InvalidBitsize <==> e is InvalidBitsize
            &&& p is InvalidAggregation <==> e is InvalidAggregation
            &&& p is InvalidGeneratorsLength <==> e is InvalidGeneratorsLength
            &&& p matches ProofError::ProvingError(inner) ==> inner == e
            &&& p is InvalidBitsize || p is InvalidAggregation || p is InvalidGeneratorsLength || p is ProvingError
        }),
{
}

} // verus!
