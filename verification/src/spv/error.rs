//! Why a proof, a header or a filter is not accepted.
use crate::text::decimal;
use crate::text::join;
use crate::text::push_decimal;
use vstd::prelude::*;
use vstd::string::*;

verus! {

/// The ways in which light-client verification fails.
#[derive(Debug, Clone)]
pub enum SpvError {
    /// An inclusion proof does not lead to the expected root.
    InvalidMerkleProof(String),
    /// A header breaks a rule.
    HeaderValidation(String),
    /// A header is not one above its parent.
    HeightMismatch { expected: u32, got: u32 },
    /// The parent of a header is not stored.
    UnknownParent(String),
    /// A filter cannot be read.
    FilterDecode(String),
    /// A value cannot be read or written.
    Serialization(String),
    /// A file could not be read or written.
    Io(String),
}

/// An `SpvError` with its texts as character sequences.
#[verifier::ext_equal]
pub enum SpvFault {
    InvalidMerkleProof(Seq<char>),
    HeaderValidation(Seq<char>),
    HeightMismatch { expected: u32, got: u32 },
    UnknownParent(Seq<char>),
    FilterDecode(Seq<char>),
    Serialization(Seq<char>),
    Io(Seq<char>),
}

impl View for SpvError {
    type V = SpvFault;

    open spec fn view(&self) -> SpvFault {
        match self {
            SpvError::InvalidMerkleProof(m) => SpvFault::InvalidMerkleProof(m@),
            SpvError::HeaderValidation(m) => SpvFault::HeaderValidation(m@),
            SpvError::HeightMismatch { expected, got } => SpvFault::HeightMismatch {
                expected: *expected,
                got: *got,
            },
            SpvError::UnknownParent(m) => SpvFault::UnknownParent(m@),
            SpvError::FilterDecode(m) => SpvFault::FilterDecode(m@),
            SpvError::Serialization(m) => SpvFault::Serialization(m@),
            SpvError::Io(m) => SpvFault::Io(m@),
        }
    }
}

/// The text that describes a fault.
pub open spec fn fault_text(f: SpvFault) -> Seq<char> {
    match f {
        SpvFault::InvalidMerkleProof(m) => "Invalid Merkle proof: "@ + m,
        SpvFault::HeaderValidation(m) => "Block header validation failed: "@ + m,
        SpvFault::HeightMismatch { expected, got } => "Chain height mismatch: expected "@
            + decimal(expected as nat) + ", got "@ + decimal(got as nat),
        SpvFault::UnknownParent(m) => "Unknown parent block: "@ + m,
        SpvFault::FilterDecode(m) => "Filter decode error: "@ + m,
        SpvFault::Serialization(m) => "Serialization error: "@ + m,
        SpvFault::Io(m) => "IO error: "@ + m,
    }
}

impl SpvError {
    /// The text that describes the error.
    pub fn message(&self) -> (r: String)
        ensures
            r@ == fault_text(self@),
    {
        match self {
            SpvError::InvalidMerkleProof(m) => join("Invalid Merkle proof: ", m.as_str()),
            SpvError::HeaderValidation(m) => join("Block header validation failed: ", m.as_str()),
            SpvError::HeightMismatch { expected, got } => {
                let mut r: String = "Chain height mismatch: expected ".to_owned();
                push_decimal(&mut r, *expected as u64);
                r.append(", got ");
                push_decimal(&mut r, *got as u64);
                r
            },
            SpvError::UnknownParent(m) => join("Unknown parent block: ", m.as_str()),
            SpvError::FilterDecode(m) => join("Filter decode error: ", m.as_str()),
            SpvError::Serialization(m) => join("Serialization error: ", m.as_str()),
            SpvError::Io(m) => join("IO error: ", m.as_str()),
        }
    }
}

} // verus!
