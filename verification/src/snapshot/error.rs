//! Why a snapshot could not be made or read.
use crate::text::join;
use vstd::prelude::*;
use vstd::string::*;

verus! {

/// The ways in which making or reading a snapshot fails.
#[derive(Debug, Clone)]
pub enum SnapshotError {
    /// The chainstate database reported an error.
    LevelDb(String),
    /// An output record is malformed.
    BlockParse(String),
    /// A file could not be read or written.
    Io(String),
    /// A snapshot file is malformed, or a snapshot cannot be written.
    Serialization(String),
    /// An output is not valid.
    InvalidUtxo(String),
    /// The entries do not have the recorded digest.
    IntegrityFailed { expected: String, actual: String },
    /// There is no such data directory.
    DataDirNotFound(String),
    /// The database holds no outputs.
    NoUtxosFound,
}

/// A `SnapshotError` with its texts as character sequences.
#[verifier::ext_equal]
pub enum SnapshotFault {
    LevelDb(Seq<char>),
    BlockParse(Seq<char>),
    Io(Seq<char>),
    Serialization(Seq<char>),
    InvalidUtxo(Seq<char>),
    IntegrityFailed { expected: Seq<char>, actual: Seq<char> },
    DataDirNotFound(Seq<char>),
    NoUtxosFound,
}

impl View for SnapshotError {
    type V = SnapshotFault;

    open spec fn view(&self) -> SnapshotFault {
        match self {
            SnapshotError::LevelDb(m) => SnapshotFault::LevelDb(m@),
            SnapshotError::BlockParse(m) => SnapshotFault::BlockParse(m@),
            SnapshotError::Io(m) => SnapshotFault::Io(m@),
            SnapshotError::Serialization(m) => SnapshotFault::Serialization(m@),
            SnapshotError::InvalidUtxo(m) => SnapshotFault::InvalidUtxo(m@),
            SnapshotError::IntegrityFailed { expected, actual } => SnapshotFault::IntegrityFailed {
                expected: expected@,
                actual: actual@,
            },
            SnapshotError::DataDirNotFound(m) => SnapshotFault::DataDirNotFound(m@),
            SnapshotError::NoUtxosFound => SnapshotFault::NoUtxosFound,
        }
    }
}

/// The text that describes a fault.
pub open spec fn fault_text(f: SnapshotFault) -> Seq<char> {
    match f {
        SnapshotFault::LevelDb(m) => "LevelDB error: "@ + m,
        SnapshotFault::BlockParse(m) => "Block parse error: "@ + m,
        SnapshotFault::Io(m) => "IO error: "@ + m,
        SnapshotFault::Serialization(m) => "Serialization error: "@ + m,
        SnapshotFault::InvalidUtxo(m) => "Invalid UTXO data: "@ + m,
        SnapshotFault::IntegrityFailed { expected, actual } =>
            "Snapshot integrity check failed: expected "@ + expected + ", got "@ + actual,
        SnapshotFault::DataDirNotFound(m) => "Blockchain data directory not found: "@ + m,
        SnapshotFault::NoUtxosFound => "No UTXOs found — is the blockchain fully synced?"@,
    }
}

impl SnapshotError {
    /// The text that describes the error.
    pub fn message(&self) -> (r: String)
        ensures
            r@ == fault_text(self@),
    {
        match self {
            SnapshotError::LevelDb(m) => join("LevelDB error: ", m.as_str()),
            SnapshotError::BlockParse(m) => join("Block parse error: ", m.as_str()),
            SnapshotError::Io(m) => join("IO error: ", m.as_str()),
            SnapshotError::Serialization(m) => join("Serialization error: ", m.as_str()),
            SnapshotError::InvalidUtxo(m) => join("Invalid UTXO data: ", m.as_str()),
            SnapshotError::IntegrityFailed { expected, actual } => {
                let mut r: String = "Snapshot integrity check failed: expected ".to_owned();
                r.append(expected.as_str());
                r.append(", got ");
                r.append(actual.as_str());
                r
            },
            SnapshotError::DataDirNotFound(m) => join(
                "Blockchain data directory not found: ",
                m.as_str(),
            ),
            SnapshotError::NoUtxosFound => {
                "No UTXOs found — is the blockchain fully synced?".to_owned()
            },
        }
    }
}

} // verus!
