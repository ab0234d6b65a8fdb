//! Why stored chain data could not be read or changed.
use crate::text::join;
use vstd::prelude::*;
use vstd::string::*;

verus! {

/// The ways in which the store fails.
#[derive(Debug, Clone)]
pub enum StoreError {
    /// The database reported an error.
    Redb(String),
    /// The database could not be opened.
    RedbDatabase(String),
    /// A transaction could not be begun.
    RedbTransaction(String),
    /// A table could not be opened.
    RedbTable(String),
    /// A transaction could not be committed.
    RedbCommit(String),
    /// The storage could not be read or written.
    RedbStorage(String),
    /// A record could not be written or read.
    Serde(String),
    /// There is no such block.
    BlockNotFound(String),
    /// What is stored contradicts itself.
    Corrupted(String),
}

/// A `StoreError` with its texts as character sequences.
#[verifier::ext_equal]
pub enum StoreFault {
    Redb(Seq<char>),
    RedbDatabase(Seq<char>),
    RedbTransaction(Seq<char>),
    RedbTable(Seq<char>),
    RedbCommit(Seq<char>),
    RedbStorage(Seq<char>),
    Serde(Seq<char>),
    BlockNotFound(Seq<char>),
    Corrupted(Seq<char>),
}

impl View for StoreError {
    type V = StoreFault;

    open spec fn view(&self) -> StoreFault {
        match self {
            StoreError::Redb(m) => StoreFault::Redb(m@),
            StoreError::RedbDatabase(m) => StoreFault::RedbDatabase(m@),
            StoreError::RedbTransaction(m) => StoreFault::RedbTransaction(m@),
            StoreError::RedbTable(m) => StoreFault::RedbTable(m@),
            StoreError::RedbCommit(m) => StoreFault::RedbCommit(m@),
            StoreError::RedbStorage(m) => StoreFault::RedbStorage(m@),
            StoreError::Serde(m) => StoreFault::Serde(m@),
            StoreError::BlockNotFound(m) => StoreFault::BlockNotFound(m@),
            StoreError::Corrupted(m) => StoreFault::Corrupted(m@),
        }
    }
}

/// The text that describes a fault.
pub open spec fn fault_text(f: StoreFault) -> Seq<char> {
    match f {
        StoreFault::Redb(m) => "redb error: "@ + m,
        StoreFault::RedbDatabase(m) => "redb database error: "@ + m,
        StoreFault::RedbTransaction(m) => "redb transaction error: "@ + m,
        StoreFault::RedbTable(m) => "redb table error: "@ + m,
        StoreFault::RedbCommit(m) => "redb commit error: "@ + m,
        StoreFault::RedbStorage(m) => "redb storage error: "@ + m,
        StoreFault::Serde(m) => "serialization error: "@ + m,
        StoreFault::BlockNotFound(m) => "block not found: "@ + m,
        StoreFault::Corrupted(m) => "store is corrupted: "@ + m,
    }
}

impl StoreError {
    /// The text that describes the error.
    pub fn message(&self) -> (r: String)
        ensures
            r@ == fault_text(self@),
    {
        match self {
            StoreError::Redb(m) => join("redb error: ", m.as_str()),
            StoreError::RedbDatabase(m) => join("redb database error: ", m.as_str()),
            StoreError::RedbTransaction(m) => join("redb transaction error: ", m.as_str()),
            StoreError::RedbTable(m) => join("redb table error: ", m.as_str()),
            StoreError::RedbCommit(m) => join("redb commit error: ", m.as_str()),
            StoreError::RedbStorage(m) => join("redb storage error: ", m.as_str()),
            StoreError::Serde(m) => join("serialization error: ", m.as_str()),
            StoreError::BlockNotFound(m) => join("block not found: ", m.as_str()),
            StoreError::Corrupted(m) => join("store is corrupted: ", m.as_str()),
        }
    }
}

} // verus!
