//! Why a request of the desktop application is refused.
use crate::text::join;
use vstd::prelude::*;
use vstd::string::*;

verus! {

/// The ways in which a request fails.
#[derive(Debug, Clone)]
pub enum TauriError {
    /// A wallet could not be taken over.
    Migration(String),
    /// The wallet reported an error.
    Wallet(String),
    /// The request makes no sense.
    InvalidInput(String),
    /// The wallet is locked.
    WalletLocked,
    /// There is no wallet.
    WalletNotInitialized,
    /// The one-time code is wrong.
    TwoFAFailed,
    /// A file could not be read or written.
    Io(String),
    /// The node reported an error, or does not run.
    NodeError(String),
    /// A torrent could not be read or found.
    Torrent(String),
    /// There is no such thing.
    NotFound(String),
    /// The wallet may not do this.
    Unauthorized(String),
    /// Something is wrong in the application.
    Internal(String),
}

/// A `TauriError` with its texts as character sequences.
#[verifier::ext_equal]
pub enum TauriFault {
    Migration(Seq<char>),
    Wallet(Seq<char>),
    InvalidInput(Seq<char>),
    WalletLocked,
    WalletNotInitialized,
    TwoFAFailed,
    Io(Seq<char>),
    NodeError(Seq<char>),
    Torrent(Seq<char>),
    NotFound(Seq<char>),
    Unauthorized(Seq<char>),
    Internal(Seq<char>),
}

impl View for TauriError {
    type V = TauriFault;

    open spec fn view(&self) -> TauriFault {
        match self {
            TauriError::Migration(m) => TauriFault::Migration(m@),
            TauriError::Wallet(m) => TauriFault::Wallet(m@),
            TauriError::InvalidInput(m) => TauriFault::InvalidInput(m@),
            TauriError::WalletLocked => TauriFault::WalletLocked,
            TauriError::WalletNotInitialized => TauriFault::WalletNotInitialized,
            TauriError::TwoFAFailed => TauriFault::TwoFAFailed,
            TauriError::Io(m) => TauriFault::Io(m@),
            TauriError::NodeError(m) => TauriFault::NodeError(m@),
            TauriError::Torrent(m) => TauriFault::Torrent(m@),
            TauriError::NotFound(m) => TauriFault::NotFound(m@),
            TauriError::Unauthorized(m) => TauriFault::Unauthorized(m@),
            TauriError::Internal(m) => TauriFault::Internal(m@),
        }
    }
}

/// The text that describes a fault.
pub open spec fn fault_text(f: TauriFault) -> Seq<char> {
    match f {
        TauriFault::Migration(m) => "Wallet migration error: "@ + m,
        TauriFault::Wallet(m) => "Wallet error: "@ + m,
        TauriFault::InvalidInput(m) => "Invalid input: "@ + m,
        TauriFault::WalletLocked => "Wallet is locked"@,
        TauriFault::WalletNotInitialized => "Wallet not initialized"@,
        TauriFault::TwoFAFailed => "2FA verification failed"@,
        TauriFault::Io(m) => "IO error: "@ + m,
        TauriFault::NodeError(m) => "Node error: "@ + m,
        TauriFault::Torrent(m) => "Torrent error: "@ + m,
        TauriFault::NotFound(m) => "Not found: "@ + m,
        TauriFault::Unauthorized(m) => "Unauthorized: "@ + m,
        TauriFault::Internal(m) => "Internal error: "@ + m,
    }
}

impl TauriError {
    /// The text that describes the error.
    pub fn message(&self) -> (r: String)
        ensures
            r@ == fault_text(self@),
    {
        match self {
            TauriError::Migration(m) => join("Wallet migration error: ", m.as_str()),
            TauriError::Wallet(m) => join("Wallet error: ", m.as_str()),
            TauriError::InvalidInput(m) => join("Invalid input: ", m.as_str()),
            TauriError::WalletLocked => "Wallet is locked".to_owned(),
            TauriError::WalletNotInitialized => "Wallet not initialized".to_owned(),
            TauriError::TwoFAFailed => "2FA verification failed".to_owned(),
            TauriError::Io(m) => join("IO error: ", m.as_str()),
            TauriError::NodeError(m) => join("Node error: ", m.as_str()),
            TauriError::Torrent(m) => join("Torrent error: ", m.as_str()),
            TauriError::NotFound(m) => join("Not found: ", m.as_str()),
            TauriError::Unauthorized(m) => join("Unauthorized: ", m.as_str()),
            TauriError::Internal(m) => join("Internal error: ", m.as_str()),
        }
    }
}

pub(crate) fn bad_input(m: &str) -> (r: TauriError)
    ensures
        r@ == TauriFault::InvalidInput(m@),
{
    TauriError::InvalidInput(m.to_owned())
}

pub(crate) fn bad_input_about(before: &str, what: &str) -> (r: TauriError)
    ensures
        r@ == TauriFault::InvalidInput(before@ + what@),
{
    TauriError::InvalidInput(join(before, what))
}

pub(crate) fn node_error(m: &str) -> (r: TauriError)
    ensures
        r@ == TauriFault::NodeError(m@),
{
    TauriError::NodeError(m.to_owned())
}

/// The node does not run.
pub(crate) fn node_not_running() -> (r: TauriError)
    ensures
        r@ == TauriFault::NodeError("Node not running"@),
{
    node_error("Node not running")
}

} // verus!
