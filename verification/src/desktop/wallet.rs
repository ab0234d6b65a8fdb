//! Requests about the wallet.
use crate::desktop::error::bad_input;
use crate::desktop::error::bad_input_about;
use crate::desktop::error::TauriError;
use crate::desktop::error::TauriFault;
use crate::desktop::swap::blank;
use crate::desktop::swap::is_blank;
use crate::encoding::base64_bytes;
use crate::encoding::base64_decode;
use crate::encoding::base64_error_text;
use crate::encoding::law_base64_reads_back;
use crate::text::same_text;
use crate::torrent::incentive::total;
use crate::torrent::metainfo::text_option;
use vstd::prelude::*;
use vstd::string::*;
use vstd::utf8::encode_utf8;

verus! {

/// The shortest passphrase of a new wallet, in bytes.
pub const MIN_PASSPHRASE: usize = 8;

/// The version of an unlocked wallet.
pub const WALLET_VERSION: u32 = 2;

/// What is told of the wallet.
#[derive(Debug, Clone)]
pub struct WalletInfo {
    /// Whether it is unlocked.
    pub is_unlocked: bool,
    /// Whether it asks for a one-time code.
    pub has_2fa: bool,
    /// How many addresses it has.
    pub address_count: usize,
    /// Its first address.
    pub default_address: Option<String>,
    /// Its version.
    pub wallet_version: u32,
}

/// What an unlocked wallet tells of itself.
#[derive(Debug, Clone)]
pub struct WalletFacts {
    pub has_2fa: bool,
    pub address_count: usize,
    pub default_address: Option<String>,
}

/// Refuses a passphrase that is too short.
pub fn check_passphrase(passphrase: &str) -> (r: Result<(), TauriError>)
    ensures
        if encode_utf8(passphrase@).len() < MIN_PASSPHRASE {
            r matches Err(e) && e@ == TauriFault::InvalidInput(
                "Passphrase must be at least 8 characters"@,
            )
        } else {
            r is Ok
        },
{
    if passphrase.as_bytes().len() < MIN_PASSPHRASE {
        return Err(bad_input("Passphrase must be at least 8 characters"));
    }
    Ok(())
}

/// What is told of the wallet, which may be locked.
pub fn wallet_info(wallet: Option<&WalletFacts>) -> (r: WalletInfo)
    ensures
        match wallet {
            Some(w) => {
                &&& r.is_unlocked
                &&& r.has_2fa == w.has_2fa
                &&& r.address_count == w.address_count
                &&& text_option(r.default_address) == text_option(w.default_address)
                &&& r.wallet_version == WALLET_VERSION
            },
            None => {
                &&& !r.is_unlocked
                &&& !r.has_2fa
                &&& r.address_count == 0
                &&& r.default_address is None
                &&& r.wallet_version == 0
            },
        },
{
    match wallet {
        Some(w) => {
            let default_address: Option<String> = match &w.default_address {
                Some(a) => Some(a.clone()),
                None => None,
            };
            WalletInfo {
                is_unlocked: true,
                has_2fa: w.has_2fa,
                address_count: w.address_count,
                default_address,
                wallet_version: WALLET_VERSION,
            }
        },
        None => WalletInfo {
            is_unlocked: false,
            has_2fa: false,
            address_count: 0,
            default_address: None,
            wallet_version: 0,
        },
    }
}

/// What is told of a wallet that was taken over.
#[derive(Debug, Clone)]
pub struct ImportResult {
    /// How many keys were found.
    pub keys_found: usize,
    /// The addresses.
    pub addresses: Vec<String>,
    /// Whether the old wallet was encrypted.
    pub had_encryption: bool,
    /// Whether the old wallet asked for a one-time code.
    pub had_2fa: bool,
    /// What can be claimed for the addresses.
    pub claimable_balance: u64,
}

/// Reads the file of an old wallet from its base64 text. The new wallet must have a passphrase.
pub fn read_wallet_file(wallet_dat_base64: &str, new_wallet_passphrase: &str) -> (r: Result<
    Vec<u8>,
    TauriError,
>)
    ensures
        ({
            let text = encode_utf8(wallet_dat_base64@);
            match base64_bytes(text) {
                None => r matches Err(e) && e@ == TauriFault::InvalidInput(
                    "Invalid base64: "@ + base64_error_text(text),
                ),
                Some(b) => if new_wallet_passphrase@.len() == 0 {
                    r matches Err(e) && e@ == TauriFault::InvalidInput(
                        "A new wallet passphrase is required"@,
                    )
                } else {
                    r matches Ok(v) && v@ == b
                },
            }
        }),
{
    let bytes: Vec<u8> = match base64_decode(wallet_dat_base64.as_bytes()) {
        Ok(b) => b,
        Err(t) => {
            return Err(bad_input_about("Invalid base64: ", t.as_str()));
        },
    };
    proof {
        law_base64_reads_back(bytes@);
    }
    if new_wallet_passphrase.unicode_len() == 0 {
        return Err(bad_input("A new wallet passphrase is required"));
    }
    Ok(bytes)
}

/// What is told of a wallet that was taken over. A wallet without keys is not taken over.
pub fn import_result(
    keys_found: usize,
    addresses: Vec<String>,
    had_encryption: bool,
    had_2fa: bool,
    claimable_balance: u64,
) -> (r: Result<ImportResult, TauriError>)
    ensures
        if keys_found == 0 {
            r matches Err(e) && e@ == TauriFault::Migration("No keys found in wallet.dat"@)
        } else {
            r == Ok::<ImportResult, TauriError>(
                ImportResult { keys_found, addresses, had_encryption, had_2fa, claimable_balance },
            )
        },
{
    if keys_found == 0 {
        return Err(TauriError::Migration("No keys found in wallet.dat".to_owned()));
    }
    Ok(ImportResult { keys_found, addresses, had_encryption, had_2fa, claimable_balance })
}

/// What is told of an address.
#[derive(Debug, Clone)]
pub struct AddressInfo {
    /// The address.
    pub address: String,
    /// What the user calls it.
    pub label: String,
    /// What it is worth, in smallest units.
    pub balance: u64,
    /// Whether it comes from an old wallet.
    pub is_legacy_import: bool,
}

/// What is told of an address that was just made: nothing is on it yet.
pub fn new_address_info(address: &str, label: Option<&str>) -> (r: AddressInfo)
    ensures
        r.address@ == address@,
        r.label@ == (match label {
            Some(l) => l@,
            None => "New Address"@,
        }),
        r.balance == 0,
        !r.is_legacy_import,
{
    let name: String = match label {
        Some(l) => l.to_owned(),
        None => "New Address".to_owned(),
    };
    AddressInfo { address: address.to_owned(), label: name, balance: 0, is_legacy_import: false }
}

/// What an address is worth: the sum of its outputs where the chain is at hand, else what the
/// wallet remembers.
pub fn address_info(
    address: &str,
    label: &str,
    remembered: u64,
    is_legacy_import: bool,
    outputs: Option<&Vec<u64>>,
) -> (r: AddressInfo)
    requires
        outputs is Some ==> total(outputs->0@) <= u64::MAX,
    ensures
        r.address@ == address@,
        r.label@ == label@,
        r.balance == (match outputs {
            Some(v) => total(v@),
            None => remembered as nat,
        }),
        r.is_legacy_import == is_legacy_import,
{
    let balance: u64 = match outputs {
        Some(v) => sum_values(v),
        None => remembered,
    };
    AddressInfo {
        address: address.to_owned(),
        label: label.to_owned(),
        balance,
        is_legacy_import,
    }
}

proof fn lemma_total_prefix(s: Seq<u64>, n: int)
    requires
        0 <= n <= s.len(),
    ensures
        total(s.take(n)) <= total(s),
    decreases s.len() - n,
{
    if n < s.len() {
        lemma_total_prefix(s, n + 1);
        assert(s.take(n + 1).drop_last() =~= s.take(n));
    } else {
        assert(s.take(n) =~= s);
    }
}

/// The sum of values.
pub(crate) fn sum_values(v: &Vec<u64>) -> (r: u64)
    requires
        total(v@) <= u64::MAX,
    ensures
        r == total(v@),
{
    let mut sum: u64 = 0;
    let mut i: usize = 0;
    assert(v@.take(0) =~= Seq::empty());
    while i < v.len()
        invariant
            i <= v@.len(),
            sum == total(v@.take(i as int)),
            total(v@) <= u64::MAX,
        decreases v@.len() - i,
    {
        proof {
            lemma_total_prefix(v@, i + 1);
            assert(v@.take(i + 1).drop_last() =~= v@.take(i as int));
        }
        sum = sum + v[i];
        i = i + 1;
    }
    assert(v@.take(i as int) =~= v@);
    sum
}

/// What is told when one-time codes were switched on.
#[derive(Debug, Clone)]
pub struct Enable2FAResult {
    pub uri: String,
    pub secret: String,
    pub qr_data: String,
}

/// What is told when one-time codes were switched on: the address of the secret is also what is
/// drawn.
pub fn enabled_2fa(uri: &str, secret: &str) -> (r: Enable2FAResult)
    ensures
        r.uri@ == uri@,
        r.secret@ == secret@,
        r.qr_data@ == uri@,
{
    Enable2FAResult { uri: uri.to_owned(), secret: secret.to_owned(), qr_data: uri.to_owned() }
}

/// One-time codes are switched off only with a code that is right.
pub fn check_disable_2fa(code_valid: bool) -> (r: Result<(), TauriError>)
    ensures
        if code_valid {
            r is Ok
        } else {
            r matches Err(e) && e@ == TauriFault::TwoFAFailed
        },
{
    if !code_valid {
        return Err(TauriError::TwoFAFailed);
    }
    Ok(())
}

/// The rate at which a payment is made: what is recommended, and at least one.
pub fn payment_fee_rate(recommended: u64) -> (r: u64)
    ensures
        r == (if recommended > 1 {
            recommended
        } else {
            1
        }),
{
    if recommended > 1 {
        recommended
    } else {
        1
    }
}

/// Refuses a payment on the other chain to nobody, or of nothing.
pub fn check_send_btc(to_address: &str, amount_satoshis: u64) -> (r: Result<(), TauriError>)
    ensures
        if blank(to_address@) {
            r matches Err(e) && e@ == TauriFault::InvalidInput("Recipient address is required"@)
        } else if amount_satoshis == 0 {
            r matches Err(e) && e@ == TauriFault::InvalidInput("Amount must be non-zero"@)
        } else {
            r is Ok
        },
{
    if is_blank(to_address) {
        return Err(bad_input("Recipient address is required"));
    }
    if amount_satoshis == 0 {
        return Err(bad_input("Amount must be non-zero"));
    }
    Ok(())
}

/// What is told of the wallet for the other chain.
#[derive(Debug, Clone)]
pub struct BtcStatus {
    pub initialized: bool,
    pub balance_satoshis: u64,
    pub address: Option<String>,
    pub best_height: u32,
    pub synced: bool,
}

/// What is told where there is no wallet for the other chain.
pub fn no_btc_wallet() -> (r: BtcStatus)
    ensures
        !r.initialized,
        r.balance_satoshis == 0,
        r.address is None,
        r.best_height == 0,
        !r.synced,
{
    BtcStatus {
        initialized: false,
        balance_satoshis: 0,
        address: None,
        best_height: 0,
        synced: false,
    }
}

/// How the key for swaps is brought up to date.
#[derive(Debug, Clone, Copy, PartialEq, Eq, Structural)]
pub enum SyncAction {
    /// The key is the same: only the time for which it is unlocked is renewed.
    Refresh,
    /// The swaps of the key are restored, and the key is set. Where that fails the wallet is
    /// locked.
    Restore,
}

/// Decides how the key for swaps is brought up to date. `wif` and `address` are those of the
/// wallet, and `current` is the key in use.
pub fn plan_sync(wif: Option<&str>, address: Option<&str>, current: Option<&str>) -> (r: Result<
    SyncAction,
    TauriError,
>)
    ensures
        if wif is None || address is None {
            r matches Err(e) && e@ == TauriFault::WalletLocked
        } else {
            r == Ok::<SyncAction, TauriError>(
                if current is Some && current->0@ == wif->0@ {
                    SyncAction::Refresh
                } else {
                    SyncAction::Restore
                },
            )
        },
{
    match wif {
        Some(w) => {
            if address.is_none() {
                return Err(TauriError::WalletLocked);
            }
            match current {
                Some(c) => {
                    if same_text(c, w) {
                        return Ok(SyncAction::Refresh);
                    }
                },
                None => {},
            }
            Ok(SyncAction::Restore)
        },
        None => Err(TauriError::WalletLocked),
    }
}

} // verus!
