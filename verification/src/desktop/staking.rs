//! Requests about staking.
use crate::desktop::error::node_error;
use crate::desktop::error::node_not_running;
use crate::desktop::error::TauriError;
use crate::desktop::error::TauriFault;
use crate::desktop::wallet::sum_values;
use crate::torrent::incentive::total;
use crate::torrent::metainfo::text_option;
use vstd::prelude::*;
use vstd::string::*;

verus! {

/// What is told of staking.
#[derive(Debug, Clone)]
pub struct StakingStatusResult {
    /// Whether it goes on.
    pub enabled: bool,
    /// The address that stakes.
    pub staking_address: Option<String>,
    /// How many outputs stake.
    pub eligible_utxos: usize,
    /// What they are worth, in smallest units.
    pub total_staking_satoshis: u64,
    /// What they are expected to bring in a day.
    pub expected_reward_per_day: u64,
    /// When the last block came.
    pub last_stake_time: Option<u64>,
    /// How many blocks came.
    pub blocks_staked: u64,
}

/// Why staking does not start, where it does not.
pub open spec fn start_fault(address: Seq<char>, running: bool, unlocked: bool) -> Option<
    TauriFault,
> {
    if address.len() == 0 {
        Some(TauriFault::NodeError("Staking address is required"@))
    } else if !running {
        Some(TauriFault::NodeError("Node not running"@))
    } else if !unlocked {
        Some(TauriFault::WalletLocked)
    } else {
        None
    }
}

/// Decides whether staking can start.
pub fn check_start_staking(address: &str, node_running: bool, wallet_unlocked: bool) -> (r: Result<
    (),
    TauriError,
>)
    ensures
        match start_fault(address@, node_running, wallet_unlocked) {
            Some(f) => r matches Err(e) && e@ == f,
            None => r is Ok,
        },
{
    if address.unicode_len() == 0 {
        return Err(node_error("Staking address is required"));
    }
    if !node_running {
        return Err(node_not_running());
    }
    if !wallet_unlocked {
        return Err(TauriError::WalletLocked);
    }
    Ok(())
}

/// What is told of staking: of the outputs at the address while it goes on, and nothing otherwise.
/// `daily_reward` is what all outputs together are expected to bring in a day.
pub fn staking_status(
    enabled: bool,
    address: Option<&str>,
    values: &Vec<u64>,
    daily_reward: u64,
    blocks_staked: u64,
) -> (r: StakingStatusResult)
    requires
        total(values@) <= u64::MAX,
    ensures
        r.enabled == enabled,
        text_option(r.staking_address) == (match address {
            Some(a) => Some(a@),
            None => None,
        }),
        r.last_stake_time is None,
        r.blocks_staked == blocks_staked,
        if enabled && address is Some {
            &&& r.eligible_utxos == values@.len()
            &&& r.total_staking_satoshis == total(values@)
            &&& r.expected_reward_per_day == if total(values@) > 0 {
                daily_reward
            } else {
                0
            }
        } else {
            &&& r.eligible_utxos == 0
            &&& r.total_staking_satoshis == 0
            &&& r.expected_reward_per_day == 0
        },
{
    let staking_address: Option<String> = match address {
        Some(a) => Some(a.to_owned()),
        None => None,
    };
    if enabled && address.is_some() {
        let sum: u64 = sum_values(values);
        let expected: u64 = if sum > 0 {
            daily_reward
        } else {
            0
        };
        StakingStatusResult {
            enabled,
            staking_address,
            eligible_utxos: values.len(),
            total_staking_satoshis: sum,
            expected_reward_per_day: expected,
            last_stake_time: None,
            blocks_staked,
        }
    } else {
        StakingStatusResult {
            enabled,
            staking_address,
            eligible_utxos: 0,
            total_staking_satoshis: 0,
            expected_reward_per_day: 0,
            last_stake_time: None,
            blocks_staked,
        }
    }
}

} // verus!
