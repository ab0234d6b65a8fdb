//! Requests about the node.
use crate::bytes::append_slice;
use crate::crypto::sha512;
use crate::crypto::sha512_of;
use crate::desktop::error::TauriError;
use crate::desktop::error::TauriFault;
use crate::text::hex_encode;
use crate::text::hex_text;
use crate::text::same_text;
use crate::torrent::magnet::copy_texts;
use crate::torrent::metainfo::texts;
use vstd::prelude::*;
use vstd::string::*;
use vstd::utf8::encode_utf8;

verus! {

/// How many seed peers are tried at most.
pub const MAX_PROBE_CANDIDATES: usize = 10;

/// How many transactions are shown where no number is asked for.
pub const DEFAULT_TX_LIMIT: usize = 50;

/// The name of the main network.
pub open spec fn mainnet() -> Seq<char> {
    "vtorrent-mainnet"@
}

/// The name of the test network.
pub open spec fn regtest() -> Seq<char> {
    "vtorrent-regtest"@
}

/// The network that a request means: the test network where that is asked for by name.
pub open spec fn network_for(name: Option<Seq<char>>) -> Seq<char> {
    if name == Some("testnet"@) {
        regtest()
    } else {
        mainnet()
    }
}

/// The network that a request means.
pub fn resolve_network(network: Option<&str>) -> (r: &'static str)
    ensures
        r@ == network_for(
            match network {
                Some(n) => Some(n@),
                None => None,
            },
        ),
{
    match network {
        Some(n) => {
            if same_text(n, "testnet") {
                return "vtorrent-regtest";
            }
        },
        None => {},
    }
    "vtorrent-mainnet"
}

/// The seed peers of the test network.
pub fn default_testnet_seeds() -> (r: Vec<String>)
    ensures
        r@.len() == 0,
{
    Vec::new()
}

/// How a node is set up.
#[derive(Debug, Clone)]
pub struct NodePlan {
    /// The network.
    pub network: String,
    /// Whether blocks follow the rules of the test network, and stakes count at once.
    pub regtest: bool,
    pub regtest_fast_stake: bool,
    /// Whether peers are found through the seeds alone.
    pub isolated: bool,
    /// The directory inside the data directory, where there is one.
    pub data_subdir: Option<String>,
    /// The seeds.
    pub extra_seeds: Vec<String>,
}

/// What is to be done when the node is to be started.
#[derive(Debug, Clone)]
pub enum StartAction {
    /// It runs: tell how it is.
    Report,
    /// Start it like this.
    Start(NodePlan),
}

/// Whether `p` is how the node of a network is set up. The test network is kept apart: it has
/// data, seeds and rules of its own.
pub open spec fn is_plan_for(p: NodePlan, network: Seq<char>, seeds: Option<Seq<Seq<char>>>) -> bool {
    let test = network == regtest();
    &&& p.network@ == network
    &&& p.regtest == test
    &&& p.regtest_fast_stake == test
    &&& p.isolated == test
    &&& match p.data_subdir {
        Some(d) => test && d@ == "testnet"@,
        None => !test,
    }
    &&& texts(p.extra_seeds@) == if test && seeds is Some {
        seeds->0
    } else {
        Seq::empty()
    }
}

/// Decides what to do when the node is to be started. `running` is the network on which it runs.
pub fn plan_start(
    running: Option<&str>,
    network: Option<&str>,
    seeds: &Option<Vec<String>>,
) -> (r: Result<StartAction, TauriError>)
    ensures
        ({
            let wanted = network_for(
                match network {
                    Some(n) => Some(n@),
                    None => None,
                },
            );
            match running {
                Some(n) => if n@ == wanted {
                    r == Ok::<StartAction, TauriError>(StartAction::Report)
                } else {
                    r matches Err(e) && e@ == TauriFault::NodeError(
                        "node running on "@ + n@ + "; restart the app to switch networks"@,
                    )
                },
                None => r matches Ok(StartAction::Start(p)) && is_plan_for(
                    p,
                    wanted,
                    match *seeds {
                        Some(s) => Some(texts(s@)),
                        None => None,
                    },
                ),
            }
        }),
{
    let wanted: &str = resolve_network(network);
    match running {
        Some(n) => {
            if !same_text(n, wanted) {
                let mut m: String = "node running on ".to_owned();
                m.append(n);
                m.append("; restart the app to switch networks");
                return Err(TauriError::NodeError(m));
            }
            Ok(StartAction::Report)
        },
        None => {
            let test: bool = same_text(wanted, "vtorrent-regtest");
            let none: Vec<String> = Vec::new();
            assert(texts(none@) =~= Seq::empty());
            let extra_seeds: Vec<String> = if test {
                match seeds {
                    Some(s) => {
                        if s.len() == 0 {
                            assert(texts(s@) =~= Seq::empty());
                            let d: Vec<String> = default_testnet_seeds();
                            assert(texts(d@) =~= Seq::empty());
                            d
                        } else {
                            copy_texts(s)
                        }
                    },
                    None => {
                        let d: Vec<String> = default_testnet_seeds();
                        assert(texts(d@) =~= Seq::empty());
                        d
                    },
                }
            } else {
                none
            };
            let data_subdir: Option<String> = if test {
                Some("testnet".to_owned())
            } else {
                None
            };
            Ok(
                StartAction::Start(
                    NodePlan {
                        network: wanted.to_owned(),
                        regtest: test,
                        regtest_fast_stake: test,
                        isolated: test,
                        data_subdir,
                        extra_seeds,
                    },
                ),
            )
        },
    }
}

/// The seed of the wallet for the other chain: that of the words, else the digest of a label and
/// the wallet's key.
pub open spec fn seed_for(words: Option<Seq<u8>>, key: Option<Seq<char>>) -> Option<Seq<u8>> {
    match words {
        Some(s) => Some(s),
        None => match key {
            Some(k) => Some(
                sha512_of(encode_utf8("vtorrent-ng-btc-seed-v1"@) + encode_utf8(k)),
            ),
            None => None,
        },
    }
}

/// The seed of the wallet for the other chain.
pub fn btc_seed(mnemonic_seed: Option<[u8; 64]>, default_wif: Option<&str>) -> (r: Option<[u8; 64]>)
    ensures
        match seed_for(
            match mnemonic_seed {
                Some(s) => Some(s@),
                None => None,
            },
            match default_wif {
                Some(k) => Some(k@),
                None => None,
            },
        ) {
            Some(s) => r matches Some(v) && v@ == s,
            None => r is None,
        },
{
    match mnemonic_seed {
        Some(s) => Some(s),
        None => match default_wif {
            Some(k) => {
                let mut data: Vec<u8> = Vec::new();
                append_slice(&mut data, "vtorrent-ng-btc-seed-v1".as_bytes());
                append_slice(&mut data, k.as_bytes());
                assert(data@ =~= encode_utf8("vtorrent-ng-btc-seed-v1"@) + encode_utf8(k@));
                Some(sha512(data.as_slice()))
            },
            None => None,
        },
    }
}

/// The height up to which the other chain counts as scanned: one above the best that is known.
pub fn scanned_height(best: u32) -> (r: u32)
    ensures
        r == (if best < u32::MAX {
            best + 1
        } else {
            u32::MAX as int
        }),
{
    best.saturating_add(1)
}

/// What staking has brought.
#[derive(Debug, Clone, Copy, PartialEq, Eq, Structural)]
pub struct StakingCounters {
    /// The blocks.
    pub blocks_staked: u64,
    /// When the last one came.
    pub last_stake_time: u32,
    /// The rewards, in smallest units.
    pub rewards_earned: u64,
}

impl StakingCounters {
    /// Counts a reward that came at `now`.
    pub fn reward(&mut self, reward: u64, now: u64)
        requires
            old(self).blocks_staked < u64::MAX,
        ensures
            final(self).blocks_staked == old(self).blocks_staked + 1,
            final(self).last_stake_time == now as u32,
            final(self).rewards_earned == (if old(self).rewards_earned + reward > u64::MAX {
                u64::MAX as int
            } else {
                old(self).rewards_earned + reward
            }),
    {
        self.blocks_staked = self.blocks_staked + 1;
        self.last_stake_time = #[verifier::truncate] (now as u32);
        self.rewards_earned = self.rewards_earned.saturating_add(reward);
    }
}

/// What is told of the node. How far it is with the chain is left to whoever shows it.
#[derive(Debug, Clone)]
pub struct NodeInfoResult {
    pub running: bool,
    pub version: String,
    pub network: String,
    pub block_height: u64,
    pub best_hash: String,
    pub connections: usize,
    pub syncing: bool,
    pub mempool_size: usize,
    pub uptime_secs: u64,
}

/// What a running node tells of itself.
#[derive(Debug, Clone)]
pub struct NodeFacts {
    pub network: String,
    pub height: u32,
    pub best_hash: Option<[u8; 32]>,
    pub peer_count: usize,
    pub syncing: bool,
    pub mempool_size: usize,
    pub uptime_secs: u64,
}

/// What is told of the node, which may not run.
pub fn node_info(version: &str, node: Option<&NodeFacts>) -> (r: NodeInfoResult)
    ensures
        r.version@ == version@,
        match node {
            Some(n) => {
                &&& r.running
                &&& r.network@ == n.network@
                &&& r.block_height == n.height
                &&& r.best_hash@ == (match n.best_hash {
                    Some(h) => hex_text(h@),
                    None => Seq::empty(),
                })
                &&& r.connections == n.peer_count
                &&& r.syncing == n.syncing
                &&& r.mempool_size == n.mempool_size
                &&& r.uptime_secs == n.uptime_secs
            },
            None => {
                &&& !r.running
                &&& r.network@ == mainnet()
                &&& r.block_height == 0
                &&& r.best_hash@ == Seq::<char>::empty()
                &&& r.connections == 0
                &&& !r.syncing
                &&& r.mempool_size == 0
                &&& r.uptime_secs == 0
            },
        },
{
    match node {
        Some(n) => {
            let best_hash: String = match &n.best_hash {
                Some(h) => hex_encode(h.as_slice()),
                None => String::new(),
            };
            NodeInfoResult {
                running: true,
                version: version.to_owned(),
                network: n.network.clone(),
                block_height: n.height as u64,
                best_hash,
                connections: n.peer_count,
                syncing: n.syncing,
                mempool_size: n.mempool_size,
                uptime_secs: n.uptime_secs,
            }
        },
        None => NodeInfoResult {
            running: false,
            version: version.to_owned(),
            network: "vtorrent-mainnet".to_owned(),
            block_height: 0,
            best_hash: String::new(),
            connections: 0,
            syncing: false,
            mempool_size: 0,
            uptime_secs: 0,
        },
    }
}

/// What is told of a transaction. The text that shows its amount is left to whoever shows it.
#[derive(Debug, Clone)]
pub struct TxResult {
    pub txid: String,
    pub block_height: u32,
    pub confirmations: u32,
    pub timestamp: u32,
    pub tx_type: String,
    pub amount_satoshis: u64,
    pub fee_satoshis: u64,
    pub verb: String,
}

/// What a transaction did for the wallet.
pub open spec fn verb_for(direction: Seq<char>) -> Seq<char> {
    if direction == "receive"@ {
        "Received"@
    } else if direction == "stake"@ {
        "Staked"@
    } else {
        "Sent"@
    }
}

/// How many blocks confirm a transaction: its own counts.
pub open spec fn confirmation_count(best: u32, height: u32) -> int {
    if best < height {
        1
    } else if best - height == u32::MAX {
        u32::MAX as int
    } else {
        best - height + 1
    }
}

/// What is told of a transaction of the wallet.
pub fn tx_result(
    txid: &str,
    height: u32,
    timestamp: u32,
    direction: &str,
    amount: u64,
    fee: u64,
    best_height: u32,
) -> (r: TxResult)
    ensures
        r.txid@ == txid@,
        r.block_height == height,
        r.confirmations == confirmation_count(best_height, height),
        r.timestamp == timestamp,
        r.tx_type@ == direction@,
        r.amount_satoshis == amount,
        r.fee_satoshis == fee,
        r.verb@ == verb_for(direction@),
{
    let verb: &str = if same_text(direction, "receive") {
        "Received"
    } else if same_text(direction, "stake") {
        "Staked"
    } else {
        "Sent"
    };
    TxResult {
        txid: txid.to_owned(),
        block_height: height,
        confirmations: best_height.saturating_sub(height).saturating_add(1),
        timestamp,
        tx_type: direction.to_owned(),
        amount_satoshis: amount,
        fee_satoshis: fee,
        verb: verb.to_owned(),
    }
}

/// The seed peers that are tried: the first few.
pub fn probe_candidates(candidates: &Vec<String>) -> (r: Vec<String>)
    ensures
        texts(r@) == if candidates@.len() > MAX_PROBE_CANDIDATES {
            texts(candidates@).take(MAX_PROBE_CANDIDATES as int)
        } else {
            texts(candidates@)
        },
{
    let mut r: Vec<String> = copy_texts(candidates);
    assert(texts(r@).len() == r@.len());
    assert(texts(candidates@).len() == candidates@.len());
    if r.len() > MAX_PROBE_CANDIDATES {
        let ghost before = r@;
        r.truncate(MAX_PROBE_CANDIDATES);
        assert(texts(r@) =~= texts(before).take(MAX_PROBE_CANDIDATES as int));
    }
    r
}

/// The test network is meant just by its name, and is not the main network.
pub proof fn law_test_network_is_asked_for_by_name(name: Option<Seq<char>>)
    ensures
        network_for(name) == regtest() <==> name == Some("testnet"@),
        mainnet() != regtest(),
{
    reveal_strlit("vtorrent-mainnet");
    reveal_strlit("vtorrent-regtest");
    assert(mainnet()[9] == 'm');
    assert(regtest()[9] == 'r');
}

} // verus!
