//! How a stored chain is replayed, and how a part of it that does not replay is thrown away.
use crate::store::error::StoreError;
use crate::store::error::StoreFault;
use crate::text::decimal;
use crate::text::push_decimal;
use vstd::prelude::*;
use vstd::string::*;

verus! {

/// What came of replaying blocks.
#[derive(Debug, Clone, Copy, PartialEq, Eq, Structural)]
pub enum Replay {
    /// All blocks were taken.
    Complete,
    /// The lowest block that was not taken.
    FailedAt(u32),
}

/// What is to be done next with a stored chain.
#[derive(Debug, Clone, Copy, PartialEq, Eq, Structural)]
pub enum HealAction {
    /// Replay the blocks up to this height.
    Replay { to: u32 },
    /// Remove the blocks above this height, clear what is derived from blocks, and store it anew
    /// from the blocks that are left.
    Truncate { keep: u32 },
    /// The chain is loaded.
    Loaded,
}

/// How far mending has come.
#[derive(Debug, Clone, Copy, PartialEq, Eq, Structural)]
pub struct Healing {
    /// The height up to which blocks are replayed.
    pub height: u32,
    /// Whether the chain is loaded.
    pub loaded: bool,
}

/// The chain is cut below the block that was not taken.
pub open spec fn cut_below(bad: u32) -> u32 {
    if bad > 0 {
        (bad - 1) as u32
    } else {
        0
    }
}

/// How far mending has come after a replay.
pub open spec fn healing_after(s: Healing, r: Replay) -> Healing {
    match r {
        Replay::Complete => Healing { loaded: true, ..s },
        Replay::FailedAt(bad) => Healing { height: cut_below(bad), loaded: s.loaded },
    }
}

/// What follows from a replay.
pub open spec fn heal_action(r: Replay) -> HealAction {
    match r {
        Replay::Complete => HealAction::Loaded,
        Replay::FailedAt(bad) => HealAction::Truncate { keep: cut_below(bad) },
    }
}

impl Healing {
    /// Begins to load a chain of a given height.
    pub fn new(height: u32) -> (r: Self)
        ensures
            r == (Healing { height, loaded: false }),
    {
        Healing { height, loaded: false }
    }

    /// What is to be replayed next.
    pub fn next(&self) -> (r: HealAction)
        ensures
            r == (if self.loaded {
                HealAction::Loaded
            } else {
                HealAction::Replay { to: self.height }
            }),
    {
        if self.loaded {
            HealAction::Loaded
        } else {
            HealAction::Replay { to: self.height }
        }
    }

    /// Takes what came of a replay.
    pub fn replayed(&mut self, outcome: Replay) -> (r: HealAction)
        ensures
            *final(self) == healing_after(*old(self), outcome),
            r == heal_action(outcome),
    {
        match outcome {
            Replay::Complete => {
                self.loaded = true;
                HealAction::Loaded
            },
            Replay::FailedAt(bad) => {
                let keep: u32 = bad.saturating_sub(1);
                self.height = keep;
                HealAction::Truncate { keep }
            },
        }
    }
}

/// Mending ends: each time a block is not taken, the chain becomes shorter, and all blocks below
/// the one that was not taken are kept.
pub proof fn law_healing_makes_progress(s: Healing, bad: u32)
    requires
        1 <= bad <= s.height,
    ensures
        healing_after(s, Replay::FailedAt(bad)).height < s.height,
        healing_after(s, Replay::FailedAt(bad)).height == bad - 1,
        healing_after(s, Replay::Complete).loaded,
        healing_after(s, Replay::Complete).height == s.height,
{
}

/// How a chain took a block.
#[derive(Debug, Clone, Copy, PartialEq, Eq, Structural)]
pub enum Acceptance {
    /// The block is the new best block.
    MainChain,
    /// The block was there already.
    Duplicate,
    /// The block is not on the main chain.
    Elsewhere,
}

/// A fault at a height.
pub open spec fn fault_at(before: Seq<char>, height: u32, after: Seq<char>) -> StoreFault {
    StoreFault::Corrupted(before + decimal(height as nat) + after)
}

fn error_at(before: &str, height: u32, after: &str) -> (r: StoreError)
    ensures
        r@ == fault_at(before@, height, after@),
{
    let mut m: String = before.to_owned();
    push_decimal(&mut m, height as u64);
    m.append(after);
    StoreError::Corrupted(m)
}

/// Whether a block that is replayed is to be stored. The first block is there from the start.
pub fn stores_replayed(height: u32, acceptance: Acceptance) -> (r: Result<bool, StoreError>)
    ensures
        match acceptance {
            Acceptance::MainChain => r == Ok::<bool, StoreError>(true),
            Acceptance::Duplicate => if height == 0 {
                r == Ok::<bool, StoreError>(false)
            } else {
                r matches Err(e) && e@ == fault_at(
                    "unexpected acceptance during rebuild at height "@,
                    height,
                    ""@,
                )
            },
            Acceptance::Elsewhere => r matches Err(e) && e@ == fault_at(
                "unexpected acceptance during rebuild at height "@,
                height,
                ""@,
            ),
        },
{
    match acceptance {
        Acceptance::MainChain => Ok(true),
        Acceptance::Duplicate => {
            if height == 0 {
                Ok(false)
            } else {
                Err(error_at("unexpected acceptance during rebuild at height ", height, ""))
            }
        },
        Acceptance::Elsewhere => Err(
            error_at("unexpected acceptance during rebuild at height ", height, ""),
        ),
    }
}

/// Why a replay stopped: the block at a height is not stored.
pub fn missing_block(height: u32, loading: bool) -> (r: StoreError)
    ensures
        r@ == fault_at(
            "missing block at height "@,
            height,
            if loading {
                " during load"@
            } else {
                " during rebuild"@
            },
        ),
{
    if loading {
        error_at("missing block at height ", height, " during load")
    } else {
        error_at("missing block at height ", height, " during rebuild")
    }
}

/// Why a replay stopped: the chain did not take the block at a height.
pub fn replay_failed(height: u32, rebuilding: bool, reason: &str) -> (r: StoreError)
    ensures
        r@ == fault_at(
            if rebuilding {
                "rebuild replay failed at height "@
            } else {
                "replay failed at height "@
            },
            height,
            ": "@ + reason@,
        ),
{
    let mut after: String = ": ".to_owned();
    after.append(reason);
    if rebuilding {
        error_at("rebuild replay failed at height ", height, after.as_str())
    } else {
        error_at("replay failed at height ", height, after.as_str())
    }
}

} // verus!
