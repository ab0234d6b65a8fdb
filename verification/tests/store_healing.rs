//! Mending a stored chain.

use vtorrent::store::heal::{
    missing_block, replay_failed, stores_replayed, Acceptance, HealAction, Healing, Replay,
};

#[test]
fn a_chain_that_replays_is_loaded() {
    let mut healing = Healing::new(10);
    assert_eq!(healing.next(), HealAction::Replay { to: 10 });
    assert_eq!(healing.replayed(Replay::Complete), HealAction::Loaded);
    assert_eq!(healing.next(), HealAction::Loaded);
    assert_eq!(healing.height, 10);
}

#[test]
fn a_bad_block_is_cut_off() {
    let mut healing = Healing::new(10);
    assert_eq!(healing.replayed(Replay::FailedAt(7)), HealAction::Truncate { keep: 6 });
    assert_eq!(healing.next(), HealAction::Replay { to: 6 });
    assert_eq!(healing.replayed(Replay::FailedAt(0)), HealAction::Truncate { keep: 0 });
    assert_eq!(healing.next(), HealAction::Replay { to: 0 });
}

#[test]
fn replayed_blocks_are_stored_on_the_main_chain() {
    assert!(matches!(stores_replayed(3, Acceptance::MainChain), Ok(true)));
    assert!(matches!(stores_replayed(0, Acceptance::Duplicate), Ok(false)));
    let text = "store is corrupted: unexpected acceptance during rebuild at height 3";
    assert_eq!(stores_replayed(3, Acceptance::Duplicate).unwrap_err().message(), text);
    assert_eq!(stores_replayed(3, Acceptance::Elsewhere).unwrap_err().message(), text);
}

#[test]
fn replay_faults_are_described() {
    assert_eq!(
        missing_block(4, true).message(),
        "store is corrupted: missing block at height 4 during load"
    );
    assert_eq!(
        missing_block(4, false).message(),
        "store is corrupted: missing block at height 4 during rebuild"
    );
    assert_eq!(
        replay_failed(4, true, "bad root").message(),
        "store is corrupted: rebuild replay failed at height 4: bad root"
    );
    assert_eq!(
        replay_failed(4, false, "bad root").message(),
        "store is corrupted: replay failed at height 4: bad root"
    );
}
