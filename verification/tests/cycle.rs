use chain_sync::errors::SyncError;
use chain_sync::node::NodeSnapshot;
use chain_sync::plan::{Plan, apply_plan};
use chain_sync::store::Store;
use chain_sync::sync::run_once;
use chain_sync::types::{Block, BlockHash, Tx};

fn h(tag: u8) -> BlockHash {
    BlockHash { bytes: vec![tag; 32] }
}

fn tx(tag: u8, amount: i64) -> Tx {
    Tx { txid: vec![tag; 32], amount, time: 7 }
}

fn blk(tag: u8, prev: u8, height: u64, txs: Vec<Tx>) -> Block {
    Block { hash: h(tag), prev_hash: h(prev), height, time: 1000 + height, txs }
}

fn store_abc() -> Store {
    // A(0) - B(1) - C(2), C carrying transactions
    let mut store = Store::new(0);
    assert!(store.apply_block(blk(1, 0, 0, vec![])).is_ok());
    assert!(store.apply_block(blk(2, 1, 1, vec![tx(21, 50)])).is_ok());
    assert!(store.apply_block(blk(3, 2, 2, vec![tx(31, 10), tx(32, 20)])).is_ok());
    store
}

#[test]
fn initial_sync_from_empty_mirror() {
    let mut store = Store::new(0);
    let node = NodeSnapshot {
        best: h(3),
        blocks: vec![
            blk(3, 2, 2, vec![tx(31, 10)]),
            blk(2, 1, 1, vec![]),
            blk(1, 0, 0, vec![]),
        ],
    };
    let rep = run_once(&mut store, &node, 10).unwrap();
    assert_eq!(rep.rollback_to, None);
    assert_eq!(rep.applied, 3);
    assert_eq!(store.len(), 3);
    let (tip_hash, tip_height) = store.tip().unwrap();
    assert_eq!(tip_hash.bytes, vec![3u8; 32]);
    assert_eq!(tip_height, 2);
    assert_eq!(store.get(0).hash.bytes, vec![1u8; 32]);
    assert_eq!(store.get(1).hash.bytes, vec![2u8; 32]);
    assert_eq!(store.get(2).txs.len(), 1);
    assert_eq!(store.get(2).txs[0].amount, 10);
}

#[test]
fn noop_cycle_leaves_mirror_untouched() {
    let mut store = store_abc();
    // the node reports exactly the mirror's tip; no headers are needed
    let node = NodeSnapshot { best: h(3), blocks: vec![] };
    let rep = run_once(&mut store, &node, 10).unwrap();
    assert_eq!(rep.applied, 0);
    assert_eq!(rep.rollback_to, Some(2));
    assert_eq!(store.len(), 3);
    let (tip_hash, tip_height) = store.tip().unwrap();
    assert_eq!(tip_hash.bytes, vec![3u8; 32]);
    assert_eq!(tip_height, 2);
    assert_eq!(store.get(2).txs.len(), 2);
}

#[test]
fn reorg_replaces_stale_branch() {
    // mirror: A(0)-B(1)-C(2); node: A-B-D(2)-E(3); fork point is B
    let mut store = store_abc();
    let node = NodeSnapshot {
        best: h(5),
        blocks: vec![
            blk(5, 4, 3, vec![tx(51, 5)]),
            blk(4, 2, 2, vec![tx(41, 4)]),
            blk(2, 1, 1, vec![tx(21, 50)]),
            blk(1, 0, 0, vec![]),
        ],
    };
    let rep = run_once(&mut store, &node, 10).unwrap();
    assert_eq!(rep.rollback_to, Some(1));
    assert_eq!(rep.applied, 2);
    assert_eq!(store.len(), 4);
    assert_eq!(store.get(0).hash.bytes, vec![1u8; 32]);
    assert_eq!(store.get(1).hash.bytes, vec![2u8; 32]);
    assert_eq!(store.get(2).hash.bytes, vec![4u8; 32]);
    assert_eq!(store.get(3).hash.bytes, vec![5u8; 32]);
    // C and the transactions it owned are gone
    assert!(store.block_by_hash(&h(3)).is_none());
    // D's transactions replaced C's at height 2
    assert_eq!(store.get(2).txs.len(), 1);
    assert_eq!(store.get(2).txs[0].amount, 4);
}

#[test]
fn reorg_deeper_than_bound_fails_unchanged() {
    // the node's chain shares no block with the mirror within reach
    let mut store = store_abc();
    let node = NodeSnapshot {
        best: h(9),
        blocks: vec![
            blk(9, 8, 6, vec![]),
            blk(8, 7, 5, vec![]),
            blk(7, 6, 4, vec![]),
            blk(6, 5, 3, vec![]),
        ],
    };
    let r = run_once(&mut store, &node, 2);
    assert!(matches!(r, Err(SyncError::ReorgTooDeep)));
    // the mirror is exactly as before
    assert_eq!(store.len(), 3);
    let (tip_hash, tip_height) = store.tip().unwrap();
    assert_eq!(tip_hash.bytes, vec![3u8; 32]);
    assert_eq!(tip_height, 2);
}

#[test]
fn missing_header_reported_with_its_hash() {
    // the walk needs D's header but the node view does not hold it
    let mut store = store_abc();
    let node = NodeSnapshot { best: h(5), blocks: vec![blk(5, 4, 3, vec![])] };
    let r = run_once(&mut store, &node, 10);
    match r {
        Err(SyncError::NotFound(missing)) => assert_eq!(missing.bytes, vec![4u8; 32]),
        _ => panic!("expected a missing-header failure"),
    }
    assert_eq!(store.len(), 3);
}

#[test]
fn inconsistent_node_heights_fail_unchanged() {
    // the node's chain answers the walk but its heights do not chain up
    let mut store = Store::new(0);
    let node = NodeSnapshot {
        best: h(2),
        blocks: vec![blk(2, 1, 5, vec![]), blk(1, 0, 0, vec![])],
    };
    let r = run_once(&mut store, &node, 10);
    assert!(matches!(r, Err(SyncError::StoreConstraintViolation)));
    assert_eq!(store.len(), 0);
}

#[test]
fn failing_forward_plan_commits_nothing() {
    // a five-block forward plan whose third block does not link up:
    // the cycle must leave the recorded tip at its pre-cycle value
    let mut store = Store::new(0);
    assert!(store.apply_block(blk(1, 0, 0, vec![])).is_ok());
    let plan = Plan {
        rollback_to: Some(0),
        forward: vec![
            blk(11, 1, 1, vec![tx(1, 1)]),
            blk(12, 11, 2, vec![]),
            blk(13, 99, 3, vec![]),
            blk(14, 13, 4, vec![]),
            blk(15, 14, 5, vec![]),
        ],
    };
    let r = apply_plan(&mut store, plan);
    assert!(matches!(r, Err(SyncError::StoreConstraintViolation)));
    assert_eq!(store.len(), 1);
    let (tip_hash, tip_height) = store.tip().unwrap();
    assert_eq!(tip_hash.bytes, vec![1u8; 32]);
    assert_eq!(tip_height, 0);
}

#[test]
fn node_ahead_extends_without_rollback() {
    // the node simply has one more block than the mirror
    let mut store = store_abc();
    let node = NodeSnapshot {
        best: h(4),
        blocks: vec![blk(4, 3, 3, vec![tx(41, 9)]), blk(3, 2, 2, vec![])],
    };
    let rep = run_once(&mut store, &node, 10).unwrap();
    assert_eq!(rep.rollback_to, Some(2));
    assert_eq!(rep.applied, 1);
    assert_eq!(store.len(), 4);
    assert_eq!(store.tip().unwrap().1, 3);
}

#[test]
fn configured_start_height_anchors_the_chain() {
    let mut store = Store::new(100);
    let node = NodeSnapshot {
        best: h(2),
        blocks: vec![blk(2, 1, 101, vec![]), blk(1, 9, 100, vec![])],
    };
    let rep = run_once(&mut store, &node, 10).unwrap();
    assert_eq!(rep.rollback_to, None);
    assert_eq!(rep.applied, 2);
    assert_eq!(store.len(), 2);
    assert_eq!(store.get(0).height, 100);
    assert_eq!(store.tip().unwrap().1, 101);
}

#[test]
fn height_invariant_holds_after_sync() {
    let mut store = store_abc();
    let node = NodeSnapshot {
        best: h(5),
        blocks: vec![
            blk(5, 4, 3, vec![]),
            blk(4, 2, 2, vec![]),
            blk(2, 1, 1, vec![]),
            blk(1, 0, 0, vec![]),
        ],
    };
    run_once(&mut store, &node, 10).unwrap();
    for i in 1..store.len() {
        assert_eq!(store.get(i).height, store.get(i - 1).height + 1);
        assert_eq!(store.get(i).prev_hash.bytes, store.get(i - 1).hash.bytes);
    }
}
