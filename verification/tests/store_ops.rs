use chain_sync::errors::SyncError;
use chain_sync::store::Store;
use chain_sync::types::{Block, BlockHash, Tx};

fn h(tag: u8) -> BlockHash {
    BlockHash { bytes: vec![tag; 32] }
}

fn tx(tag: u8, amount: i64) -> Tx {
    Tx { txid: vec![tag; 32], amount, time: 7 }
}

fn blk(tag: u8, prev: u8, height: u64, txs: Vec<Tx>) -> Block {
    Block { hash: h(tag), prev_hash: h(prev), height, time: 1000 + height, txs }
}

fn snapshot(store: &Store) -> Vec<(Vec<u8>, Vec<u8>, u64, Vec<(Vec<u8>, i64)>)> {
    let mut out = Vec::new();
    for i in 0..store.len() {
        let b = store.get(i);
        let txs = b.txs.iter().map(|t| (t.txid.clone(), t.amount)).collect();
        out.push((b.hash.bytes.clone(), b.prev_hash.bytes.clone(), b.height, txs));
    }
    out
}

#[test]
fn empty_mirror_has_no_tip() {
    let store = Store::new(0);
    assert!(store.tip().is_none());
    assert_eq!(store.len(), 0);
}

#[test]
fn applying_the_same_block_twice_changes_nothing_more() {
    let mut store = Store::new(0);
    assert!(store.apply_block(blk(1, 0, 0, vec![])).is_ok());
    let b = blk(2, 1, 1, vec![tx(21, 50), tx(22, 60)]);
    assert!(store.apply_block(b.clone()).is_ok());
    let after_once = snapshot(&store);
    assert!(store.apply_block(b).is_ok());
    let after_twice = snapshot(&store);
    assert_eq!(after_once, after_twice);
}

#[test]
fn reapplied_block_replaces_its_transactions_in_place() {
    let mut store = Store::new(0);
    assert!(store.apply_block(blk(1, 0, 0, vec![tx(11, 1)])).is_ok());
    // the same block arrives again, now carrying a corrected transaction set
    assert!(store.apply_block(blk(1, 0, 0, vec![tx(11, 1), tx(12, 2)])).is_ok());
    assert_eq!(store.len(), 1);
    assert_eq!(store.get(0).txs.len(), 2);
}

#[test]
fn first_block_must_sit_at_the_start_height() {
    let mut store = Store::new(5);
    let r = store.apply_block(blk(1, 0, 0, vec![]));
    assert!(matches!(r, Err(SyncError::StoreConstraintViolation)));
    assert_eq!(store.len(), 0);
    assert!(store.apply_block(blk(1, 0, 5, vec![])).is_ok());
}

#[test]
fn gaps_and_broken_links_are_refused() {
    let mut store = Store::new(0);
    assert!(store.apply_block(blk(1, 0, 0, vec![])).is_ok());
    // a height gap
    assert!(store.apply_block(blk(3, 1, 2, vec![])).is_err());
    // a wrong predecessor hash
    assert!(store.apply_block(blk(3, 9, 1, vec![])).is_err());
    // a duplicate of an interior hash
    assert!(store.apply_block(blk(2, 1, 1, vec![])).is_ok());
    assert!(store.apply_block(blk(1, 2, 2, vec![])).is_err());
    assert_eq!(store.len(), 2);
}

#[test]
fn rollback_deletes_blocks_and_their_transactions() {
    let mut store = Store::new(0);
    assert!(store.apply_block(blk(1, 0, 0, vec![])).is_ok());
    assert!(store.apply_block(blk(2, 1, 1, vec![tx(21, 5)])).is_ok());
    assert!(store.apply_block(blk(3, 2, 2, vec![tx(31, 6)])).is_ok());
    store.delete_blocks_above(0);
    assert_eq!(store.len(), 1);
    assert!(store.block_by_hash(&h(3)).is_none());
    assert!(store.block_by_hash(&h(1)).is_some());
    let (tip_hash, tip_height) = store.tip().unwrap();
    assert_eq!(tip_hash.bytes, vec![1u8; 32]);
    assert_eq!(tip_height, 0);
}

#[test]
fn rollback_above_the_tip_is_a_no_op() {
    let mut store = Store::new(0);
    assert!(store.apply_block(blk(1, 0, 0, vec![])).is_ok());
    assert!(store.apply_block(blk(2, 1, 1, vec![])).is_ok());
    store.delete_blocks_above(9);
    assert_eq!(store.len(), 2);
}

#[test]
fn clearing_empties_the_mirror() {
    let mut store = Store::new(0);
    assert!(store.apply_block(blk(1, 0, 0, vec![])).is_ok());
    store.clear();
    assert_eq!(store.len(), 0);
    assert!(store.tip().is_none());
}

#[test]
fn lookup_by_hash_finds_the_right_block() {
    let mut store = Store::new(0);
    assert!(store.apply_block(blk(1, 0, 0, vec![])).is_ok());
    assert!(store.apply_block(blk(2, 1, 1, vec![tx(21, 50)])).is_ok());
    let found = store.block_by_hash(&h(2)).unwrap();
    assert_eq!(found.height, 1);
    assert_eq!(found.txs[0].amount, 50);
    assert!(store.block_by_hash(&h(9)).is_none());
}
