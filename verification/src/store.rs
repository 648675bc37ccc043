use vstd::prelude::*;
use crate::errors::SyncError;
use crate::types::{Block, BlockHash, BlockView, bytes_eq, chain_view};

verus! {

/// The mathematical value of a [`Store`]: the configured start height and
/// the canonical chain, ordered by ascending height.
#[verifier::ext_equal]
pub ghost struct StoreView {
    pub start: int,
    pub chain: Seq<BlockView>,
}

/// The chain invariant of the mirror: block `i` sits at height
/// `start + i`, every block after the first references its predecessor's
/// hash, and no two blocks share a hash.
pub open spec fn view_wf(s: StoreView) -> bool {
    &&& 0 <= s.start
    &&& forall|i: int| 0 <= i < s.chain.len() ==> (#[trigger] s.chain[i]).height == s.start + i
    &&& forall|i: int|
        1 <= i < s.chain.len() ==> (#[trigger] s.chain[i]).prev_hash == s.chain[i - 1].hash
    &&& forall|i: int, j: int|
        0 <= i < j < s.chain.len() ==> (#[trigger] s.chain[i]).hash != (#[trigger] s.chain[j]).hash
}

/// Whether the mirror holds block `b`'s hash at exactly `b`'s height:
/// the fork-point test of the reconciliation planner.
pub open spec fn in_store(s: StoreView, b: BlockView) -> bool {
    &&& s.start <= b.height < s.start + s.chain.len()
    &&& s.chain[b.height - s.start].hash == b.hash
}

/// What applying one block to the mirror yields, if anything: a block
/// equal in hash to the tip replaces the tip in place (idempotent
/// re-application); a block extending the tip is appended; anything else
/// is a constraint violation.
pub open spec fn spec_apply_block(s: StoreView, b: BlockView) -> Option<StoreView> {
    if s.chain.len() == 0 {
        if b.height == s.start {
            Some(StoreView { start: s.start, chain: seq![b] })
        } else {
            None
        }
    } else {
        let t = s.chain.last();
        if b.hash == t.hash {
            if b.height == t.height && b.prev_hash == t.prev_hash {
                Some(StoreView { start: s.start, chain: s.chain.update(s.chain.len() - 1, b) })
            } else {
                None
            }
        } else if b.height == t.height + 1 && b.prev_hash == t.hash && (forall|j: int|
            0 <= j < s.chain.len() ==> (#[trigger] s.chain[j]).hash != b.hash) {
            Some(StoreView { start: s.start, chain: s.chain.push(b) })
        } else {
            None
        }
    }
}

/// How many leading blocks survive a rollback to `target` height: none if
/// the target lies below the start height, all if it lies at or above the
/// tip, and the blocks up to the target's height otherwise.
pub open spec fn keep_len(s: StoreView, target: int) -> int {
    if target < s.start {
        0
    } else if target - s.start + 1 >= s.chain.len() {
        s.chain.len() as int
    } else {
        target - s.start + 1
    }
}

/// The transactional relational mirror of the chain, reduced to its
/// observable content: a start height fixed at creation and the canonical
/// chain of block records, each owning its transactions.
pub struct Store {
    pub start_height: u64,
    pub blocks: Vec<Block>,
}

impl View for Store {
    type V = StoreView;

    open spec fn view(&self) -> StoreView {
        StoreView { start: self.start_height as int, chain: chain_view(self.blocks@) }
    }
}

impl Store {
    /// The chain invariant, established by `new` and preserved by every
    /// mutating method.
    pub open spec fn wf(&self) -> bool {
        view_wf(self@)
    }

    /// An empty mirror whose first block will sit at `start_height`.
    pub fn new(start_height: u64) -> (s: Store)
        ensures
            s.wf(),
            s@.start == start_height,
            s@.chain.len() == 0,
    {
        let s = Store { start_height, blocks: Vec::new() };
        proof {
            assert(chain_view(s.blocks@) =~= Seq::<BlockView>::empty());
        }
        s
    }

    /// The number of blocks currently mirrored.
    pub fn len(&self) -> (n: usize)
        ensures
            n == self@.chain.len(),
    {
        self.blocks.len()
    }

    /// The block at position `i` of the chain, lowest height first.
    pub fn get(&self, i: usize) -> (b: &Block)
        requires
            i < self@.chain.len(),
        ensures
            b@ == self@.chain[i as int],
    {
        &self.blocks[i]
    }

    /// The recorded tip: hash and height of the highest mirrored block,
    /// or `None` for an empty mirror.
    pub fn tip(&self) -> (r: Option<(BlockHash, u64)>)
        ensures
            r is None <==> self@.chain.len() == 0,
            r matches Some(t) ==> self@.chain.len() > 0 && t.0@ == self@.chain.last().hash
                && t.1 as int == self@.chain.last().height,
    {
        let n: usize = self.blocks.len();
        if n == 0 {
            None
        } else {
            Some((self.blocks[n - 1].hash.clone(), self.blocks[n - 1].height))
        }
    }

    /// Whether one of the first `upto` blocks carries hash `h`.
    pub fn contains_hash_below(&self, upto: usize, h: &BlockHash) -> (r: bool)
        requires
            upto <= self@.chain.len(),
        ensures
            r == exists|j: int| 0 <= j < upto && (#[trigger] self@.chain[j]).hash == h@,
    {
        let mut i: usize = 0;
        while i < upto
            invariant
                i <= upto,
                upto <= self@.chain.len(),
                forall|j: int| 0 <= j < i ==> (#[trigger] self@.chain[j]).hash != h@,
            decreases upto - i,
        {
            if bytes_eq(&self.blocks[i].hash.bytes, &h.bytes) {
                proof {
                    assert((#[trigger] self@.chain[i as int]).hash == h@);
                }
                return true;
            }
            i += 1;
        }
        false
    }

    /// The mirrored block carrying hash `h`, if any.
    pub fn block_by_hash(&self, h: &BlockHash) -> (r: Option<&Block>)
        ensures
            match r {
                Some(b) => exists|i: int|
                    0 <= i < self@.chain.len() && (#[trigger] self@.chain[i]) == b@ && b@.hash
                        == h@,
                None => forall|i: int|
                    0 <= i < self@.chain.len() ==> (#[trigger] self@.chain[i]).hash != h@,
            },
    {
        let n: usize = self.blocks.len();
        let mut i: usize = 0;
        while i < n
            invariant
                i <= n,
                n == self@.chain.len(),
                forall|j: int| 0 <= j < i ==> (#[trigger] self@.chain[j]).hash != h@,
            decreases n - i,
        {
            if bytes_eq(&self.blocks[i].hash.bytes, &h.bytes) {
                proof {
                    assert((#[trigger] self@.chain[i as int]) == self.blocks@[i as int]@);
                }
                return Some(&self.blocks[i]);
            }
            i += 1;
        }
        None
    }

    /// Whether the mirror holds block `b`'s hash at exactly `b`'s height:
    /// the planner's fork-point test.
    pub fn has_at_height(&self, b: &Block) -> (r: bool)
        ensures
            r == in_store(self@, b@),
    {
        if b.height < self.start_height {
            return false;
        }
        let idx: u64 = b.height - self.start_height;
        let n: usize = self.blocks.len();
        if idx >= n as u64 {
            return false;
        }
        bytes_eq(&self.blocks[idx as usize].hash.bytes, &b.hash.bytes)
    }

    /// The rollback applier: deletes every block record whose height is
    /// strictly greater than `target`, together with the transactions it
    /// owns, and leaves the recorded tip at `target` (or empty).
    pub fn delete_blocks_above(&mut self, target: u64)
        requires
            old(self).wf(),
        ensures
            final(self).wf(),
            final(self)@.start == old(self)@.start,
            final(self)@.chain == old(self)@.chain.take(keep_len(old(self)@, target as int)),
    {
        let ghost s0: StoreView = self@;
        let n: usize = self.blocks.len();
        let new_len: usize = if target < self.start_height {
            0
        } else {
            let idx: u64 = target - self.start_height;
            if idx >= n as u64 {
                n
            } else {
                idx as usize + 1
            }
        };
        self.blocks.truncate(new_len);
        proof {
            assert(new_len == keep_len(s0, target as int));
            assert(chain_view(self.blocks@) =~= s0.chain.take(keep_len(s0, target as int)));
        }
    }

    /// Empties the mirror entirely (rollback below the start height).
    pub fn clear(&mut self)
        ensures
            final(self).wf(),
            final(self)@.start == old(self)@.start,
            final(self)@.chain.len() == 0,
    {
        self.blocks.clear();
        proof {
            assert(chain_view(self.blocks@) =~= Seq::<BlockView>::empty());
        }
    }

    /// The ingestion applier: upserts one block record together with all
    /// the transactions it owns and advances the recorded tip, exactly as
    /// [`spec_apply_block`] describes; a block that fits neither as a
    /// tip replacement nor as a tip extension is refused unchanged.
    pub fn apply_block(&mut self, b: Block) -> (r: Result<(), SyncError>)
        requires
            old(self).wf(),
        ensures
            final(self).wf(),
            final(self)@.start == old(self)@.start,
            match spec_apply_block(old(self)@, b@) {
                Some(s2) => r is Ok && final(self)@ == s2,
                None => r matches Err(e) && e is StoreConstraintViolation && final(self)@
                    == old(self)@,
            },
    {
        let ghost s0: StoreView = self@;
        let n: usize = self.blocks.len();
        if n == 0 {
            if b.height == self.start_height {
                self.blocks.push(b);
                proof {
                    assert(chain_view(self.blocks@) =~= s0.chain.push(b@));
                    assert(s0.chain.push(b@) =~= seq![b@]);
                }
                Ok(())
            } else {
                Err(SyncError::StoreConstraintViolation)
            }
        } else if bytes_eq(&b.hash.bytes, &self.blocks[n - 1].hash.bytes) {
            if b.height == self.blocks[n - 1].height
                && bytes_eq(&b.prev_hash.bytes, &self.blocks[n - 1].prev_hash.bytes) {
                let ghost bv: BlockView = b@;
                self.blocks[n - 1] = b;
                proof {
                    assert(chain_view(self.blocks@) =~= s0.chain.update(n - 1, bv));
                }
                Ok(())
            } else {
                Err(SyncError::StoreConstraintViolation)
            }
        } else if self.blocks[n - 1].height < u64::MAX && b.height == self.blocks[n - 1].height + 1
            && bytes_eq(&b.prev_hash.bytes, &self.blocks[n - 1].hash.bytes)
            && !self.contains_hash_below(n, &b.hash) {
            let ghost bv: BlockView = b@;
            self.blocks.push(b);
            proof {
                assert(chain_view(self.blocks@) =~= s0.chain.push(bv));
            }
            Ok(())
        } else {
            Err(SyncError::StoreConstraintViolation)
        }
    }
}

} // verus!
