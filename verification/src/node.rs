use vstd::prelude::*;
use crate::types::{Block, BlockHash, BlockView, bytes_eq, chain_view};

verus! {

/// The mathematical value of a [`NodeSnapshot`]: the node's best hash and
/// the headers the snapshot holds.
#[verifier::ext_equal]
pub ghost struct NodeModel {
    pub best: Seq<u8>,
    pub blocks: Seq<BlockView>,
}

/// The first block in `blocks` whose hash is `h`, if any.
pub open spec fn node_lookup(blocks: Seq<BlockView>, h: Seq<u8>) -> Option<BlockView>
    decreases blocks.len(),
{
    if blocks.len() == 0 {
        None
    } else if blocks[0].hash == h {
        Some(blocks[0])
    } else {
        node_lookup(blocks.drop_first(), h)
    }
}

/// The header reached by following `k` predecessor links from `h`
/// through the node view, if every step is present.
pub open spec fn ancestor(node: NodeModel, h: Seq<u8>, k: nat) -> Option<BlockView>
    decreases k,
{
    match node_lookup(node.blocks, h) {
        None => None,
        Some(b) => if k == 0 {
            Some(b)
        } else {
            ancestor(node, b.prev_hash, (k - 1) as nat)
        },
    }
}

/// A value snapshot of the node's answers for one reconciliation cycle:
/// the best hash it reported and every block fetched while walking
/// backward.  The surrounding runtime fills it from the node's query
/// interface; the synchronizer only reads it.
pub struct NodeSnapshot {
    pub best: BlockHash,
    pub blocks: Vec<Block>,
}

impl View for NodeSnapshot {
    type V = NodeModel;

    open spec fn view(&self) -> NodeModel {
        NodeModel { best: self.best@, blocks: chain_view(self.blocks@) }
    }
}

impl NodeSnapshot {
    /// The block recorded for hash `h`, if the snapshot holds one.
    pub fn find(&self, h: &BlockHash) -> (r: Option<&Block>)
        ensures
            match r {
                Some(b) => node_lookup(self@.blocks, h@) == Some(b@),
                None => node_lookup(self@.blocks, h@) is None,
            },
    {
        let n: usize = self.blocks.len();
        proof {
            assert(self@.blocks.skip(0) =~= self@.blocks);
        }
        let mut i: usize = 0;
        while i < n
            invariant
                i <= n,
                n == self@.blocks.len(),
                node_lookup(self@.blocks, h@) == node_lookup(self@.blocks.skip(i as int), h@),
            decreases n - i,
        {
            if bytes_eq(&self.blocks[i].hash.bytes, &h.bytes) {
                proof {
                    assert(self@.blocks.skip(i as int)[0] == self@.blocks[i as int]);
                }
                return Some(&self.blocks[i]);
            }
            proof {
                assert(self@.blocks.skip(i as int)[0] == self@.blocks[i as int]);
                assert(self@.blocks.skip(i as int).drop_first() =~= self@.blocks.skip(
                    i as int + 1,
                ));
            }
            i += 1;
        }
        proof {
            assert(self@.blocks.skip(n as int) =~= Seq::<BlockView>::empty());
        }
        None
    }
}

} // verus!
