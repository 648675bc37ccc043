use vstd::prelude::*;
use crate::node::{NodeModel, ancestor, node_lookup};
use crate::plan::{
    PlanView, WalkOutcome, keep_n, plan_applies, spec_apply_plan, spec_plan, spec_walk,
};
use crate::store::{StoreView, in_store, spec_apply_block, view_wf};
use crate::types::BlockView;

verus! {

/// Ingestion is idempotent per block: applying a block that the mirror
/// just accepted applies again as a replacement in place and leaves the
/// mirror exactly as after the first application.
pub proof fn lemma_apply_block_idempotent(s: StoreView, b: BlockView)
    requires
        view_wf(s),
        spec_apply_block(s, b) is Some,
    ensures
        spec_apply_block(spec_apply_block(s, b).unwrap(), b) == spec_apply_block(s, b),
{
    let s1 = spec_apply_block(s, b).unwrap();
    assert(s1.chain.len() > 0);
    assert(s1.chain.last() == b);
    assert(s1.chain.update(s1.chain.len() - 1, b) =~= s1.chain);
    assert(spec_apply_block(s1, b) == Some(
        StoreView { start: s1.start, chain: s1.chain.update(s1.chain.len() - 1, b) },
    ));
    assert(StoreView { start: s1.start, chain: s1.chain.update(s1.chain.len() - 1, b) } =~= s1);
}

proof fn lemma_walk_too_deep(
    node: NodeModel,
    store: StoreView,
    cur: Seq<u8>,
    steps: nat,
    max_depth: nat,
)
    requires
        forall|k: nat|
            steps + k <= max_depth ==> ((#[trigger] ancestor(node, cur, k)) matches Some(b)
                && !in_store(store, b) && b.height > store.start),
    ensures
        spec_walk(node, store, cur, steps, max_depth) == WalkOutcome::TooDeep,
    decreases max_depth + 1 - steps,
{
    if steps <= max_depth {
        assert(ancestor(node, cur, 0) is Some);
        let b = node_lookup(node.blocks, cur).unwrap();
        assert(ancestor(node, cur, 0) == Some(b));
        assert forall|k: nat| steps + 1 + k <= max_depth implies ((#[trigger] ancestor(
            node,
            b.prev_hash,
            k,
        )) matches Some(b2) && !in_store(store, b2) && b2.height > store.start) by {
            assert(ancestor(node, cur, k + 1) == ancestor(node, b.prev_hash, k));
            assert(steps + (k + 1) <= max_depth);
            assert(ancestor(node, cur, k + 1) matches Some(b2) && !in_store(store, b2)
                && b2.height > store.start);
        }
        lemma_walk_too_deep(node, store, b.prev_hash, steps + 1, max_depth);
    }
}

/// The depth bound is honored: when the mirror's tip does not already
/// match the node's best hash, and every ancestor of the best hash within
/// `max_depth` predecessor steps is present in the node view yet absent
/// from the mirror (and above the mirror's start height), the cycle's
/// plan is `ReorgTooDeep`: the planner never guesses a fork point.
pub proof fn lemma_deep_reorg_fails(node: NodeModel, store: StoreView, max_depth: nat)
    requires
        store.chain.len() > 0 ==> store.chain.last().hash != node.best,
        forall|k: nat|
            k <= max_depth ==> ((#[trigger] ancestor(node, node.best, k)) matches Some(b)
                && !in_store(store, b) && b.height > store.start),
    ensures
        spec_plan(node, store, max_depth) == WalkOutcome::TooDeep,
{
    assert forall|k: nat| 0 + k <= max_depth implies ((#[trigger] ancestor(
        node,
        node.best,
        k,
    )) matches Some(b) && !in_store(store, b) && b.height > store.start) by {
        assert(ancestor(node, node.best, k) matches Some(b) && !in_store(store, b) && b.height
            > store.start);
    }
    lemma_walk_too_deep(node, store, node.best, 0, max_depth);
}

proof fn lemma_lookup_returns_queried_hash(blocks: Seq<BlockView>, h: Seq<u8>)
    ensures
        node_lookup(blocks, h) matches Some(b) ==> b.hash == h,
    decreases blocks.len(),
{
    if blocks.len() > 0 && blocks[0].hash != h {
        lemma_lookup_returns_queried_hash(blocks.drop_first(), h);
    }
}

/// A cycle converges: whenever the planner finds a plan and the plan
/// fits the mirror, the applied plan leaves a non-empty mirror whose tip
/// carries exactly the node's best hash.
pub proof fn lemma_cycle_reaches_best(
    node: NodeModel,
    store: StoreView,
    max_depth: nat,
    pv: PlanView,
)
    requires
        view_wf(store),
        spec_plan(node, store, max_depth) == WalkOutcome::Found(pv),
        plan_applies(store, pv),
    ensures
        spec_apply_plan(store, pv).len() > 0,
        spec_apply_plan(store, pv).last().hash == node.best,
{
    let applied = spec_apply_plan(store, pv);
    if store.chain.len() > 0 && store.chain.last().hash == node.best {
        // tip confirmation: the whole chain is kept and nothing follows
        assert(pv.forward.len() == 0);
        assert(applied =~= store.chain);
    } else {
        assert(spec_walk(node, store, node.best, 0, max_depth) == WalkOutcome::Found(pv));
        lemma_lookup_returns_queried_hash(node.blocks, node.best);
        let b = node_lookup(node.blocks, node.best).unwrap();
        if in_store(store, b) {
            // the best block is already mirrored: everything above it goes
            assert(pv.forward.len() == 0);
            assert(pv.rollback_to == Some(b.height));
            let kn = b.height - store.start + 1;
            assert(applied =~= store.chain.take(kn));
            assert(applied.last() == store.chain[b.height - store.start]);
        } else {
            // the walk pushed the best block last, whatever it found below
            assert(pv.forward.len() > 0 && pv.forward.last() == b);
            assert(applied.last() == pv.forward.last());
        }
    }
}

/// The node serves a header for hash `x`.
pub open spec fn serves(node: NodeModel, x: Seq<u8>) -> bool {
    node_lookup(node.blocks, x) is Some
}

/// The header the node serves for hash `x`.
pub open spec fn served(node: NodeModel, x: Seq<u8>) -> BlockView {
    node_lookup(node.blocks, x).unwrap()
}

/// A node view coherent with the mirror: every header it serves sits at
/// or above the start height, heights step down by exactly one along
/// predecessor links, and a hash the mirror also holds is served at the
/// mirror's height for it.
pub open spec fn node_coherent(node: NodeModel, store: StoreView) -> bool {
    &&& forall|x: Seq<u8>| #[trigger] serves(node, x) ==> served(node, x).height >= store.start
    &&& forall|x: Seq<u8>|
        #[trigger] serves(node, x) && serves(node, served(node, x).prev_hash) ==> served(
            node,
            x,
        ).height == served(node, served(node, x).prev_hash).height + 1
    &&& forall|x: Seq<u8>, i: int|
        #[trigger] serves(node, x) && 0 <= i < store.chain.len()
            && (#[trigger] store.chain[i]).hash == served(node, x).hash ==> in_store(
            store,
            served(node, x),
        )
}

proof fn lemma_walk_found_applies(
    node: NodeModel,
    store: StoreView,
    cur: Seq<u8>,
    steps: nat,
    max_depth: nat,
    pv: PlanView,
)
    requires
        view_wf(store),
        node_coherent(node, store),
        spec_walk(node, store, cur, steps, max_depth) == WalkOutcome::Found(pv),
    ensures
        plan_applies(store, pv),
        pv.forward.len() > 0 ==> pv.forward.last() == served(node, cur)
            && pv.forward.last().hash == cur,
        pv.forward.len() == 0 ==> (pv.rollback_to matches Some(h) && store.start <= h
            < store.start + store.chain.len() && store.chain[h - store.start].hash == cur && h
            == served(node, cur).height),
        forall|k: int|
            0 <= k < pv.forward.len() ==> serves(node, (#[trigger] pv.forward[k]).hash)
                && pv.forward[k] == served(node, pv.forward[k].hash) && !in_store(
                store,
                pv.forward[k],
            ),
        forall|k: int|
            0 <= k < pv.forward.len() ==> (#[trigger] pv.forward[k]).height == pv.forward[0].height
                + k,
    decreases max_depth + 1 - steps,
{
    assert(steps <= max_depth);
    assert(serves(node, cur));
    lemma_lookup_returns_queried_hash(node.blocks, cur);
    let b = served(node, cur);
    assert(b.hash == cur);
    if in_store(store, b) {
        assert(pv == PlanView { rollback_to: Some(b.height), forward: Seq::<BlockView>::empty() });
    } else if b.height <= store.start {
        assert(b.height == store.start);
        assert(pv == PlanView { rollback_to: None, forward: seq![b] });
        assert(keep_n(store, pv) == 0);
    } else {
        let sub = spec_walk(node, store, b.prev_hash, steps + 1, max_depth);
        assert(sub matches WalkOutcome::Found(subp) && pv == PlanView {
            rollback_to: subp.rollback_to,
            forward: subp.forward.push(b),
        });
        let subp = sub->Found_0;
        lemma_walk_found_applies(node, store, b.prev_hash, steps + 1, max_depth, subp);
        assert(serves(node, b.prev_hash)) by {
            lemma_walk_found_serves(node, store, b.prev_hash, steps + 1, max_depth, subp);
        }
        assert(b.height == served(node, b.prev_hash).height + 1);
        let n = subp.forward.len() as int;
        assert(pv.forward[n] == b);
        assert(forall|k: int| 0 <= k < n ==> pv.forward[k] == subp.forward[k]);
        if n == 0 {
            let h = subp.rollback_to->Some_0;
            assert(served(node, b.prev_hash).height == h);
            assert(b.height == h + 1);
            assert(b.prev_hash == store.chain[h - store.start].hash);
        } else {
            assert(subp.forward.last() == served(node, b.prev_hash));
            assert(b.height == subp.forward[n - 1].height + 1);
            assert(b.prev_hash == subp.forward[n - 1].hash);
        }
        // heights ascend by one from the first forward block
        assert forall|k: int| 0 <= k < pv.forward.len() implies (#[trigger] pv.forward[k]).height
            == pv.forward[0].height + k by {
            if k < n {
                assert(subp.forward[k].height == subp.forward[0].height + k);
            } else {
                if n > 0 {
                    assert(subp.forward[n - 1].height == subp.forward[0].height + (n - 1));
                }
            }
        }
        // no forward hash repeats: equal hashes would be the same served
        // header, and the heights all differ
        assert forall|k1: int, k2: int| 0 <= k1 < k2 < pv.forward.len() implies (
        #[trigger] pv.forward[k1]).hash != (#[trigger] pv.forward[k2]).hash by {
            if pv.forward[k1].hash == pv.forward[k2].hash {
                assert(pv.forward[k1] == served(node, pv.forward[k1].hash));
                assert(pv.forward[k2] == served(node, pv.forward[k2].hash));
                assert(pv.forward[k1].height == pv.forward[0].height + k1);
                assert(pv.forward[k2].height == pv.forward[0].height + k2);
            }
        }
        // no forward hash survives the rollback: a mirrored hash would
        // put the served header in the mirror
        assert forall|j: int, k: int|
            0 <= j < keep_n(store, pv) && 0 <= k < pv.forward.len() implies (#[trigger] store.chain[
            j]).hash != (#[trigger] pv.forward[k]).hash by {
            if store.chain[j].hash == pv.forward[k].hash {
                assert(serves(node, pv.forward[k].hash));
                assert(in_store(store, served(node, pv.forward[k].hash)));
                assert(!in_store(store, pv.forward[k]));
            }
        }
    }
}

proof fn lemma_walk_found_serves(
    node: NodeModel,
    store: StoreView,
    cur: Seq<u8>,
    steps: nat,
    max_depth: nat,
    pv: PlanView,
)
    requires
        spec_walk(node, store, cur, steps, max_depth) == WalkOutcome::Found(pv),
    ensures
        serves(node, cur),
{
}

/// Success is owed: against a node view coherent with the mirror, a
/// found plan always fits, so the cycle cannot fail with a constraint
/// violation: it either succeeds or reports a missing header or a
/// too-deep reorganization.
pub proof fn lemma_coherent_plan_applies(node: NodeModel, store: StoreView, max_depth: nat)
    requires
        view_wf(store),
        node_coherent(node, store),
    ensures
        spec_plan(node, store, max_depth) matches WalkOutcome::Found(pv) ==> plan_applies(
            store,
            pv,
        ),
{
    match spec_plan(node, store, max_depth) {
        WalkOutcome::Found(pv) => {
            if store.chain.len() > 0 && store.chain.last().hash == node.best {
                assert(pv.forward.len() == 0);
            } else {
                lemma_walk_found_applies(node, store, node.best, 0, max_depth, pv);
            }
        },
        _ => {},
    }
}

/// Whether block `i` of the chain references a stored block one height
/// below its own.
pub open spec fn linked_below(s: StoreView, i: int) -> bool {
    exists|j: int|
        0 <= j < s.chain.len() && (#[trigger] s.chain[j]).hash == s.chain[i].prev_hash
            && s.chain[i].height == s.chain[j].height + 1
}

/// The height invariant: every stored block except the first references
/// a stored block whose height is exactly one less than its own.
pub proof fn lemma_height_invariant(s: StoreView)
    requires
        view_wf(s),
    ensures
        forall|i: int| 1 <= i < s.chain.len() ==> #[trigger] linked_below(s, i),
{
    assert forall|i: int| 1 <= i < s.chain.len() implies #[trigger] linked_below(s, i) by {
        assert(0 <= i - 1 < s.chain.len() && (#[trigger] s.chain[i - 1]).hash
            == s.chain[i].prev_hash && s.chain[i].height == s.chain[i - 1].height + 1);
    }
}

} // verus!
