use vstd::prelude::*;
use crate::errors::SyncError;
use crate::node::{NodeModel, NodeSnapshot, node_lookup};
use crate::store::{Store, StoreView, in_store, keep_len, spec_apply_block, view_wf};
use crate::types::{Block, BlockHash, BlockView, bytes_eq, chain_view};

verus! {

/// The spec-level value of an `Option<u64>`.
pub open spec fn opt_height(o: Option<u64>) -> Option<int> {
    match o {
        Some(h) => Some(h as int),
        None => None,
    }
}

/// The mathematical value of a [`Plan`].
#[verifier::ext_equal]
pub ghost struct PlanView {
    pub rollback_to: Option<int>,
    pub forward: Seq<BlockView>,
}

/// One cycle's reconciliation plan: roll the mirror back to height
/// `rollback_to` (to empty when `None`), then apply `forward` in
/// ascending height order.
pub struct Plan {
    pub rollback_to: Option<u64>,
    pub forward: Vec<Block>,
}

impl View for Plan {
    type V = PlanView;

    open spec fn view(&self) -> PlanView {
        PlanView { rollback_to: opt_height(self.rollback_to), forward: chain_view(self.forward@) }
    }
}

/// What the backward walk from one hash concludes: a plan whose fork
/// point was found, a walk that exceeded the depth bound, or a hash whose
/// header the node view does not hold.
pub ghost enum WalkOutcome {
    Found(PlanView),
    TooDeep,
    Missing(Seq<u8>),
}

/// The planner's reconciliation walk, stated as mathematics: from `cur`,
/// step backward through predecessor links.  A block whose hash the
/// mirror holds at the same height is the fork point; a block at or below
/// the mirror's start height ends the walk with a full replacement; more
/// than `max_depth` steps past the starting hash exceed the depth bound.
pub open spec fn spec_walk(
    node: NodeModel,
    store: StoreView,
    cur: Seq<u8>,
    steps: nat,
    max_depth: nat,
) -> WalkOutcome
    decreases max_depth + 1 - steps,
{
    if steps > max_depth {
        WalkOutcome::TooDeep
    } else {
        match node_lookup(node.blocks, cur) {
            None => WalkOutcome::Missing(cur),
            Some(b) => {
                if in_store(store, b) {
                    WalkOutcome::Found(
                        PlanView { rollback_to: Some(b.height), forward: Seq::empty() },
                    )
                } else if b.height <= store.start {
                    WalkOutcome::Found(PlanView { rollback_to: None, forward: seq![b] })
                } else {
                    match spec_walk(node, store, b.prev_hash, steps + 1, max_depth) {
                        WalkOutcome::Found(p) => WalkOutcome::Found(
                            PlanView { rollback_to: p.rollback_to, forward: p.forward.push(b) },
                        ),
                        WalkOutcome::TooDeep => WalkOutcome::TooDeep,
                        WalkOutcome::Missing(h) => WalkOutcome::Missing(h),
                    }
                }
            },
        }
    }
}

/// What one cycle plans: nothing but a tip confirmation when the mirror's
/// tip already equals the node's best hash, otherwise the backward walk
/// from the best hash.
pub open spec fn spec_plan(node: NodeModel, store: StoreView, max_depth: nat) -> WalkOutcome {
    if store.chain.len() > 0 && store.chain.last().hash == node.best {
        WalkOutcome::Found(
            PlanView { rollback_to: Some(store.chain.last().height), forward: Seq::empty() },
        )
    } else {
        spec_walk(node, store, node.best, 0, max_depth)
    }
}

fn walk_rec(
    store: &Store,
    node: &NodeSnapshot,
    cur: &BlockHash,
    steps: u64,
    max_depth: u64,
) -> (r: Result<Plan, SyncError>)
    requires
        store.wf(),
        max_depth < u64::MAX,
        steps <= max_depth + 1,
    ensures
        match spec_walk(node@, store@, cur@, steps as nat, max_depth as nat) {
            WalkOutcome::Found(pv) => r matches Ok(p) && p@ == pv,
            WalkOutcome::TooDeep => r matches Err(e) && e is ReorgTooDeep,
            WalkOutcome::Missing(h) => r matches Err(e) && e matches SyncError::NotFound(nh)
                && nh@ == h,
        },
    decreases max_depth + 1 - steps,
{
    if steps > max_depth {
        return Err(SyncError::ReorgTooDeep);
    }
    match node.find(cur) {
        None => Err(SyncError::NotFound(cur.clone())),
        Some(b) => {
            if store.has_at_height(b) {
                let p = Plan { rollback_to: Some(b.height), forward: Vec::new() };
                proof {
                    assert(p@.forward =~= Seq::<BlockView>::empty());
                }
                Ok(p)
            } else if b.height <= store.start_height {
                let mut forward: Vec<Block> = Vec::new();
                forward.push(b.clone());
                let p = Plan { rollback_to: None, forward };
                proof {
                    assert(p@.forward =~= seq![b@]);
                }
                Ok(p)
            } else {
                match walk_rec(store, node, &b.prev_hash, steps + 1, max_depth) {
                    Ok(p) => {
                        let ghost sub: PlanView = p@;
                        let mut p = p;
                        p.forward.push(b.clone());
                        proof {
                            assert(p@.forward =~= sub.forward.push(b@));
                        }
                        Ok(p)
                    },
                    Err(e) => Err(e),
                }
            }
        },
    }
}

/// The reconciliation planner: computes the minimal rollback-and-extend
/// plan that brings the mirror to the node's best hash, walking backward
/// at most `max_depth` steps past the best block.
pub fn compute_plan(store: &Store, node: &NodeSnapshot, max_depth: u64) -> (r: Result<
    Plan,
    SyncError,
>)
    requires
        store.wf(),
        max_depth < u64::MAX,
    ensures
        match spec_plan(node@, store@, max_depth as nat) {
            WalkOutcome::Found(pv) => r matches Ok(p) && p@ == pv,
            WalkOutcome::TooDeep => r matches Err(e) && e is ReorgTooDeep,
            WalkOutcome::Missing(h) => r matches Err(e) && e matches SyncError::NotFound(nh)
                && nh@ == h,
        },
{
    let tip = store.tip();
    match tip {
        Some(t) => {
            if bytes_eq(&t.0.bytes, &node.best.bytes) {
                let p = Plan { rollback_to: Some(t.1), forward: Vec::new() };
                proof {
                    assert(p@.forward =~= Seq::<BlockView>::empty());
                }
                return Ok(p);
            }
        },
        None => {},
    }
    walk_rec(store, node, &node.best, 0, max_depth)
}

/// How many leading mirror blocks a plan keeps.
pub open spec fn keep_n(s: StoreView, p: PlanView) -> int {
    match p.rollback_to {
        Some(h) => h - s.start + 1,
        None => 0,
    }
}

/// Whether a plan fits the mirror it is applied to: its fork point is a
/// mirrored height, its forward blocks chain contiguously upward from the
/// fork point (or from the start height after a full replacement), and no
/// forward block reuses a hash that survives the rollback.
pub open spec fn plan_applies(s: StoreView, p: PlanView) -> bool {
    &&& match p.rollback_to {
        Some(h) => {
            &&& s.start <= h < s.start + s.chain.len()
            &&& (p.forward.len() > 0 ==> p.forward[0].height == h + 1 && p.forward[0].prev_hash
                == s.chain[h - s.start].hash)
        },
        None => p.forward.len() > 0 ==> p.forward[0].height == s.start,
    }
    &&& forall|k: int|
        1 <= k < p.forward.len() ==> (#[trigger] p.forward[k]).height == p.forward[k - 1].height
            + 1 && p.forward[k].prev_hash == p.forward[k - 1].hash
    &&& forall|k1: int, k2: int|
        0 <= k1 < k2 < p.forward.len() ==> (#[trigger] p.forward[k1]).hash
            != (#[trigger] p.forward[k2]).hash
    &&& forall|j: int, k: int|
        0 <= j < keep_n(s, p) && 0 <= k < p.forward.len() ==> (#[trigger] s.chain[j]).hash
            != (#[trigger] p.forward[k]).hash
}

/// The chain an applicable plan leaves in the mirror: the kept prefix
/// followed by the forward blocks.
pub open spec fn spec_apply_plan(s: StoreView, p: PlanView) -> Seq<BlockView> {
    s.chain.take(keep_n(s, p)) + p.forward
}

fn plan_fits(store: &Store, plan: &Plan) -> (r: bool)
    requires
        store.wf(),
    ensures
        r == plan_applies(store@, plan@),
{
    let n: usize = plan.forward.len();
    let kept: usize = match plan.rollback_to {
        Some(h) => {
            if h < store.start_height {
                return false;
            }
            let idx: u64 = h - store.start_height;
            if idx >= store.len() as u64 {
                return false;
            }
            if n > 0 {
                let f0 = &plan.forward[0];
                if !(f0.height > 0 && f0.height - 1 == h) {
                    return false;
                }
                if !bytes_eq(&f0.prev_hash.bytes, &store.get(idx as usize).hash.bytes) {
                    return false;
                }
            }
            idx as usize + 1
        },
        None => {
            if n > 0 && plan.forward[0].height != store.start_height {
                return false;
            }
            0
        },
    };
    let mut k: usize = 1;
    while k < n
        invariant
            1 <= k,
            n == plan@.forward.len(),
            forall|i: int|
                1 <= i < k ==> (#[trigger] plan@.forward[i]).height == plan@.forward[i - 1].height
                    + 1 && plan@.forward[i].prev_hash == plan@.forward[i - 1].hash,
        decreases n - k,
    {
        let fk = &plan.forward[k];
        let fp = &plan.forward[k - 1];
        proof {
            assert(plan@.forward[k as int] == plan.forward@[k as int]@);
            assert(plan@.forward[k as int - 1] == plan.forward@[k as int - 1]@);
        }
        if !(fk.height > 0 && fk.height - 1 == fp.height) {
            return false;
        }
        if !bytes_eq(&fk.prev_hash.bytes, &fp.hash.bytes) {
            return false;
        }
        k += 1;
    }
    let mut k1: usize = 0;
    while k1 < n
        invariant
            k1 <= n,
            n == plan@.forward.len(),
            forall|i: int, j: int|
                0 <= i < j < n && i < k1 ==> (#[trigger] plan@.forward[i]).hash
                    != (#[trigger] plan@.forward[j]).hash,
        decreases n - k1,
    {
        let mut k2: usize = k1 + 1;
        while k2 < n
            invariant
                k1 < k2,
                k1 < n,
                n == plan@.forward.len(),
                forall|j: int|
                    k1 < j < k2 ==> (#[trigger] plan@.forward[j]).hash != plan@.forward[k1 as int].hash,
            decreases n - k2,
        {
            proof {
                assert(plan@.forward[k1 as int] == plan.forward@[k1 as int]@);
                assert(plan@.forward[k2 as int] == plan.forward@[k2 as int]@);
            }
            if bytes_eq(&plan.forward[k1].hash.bytes, &plan.forward[k2].hash.bytes) {
                return false;
            }
            k2 += 1;
        }
        k1 += 1;
    }
    let mut k: usize = 0;
    while k < n
        invariant
            k <= n,
            kept <= store@.chain.len(),
            kept as int == keep_n(store@, plan@),
            n == plan@.forward.len(),
            forall|j: int, i: int|
                0 <= j < kept && 0 <= i < k ==> (#[trigger] store@.chain[j]).hash
                    != (#[trigger] plan@.forward[i]).hash,
        decreases n - k,
    {
        proof {
            assert(plan@.forward[k as int] == plan.forward@[k as int]@);
        }
        if store.contains_hash_below(kept, &plan.forward[k].hash) {
            return false;
        }
        k += 1;
    }
    true
}

/// Applying the next forward block of a fitting plan always succeeds and
/// extends the chain by exactly that block.
proof fn lemma_step_applies(s0: StoreView, pv: PlanView, cur: StoreView, i: int, b: BlockView)
    requires
        view_wf(s0),
        view_wf(cur),
        plan_applies(s0, pv),
        0 <= i < pv.forward.len(),
        b == pv.forward[i],
        cur.start == s0.start,
        cur.chain == s0.chain.take(keep_n(s0, pv)) + pv.forward.take(i),
    ensures
        spec_apply_block(cur, b) is Some,
        spec_apply_block(cur, b).unwrap().chain == s0.chain.take(keep_n(s0, pv)) + pv.forward.take(
            i + 1,
        ),
        spec_apply_block(cur, b).unwrap().start == s0.start,
{
    let kn = keep_n(s0, pv);
    let kept = s0.chain.take(kn);
    assert(0 <= kn <= s0.chain.len());
    assert(cur.chain.len() == kn + i);
    if cur.chain.len() == 0 {
        assert(kn == 0 && i == 0);
        assert(pv.rollback_to is None);
        assert(b.height == s0.start);
        assert(spec_apply_block(cur, b) == Some(StoreView { start: cur.start, chain: seq![b] }));
        assert(seq![b] =~= kept + pv.forward.take(i + 1));
    } else {
        let t = cur.chain.last();
        if i == 0 {
            assert(pv.rollback_to is Some);
            let h = pv.rollback_to.unwrap();
            assert(t == s0.chain[kn - 1]);
            assert(t.height == s0.start + (kn - 1));
            assert(t.height == h);
            assert(b.height == t.height + 1);
            assert(b.prev_hash == t.hash);
        } else {
            assert(t == pv.forward[i - 1]);
            assert(b.height == t.height + 1);
            assert(b.prev_hash == t.hash);
        }
        assert forall|j: int| 0 <= j < cur.chain.len() implies (#[trigger] cur.chain[j]).hash
            != b.hash by {
            if j < kn {
                assert(cur.chain[j] == s0.chain[j]);
            } else {
                assert(cur.chain[j] == pv.forward[j - kn]);
            }
        }
        assert(b.hash != t.hash);
        assert(spec_apply_block(cur, b) == Some(
            StoreView { start: cur.start, chain: cur.chain.push(b) },
        ));
        assert(cur.chain.push(b) =~= kept + pv.forward.take(i + 1));
    }
}

/// Applies an entire plan to the mirror as one atomic unit: either the
/// plan fits and the whole rollback-and-extend sequence takes effect, or
/// the mirror is left exactly as it was.
pub fn apply_plan(store: &mut Store, plan: Plan) -> (r: Result<(), SyncError>)
    requires
        old(store).wf(),
    ensures
        final(store).wf(),
        final(store)@.start == old(store)@.start,
        r is Ok <==> plan_applies(old(store)@, plan@),
        r is Ok ==> final(store)@.chain == spec_apply_plan(old(store)@, plan@),
        r is Err ==> final(store)@ == old(store)@ && (r matches Err(e) && e
            is StoreConstraintViolation),
{
    let ghost s0: StoreView = store@;
    let ghost pv: PlanView = plan@;
    if !plan_fits(store, &plan) {
        return Err(SyncError::StoreConstraintViolation);
    }
    match plan.rollback_to {
        Some(h) => {
            store.delete_blocks_above(h);
            proof {
                assert(keep_len(s0, h as int) == keep_n(s0, pv));
            }
        },
        None => {
            store.clear();
            proof {
                assert(store@.chain =~= s0.chain.take(0));
            }
        },
    }
    let n: usize = plan.forward.len();
    let forward: Vec<Block> = plan.forward;
    proof {
        assert(pv.forward.take(0) =~= Seq::<BlockView>::empty());
        assert(store@.chain =~= s0.chain.take(keep_n(s0, pv)) + pv.forward.take(0));
    }
    let mut i: usize = 0;
    while i < n
        invariant
            store.wf(),
            store@.start == s0.start,
            view_wf(s0),
            i <= n,
            n == pv.forward.len(),
            chain_view(forward@) == pv.forward,
            plan_applies(s0, pv),
            store@.chain == s0.chain.take(keep_n(s0, pv)) + pv.forward.take(i as int),
        decreases n - i,
    {
        let b = forward[i].clone();
        proof {
            assert(b@ == pv.forward[i as int]);
            lemma_step_applies(s0, pv, store@, i as int, b@);
        }
        match store.apply_block(b) {
            Ok(_) => {},
            Err(_) => {
                proof {
                    assert(false);
                }
                return Err(SyncError::StoreConstraintViolation);
            },
        }
        i += 1;
    }
    proof {
        assert(pv.forward.take(n as int) =~= pv.forward);
    }
    Ok(())
}

} // verus!
