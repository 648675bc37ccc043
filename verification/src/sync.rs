use vstd::prelude::*;
use crate::errors::SyncError;
use crate::node::NodeSnapshot;
use crate::plan::{
    Plan, WalkOutcome, apply_plan, compute_plan, opt_height, plan_applies, spec_apply_plan,
    spec_plan,
};
use crate::store::{Store, StoreView};

verus! {

/// What one successful cycle did to the mirror: the height it rolled
/// back to (`None` for a full replacement) and how many blocks it
/// applied forward.
#[derive(Clone, Copy, Debug, PartialEq)]
pub struct CycleReport {
    pub rollback_to: Option<u64>,
    pub applied: u64,
}

/// One reconciliation cycle: plan against the node's reported view, then
/// apply the plan to the mirror as one atomic unit.
///
/// A cycle whose plan cannot be computed (missing header, reorg deeper
/// than `max_depth`) or does not fit the mirror fails without touching
/// the mirror at all; a no-op cycle (tip already equals the best hash)
/// reports zero applied blocks and leaves the mirror untouched.
///
/// The laws module relates the clauses below to the mirror's fate: a
/// successful cycle leaves the tip at the node's best hash
/// (`lemma_cycle_reaches_best`), and against a coherent node view a
/// found plan always fits (`lemma_coherent_plan_applies`).
pub fn run_once(store: &mut Store, node: &NodeSnapshot, max_depth: u64) -> (r: Result<
    CycleReport,
    SyncError,
>)
    requires
        old(store).wf(),
        max_depth < u64::MAX,
    ensures
        final(store).wf(),
        final(store)@.start == old(store)@.start,
        r is Err ==> final(store)@ == old(store)@,
        old(store)@.chain.len() > 0 && old(store)@.chain.last().hash == node@.best ==> (r matches
            Ok(rep) && rep.applied == 0) && final(store)@ == old(store)@,
        match spec_plan(node@, old(store)@, max_depth as nat) {
            WalkOutcome::Found(pv) => {
                if plan_applies(old(store)@, pv) {
                    (r matches Ok(rep) && opt_height(rep.rollback_to) == pv.rollback_to
                        && rep.applied == pv.forward.len()) && final(store)@.chain
                        == spec_apply_plan(old(store)@, pv)
                } else {
                    r matches Err(e) && e is StoreConstraintViolation
                }
            },
            WalkOutcome::TooDeep => r matches Err(e) && e is ReorgTooDeep,
            WalkOutcome::Missing(h) => r matches Err(e) && e matches SyncError::NotFound(nh)
                && nh@ == h,
        },
{
    let ghost s0: StoreView = store@;
    let plan: Plan = match compute_plan(store, node, max_depth) {
        Ok(p) => p,
        Err(e) => {
            return Err(e);
        },
    };
    let rollback_to: Option<u64> = plan.rollback_to;
    let applied: usize = plan.forward.len();
    match apply_plan(store, plan) {
        Ok(_) => {
            proof {
                if s0.chain.len() > 0 && s0.chain.last().hash == node@.best {
                    assert(store@.chain =~= s0.chain);
                    assert(store@ =~= s0);
                }
            }
            Ok(CycleReport { rollback_to, applied: applied as u64 })
        },
        Err(e) => Err(e),
    }
}

} // verus!
