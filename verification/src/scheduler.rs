//! Projection of a concrete batch to the minimal plan the transport layer
//! needs: the selected request uids, in order, and the batch phase.

use vstd::prelude::*;

use crate::types::{Batch, BatchPhase, Req};

verus! {

/// The uids a batch selected, in batch order, plus the phase to run.
#[derive(Debug, Clone)]
pub struct SchedulerPlan {
    pub selected_uids: Vec<u64>,
    pub phase: BatchPhase,
}

/// The uid sequence of a request sequence, in order.
pub open spec fn uids_of(reqs: Seq<Req>) -> Seq<u64> {
    reqs.map_values(|r: Req| r.uid)
}

impl SchedulerPlan {
    pub fn from_batch(batch: &Batch) -> (plan: SchedulerPlan)
        ensures
            plan.selected_uids@ == uids_of(batch.reqs@),
            plan.phase == batch.phase,
    {
        Self::from_reqs(batch.reqs.as_slice(), batch.phase)
    }

    pub fn from_reqs(reqs: &[Req], phase: BatchPhase) -> (plan: SchedulerPlan)
        ensures
            plan.selected_uids@ == uids_of(reqs@),
            plan.phase == phase,
    {
        let mut selected_uids: Vec<u64> = Vec::new();
        let n = reqs.len();
        for i in 0..n
            invariant
                n == reqs@.len(),
                selected_uids@ == uids_of(reqs@.take(i as int)),
        {
            selected_uids.push(reqs[i].uid);
            proof {
                assert(reqs@.take(i + 1 as int).drop_last() =~= reqs@.take(i as int));
                assert(selected_uids@ =~= uids_of(reqs@.take(i + 1 as int)));
            }
        }
        proof {
            assert(reqs@.take(n as int) =~= reqs@);
        }
        SchedulerPlan { selected_uids, phase }
    }
}

} // verus!
