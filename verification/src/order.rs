//! Two runs of one graph with different costs, compared step by step.

use crate::bookkeeping::{landed, lemma_landed_tidy, lemma_start_tidy, lemma_step_tidy, tidy};
use crate::graph::{consumers, ScheduleError};
use crate::model::{
    complete, dispatch, earliest, finished, late, lemma_earliest, lemma_release, outcome,
    release_before, run, start, step, Plan, Sim,
};
use vstd::prelude::*;

verus! {

/// The nodes that complete within `fuel` steps from `s`, in the order in
/// which they complete.
pub open spec fn retirements(plan: Plan, s: Sim, fuel: nat) -> Seq<int>
    decreases fuel,
{
    if fuel == 0 {
        Seq::empty()
    } else if s.ready.len() > 0 {
        retirements(plan, step(plan, s), (fuel - 1) as nat)
    } else if s.flying.len() > 0 {
        seq![s.flying[earliest(s.flying)].node] + retirements(
            plan,
            step(plan, s),
            (fuel - 1) as nat,
        )
    } else {
        Seq::empty()
    }
}

/// The nodes of `plan` in the order in which its run completes them.
pub open spec fn completion_order(plan: Plan) -> Seq<int> {
    retirements(plan, start(plan), 2 * plan.len())
}

/// `slow` is the problem `plan` with no node cheaper than it is there.
pub open spec fn costlier(plan: Plan, slow: Plan) -> bool {
    &&& slow.wires == plan.wires
    &&& slow.seat == plan.seat
    &&& slow.devices == plan.devices
    &&& slow.cost.len() == plan.cost.len()
    &&& forall|i: int| 0 <= i < plan.cost.len() ==> plan.cost[i] <= #[trigger] slow.cost[i]
}

/// `s` and `t` hold the same nodes in the same places, and no time in `s`
/// is later than the same time in `t`.
pub open spec fn no_later_than(s: Sim, t: Sim) -> bool {
    &&& s.ready == t.ready
    &&& s.waiting == t.waiting
    &&& s.flying.len() == t.flying.len()
    &&& forall|i: int|
        0 <= i < s.flying.len() ==> s.flying[i].node == (#[trigger] t.flying[i]).node
            && s.flying[i].finish <= t.flying[i].finish
    &&& s.clock <= t.clock
    &&& s.free_at.len() == t.free_at.len()
    &&& forall|d: int| 0 <= d < s.free_at.len() ==> s.free_at[d] <= #[trigger] t.free_at[d]
}

proof fn lemma_release_alike(s: Sim, t: Sim, list: Seq<int>, k: int)
    requires
        s.ready == t.ready,
        s.waiting == t.waiting,
    ensures
        release_before(s, list, k).ready == release_before(t, list, k).ready,
        release_before(s, list, k).waiting == release_before(t, list, k).waiting,
    decreases k,
{
    if k > 0 {
        lemma_release_alike(s, t, list, k - 1);
    }
}

proof fn lemma_step_alike(plan: Plan, slow: Plan, s: Sim, t: Sim)
    requires
        plan.wf(),
        slow.wf(),
        costlier(plan, slow),
        tidy(plan, s),
        tidy(slow, t),
        no_later_than(s, t),
        s.ready.len() == 0 && s.flying.len() > 0 ==> s.flying[earliest(s.flying)].node
            == t.flying[earliest(t.flying)].node,
    ensures
        no_later_than(step(plan, s), step(slow, t)),
{
    if s.ready.len() > 0 {
        let a = dispatch(plan, s);
        let b = dispatch(slow, t);
        let node = s.ready[0];
        assert(0 <= node < plan.len());
        assert(0 <= plan.seat[node] < plan.devices);
        assert(plan.cost[node] <= slow.cost[node]);
        assert forall|i: int| 0 <= i < a.flying.len() implies a.flying[i].node == (
        #[trigger] b.flying[i]).node && a.flying[i].finish <= b.flying[i].finish by {
            if i < s.flying.len() {
                assert(a.flying[i] == s.flying[i]);
                assert(b.flying[i] == t.flying[i]);
            }
        }
    } else if s.flying.len() > 0 {
        lemma_earliest(s.flying, s.flying.len() as int);
        lemma_earliest(t.flying, t.flying.len() as int);
        let e = earliest(s.flying);
        let f = earliest(t.flying);
        assert(s.flying[f].node == t.flying[f].node);
        assert(e == f) by {
            if e < f {
                assert(s.flying[e].node != s.flying[f].node);
            } else if f < e {
                assert(s.flying[f].node != s.flying[e].node);
            }
        }
        let a = landed(s);
        let b = landed(t);
        lemma_landed_tidy(plan, s);
        lemma_landed_tidy(slow, t);
        assert forall|i: int| 0 <= i < a.flying.len() implies a.flying[i].node == (
        #[trigger] b.flying[i]).node && a.flying[i].finish <= b.flying[i].finish by {
            let j = if i < e {
                i
            } else {
                i + 1
            };
            assert(a.flying[i] == s.flying[j]);
            assert(b.flying[i] == t.flying[j]);
        }
        let list = consumers(plan.wires, s.flying[e].node);
        lemma_release(plan, a, list, list.len() as int);
        lemma_release(slow, b, list, list.len() as int);
        lemma_release_alike(a, b, list, list.len() as int);
    }
}

/// Two runs that complete their nodes in the same order go through the
/// same steps, and the run with the lower costs is never behind.
pub proof fn lemma_lockstep(plan: Plan, slow: Plan, s: Sim, t: Sim, fuel: nat)
    requires
        plan.wf(),
        slow.wf(),
        costlier(plan, slow),
        tidy(plan, s),
        tidy(slow, t),
        no_later_than(s, t),
        retirements(plan, s, fuel) == retirements(slow, t, fuel),
    ensures
        no_later_than(run(plan, s, fuel), run(slow, t, fuel)),
    decreases fuel,
{
    if fuel > 0 {
        let rest = (fuel - 1) as nat;
        let a = retirements(plan, step(plan, s), rest);
        let b = retirements(slow, step(slow, t), rest);
        if s.ready.len() == 0 && s.flying.len() > 0 {
            let x = seq![s.flying[earliest(s.flying)].node] + a;
            let y = seq![t.flying[earliest(t.flying)].node] + b;
            assert(x == y);
            assert(x[0] == y[0]);
            assert(a =~= x.skip(1));
            assert(b =~= y.skip(1));
        }
        lemma_step_alike(plan, slow, s, t);
        lemma_step_tidy(plan, s);
        lemma_step_tidy(slow, t);
        lemma_lockstep(plan, slow, step(plan, s), step(slow, t), rest);
    }
}

/// Raising costs never shortens a run, as long as the nodes still
/// complete in the same order.
pub proof fn lemma_costlier_plan(plan: Plan, slow: Plan)
    requires
        plan.wf(),
        slow.wf(),
        costlier(plan, slow),
        completion_order(plan) == completion_order(slow),
    ensures
        no_later_than(finished(plan), finished(slow)),
        outcome(slow) == Err::<nat, ScheduleError>(ScheduleError::Overflow) || match outcome(plan) {
            Ok(time) => outcome(slow) is Ok && time <= outcome(slow)->Ok_0,
            Err(e) => outcome(slow) == Err::<nat, ScheduleError>(e),
        },
{
    lemma_start_tidy(plan);
    lemma_start_tidy(slow);
    let s = start(plan);
    let t = start(slow);
    assert(s.waiting =~= t.waiting);
    assert(s.free_at =~= t.free_at);
    lemma_lockstep(plan, slow, s, t, 2 * plan.len());
    let a = finished(plan);
    let b = finished(slow);
    if late(a) && a.clock <= u64::MAX {
        let d = choose|d: int| 0 <= d < a.free_at.len() && #[trigger] a.free_at[d] > u64::MAX;
        assert(b.free_at[d] > u64::MAX);
    }
}

} // verus!
