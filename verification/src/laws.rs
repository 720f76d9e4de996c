//! What holds of every estimate that a [`TensorFlowLikeScheduler`] gives.

use crate::bookkeeping::{lemma_run_tidy, lemma_start_tidy, tidy};
use crate::counting::{counted, lemma_run_counted, lemma_start_counted};
use crate::cycles::{has_cycle, lemma_blocked_iff_cycle};
use crate::graph::{
    dangling, first_dangling, first_misplaced, seating, wiring, ScheduleError, Target, TargetView,
};
use crate::model::{dispatch, finished, late, outcome, run, start, Plan, Sim};
use crate::order::{completion_order, costlier, lemma_costlier_plan};
use crate::scheduler::{
    cost_of, forecast, lemma_plan_wf, measured, plan_of, Profile, Scheduler,
    TensorFlowLikeScheduler,
};
use crate::single::lemma_one_device;
use crate::timing::{
    independent, lemma_clock_is_peak, lemma_independent_nodes, lemma_single_load, load_before,
    loads, peak, peak_before, total, total_before,
};
use vstd::arithmetic::div_mod::{lemma_div_is_ordered, lemma_div_nonincreasing};
use vstd::prelude::*;

verus! {

/// Evaluating is a function of what is asked: schedulers that hold the
/// same profile give the same estimate for targets that hold the same
/// graph and devices.
pub proof fn law_same_question_same_answer(
    a: TensorFlowLikeScheduler,
    b: TensorFlowLikeScheduler,
    s: Target,
    t: Target,
)
    requires
        a@ == b@,
        s@ == t@,
    ensures
        a.estimate(s@) == b.estimate(t@),
{
}

/// An estimate that is a time is the time at which the last device
/// becomes free, and it fits in 64 bits.
pub proof fn law_estimate_is_when_devices_are_free(profile: Profile, t: TargetView)
    requires
        forecast(profile, t) is Ok,
    ensures
        forecast(profile, t)->Ok_0 as nat == peak(finished(plan_of(profile, t)).free_at),
        outcome(plan_of(profile, t)) == Ok::<nat, ScheduleError>(forecast(profile, t)->Ok_0 as nat),
{
    lemma_plan_wf(profile, t);
    lemma_clock_is_peak(plan_of(profile, t));
}

/// In every state of a run each node is in one place only: no node is
/// ready twice or in flight twice, none is both, and none of them still
/// waits for an input. And each node waits for exactly as many inputs as
/// it has that are not done.
pub proof fn law_every_node_is_in_one_place(plan: Plan, steps: nat)
    requires
        plan.wf(),
    ensures
        tidy(plan, run(plan, start(plan), steps)),
        counted(plan, run(plan, start(plan), steps)),
{
    lemma_start_tidy(plan);
    lemma_start_counted(plan);
    lemma_run_tidy(plan, start(plan), steps);
    lemma_run_counted(plan, start(plan), steps);
}

/// No node of `t` has an input.
pub open spec fn unconnected(t: TargetView) -> bool {
    forall|i: int| 0 <= i < t.nodes.len() ==> (#[trigger] t.nodes[i]).input.len() == 0
}

/// Nodes without inputs take as long as the busiest device: the estimate
/// is the largest, over the devices, of the summed costs of the nodes
/// placed on it.
pub proof fn law_independent_nodes(profile: Profile, t: TargetView)
    requires
        unconnected(t),
        first_misplaced(t) is None,
    ensures
        forecast(profile, t) == (if peak(loads(plan_of(profile, t))) > u64::MAX {
            Err::<u64, ScheduleError>(ScheduleError::Overflow)
        } else {
            Ok::<u64, ScheduleError>(peak(loads(plan_of(profile, t))) as u64)
        }),
{
    let plan = plan_of(profile, t);
    assert forall|i: int, j: int| !dangling(t, i, j) by {
        if 0 <= i < t.nodes.len() {
            assert(t.nodes[i].input.len() == 0);
        }
    }
    lemma_plan_wf(profile, t);
    assert(independent(plan));
    lemma_independent_nodes(plan);
    lemma_clock_is_peak(plan);
}

/// Nodes without inputs on a single device take the sum of their costs.
pub proof fn law_independent_nodes_on_one_device(profile: Profile, t: TargetView)
    requires
        unconnected(t),
        first_misplaced(t) is None,
        t.devices.len() == 1,
    ensures
        forecast(profile, t) == (if total(plan_of(profile, t).cost) > u64::MAX {
            Err::<u64, ScheduleError>(ScheduleError::Overflow)
        } else {
            Ok::<u64, ScheduleError>(total(plan_of(profile, t).cost) as u64)
        }),
{
    let plan = plan_of(profile, t);
    law_independent_nodes(profile, t);
    lemma_plan_wf(profile, t);
    lemma_single_load(plan, plan.len() as int);
    assert(peak_before(loads(plan), 0) == 0);
    assert(peak(loads(plan)) == loads(plan)[0]);
}

/// On a single device a graph without a cycle takes the sum of the costs
/// of its nodes, whatever its edges: the device never pauses.
pub proof fn law_one_device_adds_up(profile: Profile, t: TargetView)
    requires
        t.devices.len() == 1,
        first_dangling(t) is None,
        first_misplaced(t) is None,
        !has_cycle(wiring(t)),
    ensures
        forecast(profile, t) == (if total(plan_of(profile, t).cost) > u64::MAX {
            Err::<u64, ScheduleError>(ScheduleError::Overflow)
        } else {
            Ok::<u64, ScheduleError>(total(plan_of(profile, t).cost) as u64)
        }),
{
    let plan = plan_of(profile, t);
    lemma_plan_wf(profile, t);
    lemma_one_device(plan);
    lemma_clock_is_peak(plan);
}

/// A node without a measured duration costs nothing: when it is
/// dispatched, its device becomes free at the later of the time at which
/// it was free before and the clock.
pub proof fn law_unmeasured_node_costs_nothing(profile: Profile, t: TargetView, s: Sim)
    requires
        s.ready.len() > 0,
        0 <= s.ready[0] < t.nodes.len(),
        0 <= seating(t)[s.ready[0]] < s.free_at.len(),
        measured(profile, t.nodes[s.ready[0]]) is None,
    ensures
        cost_of(profile, t.nodes[s.ready[0]]) == 0,
        ({
            let device = seating(t)[s.ready[0]];
            let after = dispatch(plan_of(profile, t), s).free_at[device];
            after == (if s.free_at[device] >= s.clock {
                s.free_at[device]
            } else {
                s.clock
            })
        }),
{
}

/// `slow` measures every operation at least as long as `fast` does.
pub open spec fn no_faster(fast: Profile, slow: Profile) -> bool {
    &&& slow.copies == fast.copies
    &&& slow.table.dom() == fast.table.dom()
    &&& forall|name: Seq<char>|
        fast.table.contains_key(name) ==> fast.table[name] <= #[trigger] slow.table[name]
}

/// Under a profile that is no faster, no node costs less.
pub proof fn lemma_costlier_profile(fast: Profile, slow: Profile, t: TargetView)
    requires
        fast.copies > 0,
        no_faster(fast, slow),
    ensures
        costlier(plan_of(fast, t), plan_of(slow, t)),
{
    let a = plan_of(fast, t);
    let b = plan_of(slow, t);
    assert forall|i: int| 0 <= i < a.cost.len() implies a.cost[i] <= #[trigger] b.cost[i] by {
        match t.nodes[i].origin {
            Some(origin) => {
                if fast.table.contains_key(origin) {
                    assert(slow.table.dom().contains(origin));
                    let x = fast.table[origin] as int;
                    let y = slow.table[origin] as int;
                    let c = fast.copies as int;
                    lemma_div_is_ordered(x, y, c);
                    lemma_div_nonincreasing(x, c);
                    lemma_div_nonincreasing(y, c);
                    assert(0 <= x / c) by (nonlinear_arith)
                        requires
                            0 <= x,
                            0 < c,
                    ;
                    assert(0 <= y / c) by (nonlinear_arith)
                        requires
                            0 <= y,
                            0 < c,
                    ;
                } else {
                    assert(!slow.table.dom().contains(origin));
                }
            },
            None => {},
        }
    }
}

/// Longer measured durations never give a shorter estimate, as long as
/// the nodes still complete in the same order. (Where the order changes,
/// a device may take its nodes in a better order than before.)
pub proof fn law_longer_durations_same_order(fast: Profile, slow: Profile, t: TargetView)
    requires
        fast.copies > 0,
        no_faster(fast, slow),
        completion_order(plan_of(fast, t)) == completion_order(plan_of(slow, t)),
    ensures
        forecast(slow, t) == Err::<u64, ScheduleError>(ScheduleError::Overflow) || match forecast(
            fast,
            t,
        ) {
            Ok(time) => forecast(slow, t) is Ok && time <= forecast(slow, t)->Ok_0,
            Err(e) => forecast(slow, t) == Err::<u64, ScheduleError>(e),
        },
{
    if first_dangling(t) is None && first_misplaced(t) is None {
        lemma_plan_wf(fast, t);
        lemma_plan_wf(slow, t);
        lemma_costlier_profile(fast, slow, t);
        lemma_costlier_plan(plan_of(fast, t), plan_of(slow, t));
    }
}

proof fn lemma_total_rises(a: Seq<nat>, b: Seq<nat>, k: int)
    requires
        a.len() == b.len(),
        0 <= k <= a.len(),
        forall|i: int| 0 <= i < a.len() ==> a[i] <= #[trigger] b[i],
    ensures
        total_before(a, k) <= total_before(b, k),
    decreases k,
{
    if k > 0 {
        lemma_total_rises(a, b, k - 1);
        assert(a[k - 1] <= b[k - 1]);
    }
}

proof fn lemma_load_rises(plan: Plan, slow: Plan, d: int, k: int)
    requires
        costlier(plan, slow),
        0 <= k <= plan.cost.len(),
    ensures
        load_before(plan, d, k) <= load_before(slow, d, k),
    decreases k,
{
    if k > 0 {
        lemma_load_rises(plan, slow, d, k - 1);
        assert(plan.cost[k - 1] <= slow.cost[k - 1]);
    }
}

proof fn lemma_peak_rises(a: Seq<nat>, b: Seq<nat>, k: int)
    requires
        a.len() == b.len(),
        0 <= k <= a.len(),
        forall|i: int| 0 <= i < a.len() ==> a[i] <= #[trigger] b[i],
    ensures
        peak_before(a, k) <= peak_before(b, k),
    decreases k,
{
    if k > 0 {
        lemma_peak_rises(a, b, k - 1);
        assert(a[k - 1] <= b[k - 1]);
    }
}

/// On a single device, longer measured durations never give a shorter
/// estimate for a graph without a cycle.
pub proof fn law_longer_durations_on_one_device(fast: Profile, slow: Profile, t: TargetView)
    requires
        fast.copies > 0,
        no_faster(fast, slow),
        t.devices.len() == 1,
        first_dangling(t) is None,
        first_misplaced(t) is None,
        !has_cycle(wiring(t)),
    ensures
        forecast(slow, t) == Err::<u64, ScheduleError>(ScheduleError::Overflow) || (forecast(
            fast,
            t,
        ) is Ok && forecast(slow, t) is Ok && forecast(fast, t)->Ok_0 <= forecast(slow, t)->Ok_0),
{
    let a = plan_of(fast, t);
    let b = plan_of(slow, t);
    law_one_device_adds_up(fast, t);
    law_one_device_adds_up(slow, t);
    lemma_costlier_profile(fast, slow, t);
    lemma_total_rises(a.cost, b.cost, a.cost.len() as int);
}

/// Longer measured durations never give a shorter estimate for nodes
/// without inputs.
pub proof fn law_longer_durations_of_independent_nodes(
    fast: Profile,
    slow: Profile,
    t: TargetView,
)
    requires
        fast.copies > 0,
        no_faster(fast, slow),
        unconnected(t),
        first_misplaced(t) is None,
    ensures
        forecast(slow, t) == Err::<u64, ScheduleError>(ScheduleError::Overflow) || (forecast(
            fast,
            t,
        ) is Ok && forecast(slow, t) is Ok && forecast(fast, t)->Ok_0 <= forecast(slow, t)->Ok_0),
{
    let a = plan_of(fast, t);
    let b = plan_of(slow, t);
    law_independent_nodes(fast, t);
    law_independent_nodes(slow, t);
    lemma_costlier_profile(fast, slow, t);
    assert forall|d: int| 0 <= d < loads(a).len() implies loads(a)[d] <= #[trigger] loads(b)[d] by {
        lemma_load_rises(a, b, d, a.cost.len() as int);
    }
    lemma_peak_rises(loads(a), loads(b), loads(a).len() as int);
}

/// A graph in which some node waits, directly or through others, for
/// itself never gets a time for an estimate.
pub proof fn law_cycle_is_an_error(profile: Profile, t: TargetView)
    requires
        has_cycle(wiring(t)),
    ensures
        forecast(profile, t) is Err,
{
    if first_dangling(t) is None && first_misplaced(t) is None {
        lemma_plan_wf(profile, t);
        lemma_blocked_iff_cycle(plan_of(profile, t));
    }
}

/// Only a graph in which some node waits for itself is reported as
/// cyclic; and where every name resolves and every time fits, such a
/// graph is.
pub proof fn law_cycle_error_means_cycle(profile: Profile, t: TargetView)
    ensures
        forecast(profile, t) == Err::<u64, ScheduleError>(ScheduleError::Cycle) <==> {
            &&& first_dangling(t) is None
            &&& first_misplaced(t) is None
            &&& !late(finished(plan_of(profile, t)))
            &&& has_cycle(wiring(t))
        },
{
    if first_dangling(t) is None && first_misplaced(t) is None {
        lemma_plan_wf(profile, t);
        lemma_blocked_iff_cycle(plan_of(profile, t));
    }
}

} // verus!
