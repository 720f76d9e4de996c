//! What the clock shows when a run is over.

use crate::graph::{consumers, consumers_before};
use crate::model::{
    at_rest, blocked_before, complete, dispatch, earliest, finished, late, lemma_earliest,
    lemma_release, lemma_rest, lemma_start, lemma_step, potential, run, sound, start, step, Plan,
    Sim,
};
use crate::queue::precedes;
use vstd::prelude::*;

verus! {

/// The largest of the first `k` of `times`, or zero if there is none.
pub open spec fn peak_before(times: Seq<nat>, k: int) -> nat
    decreases k,
{
    if k <= 0 {
        0
    } else if times[k - 1] > peak_before(times, k - 1) {
        times[k - 1]
    } else {
        peak_before(times, k - 1)
    }
}

/// The largest of `times`, or zero if there is none.
pub open spec fn peak(times: Seq<nat>) -> nat {
    peak_before(times, times.len() as int)
}

/// The peak bounds every time, and is one of them unless it is zero.
pub proof fn lemma_peak(times: Seq<nat>, k: int)
    requires
        0 <= k <= times.len(),
    ensures
        forall|d: int| 0 <= d < k ==> #[trigger] times[d] <= peak_before(times, k),
        peak_before(times, k) == 0 || exists|d: int|
            0 <= d < k && #[trigger] times[d] == peak_before(times, k),
    decreases k,
{
    if k > 0 {
        lemma_peak(times, k - 1);
        let rest = peak_before(times, k - 1);
        if times[k - 1] > rest {
            assert(times[k - 1] == peak_before(times, k));
        } else if rest != 0 {
            let d = choose|d: int| 0 <= d < k - 1 && #[trigger] times[d] == rest;
            assert(times[d] == peak_before(times, k));
        }
    }
}

/// Device `d` has finished what it was given, or a flight is due at the
/// very time it becomes free.
pub open spec fn settled(s: Sim, d: int) -> bool {
    s.free_at[d] <= s.clock || exists|i: int|
        0 <= i < s.flying.len() && (#[trigger] s.flying[i]).finish == s.free_at[d]
}

/// The times of `s` fit together: no flight is due before the clock or
/// after its device becomes free, every device is settled, and the clock
/// has not passed the last device.
pub open spec fn timely(plan: Plan, s: Sim) -> bool {
    &&& forall|i: int|
        0 <= i < s.flying.len() ==> s.clock <= (#[trigger] s.flying[i]).finish
            <= s.free_at[plan.seat[s.flying[i].node]]
    &&& forall|d: int| 0 <= d < s.free_at.len() ==> #[trigger] settled(s, d)
    &&& (s.clock == 0 || exists|d: int| 0 <= d < s.free_at.len() && s.clock <= #[trigger] s.free_at[d])
}

proof fn lemma_dispatch_timely(plan: Plan, s: Sim)
    requires
        plan.wf(),
        sound(plan, s),
        timely(plan, s),
        s.ready.len() > 0,
    ensures
        timely(plan, dispatch(plan, s)),
{
    let next = dispatch(plan, s);
    let node = s.ready[0];
    let device = plan.seat[node];
    assert(0 <= node < plan.len());
    assert(0 <= device < plan.devices);
    let last = s.flying.len() as int;
    assert forall|i: int| 0 <= i < next.flying.len() implies next.clock <= (
    #[trigger] next.flying[i]).finish <= next.free_at[plan.seat[next.flying[i].node]] by {
        if i < last {
            assert(next.flying[i] == s.flying[i]);
            assert(0 <= s.flying[i].node < plan.len());
            assert(0 <= plan.seat[s.flying[i].node] < plan.devices);
        }
    }
    assert forall|d: int| 0 <= d < next.free_at.len() implies #[trigger] settled(next, d) by {
        if d == device {
            assert(next.flying[last].finish == next.free_at[d]);
        } else {
            assert(settled(s, d));
            if s.free_at[d] > s.clock {
                let i = choose|i: int|
                    0 <= i < s.flying.len() && (#[trigger] s.flying[i]).finish == s.free_at[d];
                assert(next.flying[i].finish == next.free_at[d]);
            }
        }
    }
    if s.clock != 0 {
        let d = choose|d: int| 0 <= d < s.free_at.len() && s.clock <= #[trigger] s.free_at[d];
        assert(next.clock <= next.free_at[d]);
    }
}

proof fn lemma_complete_timely(plan: Plan, s: Sim)
    requires
        plan.wf(),
        sound(plan, s),
        timely(plan, s),
        s.flying.len() > 0,
    ensures
        timely(plan, complete(plan, s)),
{
    lemma_earliest(s.flying, s.flying.len() as int);
    let e = earliest(s.flying);
    let done = s.flying[e];
    let mid = Sim { clock: done.finish, flying: s.flying.remove(e), ..s };
    let list = consumers(plan.wires, done.node);
    let next = complete(plan, s);
    assert forall|i: int| 0 <= i < mid.flying.len() implies 0 <= (#[trigger] mid.flying[i]).node
        < plan.len() && mid.clock <= mid.flying[i].finish
        <= mid.free_at[plan.seat[mid.flying[i].node]] by {
        let j = if i < e {
            i
        } else {
            i + 1
        };
        assert(mid.flying[i] == s.flying[j]);
        assert(precedes(done, s.flying[j]));
    }
    assert forall|d: int| 0 <= d < mid.free_at.len() implies #[trigger] settled(mid, d) by {
        assert(settled(s, d));
        if s.free_at[d] > s.clock {
            let i = choose|i: int|
                0 <= i < s.flying.len() && (#[trigger] s.flying[i]).finish == s.free_at[d];
            if i < e {
                assert(mid.flying[i] == s.flying[i]);
            } else if i > e {
                assert(mid.flying[i - 1] == s.flying[i]);
            }
        }
    }
    assert(0 <= done.node < plan.len());
    assert(0 <= plan.seat[done.node] < plan.devices);
    assert(mid.clock <= mid.free_at[plan.seat[done.node]]);
    lemma_release(plan, mid, list, list.len() as int);
    assert(next.clock == mid.clock && next.free_at == mid.free_at && next.flying == mid.flying);
    assert forall|d: int| 0 <= d < next.free_at.len() implies #[trigger] settled(next, d) by {
        assert(settled(mid, d));
    }
}

/// The times of a run fit together from its start to its end.
pub proof fn lemma_run_timely(plan: Plan, s: Sim, fuel: nat)
    requires
        plan.wf(),
        sound(plan, s),
        timely(plan, s),
    ensures
        timely(plan, run(plan, s, fuel)),
    decreases fuel,
{
    if fuel > 0 {
        lemma_step(plan, s);
        if s.ready.len() > 0 {
            lemma_dispatch_timely(plan, s);
        } else if s.flying.len() > 0 {
            lemma_complete_timely(plan, s);
        }
        lemma_run_timely(plan, step(plan, s), (fuel - 1) as nat);
    }
}

/// With as many steps as there is left to do, a run comes to rest.
pub proof fn lemma_run_comes_to_rest(plan: Plan, s: Sim, fuel: nat)
    requires
        plan.wf(),
        sound(plan, s),
        fuel >= potential(s),
    ensures
        at_rest(run(plan, s, fuel)),
        sound(plan, run(plan, s, fuel)),
    decreases fuel,
{
    if at_rest(s) {
        lemma_rest(plan, s, fuel);
    } else {
        lemma_step(plan, s);
        lemma_run_comes_to_rest(plan, step(plan, s), (fuel - 1) as nat);
    }
}

/// The run of a plan ends at rest, in a sound state whose times fit
/// together.
pub proof fn lemma_finished(plan: Plan)
    requires
        plan.wf(),
    ensures
        at_rest(finished(plan)),
        sound(plan, finished(plan)),
        timely(plan, finished(plan)),
{
    lemma_start(plan);
    lemma_run_comes_to_rest(plan, start(plan), 2 * plan.len());
    lemma_run_timely(plan, start(plan), 2 * plan.len());
}

/// When the run is over, the clock shows the time at which the last
/// device became free.
pub proof fn lemma_clock_is_peak(plan: Plan)
    requires
        plan.wf(),
    ensures
        finished(plan).clock == peak(finished(plan).free_at),
        late(finished(plan)) <==> peak(finished(plan).free_at) > u64::MAX,
{
    let end = finished(plan);
    lemma_finished(plan);
    lemma_peak(end.free_at, end.free_at.len() as int);
    assert forall|d: int| 0 <= d < end.free_at.len() implies #[trigger] end.free_at[d]
        <= end.clock by {
        assert(settled(end, d));
    }
}

/// The work given to device `d` by the first `k` nodes.
pub open spec fn load_before(plan: Plan, d: int, k: int) -> nat
    decreases k,
{
    if k <= 0 {
        0
    } else if plan.seat[k - 1] == d {
        load_before(plan, d, k - 1) + plan.cost[k - 1]
    } else {
        load_before(plan, d, k - 1)
    }
}

/// For each device, the work given to it by the first `k` nodes.
pub open spec fn loads_before(plan: Plan, k: int) -> Seq<nat> {
    Seq::new(plan.devices, |d: int| load_before(plan, d, k))
}

/// For each device, the sum of the costs of the nodes placed on it.
pub open spec fn loads(plan: Plan) -> Seq<nat> {
    loads_before(plan, plan.len() as int)
}

/// The sum of the first `k` of `costs`.
pub open spec fn total_before(costs: Seq<nat>, k: int) -> nat
    decreases k,
{
    if k <= 0 {
        0
    } else {
        total_before(costs, k - 1) + costs[k - 1]
    }
}

/// The sum of `costs`.
pub open spec fn total(costs: Seq<nat>) -> nat {
    total_before(costs, costs.len() as int)
}

/// No node of the plan waits for another.
pub open spec fn independent(plan: Plan) -> bool {
    forall|i: int| 0 <= i < plan.wires.len() ==> (#[trigger] plan.wires[i]).len() == 0
}

proof fn lemma_no_consumers(plan: Plan, u: int, i: int, j: int)
    requires
        independent(plan),
        0 <= i <= plan.wires.len(),
        j == 0,
    ensures
        consumers_before(plan.wires, u, i, j).len() == 0,
    decreases i,
{
    if i > 0 {
        assert(plan.wires[i - 1].len() == 0);
        lemma_no_consumers(plan, u, i - 1, 0);
    }
}

proof fn lemma_nothing_blocked(waiting: Seq<nat>, k: int)
    requires
        0 <= k <= waiting.len(),
        forall|i: int| 0 <= i < waiting.len() ==> #[trigger] waiting[i] == 0,
    ensures
        blocked_before(waiting, k) == 0,
        crate::model::idle_before(waiting, k).len() == k,
        forall|i: int| 0 <= i < k ==> #[trigger] crate::model::idle_before(waiting, k)[i] == i,
    decreases k,
{
    if k > 0 {
        lemma_nothing_blocked(waiting, k - 1);
    }
}

/// Once nothing is ready and nothing waits, flights complete one by one
/// and change neither the devices nor the counts.
proof fn lemma_drain(plan: Plan, s: Sim, fuel: nat)
    requires
        plan.wf(),
        independent(plan),
        sound(plan, s),
        s.ready.len() == 0,
    ensures
        run(plan, s, fuel).free_at == s.free_at,
        run(plan, s, fuel).waiting == s.waiting,
    decreases fuel,
{
    if fuel > 0 {
        lemma_step(plan, s);
        if s.flying.len() > 0 {
            lemma_earliest(s.flying, s.flying.len() as int);
            let e = earliest(s.flying);
            lemma_no_consumers(plan, s.flying[e].node, plan.wires.len() as int, 0);
        }
        lemma_drain(plan, step(plan, s), (fuel - 1) as nat);
    }
}

/// While independent nodes are dispatched in index order, each device
/// gathers the costs of its nodes.
proof fn lemma_fill(plan: Plan, s: Sim, k: int, fuel: nat)
    requires
        plan.wf(),
        independent(plan),
        sound(plan, s),
        0 <= k <= plan.len(),
        fuel >= plan.len() - k,
        s.clock == 0,
        s.free_at == loads_before(plan, k),
        s.ready.len() == plan.len() - k,
        forall|i: int| 0 <= i < s.ready.len() ==> #[trigger] s.ready[i] == k + i,
        forall|i: int| 0 <= i < s.waiting.len() ==> #[trigger] s.waiting[i] == 0,
    ensures
        run(plan, s, fuel).free_at == loads(plan),
        run(plan, s, fuel).waiting == s.waiting,
    decreases plan.len() - k,
{
    if k == plan.len() {
        lemma_drain(plan, s, fuel);
    } else {
        let next = dispatch(plan, s);
        lemma_step(plan, s);
        assert(s.ready[0] == k);
        assert(0 <= plan.seat[k] < plan.devices);
        assert(next.free_at =~= loads_before(plan, k + 1));
        assert forall|i: int| 0 <= i < next.ready.len() implies #[trigger] next.ready[i] == k + 1
            + i by {
            assert(next.ready[i] == s.ready[i + 1]);
        }
        lemma_fill(plan, next, k + 1, (fuel - 1) as nat);
    }
}

/// Independent nodes take as long as the device with the most work.
pub proof fn lemma_independent_nodes(plan: Plan)
    requires
        plan.wf(),
        independent(plan),
    ensures
        finished(plan).free_at == loads(plan),
        finished(plan).clock == peak(loads(plan)),
        blocked_before(finished(plan).waiting, finished(plan).waiting.len() as int) == 0,
{
    let s = start(plan);
    lemma_start(plan);
    lemma_nothing_blocked(s.waiting, plan.len() as int);
    assert(s.free_at =~= loads_before(plan, 0));
    lemma_fill(plan, s, 0, 2 * plan.len());
    lemma_clock_is_peak(plan);
}

/// On a single device the loads are the one sum of all costs.
pub proof fn lemma_single_load(plan: Plan, k: int)
    requires
        plan.wf(),
        plan.devices == 1,
        0 <= k <= plan.len(),
    ensures
        load_before(plan, 0, k) == total_before(plan.cost, k),
    decreases k,
{
    if k > 0 {
        assert(0 <= plan.seat[k - 1] < plan.devices);
        lemma_single_load(plan, k - 1);
    }
}

} // verus!
