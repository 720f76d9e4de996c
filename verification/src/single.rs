//! One device: the nodes run one after the other without a pause, so the
//! run takes the sum of their costs.

use crate::bookkeeping::{
    landed, lemma_idle_holds, lemma_landed_tidy, lemma_start_tidy, lemma_step_tidy, tidy,
};
use crate::counting::queued;
use crate::cycles::{has_cycle, lemma_blocked_iff_cycle};
use crate::graph::consumers;
use crate::model::{
    blocked, blocked_before, dispatch, earliest, finished, idle_before, lemma_earliest,
    lemma_release, lemma_start, lemma_step, release_before, run, start, step, unlock, Plan, Sim,
};
use crate::timing::{
    lemma_clock_is_peak, lemma_finished, lemma_run_timely, peak, peak_before, timely, total,
    total_before,
};
use vstd::prelude::*;

verus! {

/// Node `v` has been handed to its device: it is in flight or done.
pub open spec fn started(s: Sim, v: int) -> bool {
    0 <= v < s.waiting.len() && s.waiting[v] == 0 && !queued(s, v)
}

/// The summed costs of the nodes below `k` that have been started.
pub open spec fn spent_before(plan: Plan, s: Sim, k: int) -> nat
    decreases k,
{
    if k <= 0 {
        0
    } else if started(s, k - 1) {
        spent_before(plan, s, k - 1) + plan.cost[k - 1]
    } else {
        spent_before(plan, s, k - 1)
    }
}

proof fn lemma_spent_same(plan: Plan, s: Sim, t: Sim, k: int)
    requires
        forall|x: int| #[trigger] started(s, x) == started(t, x),
    ensures
        spent_before(plan, s, k) == spent_before(plan, t, k),
    decreases k,
{
    if k > 0 {
        lemma_spent_same(plan, s, t, k - 1);
        assert(started(s, k - 1) == started(t, k - 1));
    }
}

proof fn lemma_spent_more(plan: Plan, s: Sim, t: Sim, v: int, k: int)
    requires
        forall|x: int| x != v ==> #[trigger] started(s, x) == started(t, x),
        !started(s, v),
        started(t, v),
    ensures
        spent_before(plan, t, k) == spent_before(plan, s, k) + (if 0 <= v < k {
            plan.cost[v]
        } else {
            0
        }),
    decreases k,
{
    if k > 0 {
        lemma_spent_more(plan, s, t, v, k - 1);
        if k - 1 != v {
            assert(started(s, k - 1) == started(t, k - 1));
        }
    }
}

proof fn lemma_spent_all(plan: Plan, s: Sim, k: int)
    requires
        forall|x: int| 0 <= x < k ==> #[trigger] started(s, x),
    ensures
        spent_before(plan, s, k) == total_before(plan.cost, k),
    decreases k,
{
    if k > 0 {
        lemma_spent_all(plan, s, k - 1);
        assert(started(s, k - 1));
    }
}

proof fn lemma_unlock_started(s: Sim, w: int, x: int)
    ensures
        started(unlock(s, w), x) == started(s, x),
{
    let next = unlock(s, w);
    if 0 <= w < s.waiting.len() && s.waiting[w] > 0 {
        if x == w {
            if s.waiting[w] == 1 {
                assert(next.ready[s.ready.len() as int] == w);
            }
        } else {
            if queued(s, x) {
                let i = choose|i: int| 0 <= i < s.ready.len() && #[trigger] s.ready[i] == x;
                assert(next.ready[i] == x);
            }
            if queued(next, x) {
                let i = choose|i: int| 0 <= i < next.ready.len() && #[trigger] next.ready[i] == x;
                if i < s.ready.len() {
                    assert(s.ready[i] == x);
                } else {
                    assert(next.ready[i] == w);
                }
            }
        }
    }
}

proof fn lemma_release_started(s: Sim, list: Seq<int>, k: int, x: int)
    ensures
        started(release_before(s, list, k), x) == started(s, x),
    decreases k,
{
    if k > 0 {
        lemma_release_started(s, list, k - 1, x);
        lemma_unlock_started(release_before(s, list, k - 1), list[k - 1], x);
    }
}

proof fn lemma_dispatch_started(plan: Plan, s: Sim, x: int)
    requires
        tidy(plan, s),
        s.ready.len() > 0,
    ensures
        !started(s, s.ready[0]),
        started(dispatch(plan, s), s.ready[0]),
        x != s.ready[0] ==> started(dispatch(plan, s), x) == started(s, x),
{
    let next = dispatch(plan, s);
    let node = s.ready[0];
    assert(queued(s, node));
    assert(s.waiting[s.ready[0]] == 0);
    if queued(next, node) {
        let i = choose|i: int| 0 <= i < next.ready.len() && #[trigger] next.ready[i] == node;
        assert(next.ready[i] == s.ready[i + 1]);
        assert(s.ready[0] != s.ready[i + 1]);
    }
    if x != node {
        if queued(s, x) {
            let i = choose|i: int| 0 <= i < s.ready.len() && #[trigger] s.ready[i] == x;
            assert(next.ready[i - 1] == x);
        }
        if queued(next, x) {
            let i = choose|i: int| 0 <= i < next.ready.len() && #[trigger] next.ready[i] == x;
            assert(s.ready[i + 1] == x);
        }
    }
}

/// On a single device, the device is busy until it has run everything
/// that was started, and the clock has not passed that time.
pub open spec fn busy(plan: Plan, s: Sim) -> bool {
    &&& s.free_at.len() == 1
    &&& s.free_at[0] == spent_before(plan, s, plan.len() as int)
    &&& s.clock <= s.free_at[0]
}

proof fn lemma_step_busy(plan: Plan, s: Sim)
    requires
        plan.wf(),
        plan.devices == 1,
        tidy(plan, s),
        timely(plan, s),
        busy(plan, s),
    ensures
        busy(plan, step(plan, s)),
{
    let next = step(plan, s);
    let n = plan.len() as int;
    lemma_step(plan, s);
    if s.ready.len() > 0 {
        let node = s.ready[0];
        assert(0 <= node < n);
        assert(0 <= plan.seat[node] < plan.devices);
        assert forall|x: int| x != node implies #[trigger] started(s, x) == started(next, x) by {
            lemma_dispatch_started(plan, s, x);
        }
        lemma_dispatch_started(plan, s, node);
        lemma_spent_more(plan, s, next, node, n);
    } else if s.flying.len() > 0 {
        lemma_earliest(s.flying, s.flying.len() as int);
        lemma_landed_tidy(plan, s);
        let e = earliest(s.flying);
        let mid = landed(s);
        let list = consumers(plan.wires, s.flying[e].node);
        lemma_release(plan, mid, list, list.len() as int);
        assert(0 <= s.flying[e].node < n);
        assert(0 <= plan.seat[s.flying[e].node] < plan.devices);
        assert(s.flying[e].finish <= s.free_at[plan.seat[s.flying[e].node]]);
        assert forall|x: int| #[trigger] started(s, x) == started(next, x) by {
            assert(queued(mid, x) == queued(s, x));
            lemma_release_started(mid, list, list.len() as int, x);
        }
        lemma_spent_same(plan, s, next, n);
    }
}

proof fn lemma_run_busy(plan: Plan, s: Sim, fuel: nat)
    requires
        plan.wf(),
        plan.devices == 1,
        tidy(plan, s),
        timely(plan, s),
        busy(plan, s),
    ensures
        busy(plan, run(plan, s, fuel)),
    decreases fuel,
{
    if fuel > 0 {
        lemma_step(plan, s);
        lemma_step_tidy(plan, s);
        lemma_run_timely(plan, s, 1);
        assert(run(plan, s, 1) == step(plan, s)) by {
            assert(run(plan, step(plan, s), 0) == step(plan, s));
        }
        lemma_step_busy(plan, s);
        lemma_run_busy(plan, step(plan, s), (fuel - 1) as nat);
    }
}

proof fn lemma_none_blocked(waiting: Seq<nat>, k: int, v: int)
    requires
        0 <= v < k <= waiting.len(),
        blocked_before(waiting, k) == 0,
    ensures
        waiting[v] == 0,
    decreases k,
{
    if v < k - 1 {
        lemma_none_blocked(waiting, k - 1, v);
    }
}

proof fn lemma_nothing_spent(plan: Plan, s: Sim, k: int)
    requires
        0 <= k <= s.waiting.len(),
        forall|x: int| 0 <= x < s.waiting.len() && s.waiting[x] == 0 ==> queued(s, x),
    ensures
        spent_before(plan, s, k) == 0,
    decreases k,
{
    if k > 0 {
        lemma_nothing_spent(plan, s, k - 1);
    }
}

/// On a single device a graph without a cycle takes the sum of the costs
/// of its nodes, whatever its edges.
pub proof fn lemma_one_device(plan: Plan)
    requires
        plan.wf(),
        plan.devices == 1,
        !has_cycle(plan.wires),
    ensures
        finished(plan).clock == total(plan.cost),
        blocked(finished(plan).waiting) == 0,
{
    let s = start(plan);
    let end = finished(plan);
    let n = plan.len() as int;
    lemma_start(plan);
    lemma_start_tidy(plan);
    assert forall|x: int| 0 <= x < s.waiting.len() && s.waiting[x] == 0 implies queued(s, x) by {
        lemma_idle_holds(s.waiting, n, x);
        let i = choose|i: int|
            0 <= i < idle_before(s.waiting, n).len() && #[trigger] idle_before(s.waiting, n)[i] == x;
        assert(s.ready[i] == x);
    }
    lemma_nothing_spent(plan, s, n);
    lemma_run_busy(plan, s, 2 * plan.len());
    lemma_finished(plan);
    lemma_blocked_iff_cycle(plan);
    assert forall|x: int| 0 <= x < n implies #[trigger] started(end, x) by {
        lemma_none_blocked(end.waiting, n, x);
    }
    lemma_spent_all(plan, end, n);
    lemma_clock_is_peak(plan);
    assert(peak_before(end.free_at, 0) == 0);
    assert(peak(end.free_at) == end.free_at[0]);
}

} // verus!
