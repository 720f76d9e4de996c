//! Nodes that wait on each other: a run leaves nodes blocked exactly when
//! the graph has a cycle.

use crate::bookkeeping::{lemma_start_tidy, lemma_step_tidy, tidy};
use crate::counting::{
    airborne, counted, lemma_open_positive, lemma_open_witness, lemma_run_counted,
    lemma_start_counted, lemma_step_counted, open_inputs, pending, queued,
};
use crate::model::{
    at_rest, blocked, blocked_before, finished, lemma_start, lemma_step, run, sound, start, step,
    Plan, Sim,
};
use crate::timing::lemma_finished;
use vstd::prelude::*;

verus! {

/// Node `v` has an input that is node `u`.
pub open spec fn waits_for(wires: Seq<Seq<int>>, v: int, u: int) -> bool {
    0 <= v < wires.len() && exists|j: int| 0 <= j < wires[v].len() && #[trigger] wires[v][j] == u
}

/// `path` leads from a node back to itself, each node on it waiting for
/// the one before.
pub open spec fn is_cycle(wires: Seq<Seq<int>>, path: Seq<int>) -> bool {
    &&& path.len() >= 2
    &&& path.first() == path.last()
    &&& forall|i: int| 0 < i < path.len() ==> waits_for(wires, #[trigger] path[i], path[i - 1])
}

/// Some node waits, directly or through others, for itself.
pub open spec fn has_cycle(wires: Seq<Seq<int>>) -> bool {
    exists|path: Seq<int>| is_cycle(wires, path)
}

/// Every node on `path` is blocked.
pub open spec fn stuck(s: Sim, path: Seq<int>) -> bool {
    forall|i: int|
        0 <= i < path.len() ==> 0 <= #[trigger] path[i] < s.waiting.len() && s.waiting[path[i]] > 0
}

/// The nodes of a cycle stay blocked for the whole run.
proof fn lemma_cycle_stays_stuck(plan: Plan, path: Seq<int>, s: Sim, fuel: nat)
    requires
        plan.wf(),
        is_cycle(plan.wires, path),
        tidy(plan, s),
        counted(plan, s),
        stuck(s, path),
    ensures
        stuck(run(plan, s, fuel), path),
    decreases fuel,
{
    if fuel > 0 {
        let next = step(plan, s);
        lemma_step(plan, s);
        lemma_step_tidy(plan, s);
        lemma_step_counted(plan, s);
        assert forall|i: int| 0 <= i < path.len() implies 0 <= #[trigger] path[i]
            < next.waiting.len() && next.waiting[path[i]] > 0 by {
            let k = if i == 0 {
                path.len() - 1
            } else {
                i
            };
            assert(path[k] == path[i]);
            let v = path[k];
            let p = path[k - 1];
            assert(waits_for(plan.wires, v, p));
            let j = choose|j: int| 0 <= j < plan.wires[v].len() && #[trigger] plan.wires[v][j] == p;
            assert(s.waiting[p] > 0);
            assert(pending(next, p));
            lemma_open_positive(plan.wires[v], next, j, plan.wires[v].len() as int);
            assert(next.waiting[v] == open_inputs(plan, next, v));
        }
        lemma_cycle_stays_stuck(plan, path, next, (fuel - 1) as nat);
    }
}

proof fn lemma_blocked_positive(waiting: Seq<nat>, v: int, k: int)
    requires
        0 <= v < k <= waiting.len(),
        waiting[v] > 0,
    ensures
        blocked_before(waiting, k) > 0,
    decreases k,
{
    if v < k - 1 {
        lemma_blocked_positive(waiting, v, k - 1);
    }
}

proof fn lemma_blocked_witness(waiting: Seq<nat>, k: int) -> (v: int)
    requires
        0 <= k <= waiting.len(),
        blocked_before(waiting, k) > 0,
    ensures
        0 <= v < k,
        waiting[v] > 0,
    decreases k,
{
    if waiting[k - 1] > 0 {
        k - 1
    } else {
        lemma_blocked_witness(waiting, k - 1)
    }
}

/// A graph with a cycle leaves nodes blocked when its run is over.
pub proof fn lemma_cycle_blocks(plan: Plan, path: Seq<int>)
    requires
        plan.wf(),
        is_cycle(plan.wires, path),
    ensures
        blocked(finished(plan).waiting) > 0,
{
    let s = start(plan);
    lemma_start(plan);
    lemma_start_tidy(plan);
    lemma_start_counted(plan);
    assert forall|i: int| 0 <= i < path.len() implies 0 <= #[trigger] path[i] < s.waiting.len()
        && s.waiting[path[i]] > 0 by {
        let k = if i == 0 {
            path.len() - 1
        } else {
            i
        };
        assert(path[k] == path[i]);
        assert(waits_for(plan.wires, path[k], path[k - 1]));
    }
    lemma_cycle_stays_stuck(plan, path, s, 2 * plan.len());
    lemma_finished(plan);
    let end = finished(plan);
    assert(0 <= path[0] < end.waiting.len() && end.waiting[path[0]] > 0);
    lemma_blocked_positive(end.waiting, path[0], end.waiting.len() as int);
}

/// More values than there are numbers below `n` to take them from: two of
/// them are the same.
pub proof fn lemma_pigeonhole(values: Seq<int>, n: int) -> (pair: (int, int))
    requires
        0 <= n < values.len(),
        forall|i: int| 0 <= i < values.len() ==> 0 <= #[trigger] values[i] < n,
    ensures
        0 <= pair.0 < pair.1 < values.len(),
        values[pair.0] == values[pair.1],
    decreases n,
{
    if n == 0 {
        assert(0 <= values[0] < n);
        (0, 0)
    } else {
        let top = n - 1;
        if exists|a: int, b: int|
            #![trigger values[a], values[b]]
            0 <= a < b < values.len() && values[a] == top && values[b] == top {
            choose|a: int, b: int|
                #![trigger values[a], values[b]]
                0 <= a < b < values.len() && values[a] == top && values[b] == top
        } else if exists|a: int| 0 <= a < values.len() && #[trigger] values[a] == top {
            let a = choose|a: int| 0 <= a < values.len() && #[trigger] values[a] == top;
            let rest = values.remove(a);
            assert forall|i: int| 0 <= i < rest.len() implies 0 <= #[trigger] rest[i] < top by {
                let j = if i < a {
                    i
                } else {
                    i + 1
                };
                assert(rest[i] == values[j]);
                assert(0 <= values[j] < n);
                if values[j] == top {
                    if j < a {
                        assert(values[j] == top && values[a] == top);
                    } else {
                        assert(values[a] == top && values[j] == top);
                    }
                }
            }
            let (x, y) = lemma_pigeonhole(rest, top);
            let x2 = if x < a {
                x
            } else {
                x + 1
            };
            let y2 = if y < a {
                y
            } else {
                y + 1
            };
            assert(rest[x] == values[x2]);
            assert(rest[y] == values[y2]);
            (x2, y2)
        } else {
            let rest = values.drop_last();
            assert forall|i: int| 0 <= i < rest.len() implies 0 <= #[trigger] rest[i] < top by {
                assert(rest[i] == values[i]);
                assert(0 <= values[i] < n);
            }
            let (x, y) = lemma_pigeonhole(rest, top);
            assert(rest[x] == values[x]);
            assert(rest[y] == values[y]);
            (x, y)
        }
    }
}

/// A blocked input of node `v`.
pub open spec fn culprit(plan: Plan, s: Sim, v: int) -> int {
    choose|u: int| waits_for(plan.wires, v, u) && 0 <= u < s.waiting.len() && s.waiting[u] > 0
}

/// The node reached from `v` by going `k` times to a blocked input.
pub open spec fn trail(plan: Plan, s: Sim, v: int, k: nat) -> int
    decreases k,
{
    if k == 0 {
        v
    } else {
        culprit(plan, s, trail(plan, s, v, (k - 1) as nat))
    }
}

/// When the run is at rest, a blocked node has a blocked input.
proof fn lemma_culprit(plan: Plan, s: Sim, v: int)
    requires
        plan.wf(),
        sound(plan, s),
        at_rest(s),
        counted(plan, s),
        0 <= v < plan.len(),
        s.waiting[v] > 0,
    ensures
        waits_for(plan.wires, v, culprit(plan, s, v)),
        0 <= culprit(plan, s, v) < plan.len(),
        s.waiting[culprit(plan, s, v)] > 0,
{
    assert(s.waiting[v] == open_inputs(plan, s, v));
    let j = lemma_open_witness(plan.wires[v], s, plan.wires[v].len() as int);
    let u = plan.wires[v][j];
    assert(pending(s, u));
    assert(!queued(s, u));
    assert(!airborne(s, u));
    assert(waits_for(plan.wires, v, u));
}

proof fn lemma_trail(plan: Plan, s: Sim, v: int, k: nat)
    requires
        plan.wf(),
        sound(plan, s),
        at_rest(s),
        counted(plan, s),
        0 <= v < plan.len(),
        s.waiting[v] > 0,
    ensures
        0 <= trail(plan, s, v, k) < plan.len(),
        s.waiting[trail(plan, s, v, k)] > 0,
        k > 0 ==> waits_for(
            plan.wires,
            trail(plan, s, v, (k - 1) as nat),
            trail(plan, s, v, k),
        ),
    decreases k,
{
    if k > 0 {
        lemma_trail(plan, s, v, (k - 1) as nat);
        lemma_culprit(plan, s, trail(plan, s, v, (k - 1) as nat));
    }
}

/// A run that leaves a node blocked ran on a graph with a cycle.
pub proof fn lemma_blocked_has_cycle(plan: Plan)
    requires
        plan.wf(),
        blocked(finished(plan).waiting) > 0,
    ensures
        has_cycle(plan.wires),
{
    let end = finished(plan);
    lemma_finished(plan);
    lemma_start(plan);
    lemma_start_tidy(plan);
    lemma_start_counted(plan);
    lemma_run_counted(plan, start(plan), 2 * plan.len());
    let v = lemma_blocked_witness(end.waiting, end.waiting.len() as int);
    let n = plan.len() as int;
    let walk = Seq::new((n + 1) as nat, |k: int| trail(plan, end, v, k as nat));
    assert forall|i: int| 0 <= i < walk.len() implies 0 <= #[trigger] walk[i] < n by {
        lemma_trail(plan, end, v, i as nat);
    }
    let (a, b) = lemma_pigeonhole(walk, n);
    let path = Seq::new((b - a + 1) as nat, |i: int| trail(plan, end, v, (b - i) as nat));
    assert(path.first() == walk[b]);
    assert(path.last() == walk[a]);
    assert forall|i: int| 0 < i < path.len() implies waits_for(
        plan.wires,
        #[trigger] path[i],
        path[i - 1],
    ) by {
        lemma_trail(plan, end, v, (b - i + 1) as nat);
    }
    assert(is_cycle(plan.wires, path));
}

/// The run of a plan leaves nodes blocked if and only if some node waits,
/// directly or through others, for itself.
pub proof fn lemma_blocked_iff_cycle(plan: Plan)
    requires
        plan.wf(),
    ensures
        blocked(finished(plan).waiting) > 0 <==> has_cycle(plan.wires),
{
    if has_cycle(plan.wires) {
        let path = choose|path: Seq<int>| is_cycle(plan.wires, path);
        lemma_cycle_blocks(plan, path);
    }
    if blocked(finished(plan).waiting) > 0 {
        lemma_blocked_has_cycle(plan);
    }
}

} // verus!
