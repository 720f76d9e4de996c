//! What the waiting counts count: the inputs of a node that are not done.

use crate::bookkeeping::{lemma_idle_holds, landed, lemma_landed_tidy, lemma_step_tidy, tidy};
use crate::graph::{consumers, consumers_before};
use crate::model::{
    dispatch, earliest, idle_before, lemma_earliest, lemma_release, release_before, run, sound,
    start, step, unlock, Plan, Sim,
};
use vstd::prelude::*;

verus! {

/// Node `v` is ready and not yet dispatched.
pub open spec fn queued(s: Sim, v: int) -> bool {
    exists|i: int| 0 <= i < s.ready.len() && #[trigger] s.ready[i] == v
}

/// Node `v` is in flight.
pub open spec fn airborne(s: Sim, v: int) -> bool {
    exists|i: int| 0 <= i < s.flying.len() && (#[trigger] s.flying[i]).node == v
}

/// Node `v` is not done: it is blocked, ready or in flight.
pub open spec fn pending(s: Sim, v: int) -> bool {
    (0 <= v < s.waiting.len() && s.waiting[v] > 0) || queued(s, v) || airborne(s, v)
}

/// The number of the first `k` entries of `row` that are pending in `s`.
pub open spec fn open_before(row: Seq<int>, s: Sim, k: int) -> nat
    decreases k,
{
    if k <= 0 {
        0
    } else if pending(s, row[k - 1]) {
        open_before(row, s, k - 1) + 1
    } else {
        open_before(row, s, k - 1)
    }
}

/// The number of inputs of node `v` that are not done in `s`.
pub open spec fn open_inputs(plan: Plan, s: Sim, v: int) -> nat {
    open_before(plan.wires[v], s, plan.wires[v].len() as int)
}

/// Each node waits for exactly as many inputs as it has that are not done.
pub open spec fn counted(plan: Plan, s: Sim) -> bool {
    forall|v: int| 0 <= v < plan.len() ==> #[trigger] s.waiting[v] == open_inputs(plan, s, v)
}

/// The number of the first `k` entries of `row` that are `u`.
pub open spec fn refs_before(row: Seq<int>, u: int, k: int) -> nat
    decreases k,
{
    if k <= 0 {
        0
    } else if row[k - 1] == u {
        refs_before(row, u, k - 1) + 1
    } else {
        refs_before(row, u, k - 1)
    }
}

/// The number of entries of `row` that are `u`.
pub open spec fn refs(row: Seq<int>, u: int) -> nat {
    refs_before(row, u, row.len() as int)
}

proof fn lemma_refs_prefix(a: Seq<int>, b: Seq<int>, u: int, k: int)
    requires
        0 <= k <= a.len(),
        k <= b.len(),
        forall|i: int| 0 <= i < k ==> a[i] == b[i],
    ensures
        refs_before(a, u, k) == refs_before(b, u, k),
    decreases k,
{
    if k > 0 {
        lemma_refs_prefix(a, b, u, k - 1);
    }
}

proof fn lemma_refs_rise(row: Seq<int>, u: int, k: int, m: int)
    requires
        k <= m,
    ensures
        refs_before(row, u, k) <= refs_before(row, u, m),
    decreases m - k,
{
    if k < m {
        lemma_refs_rise(row, u, k, m - 1);
    }
}

/// Node `w` is listed among the consumers of `u` once for each of its
/// inputs that is `u`.
pub proof fn lemma_consumer_count(wires: Seq<Seq<int>>, u: int, w: int, i: int, j: int)
    requires
        0 <= i <= wires.len(),
        i < wires.len() ==> 0 <= j <= wires[i].len(),
        i == wires.len() ==> j == 0,
    ensures
        refs(consumers_before(wires, u, i, j), w) == (if 0 <= w < i {
            refs(wires[w], u)
        } else if w == i {
            refs_before(wires[i], u, j)
        } else {
            0
        }),
    decreases i, j,
{
    let all = consumers_before(wires, u, i, j);
    if 0 < j && i < wires.len() {
        let rest = consumers_before(wires, u, i, j - 1);
        lemma_consumer_count(wires, u, w, i, j - 1);
        if wires[i][j - 1] == u {
            assert(all == rest.push(i));
            lemma_refs_prefix(all, rest, w, rest.len() as int);
        }
    } else if 0 < i {
        lemma_consumer_count(wires, u, w, i - 1, wires[i - 1].len() as int);
        assert(all == consumers_before(wires, u, i - 1, wires[i - 1].len() as int));
    } else {
        assert(all.len() == 0);
    }
}

proof fn lemma_open_same(row: Seq<int>, s: Sim, t: Sim, k: int)
    requires
        forall|x: int| #[trigger] pending(s, x) == pending(t, x),
    ensures
        open_before(row, s, k) == open_before(row, t, k),
    decreases k,
{
    if k > 0 {
        lemma_open_same(row, s, t, k - 1);
        assert(pending(s, row[k - 1]) == pending(t, row[k - 1]));
    }
}

proof fn lemma_open_drop(row: Seq<int>, s: Sim, t: Sim, u: int, k: int)
    requires
        forall|x: int| x != u ==> #[trigger] pending(s, x) == pending(t, x),
        pending(s, u),
        !pending(t, u),
    ensures
        open_before(row, s, k) == open_before(row, t, k) + refs_before(row, u, k),
    decreases k,
{
    if k > 0 {
        lemma_open_drop(row, s, t, u, k - 1);
        if row[k - 1] != u {
            assert(pending(s, row[k - 1]) == pending(t, row[k - 1]));
        }
    }
}

/// A node with a pending input has a positive count of them.
pub proof fn lemma_open_positive(row: Seq<int>, s: Sim, j: int, k: int)
    requires
        0 <= j < k,
        pending(s, row[j]),
    ensures
        open_before(row, s, k) > 0,
    decreases k,
{
    if j < k - 1 {
        lemma_open_positive(row, s, j, k - 1);
    }
}

/// A positive count of pending inputs is witnessed by one of them.
pub proof fn lemma_open_witness(row: Seq<int>, s: Sim, k: int) -> (j: int)
    requires
        open_before(row, s, k) > 0,
    ensures
        0 <= j < k,
        pending(s, row[j]),
    decreases k,
{
    if k <= 0 {
        0
    } else if pending(s, row[k - 1]) {
        k - 1
    } else {
        lemma_open_witness(row, s, k - 1)
    }
}

/// Unlocking finishes no node.
pub proof fn lemma_unlock_pending(s: Sim, w: int, x: int)
    ensures
        pending(unlock(s, w), x) == pending(s, x),
{
    let next = unlock(s, w);
    if 0 <= w < s.waiting.len() && s.waiting[w] > 0 {
        let left = (s.waiting[w] - 1) as nat;
        if x == w {
            if left == 0 {
                assert(next.ready[s.ready.len() as int] == w);
            }
        } else {
            if queued(s, x) {
                let i = choose|i: int| 0 <= i < s.ready.len() && #[trigger] s.ready[i] == x;
                assert(next.ready[i] == x);
            }
            if queued(next, x) {
                let i = choose|i: int| 0 <= i < next.ready.len() && #[trigger] next.ready[i] == x;
                if i < s.ready.len() {
                    assert(s.ready[i] == x);
                } else {
                    assert(next.ready[i] == w);
                }
            }
            assert(next.flying == s.flying);
            assert(airborne(next, x) == airborne(s, x));
            assert(queued(next, x) == queued(s, x));
        }
    }
}

/// Releasing finishes no node.
pub proof fn lemma_release_pending(s: Sim, list: Seq<int>, k: int, x: int)
    ensures
        pending(release_before(s, list, k), x) == pending(s, x),
    decreases k,
{
    if k > 0 {
        lemma_release_pending(s, list, k - 1, x);
        lemma_unlock_pending(release_before(s, list, k - 1), list[k - 1], x);
    }
}

/// If every node waits for at least as many inputs as the list has
/// entries for it, releasing the first `k` entries takes one from the
/// count of a node for each of its entries.
pub proof fn lemma_release_counts(plan: Plan, s: Sim, list: Seq<int>, k: int)
    requires
        sound(plan, s),
        0 <= k <= list.len(),
        forall|w: int| 0 <= w < plan.len() ==> #[trigger] s.waiting[w] >= refs(list, w),
    ensures
        forall|w: int|
            0 <= w < plan.len() ==> #[trigger] release_before(s, list, k).waiting[w] + refs_before(
                list,
                w,
                k,
            ) == s.waiting[w],
    decreases k,
{
    if k > 0 {
        lemma_release_counts(plan, s, list, k - 1);
        lemma_release(plan, s, list, k - 1);
        let cur = release_before(s, list, k - 1);
        let next = release_before(s, list, k);
        let hit = list[k - 1];
        assert(next == unlock(cur, hit));
        if 0 <= hit < plan.len() {
            lemma_refs_rise(list, hit, k, list.len() as int);
            assert(cur.waiting[hit] + refs_before(list, hit, k - 1) == s.waiting[hit]);
            assert(s.waiting[hit] >= refs(list, hit));
            assert(cur.waiting[hit] > 0);
        }
        assert forall|w: int| 0 <= w < plan.len() implies #[trigger] next.waiting[w] + refs_before(
            list,
            w,
            k,
        ) == s.waiting[w] by {
            assert(cur.waiting[w] + refs_before(list, w, k - 1) == s.waiting[w]);
        }
    }
}

/// If every node waits for at least as many inputs as the list has
/// entries for it, each entry finds its node with a count above zero.
pub proof fn lemma_unlock_finds_count(plan: Plan, s: Sim, list: Seq<int>, k: int)
    requires
        sound(plan, s),
        0 <= k < list.len(),
        0 <= list[k] < plan.len(),
        forall|w: int| 0 <= w < plan.len() ==> #[trigger] s.waiting[w] >= refs(list, w),
    ensures
        release_before(s, list, k).waiting[list[k]] > 0,
{
    let hit = list[k];
    lemma_release_counts(plan, s, list, k);
    lemma_refs_rise(list, hit, k + 1, list.len() as int);
    assert(release_before(s, list, k).waiting[hit] + refs_before(list, hit, k) == s.waiting[hit]);
    assert(s.waiting[hit] >= refs(list, hit));
}

/// When a flight lands, each node still waits for the inputs it has
/// that are not done and, on top of them, once for each input that is the
/// node that landed: just what the list of its consumers holds.
pub proof fn lemma_landing_budget(plan: Plan, s: Sim)
    requires
        plan.wf(),
        tidy(plan, s),
        counted(plan, s),
        s.flying.len() > 0,
    ensures
        forall|w: int|
            0 <= w < plan.len() ==> #[trigger] landed(s).waiting[w] == open_inputs(
                plan,
                landed(s),
                w,
            ) + refs(consumers(plan.wires, s.flying[earliest(s.flying)].node), w),
        forall|w: int|
            0 <= w < plan.len() ==> #[trigger] landed(s).waiting[w] >= refs(
                consumers(plan.wires, s.flying[earliest(s.flying)].node),
                w,
            ),
{
    let mid = landed(s);
    let u = s.flying[earliest(s.flying)].node;
    let list = consumers(plan.wires, u);
    assert forall|x: int| x != u implies #[trigger] pending(s, x) == pending(mid, x) by {
        lemma_landed_pending(plan, s, x);
    }
    lemma_landed_pending(plan, s, u);
    assert forall|w: int| 0 <= w < plan.len() implies #[trigger] mid.waiting[w] == open_inputs(
        plan,
        mid,
        w,
    ) + refs(list, w) by {
        assert(s.waiting[w] == open_inputs(plan, s, w));
        lemma_open_drop(plan.wires[w], s, mid, u, plan.wires[w].len() as int);
        lemma_consumer_count(plan.wires, u, w, plan.wires.len() as int, 0);
    }
}

proof fn lemma_open_all(row: Seq<int>, s: Sim, k: int)
    requires
        0 <= k <= row.len(),
        forall|j: int| 0 <= j < row.len() ==> pending(s, #[trigger] row[j]),
    ensures
        open_before(row, s, k) == k,
    decreases k,
{
    if k > 0 {
        lemma_open_all(row, s, k - 1);
        assert(pending(s, row[k - 1]));
    }
}

/// At the start no node is done, so every input counts.
pub proof fn lemma_start_counted(plan: Plan)
    requires
        plan.wf(),
    ensures
        counted(plan, start(plan)),
{
    let s = start(plan);
    assert forall|x: int| 0 <= x < plan.len() implies pending(s, x) by {
        if s.waiting[x] == 0 {
            lemma_idle_holds(s.waiting, plan.len() as int, x);
            let i = choose|i: int|
                0 <= i < idle_before(s.waiting, plan.len() as int).len() && #[trigger] idle_before(
                    s.waiting,
                    plan.len() as int,
                )[i] == x;
            assert(s.ready[i] == x);
            assert(queued(s, x));
        }
    }
    assert forall|v: int| 0 <= v < plan.len() implies #[trigger] s.waiting[v] == open_inputs(
        plan,
        s,
        v,
    ) by {
        let row = plan.wires[v];
        assert forall|j: int| 0 <= j < row.len() implies pending(s, #[trigger] row[j]) by {
            assert(0 <= plan.wires[v][j] < plan.len());
        }
        lemma_open_all(row, s, row.len() as int);
    }
}

/// Dispatching finishes no node.
pub proof fn lemma_dispatch_pending(plan: Plan, s: Sim, x: int)
    requires
        s.ready.len() > 0,
    ensures
        pending(dispatch(plan, s), x) == pending(s, x),
{
    let next = dispatch(plan, s);
    let node = s.ready[0];
    if x == node {
        assert(next.flying[s.flying.len() as int].node == node);
    } else {
        if queued(s, x) {
            let i = choose|i: int| 0 <= i < s.ready.len() && #[trigger] s.ready[i] == x;
            assert(next.ready[i - 1] == x);
        }
        if queued(next, x) {
            let i = choose|i: int| 0 <= i < next.ready.len() && #[trigger] next.ready[i] == x;
            assert(s.ready[i + 1] == x);
        }
        if airborne(s, x) {
            let i = choose|i: int| 0 <= i < s.flying.len() && (#[trigger] s.flying[i]).node == x;
            assert(next.flying[i].node == x);
        }
        if airborne(next, x) {
            let i = choose|i: int|
                0 <= i < next.flying.len() && (#[trigger] next.flying[i]).node == x;
            assert(s.flying[i].node == x);
        }
    }
}

/// When a flight lands, its node is done and no other node is.
pub proof fn lemma_landed_pending(plan: Plan, s: Sim, x: int)
    requires
        tidy(plan, s),
        s.flying.len() > 0,
    ensures
        pending(s, s.flying[earliest(s.flying)].node),
        pending(landed(s), x) == (pending(s, x) && x != s.flying[earliest(s.flying)].node),
{
    lemma_earliest(s.flying, s.flying.len() as int);
    let e = earliest(s.flying);
    let mid = landed(s);
    let u = s.flying[e].node;
    assert forall|i: int| 0 <= i < mid.flying.len() implies #[trigger] mid.flying[i]
        == s.flying[if i < e {
        i
    } else {
        i + 1
    }] by {}
    if x == u {
        assert(s.waiting[s.flying[e].node] == 0);
        if queued(mid, x) {
            let i = choose|i: int| 0 <= i < mid.ready.len() && #[trigger] mid.ready[i] == x;
            assert(s.ready[i] != s.flying[e].node);
        }
        if airborne(mid, x) {
            let i = choose|i: int|
                0 <= i < mid.flying.len() && (#[trigger] mid.flying[i]).node == x;
            let j = if i < e {
                i
            } else {
                i + 1
            };
            assert(mid.flying[i] == s.flying[j]);
            if j < e {
                assert(s.flying[j].node != s.flying[e].node);
            } else {
                assert(s.flying[e].node != s.flying[j].node);
            }
        }
    } else {
        if airborne(s, x) {
            let i = choose|i: int| 0 <= i < s.flying.len() && (#[trigger] s.flying[i]).node == x;
            if i < e {
                assert(mid.flying[i].node == x);
            } else {
                assert(mid.flying[i - 1] == s.flying[i]);
            }
        }
        if airborne(mid, x) {
            let i = choose|i: int|
                0 <= i < mid.flying.len() && (#[trigger] mid.flying[i]).node == x;
            let j = if i < e {
                i
            } else {
                i + 1
            };
            assert(mid.flying[i] == s.flying[j]);
        }
    }
}

/// Every step keeps the counts right; and a node is done after the step
/// only if it was before or is the one that completed.
pub proof fn lemma_step_counted(plan: Plan, s: Sim)
    requires
        plan.wf(),
        tidy(plan, s),
        counted(plan, s),
    ensures
        counted(plan, step(plan, s)),
        forall|x: int|
            0 <= x < plan.len() && s.waiting[x] > 0 ==> #[trigger] pending(step(plan, s), x),
{
    let next = step(plan, s);
    if s.ready.len() > 0 {
        assert forall|x: int| #[trigger] pending(s, x) == pending(next, x) by {
            lemma_dispatch_pending(plan, s, x);
        }
        assert forall|v: int| 0 <= v < plan.len() implies #[trigger] next.waiting[v]
            == open_inputs(plan, next, v) by {
            assert(s.waiting[v] == open_inputs(plan, s, v));
            lemma_open_same(plan.wires[v], s, next, plan.wires[v].len() as int);
        }
    } else if s.flying.len() > 0 {
        lemma_earliest(s.flying, s.flying.len() as int);
        lemma_landed_tidy(plan, s);
        let mid = landed(s);
        let u = s.flying[earliest(s.flying)].node;
        let list = consumers(plan.wires, u);
        assert(next == release_before(mid, list, list.len() as int));
        assert forall|x: int| #[trigger] pending(mid, x) == pending(next, x) by {
            lemma_release_pending(mid, list, list.len() as int, x);
        }
        lemma_landing_budget(plan, s);
        lemma_release_counts(plan, mid, list, list.len() as int);
        assert forall|v: int| 0 <= v < plan.len() implies #[trigger] next.waiting[v]
            == open_inputs(plan, next, v) by {
            assert(next.waiting[v] + refs_before(list, v, list.len() as int) == mid.waiting[v]);
            assert(mid.waiting[v] == open_inputs(plan, mid, v) + refs(list, v));
            lemma_open_same(plan.wires[v], mid, next, plan.wires[v].len() as int);
        }
        assert forall|x: int| 0 <= x < plan.len() && s.waiting[x] > 0 implies #[trigger] pending(
            next,
            x,
        ) by {
            assert(mid.waiting[x] > 0);
            assert(pending(mid, x));
            assert(pending(mid, x) == pending(next, x));
        }
    }
}

/// Every state of a run is tidy and has its counts right.
pub proof fn lemma_run_counted(plan: Plan, s: Sim, fuel: nat)
    requires
        plan.wf(),
        tidy(plan, s),
        counted(plan, s),
    ensures
        tidy(plan, run(plan, s, fuel)),
        counted(plan, run(plan, s, fuel)),
    decreases fuel,
{
    if fuel > 0 {
        lemma_step_tidy(plan, s);
        lemma_step_counted(plan, s);
        lemma_run_counted(plan, step(plan, s), (fuel - 1) as nat);
    }
}

} // verus!
