//! Where each node stands during a run: every node is blocked, ready, in
//! flight or done, and never two of these at once.

use crate::graph::consumers;
use crate::model::{
    complete, dispatch, earliest, idle_before, lemma_earliest, lemma_start, lemma_step,
    lemma_unlock, release_before, run, sound, start, step, unlock, Plan, Sim,
};
use vstd::prelude::*;

verus! {

/// No node is ready twice or in flight twice, none is both, and none of
/// them still waits for an input.
pub open spec fn tidy(plan: Plan, s: Sim) -> bool {
    &&& sound(plan, s)
    &&& forall|i: int, j: int|
        #![trigger s.ready[i], s.ready[j]]
        0 <= i < j < s.ready.len() ==> s.ready[i] != s.ready[j]
    &&& forall|i: int, j: int|
        #![trigger s.flying[i], s.flying[j]]
        0 <= i < j < s.flying.len() ==> s.flying[i].node != s.flying[j].node
    &&& forall|i: int| 0 <= i < s.ready.len() ==> s.waiting[#[trigger] s.ready[i]] == 0
    &&& forall|i: int| 0 <= i < s.flying.len() ==> s.waiting[(#[trigger] s.flying[i]).node] == 0
    &&& forall|i: int, j: int|
        #![trigger s.ready[i], s.flying[j]]
        0 <= i < s.ready.len() && 0 <= j < s.flying.len() ==> s.ready[i] != s.flying[j].node
}

proof fn lemma_idle_rises(waiting: Seq<nat>, k: int)
    requires
        0 <= k <= waiting.len(),
    ensures
        forall|i: int|
            0 <= i < idle_before(waiting, k).len() ==> 0 <= #[trigger] idle_before(waiting, k)[i]
                < k && waiting[idle_before(waiting, k)[i]] == 0,
        forall|i: int, j: int|
            #![trigger idle_before(waiting, k)[i], idle_before(waiting, k)[j]]
            0 <= i < j < idle_before(waiting, k).len() ==> idle_before(waiting, k)[i]
                < idle_before(waiting, k)[j],
    decreases k,
{
    if k > 0 {
        lemma_idle_rises(waiting, k - 1);
        let all = idle_before(waiting, k);
        let rest = idle_before(waiting, k - 1);
        assert forall|i: int| 0 <= i < all.len() implies 0 <= #[trigger] all[i] < k && waiting[all[i]]
            == 0 by {
            if i < rest.len() {
                assert(all[i] == rest[i]);
            }
        }
        assert forall|i: int, j: int|
            #![trigger all[i], all[j]]
            0 <= i < j < all.len() implies all[i] < all[j] by {
            assert(all[i] == rest[i]);
            if j < rest.len() {
                assert(all[j] == rest[j]);
            }
        }
    }
}

/// Every index below `k` whose count is zero is among the idle ones.
pub proof fn lemma_idle_holds(waiting: Seq<nat>, k: int, x: int)
    requires
        0 <= x < k <= waiting.len(),
        waiting[x] == 0,
    ensures
        exists|i: int|
            0 <= i < idle_before(waiting, k).len() && #[trigger] idle_before(waiting, k)[i] == x,
    decreases k,
{
    let all = idle_before(waiting, k);
    if x == k - 1 {
        assert(all[all.len() - 1] == x);
    } else {
        lemma_idle_holds(waiting, k - 1, x);
        let rest = idle_before(waiting, k - 1);
        let i = choose|i: int| 0 <= i < rest.len() && #[trigger] rest[i] == x;
        assert(all[i] == x);
    }
}

/// A run starts tidy.
pub proof fn lemma_start_tidy(plan: Plan)
    ensures
        tidy(plan, start(plan)),
{
    lemma_start(plan);
    lemma_idle_rises(start(plan).waiting, plan.len() as int);
}

/// Unlocking keeps the state tidy.
pub proof fn lemma_unlock_tidy(plan: Plan, s: Sim, w: int)
    requires
        tidy(plan, s),
    ensures
        tidy(plan, unlock(s, w)),
{
    lemma_unlock(plan, s, w);
    let next = unlock(s, w);
    if 0 <= w < s.waiting.len() && s.waiting[w] > 0 {
        assert forall|i: int| 0 <= i < next.ready.len() implies next.waiting[
        #[trigger] next.ready[i]] == 0 by {
            if i < s.ready.len() {
                assert(next.ready[i] == s.ready[i]);
            }
        }
        assert forall|i: int, j: int|
            #![trigger next.ready[i], next.ready[j]]
            0 <= i < j < next.ready.len() implies next.ready[i] != next.ready[j] by {
            assert(next.ready[i] == s.ready[i]);
            if j < s.ready.len() {
                assert(next.ready[j] == s.ready[j]);
            }
        }
        assert forall|i: int, j: int|
            #![trigger next.ready[i], next.flying[j]]
            0 <= i < next.ready.len() && 0 <= j < next.flying.len() implies next.ready[i]
            != next.flying[j].node by {
            if i < s.ready.len() {
                assert(next.ready[i] == s.ready[i]);
            }
            assert(s.waiting[s.flying[j].node] == 0);
        }
        assert forall|i: int| 0 <= i < next.flying.len() implies next.waiting[(
        #[trigger] next.flying[i]).node] == 0 by {
            assert(s.waiting[s.flying[i].node] == 0);
        }
    }
}

/// Releasing keeps the state tidy.
pub proof fn lemma_release_tidy(plan: Plan, s: Sim, list: Seq<int>, k: int)
    requires
        tidy(plan, s),
    ensures
        tidy(plan, release_before(s, list, k)),
    decreases k,
{
    if k > 0 {
        lemma_release_tidy(plan, s, list, k - 1);
        lemma_unlock_tidy(plan, release_before(s, list, k - 1), list[k - 1]);
    }
}

/// The state right after the earliest flight has left the queue and before
/// its consumers are unlocked.
pub open spec fn landed(s: Sim) -> Sim {
    let e = earliest(s.flying);
    Sim { clock: s.flying[e].finish, flying: s.flying.remove(e), ..s }
}

/// Landing keeps the state tidy, and completing is landing followed by the
/// release of the consumers.
pub proof fn lemma_landed_tidy(plan: Plan, s: Sim)
    requires
        tidy(plan, s),
        s.flying.len() > 0,
    ensures
        tidy(plan, landed(s)),
        complete(plan, s) == release_before(
            landed(s),
            consumers(plan.wires, s.flying[earliest(s.flying)].node),
            consumers(plan.wires, s.flying[earliest(s.flying)].node).len() as int,
        ),
{
    lemma_earliest(s.flying, s.flying.len() as int);
    let e = earliest(s.flying);
    let mid = landed(s);
    assert forall|i: int| 0 <= i < mid.flying.len() implies #[trigger] mid.flying[i]
        == s.flying[if i < e {
        i
    } else {
        i + 1
    }] by {}
    assert forall|i: int| 0 <= i < mid.flying.len() implies 0 <= (#[trigger] mid.flying[i]).node
        < plan.len() && mid.waiting[mid.flying[i].node] == 0 by {
        let j = if i < e {
            i
        } else {
            i + 1
        };
        assert(mid.flying[i] == s.flying[j]);
    }
    assert forall|i: int, j: int|
        #![trigger mid.flying[i], mid.flying[j]]
        0 <= i < j < mid.flying.len() implies mid.flying[i].node != mid.flying[j].node by {
        let a = if i < e {
            i
        } else {
            i + 1
        };
        let b = if j < e {
            j
        } else {
            j + 1
        };
        assert(mid.flying[i] == s.flying[a]);
        assert(mid.flying[j] == s.flying[b]);
    }
    assert forall|i: int, j: int|
        #![trigger mid.ready[i], mid.flying[j]]
        0 <= i < mid.ready.len() && 0 <= j < mid.flying.len() implies mid.ready[i]
        != mid.flying[j].node by {
        let b = if j < e {
            j
        } else {
            j + 1
        };
        assert(mid.flying[j] == s.flying[b]);
    }
}

/// Every step of a run keeps the state tidy.
pub proof fn lemma_step_tidy(plan: Plan, s: Sim)
    requires
        plan.wf(),
        tidy(plan, s),
    ensures
        tidy(plan, step(plan, s)),
{
    lemma_step(plan, s);
    if s.ready.len() > 0 {
        let next = dispatch(plan, s);
        let last = s.flying.len() as int;
        assert forall|i: int| 0 <= i < next.ready.len() implies #[trigger] next.ready[i]
            == s.ready[i + 1] by {}
        assert forall|i: int| 0 <= i < next.ready.len() implies next.waiting[
        #[trigger] next.ready[i]] == 0 by {
            assert(next.ready[i] == s.ready[i + 1]);
        }
        assert forall|i: int, j: int|
            #![trigger next.ready[i], next.ready[j]]
            0 <= i < j < next.ready.len() implies next.ready[i] != next.ready[j] by {
            assert(next.ready[i] == s.ready[i + 1]);
            assert(next.ready[j] == s.ready[j + 1]);
        }
        assert forall|i: int| 0 <= i < next.flying.len() implies next.waiting[(
        #[trigger] next.flying[i]).node] == 0 by {
            if i < last {
                assert(next.flying[i] == s.flying[i]);
            } else {
                assert(next.flying[i].node == s.ready[0]);
            }
        }
        assert forall|i: int, j: int|
            #![trigger next.flying[i], next.flying[j]]
            0 <= i < j < next.flying.len() implies next.flying[i].node != next.flying[j].node by {
            assert(next.flying[i] == s.flying[i]);
            if j < last {
                assert(next.flying[j] == s.flying[j]);
            } else {
                assert(next.flying[j].node == s.ready[0]);
            }
        }
        assert forall|i: int, j: int|
            #![trigger next.ready[i], next.flying[j]]
            0 <= i < next.ready.len() && 0 <= j < next.flying.len() implies next.ready[i]
            != next.flying[j].node by {
            assert(next.ready[i] == s.ready[i + 1]);
            if j < last {
                assert(next.flying[j] == s.flying[j]);
            } else {
                assert(next.flying[j].node == s.ready[0]);
            }
        }
    } else if s.flying.len() > 0 {
        lemma_landed_tidy(plan, s);
        let list = consumers(plan.wires, s.flying[earliest(s.flying)].node);
        lemma_release_tidy(plan, landed(s), list, list.len() as int);
    }
}

/// Every state of a run is tidy.
pub proof fn lemma_run_tidy(plan: Plan, s: Sim, fuel: nat)
    requires
        plan.wf(),
        tidy(plan, s),
    ensures
        tidy(plan, run(plan, s, fuel)),
    decreases fuel,
{
    if fuel > 0 {
        lemma_step_tidy(plan, s);
        lemma_run_tidy(plan, step(plan, s), (fuel - 1) as nat);
    }
}

} // verus!
