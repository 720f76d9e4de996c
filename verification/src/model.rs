//! The simulation as mathematics: what a run of the scheduler is, step by
//! step, on a graph whose references are already resolved.

use crate::graph::{consumers, ScheduleError};
use crate::queue::{precedes, Flight};
use vstd::prelude::*;

verus! {

/// A scheduling problem with every name resolved to an index.
pub struct Plan {
    /// For each node, the nodes it waits for, one entry per input.
    pub wires: Seq<Seq<int>>,
    /// For each node, the device it runs on.
    pub seat: Seq<int>,
    /// For each node, how long it runs.
    pub cost: Seq<nat>,
    /// Number of devices.
    pub devices: nat,
}

impl Plan {
    /// Number of nodes.
    pub open spec fn len(self) -> nat {
        self.wires.len()
    }

    /// Every index in the plan points at a node or a device that exists.
    pub open spec fn wf(self) -> bool {
        &&& self.seat.len() == self.wires.len()
        &&& self.cost.len() == self.wires.len()
        &&& forall|i: int, j: int|
            0 <= i < self.wires.len() && 0 <= j < self.wires[i].len() ==> 0
                <= #[trigger] self.wires[i][j] < self.wires.len()
        &&& forall|i: int| 0 <= i < self.seat.len() ==> 0 <= #[trigger] self.seat[i] < self.devices
    }
}

/// The state of a run.
pub struct Sim {
    /// The virtual time.
    pub clock: nat,
    /// For each device, the time at which it has finished all it was given.
    pub free_at: Seq<nat>,
    /// Nodes whose inputs are all done and that were not yet handed to
    /// their device, in the order in which they became ready.
    pub ready: Seq<int>,
    /// Nodes handed to their device and not yet done, in the order in which
    /// they were handed over.
    pub flying: Seq<Flight>,
    /// For each node, the number of its inputs that are not yet done.
    pub waiting: Seq<nat>,
}

/// The indices below `k` whose count in `waiting` is zero, in rising order.
pub open spec fn idle_before(waiting: Seq<nat>, k: int) -> Seq<int>
    decreases k,
{
    if k <= 0 {
        Seq::empty()
    } else if waiting[k - 1] == 0 {
        idle_before(waiting, k - 1).push(k - 1)
    } else {
        idle_before(waiting, k - 1)
    }
}

/// The number of indices below `k` whose count in `waiting` is not zero.
pub open spec fn blocked_before(waiting: Seq<nat>, k: int) -> nat
    decreases k,
{
    if k <= 0 {
        0
    } else if waiting[k - 1] > 0 {
        blocked_before(waiting, k - 1) + 1
    } else {
        blocked_before(waiting, k - 1)
    }
}

/// The number of nodes that still wait for an input.
pub open spec fn blocked(waiting: Seq<nat>) -> nat {
    blocked_before(waiting, waiting.len() as int)
}

/// The state before anything has run: the clock at zero, every device
/// free, and exactly the nodes without inputs ready, in index order.
pub open spec fn start(plan: Plan) -> Sim {
    let waiting = Seq::new(plan.len(), |i: int| plan.wires[i].len());
    Sim {
        clock: 0,
        free_at: Seq::new(plan.devices, |d: int| 0nat),
        ready: idle_before(waiting, plan.len() as int),
        flying: Seq::empty(),
        waiting,
    }
}

/// Hands the first ready node to its device. The node starts when both the
/// device is free and the clock has been reached, and occupies the device
/// for as long as it costs.
pub open spec fn dispatch(plan: Plan, s: Sim) -> Sim {
    let node = s.ready[0];
    let device = plan.seat[node];
    let begin = if s.free_at[device] >= s.clock {
        s.free_at[device]
    } else {
        s.clock
    };
    let finish = begin + plan.cost[node];
    Sim {
        free_at: s.free_at.update(device, finish),
        ready: s.ready.drop_first(),
        flying: s.flying.push(Flight { finish, node }),
        ..s
    }
}

/// Position of the flight among the first `k` of `queue` that precedes the
/// others; of equal flights the first.
pub open spec fn earliest_before(queue: Seq<Flight>, k: int) -> int
    decreases k,
{
    if k <= 1 {
        0
    } else {
        let e = earliest_before(queue, k - 1);
        if precedes(queue[e], queue[k - 1]) {
            e
        } else {
            k - 1
        }
    }
}

/// Position of the flight in `queue` that is done first.
pub open spec fn earliest(queue: Seq<Flight>) -> int {
    earliest_before(queue, queue.len() as int)
}

/// One input of node `w` is done: its count drops by one, and when it
/// reaches zero the node joins the ready nodes. A count that is zero
/// already stays as it is; in a run that does not occur, since a node is
/// unlocked only as often as it has inputs.
pub open spec fn unlock(s: Sim, w: int) -> Sim {
    if 0 <= w < s.waiting.len() && s.waiting[w] > 0 {
        let left = (s.waiting[w] - 1) as nat;
        Sim {
            waiting: s.waiting.update(w, left),
            ready: if left == 0 {
                s.ready.push(w)
            } else {
                s.ready
            },
            ..s
        }
    } else {
        s
    }
}

/// Unlocks the first `k` entries of `list`, in order.
pub open spec fn release_before(s: Sim, list: Seq<int>, k: int) -> Sim
    decreases k,
{
    if k <= 0 {
        s
    } else {
        unlock(release_before(s, list, k - 1), list[k - 1])
    }
}

/// Unlocks every entry of `list`, in order.
pub open spec fn release(s: Sim, list: Seq<int>) -> Sim {
    release_before(s, list, list.len() as int)
}

/// The flight that is done first leaves the queue: the clock moves to its
/// finish time and each of its consumers is unlocked once per input that
/// waited for it.
pub open spec fn complete(plan: Plan, s: Sim) -> Sim {
    let e = earliest(s.flying);
    let done = s.flying[e];
    release(
        Sim { clock: done.finish, flying: s.flying.remove(e), ..s },
        consumers(plan.wires, done.node),
    )
}

/// Nothing is ready and nothing is in flight.
pub open spec fn at_rest(s: Sim) -> bool {
    s.ready.len() == 0 && s.flying.len() == 0
}

/// One step of the run: a ready node is dispatched if there is one;
/// otherwise the next flight completes; otherwise the run is over.
pub open spec fn step(plan: Plan, s: Sim) -> Sim {
    if s.ready.len() > 0 {
        dispatch(plan, s)
    } else if s.flying.len() > 0 {
        complete(plan, s)
    } else {
        s
    }
}

/// The state after `fuel` steps from `s`.
pub open spec fn run(plan: Plan, s: Sim, fuel: nat) -> Sim
    decreases fuel,
{
    if fuel == 0 {
        s
    } else {
        run(plan, step(plan, s), (fuel - 1) as nat)
    }
}

/// The state in which the run of `plan` ends. Each node is dispatched at
/// most once and completes at most once, so twice the number of nodes is
/// enough steps.
pub open spec fn finished(plan: Plan) -> Sim {
    run(plan, start(plan), 2 * plan.len())
}

/// Some time in `s` does not fit in 64 bits.
pub open spec fn late(s: Sim) -> bool {
    s.clock > u64::MAX || exists|d: int| 0 <= d < s.free_at.len() && #[trigger] s.free_at[d] > u64::MAX
}

/// What a run that ended in `end` yields: the time on the clock, unless a
/// time got too large or some nodes never became ready.
pub open spec fn verdict(end: Sim) -> Result<nat, ScheduleError> {
    if late(end) {
        Err(ScheduleError::Overflow)
    } else if blocked(end.waiting) > 0 {
        Err(ScheduleError::Cycle)
    } else {
        Ok(end.clock)
    }
}

/// What the run of `plan` yields: the time at which the last node is done,
/// unless a time got too large or some nodes never became ready.
pub open spec fn outcome(plan: Plan) -> Result<nat, ScheduleError> {
    verdict(finished(plan))
}

/// Every index in `s` points at a node or device of `plan`.
pub open spec fn sound(plan: Plan, s: Sim) -> bool {
    &&& s.waiting.len() == plan.len()
    &&& s.free_at.len() == plan.devices
    &&& forall|i: int| 0 <= i < s.ready.len() ==> 0 <= #[trigger] s.ready[i] < plan.len()
    &&& forall|i: int| 0 <= i < s.flying.len() ==> 0 <= (#[trigger] s.flying[i]).node < plan.len()
}

/// What is left to do: a blocked or ready node has two steps ahead of it,
/// a node in flight one.
pub open spec fn potential(s: Sim) -> nat {
    2 * blocked(s.waiting) + 2 * s.ready.len() + s.flying.len()
}

/// Every index below `k` is either idle or blocked, and the idle ones are
/// indices below `k`.
pub proof fn lemma_idle_and_blocked(waiting: Seq<nat>, k: int)
    requires
        0 <= k <= waiting.len(),
    ensures
        idle_before(waiting, k).len() + blocked_before(waiting, k) == k,
        forall|i: int|
            0 <= i < idle_before(waiting, k).len() ==> 0 <= #[trigger] idle_before(waiting, k)[i]
                < k,
    decreases k,
{
    if k > 0 {
        lemma_idle_and_blocked(waiting, k - 1);
    }
}

/// The run starts in a sound state with two steps ahead for every node.
pub proof fn lemma_start(plan: Plan)
    ensures
        sound(plan, start(plan)),
        potential(start(plan)) == 2 * plan.len(),
{
    lemma_idle_and_blocked(start(plan).waiting, plan.len() as int);
}

proof fn lemma_blocked_update(waiting: Seq<nat>, i: int, v: nat, k: int)
    requires
        0 <= i < waiting.len(),
        0 <= k <= waiting.len(),
    ensures
        blocked_before(waiting.update(i, v), k) + (if i < k && waiting[i] > 0 {
            1nat
        } else {
            0nat
        }) == blocked_before(waiting, k) + (if i < k && v > 0 {
            1nat
        } else {
            0nat
        }),
    decreases k,
{
    if k > 0 {
        lemma_blocked_update(waiting, i, v, k - 1);
    }
}

/// Unlocking moves at most one node from blocked to ready and touches
/// nothing else.
pub proof fn lemma_unlock(plan: Plan, s: Sim, w: int)
    requires
        sound(plan, s),
    ensures
        sound(plan, unlock(s, w)),
        potential(unlock(s, w)) == potential(s),
        unlock(s, w).clock == s.clock,
        unlock(s, w).free_at == s.free_at,
        unlock(s, w).flying == s.flying,
{
    if 0 <= w < s.waiting.len() && s.waiting[w] > 0 {
        let left = (s.waiting[w] - 1) as nat;
        lemma_blocked_update(s.waiting, w, left, s.waiting.len() as int);
    }
}

/// Releasing moves nodes from blocked to ready and touches nothing else.
pub proof fn lemma_release(plan: Plan, s: Sim, list: Seq<int>, k: int)
    requires
        sound(plan, s),
    ensures
        sound(plan, release_before(s, list, k)),
        potential(release_before(s, list, k)) == potential(s),
        release_before(s, list, k).clock == s.clock,
        release_before(s, list, k).free_at == s.free_at,
        release_before(s, list, k).flying == s.flying,
    decreases k,
{
    if k > 0 {
        lemma_release(plan, s, list, k - 1);
        lemma_unlock(plan, release_before(s, list, k - 1), list[k - 1]);
    }
}

/// The earliest flight is in the queue and precedes every flight in it.
pub proof fn lemma_earliest(queue: Seq<Flight>, k: int)
    requires
        0 < k <= queue.len(),
    ensures
        0 <= earliest_before(queue, k) < k,
        forall|j: int| 0 <= j < k ==> precedes(queue[earliest_before(queue, k)], #[trigger] queue[j]),
    decreases k,
{
    if k > 1 {
        lemma_earliest(queue, k - 1);
    }
}

/// A step from a sound state leads to a sound state, and unless the run
/// is at rest it uses up one unit of what is left to do.
pub proof fn lemma_step(plan: Plan, s: Sim)
    requires
        plan.wf(),
        sound(plan, s),
    ensures
        sound(plan, step(plan, s)),
        !at_rest(s) ==> potential(step(plan, s)) + 1 == potential(s),
        step(plan, s).free_at.len() == s.free_at.len(),
        forall|d: int| 0 <= d < s.free_at.len() ==> step(plan, s).free_at[d] >= s.free_at[d],
{
    if s.ready.len() > 0 {
        let node = s.ready[0];
        assert(0 <= node < plan.len());
        assert(0 <= plan.seat[node] < plan.devices);
        let next = dispatch(plan, s);
        assert forall|i: int| 0 <= i < next.ready.len() implies 0 <= #[trigger] next.ready[i]
            < plan.len() by {
            assert(next.ready[i] == s.ready[i + 1]);
        }
    } else if s.flying.len() > 0 {
        lemma_earliest(s.flying, s.flying.len() as int);
        let e = earliest(s.flying);
        let mid = Sim { clock: s.flying[e].finish, flying: s.flying.remove(e), ..s };
        assert forall|i: int| 0 <= i < mid.flying.len() implies 0 <= (#[trigger] mid.flying[i]).node
            < plan.len() by {
            if i < e {
                assert(mid.flying[i] == s.flying[i]);
            } else {
                assert(mid.flying[i] == s.flying[i + 1]);
            }
        }
        let list = consumers(plan.wires, s.flying[e].node);
        lemma_release(plan, mid, list, list.len() as int);
    }
}

/// Once at rest, the run stays where it is.
pub proof fn lemma_rest(plan: Plan, s: Sim, fuel: nat)
    requires
        at_rest(s),
    ensures
        run(plan, s, fuel) == s,
    decreases fuel,
{
    if fuel > 0 {
        lemma_rest(plan, s, (fuel - 1) as nat);
    }
}

/// Running on keeps every state sound, and no device ever becomes free
/// earlier than it was.
pub proof fn lemma_run(plan: Plan, s: Sim, fuel: nat)
    requires
        plan.wf(),
        sound(plan, s),
    ensures
        sound(plan, run(plan, s, fuel)),
        forall|d: int| 0 <= d < s.free_at.len() ==> run(plan, s, fuel).free_at[d] >= s.free_at[d],
    decreases fuel,
{
    if fuel > 0 {
        lemma_step(plan, s);
        lemma_run(plan, step(plan, s), (fuel - 1) as nat);
    }
}

} // verus!
