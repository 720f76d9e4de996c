//! The state of one run, in machine integers, kept in step with the model.

use crate::bookkeeping::{landed, lemma_landed_tidy, lemma_start_tidy, lemma_step_tidy, tidy};
use crate::counting::{
    counted, lemma_landing_budget, lemma_start_counted, lemma_step_counted,
    lemma_unlock_finds_count, refs,
};
use crate::graph::{consumers, ints, lemma_consumers_are_nodes, GraphIndex, ScheduleError};
use crate::model::{
    blocked, complete, dispatch, earliest, idle_before, lemma_earliest, lemma_idle_and_blocked,
    lemma_unlock, release_before, sound, start, unlock, verdict, Plan, Sim,
};
use crate::queue::{precedes, Flight, Task, TaskQueue};
use std::collections::VecDeque;
use vstd::prelude::*;
use vstd::seq_lib::*;

verus! {

/// A run in progress. It owns everything that changes while the graph is
/// replayed; nothing of it outlives the evaluation that made it.
pub struct Simulation {
    clock: u64,
    free_at: Vec<u64>,
    ready: VecDeque<usize>,
    flying: TaskQueue,
    waiting: Vec<usize>,
    retired: usize,
    plan: Ghost<Plan>,
    state: Ghost<Sim>,
}

impl View for Simulation {
    type V = Sim;

    closed spec fn view(&self) -> Sim {
        self.state@
    }
}

impl Simulation {
    /// The plan that is being run.
    pub closed spec fn plan(&self) -> Plan {
        self.plan@
    }

    /// The run is in a state that a run of its plan can be in, and the
    /// machine state holds exactly what that state says.
    pub closed spec fn wf(&self) -> bool {
        &&& self.mirrors()
        &&& tidy(self.plan@, self.state@)
        &&& counted(self.plan@, self.state@)
    }

    /// The machine state holds exactly what the model state says.
    spec fn mirrors(&self) -> bool {
        let s = self.state@;
        let plan = self.plan@;
        &&& plan.wf()
        &&& sound(plan, s)
        &&& self.clock as nat == s.clock
        &&& self.free_at@.len() == s.free_at.len()
        &&& forall|d: int|
            0 <= d < self.free_at@.len() ==> #[trigger] self.free_at@[d] as nat == s.free_at[d]
        &&& ints(self.ready@) == s.ready
        &&& self.flying.wf()
        &&& self.flying@ == s.flying.to_multiset()
        &&& self.waiting@.len() == s.waiting.len()
        &&& forall|v: int|
            0 <= v < self.waiting@.len() ==> #[trigger] self.waiting@[v] as nat == s.waiting[v]
        &&& self.retired + s.flying.len() + s.ready.len() + blocked(s.waiting) == plan.len()
    }

    /// A well-formed run is in a sound state of a well-formed plan.
    pub proof fn lemma_wf(&self)
        requires
            self.wf(),
        ensures
            self.plan().wf(),
            sound(self.plan(), self@),
    {
    }

    /// Sets up the run of `plan`.
    pub fn start(index: &GraphIndex, devices: usize, Ghost(plan): Ghost<Plan>) -> (sim: Simulation)
        requires
            plan.wf(),
            index.wires() == plan.wires,
            devices == plan.devices,
        ensures
            sim.wf(),
            sim.plan() == plan,
            sim@ == start(plan),
    {
        let n: usize = index.inputs.len();
        let ghost init = start(plan);
        let mut waiting: Vec<usize> = Vec::new();
        let mut ready: VecDeque<usize> = VecDeque::new();
        let mut i: usize = 0;
        while i < n
            invariant
                n == index.inputs.len(),
                index.wires() == plan.wires,
                init == start(plan),
                i <= n,
                waiting.len() == i,
                forall|v: int| 0 <= v < i ==> #[trigger] waiting@[v] as nat == init.waiting[v],
                ints(ready@) == idle_before(init.waiting, i as int),
            decreases n - i,
        {
            let count: usize = index.inputs[i].len();
            proof {
                assert(index.wires()[i as int].len() == count);
            }
            waiting.push(count);
            if count == 0 {
                ready.push_back(i);
                proof {
                    assert(ints(ready@) =~= idle_before(init.waiting, i as int).push(i as int));
                }
            }
            i = i + 1;
        }
        let mut free_at: Vec<u64> = Vec::new();
        let mut d: usize = 0;
        while d < devices
            invariant
                d <= devices,
                free_at.len() == d,
                forall|k: int| 0 <= k < d ==> #[trigger] free_at@[k] == 0,
            decreases devices - d,
        {
            free_at.push(0);
            d = d + 1;
        }
        let flying = TaskQueue::new();
        proof {
            lemma_idle_and_blocked(init.waiting, n as int);
            crate::model::lemma_start(plan);
            lemma_start_tidy(plan);
            lemma_start_counted(plan);
            assert(init.flying.to_multiset() =~= flying@) by {
                broadcast use group_to_multiset_ensures;
            }
        }
        Simulation {
            clock: 0,
            free_at,
            ready,
            flying,
            waiting,
            retired: 0,
            plan: Ghost(plan),
            state: Ghost(init),
        }
    }

    /// The node that is dispatched next, if one is ready.
    pub fn next_ready(&self) -> (next: Option<usize>)
        requires
            self.wf(),
        ensures
            match next {
                Some(id) => self@.ready.len() > 0 && self@.ready[0] == id && id < self.plan().len(),
                None => self@.ready.len() == 0,
            },
    {
        if self.ready.len() == 0 {
            None
        } else {
            let id: usize = self.ready[0];
            proof {
                assert(ints(self.ready@)[0] == id as int);
            }
            Some(id)
        }
    }

    /// Hands the first ready node to `device` for `cost` units of time.
    /// Returns `false`, and leaves the run unusable, if the finish time
    /// does not fit in 64 bits.
    pub fn dispatch(&mut self, device: usize, cost: u64) -> (fits: bool)
        requires
            old(self).wf(),
            old(self)@.ready.len() > 0,
            device == old(self).plan().seat[old(self)@.ready[0]],
            cost == old(self).plan().cost[old(self)@.ready[0]],
        ensures
            final(self).plan() == old(self).plan(),
            fits ==> final(self).wf() && final(self)@ == dispatch(old(self).plan(), old(self)@),
            !fits ==> dispatch(old(self).plan(), old(self)@).free_at[device as int] > u64::MAX,
    {
        let ghost s = self.state@;
        let ghost plan = self.plan@;
        proof {
            assert(ints(self.ready@)[0] == s.ready[0]);
            assert(0 <= s.ready[0] < plan.len());
            assert(0 <= plan.seat[s.ready[0]] < plan.devices);
        }
        let id: usize = self.ready.pop_front().unwrap();
        let free: u64 = self.free_at[device];
        let begin: u64 = if free >= self.clock {
            free
        } else {
            self.clock
        };
        match begin.checked_add(cost) {
            None => false,
            Some(finish) => {
                let ghost next = dispatch(plan, s);
                self.free_at.set(device, finish);
                self.flying.push(Task { id, eft: finish });
                self.state = Ghost(next);
                proof {
                    crate::model::lemma_step(plan, s);
                    lemma_step_tidy(plan, s);
                    lemma_step_counted(plan, s);
                    assert(ints(self.ready@) =~= next.ready);
                    to_multiset_build(s.flying, Flight { finish: finish as nat, node: id as int });
                }
                true
            },
        }
    }

    /// Completes the flight that is done first, if any is in flight.
    /// Returns whether one was.
    pub fn complete(&mut self, outputs: &Vec<Vec<usize>>) -> (progressed: bool)
        requires
            old(self).wf(),
            old(self)@.ready.len() == 0,
            outputs@.len() == old(self).plan().len(),
            forall|u: int|
                0 <= u < outputs@.len() ==> ints(#[trigger] outputs@[u]@) == consumers(
                    old(self).plan().wires,
                    u,
                ),
        ensures
            final(self).plan() == old(self).plan(),
            final(self).wf(),
            progressed ==> old(self)@.flying.len() > 0 && final(self)@ == complete(
                old(self).plan(),
                old(self)@,
            ),
            !progressed ==> old(self)@.flying.len() == 0 && final(self)@ == old(self)@,
    {
        let ghost s = self.state@;
        let ghost plan = self.plan@;
        proof {
            broadcast use {to_multiset_len, to_multiset_contains};
        }
        let task: Task = match self.flying.pop() {
            Some(task) => task,
            None => {
                return false;
            },
        };
        let ghost e = earliest(s.flying);
        proof {
            lemma_earliest(s.flying, s.flying.len() as int);
            assert(s.flying.contains(task@));
            assert(s.flying.contains(s.flying[e]));
            assert(precedes(task@, s.flying[e]));
            assert(precedes(s.flying[e], task@));
            assert(s.flying[e] == task@);
            to_multiset_remove(s.flying, e);
            assert(self.retired < self.waiting.len());
        }
        let ghost mid = landed(s);
        let ghost list = consumers(plan.wires, task.id as int);
        self.clock = task.eft;
        self.retired = self.retired + 1;
        self.state = Ghost(mid);
        proof {
            lemma_landed_tidy(plan, s);
            lemma_landing_budget(plan, s);
            lemma_consumers_are_nodes(plan.wires, task.id as int, plan.wires.len() as int, 0);
        }
        let wake: &Vec<usize> = &outputs[task.id];
        let mut k: usize = 0;
        while k < wake.len()
            invariant
                k <= wake.len(),
                ints(wake@) == list,
                forall|i: int| 0 <= i < list.len() ==> 0 <= #[trigger] list[i] < plan.len(),
                forall|w: int| 0 <= w < plan.len() ==> #[trigger] mid.waiting[w] >= refs(list, w),
                sound(plan, mid),
                self.plan@ == plan,
                self.mirrors(),
                self.state@ == release_before(mid, list, k as int),
            decreases wake.len() - k,
        {
            let w: usize = wake[k];
            let ghost cur = self.state@;
            proof {
                assert(list[k as int] == w as int);
                lemma_unlock(plan, cur, w as int);
                lemma_unlock_finds_count(plan, mid, list, k as int);
            }
            let count: usize = self.waiting[w];
            self.waiting.set(w, count - 1);
            if count == 1 {
                self.ready.push_back(w);
                proof {
                    assert(ints(self.ready@) =~= cur.ready.push(w as int));
                }
            }
            self.state = Ghost(unlock(cur, w as int));
            k = k + 1;
        }
        proof {
            lemma_step_tidy(plan, s);
            lemma_step_counted(plan, s);
        }
        true
    }

    /// The result of a run that has come to rest.
    pub fn result(&self) -> (r: Result<u64, ScheduleError>)
        requires
            self.wf(),
            self@.ready.len() == 0,
            self@.flying.len() == 0,
        ensures
            match r {
                Ok(time) => verdict(self@) == Ok::<nat, ScheduleError>(time as nat),
                Err(e) => verdict(self@) == Err::<nat, ScheduleError>(e),
            },
    {
        proof {
            let s = self.state@;
            assert forall|d: int| 0 <= d < s.free_at.len() implies s.free_at[d] <= u64::MAX by {
                assert(self.free_at@[d] as nat == s.free_at[d]);
            }
        }
        if self.retired < self.waiting.len() {
            Err(ScheduleError::Cycle)
        } else {
            Ok(self.clock)
        }
    }
}

} // verus!
