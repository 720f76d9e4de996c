//! Schedulers: estimators of the time a placed graph takes to run.

use crate::graph::{
    dangling, first_dangling, first_misplaced, ints, lemma_find_last, misplaced, node_names,
    place, producer_name, seating, wiring, GraphIndex, Node, NodeView, ScheduleError, Target,
    TargetView,
};
use crate::model::{
    at_rest, dispatch, finished, late, lemma_rest, lemma_run, lemma_start, lemma_step, outcome,
    potential, run, Plan,
};
use crate::profile::ProfileTable;
use crate::sim::Simulation;
use vstd::prelude::*;

verus! {

/// What a profile-driven scheduler knows beforehand.
pub struct Profile {
    /// Number of replicas that a replicated operation is split into.
    pub copies: nat,
    /// Measured duration of each profiled operation, by its name.
    pub table: Map<Seq<char>, u64>,
}

/// The duration that `profile` gives `node`, if it has one.
///
/// A node without an origin, or whose origin was never measured, has none.
/// A node that is its own origin takes the measured duration; a replica of
/// another node takes that node's measured duration divided by the number
/// of replicas, rounded down.
pub open spec fn measured(profile: Profile, node: NodeView) -> Option<u64> {
    match node.origin {
        Some(origin) => if profile.table.contains_key(origin) {
            if node.name == origin {
                Some(profile.table[origin])
            } else {
                Some((profile.table[origin] as nat / profile.copies) as u64)
            }
        } else {
            None
        },
        None => None,
    }
}

/// How long `node` occupies its device: its measured duration, or nothing
/// at all where none is known.
pub open spec fn cost_of(profile: Profile, node: NodeView) -> nat {
    match measured(profile, node) {
        Some(duration) => duration as nat,
        None => 0,
    }
}

/// The scheduling problem that `t` poses under `profile`.
pub open spec fn plan_of(profile: Profile, t: TargetView) -> Plan {
    Plan {
        wires: wiring(t),
        seat: seating(t),
        cost: Seq::new(t.nodes.len(), |i: int| cost_of(profile, t.nodes[i])),
        devices: t.devices.len(),
    }
}

/// The estimate for `t` under `profile`.
///
/// An input that names no node is reported first, then a node on an
/// unknown device; a target with neither is run, and the run decides.
pub open spec fn forecast(profile: Profile, t: TargetView) -> Result<u64, ScheduleError> {
    match first_dangling(t) {
        Some(at) => Err(ScheduleError::UnknownInput { node: at.0 as usize, input: at.1 as usize }),
        None => match first_misplaced(t) {
            Some(i) => Err(ScheduleError::UnknownDevice { node: i as usize }),
            None => match outcome(plan_of(profile, t)) {
                Ok(time) => Ok(time as u64),
                Err(e) => Err(e),
            },
        },
    }
}

/// A target whose references all resolve poses a well-formed plan.
pub proof fn lemma_plan_wf(profile: Profile, t: TargetView)
    requires
        first_dangling(t) is None,
        first_misplaced(t) is None,
    ensures
        plan_of(profile, t).wf(),
{
    let plan = plan_of(profile, t);
    assert forall|i: int, j: int|
        0 <= i < plan.wires.len() && 0 <= j < plan.wires[i].len() implies 0
        <= #[trigger] plan.wires[i][j] < plan.wires.len() by {
        assert(!dangling(t, i, j));
        lemma_find_last(node_names(t), producer_name(t.nodes[i].input[j]));
    }
    assert forall|i: int| 0 <= i < plan.seat.len() implies 0 <= #[trigger] plan.seat[i]
        < plan.devices by {
        assert(!misplaced(t, i));
        lemma_find_last(t.devices, t.nodes[i].device);
    }
}

/// An estimator of the time a placed graph takes to run.
pub trait Scheduler {
    /// The estimate that this scheduler gives for `target`.
    spec fn estimate(&self, target: TargetView) -> Result<u64, ScheduleError>;

    /// Estimates the time at which the last node of `target` is done.
    ///
    /// The answer depends on the scheduler and the target alone, and asking
    /// does not change what the scheduler answers afterwards.
    fn evaluate(&mut self, target: &Target) -> (r: Result<u64, ScheduleError>)
        ensures
            r == old(self).estimate(target@),
            forall|t: TargetView| #[trigger] final(self).estimate(t) == old(self).estimate(t),
    ;
}

/// A scheduler that replays the graph the way a dataflow runtime would run
/// it: each node starts as soon as its inputs are done and its device is
/// free, and devices take their nodes in the order in which they became
/// ready.
pub struct TensorFlowLikeScheduler {
    n: usize,
    profile_dict: ProfileTable,
}

impl View for TensorFlowLikeScheduler {
    type V = Profile;

    closed spec fn view(&self) -> Profile {
        Profile { copies: self.n as nat, table: self.profile_dict@ }
    }
}

impl TensorFlowLikeScheduler {
    #[verifier::type_invariant]
    spec fn replicated(self) -> bool {
        self.n > 0
    }

    /// A scheduler for graphs whose replicated operations are split `n`
    /// ways, with the measured durations in `profile_dict`.
    pub fn new(n: usize, profile_dict: ProfileTable) -> (scheduler: TensorFlowLikeScheduler)
        requires
            n > 0,
        ensures
            scheduler@ == (Profile { copies: n as nat, table: profile_dict@ }),
    {
        TensorFlowLikeScheduler { n, profile_dict }
    }

    /// The duration of `node`, if the profile has one for it. The device
    /// makes no difference.
    pub fn profile(&self, node: &Node, _device_id: usize) -> (duration: Option<u64>)
        ensures
            duration == measured(self@, node@),
    {
        proof {
            use_type_invariant(self);
        }
        match &node.origin {
            Some(origin) => match self.profile_dict.get(origin.as_str()) {
                Some(time) => if node.name == *origin {
                    Some(time)
                } else {
                    Some(time / (self.n as u64))
                },
                None => None,
            },
            None => None,
        }
    }
}

impl Scheduler for TensorFlowLikeScheduler {
    open spec fn estimate(&self, target: TargetView) -> Result<u64, ScheduleError> {
        forecast(self@, target)
    }

    fn evaluate(&mut self, target: &Target) -> (r: Result<u64, ScheduleError>)
        ensures
            *final(self) == *old(self),
    {
        let index = match GraphIndex::build(target) {
            Ok(index) => index,
            Err(e) => {
                return Err(e);
            },
        };
        let seats = match place(target) {
            Ok(seats) => seats,
            Err(e) => {
                return Err(e);
            },
        };
        let ghost plan = plan_of(self@, target@);
        proof {
            lemma_plan_wf(self@, target@);
            lemma_start(plan);
        }
        let mut sim = Simulation::start(&index, target.devices.len(), Ghost(plan));
        loop
            invariant
                *self == *old(self),
                first_dangling(target@) is None,
                first_misplaced(target@) is None,
                plan == plan_of(self@, target@),
                index.describes(target@),
                ints(seats@) == seating(target@),
                sim.wf(),
                sim.plan() == plan,
                finished(plan) == run(plan, sim@, potential(sim@)),
            ensures
                sim.wf(),
                sim.plan() == plan,
                at_rest(sim@),
                finished(plan) == run(plan, sim@, potential(sim@)),
            decreases potential(sim@),
        {
            let ghost before = sim@;
            proof {
                sim.lemma_wf();
                lemma_step(plan, before);
            }
            match sim.next_ready() {
                Some(id) => {
                    let device: usize = seats[id];
                    let cost: u64 = match self.profile(&target.nodes[id], device) {
                        Some(duration) => duration,
                        None => 0,
                    };
                    proof {
                        assert(ints(seats@)[id as int] == device as int);
                        assert(target@.nodes[id as int] == target.nodes[id as int]@);
                    }
                    if !sim.dispatch(device, cost) {
                        proof {
                            let after = dispatch(plan, before);
                            let fuel = (potential(before) - 1) as nat;
                            lemma_run(plan, after, fuel);
                            assert(finished(plan) == run(plan, after, fuel));
                            assert(finished(plan).free_at[device as int] > u64::MAX);
                            assert(late(finished(plan)));
                        }
                        return Err(ScheduleError::Overflow);
                    }
                },
                None => {
                    if !sim.complete(&index.outputs) {
                        break;
                    }
                },
            }
        }
        proof {
            lemma_rest(plan, sim@, potential(sim@));
        }
        sim.result()
    }
}

} // verus!
