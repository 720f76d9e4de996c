//! The in-flight queue: a binary min-heap of tasks keyed by finish time.

use vstd::multiset::Multiset;
use vstd::prelude::*;
use vstd::seq_lib::*;

verus! {

/// A node that has been handed to its device, with the time at which it
/// will be done.
#[derive(Clone, Copy, Debug, PartialEq, Eq, Structural)]
pub struct Task {
    /// Index of the node.
    pub id: usize,
    /// Earliest finish time of the node.
    pub eft: u64,
}

/// Mathematical content of a [`Task`].
pub struct Flight {
    pub finish: nat,
    pub node: int,
}

impl View for Task {
    type V = Flight;

    open spec fn view(&self) -> Flight {
        Flight { finish: self.eft as nat, node: self.id as int }
    }
}

/// `a` leaves the queue no later than `b`: the earlier finish time goes
/// first, and of two equal finish times the lower node index.
pub open spec fn precedes(a: Flight, b: Flight) -> bool {
    a.finish < b.finish || (a.finish == b.finish && a.node <= b.node)
}

impl Task {
    /// Whether `self` leaves the queue no later than `other`.
    pub fn goes_before(&self, other: &Task) -> (b: bool)
        ensures
            b == precedes(self@, other@),
    {
        self.eft < other.eft || (self.eft == other.eft && self.id <= other.id)
    }
}

/// The contents of a sequence of tasks.
pub open spec fn flights(tasks: Seq<Task>) -> Seq<Flight> {
    tasks.map_values(|t: Task| t@)
}

/// Position of the parent of heap position `k`.
pub open spec fn parent(k: int) -> int {
    (k - 1) / 2
}

/// Every position but the root holds a flight that its parent precedes.
pub open spec fn heap_ordered(s: Seq<Flight>) -> bool {
    forall|k: int| 0 < k < s.len() ==> precedes(s[parent(k)], #[trigger] s[k])
}

/// The heap order holds everywhere except that position `i` may hold a
/// flight that is too early for its place.
spec fn ordered_but_early(s: Seq<Flight>, i: int) -> bool {
    &&& forall|k: int| 0 < k < s.len() && k != i ==> precedes(s[parent(k)], #[trigger] s[k])
    &&& forall|k: int|
        0 < k < s.len() && parent(k) == i && i > 0 ==> precedes(s[parent(i)], #[trigger] s[k])
}

/// The heap order holds everywhere except that position `i` may hold a
/// flight that is too late for its place.
spec fn ordered_but_late(s: Seq<Flight>, i: int) -> bool {
    &&& forall|k: int|
        0 < k < s.len() && parent(k) != i ==> precedes(s[parent(k)], #[trigger] s[k])
    &&& forall|k: int|
        0 < k < s.len() && parent(k) == i && i > 0 ==> precedes(s[parent(i)], #[trigger] s[k])
}

/// In a heap the root precedes every element.
proof fn lemma_root_first(s: Seq<Flight>, k: int)
    requires
        heap_ordered(s),
        0 <= k < s.len(),
    ensures
        precedes(s[0], s[k]),
    decreases k,
{
    if k > 0 {
        lemma_root_first(s, parent(k));
        assert(precedes(s[parent(k)], s[k]));
    }
}

/// Exchanging two elements of a sequence keeps its multiset.
proof fn lemma_exchange_keeps_contents(s: Seq<Flight>, i: int, j: int)
    requires
        0 <= i < s.len(),
        0 <= j < s.len(),
    ensures
        s.update(i, s[j]).update(j, s[i]).to_multiset() == s.to_multiset(),
{
    broadcast use {vstd::multiset::group_multiset_axioms, to_multiset_contains};

    let mid = s.update(i, s[j]);
    to_multiset_update(s, i, s[j]);
    to_multiset_update(mid, j, s[i]);
    assert(s.contains(s[i]));
    assert(s.contains(s[j]));
    assert(mid.update(j, s[i]).to_multiset() =~= s.to_multiset());
}

fn exchange(tasks: &mut Vec<Task>, i: usize, j: usize)
    requires
        i < old(tasks).len(),
        j < old(tasks).len(),
    ensures
        final(tasks)@ == old(tasks)@.update(i as int, old(tasks)@[j as int]).update(
            j as int,
            old(tasks)@[i as int],
        ),
        flights(final(tasks)@).to_multiset() == flights(old(tasks)@).to_multiset(),
        flights(final(tasks)@) == flights(old(tasks)@).update(
            i as int,
            flights(old(tasks)@)[j as int],
        ).update(j as int, flights(old(tasks)@)[i as int]),
{
    let a: Task = tasks[i];
    let b: Task = tasks[j];
    tasks.set(i, b);
    tasks.set(j, a);
    proof {
        let s = flights(old(tasks)@);
        assert(flights(tasks@) =~= s.update(i as int, s[j as int]).update(j as int, s[i as int]));
        lemma_exchange_keeps_contents(s, i as int, j as int);
    }
}

/// Moves the task at position `start` towards the root until its parent
/// precedes it.
fn sift_up(tasks: &mut Vec<Task>, start: usize)
    requires
        start < old(tasks).len(),
        ordered_but_early(flights(old(tasks)@), start as int),
    ensures
        heap_ordered(flights(final(tasks)@)),
        flights(final(tasks)@).to_multiset() == flights(old(tasks)@).to_multiset(),
        final(tasks).len() == old(tasks).len(),
{
    let mut i: usize = start;
    while i > 0
        invariant
            i < tasks.len(),
            tasks.len() == old(tasks).len(),
            ordered_but_early(flights(tasks@), i as int),
            flights(tasks@).to_multiset() == flights(old(tasks)@).to_multiset(),
        ensures
            heap_ordered(flights(tasks@)),
            tasks.len() == old(tasks).len(),
            flights(tasks@).to_multiset() == flights(old(tasks)@).to_multiset(),
        decreases i,
    {
        let up: usize = (i - 1) / 2;
        if tasks[up].goes_before(&tasks[i]) {
            break;
        }
        let ghost s = flights(tasks@);
        exchange(tasks, i, up);
        proof {
            let z = flights(tasks@);
            assert(precedes(z[up as int], z[i as int]));
            assert forall|k: int| 0 < k < z.len() && k != up implies precedes(
                z[parent(k)],
                #[trigger] z[k],
            ) by {
                if k != i {
                    assert(precedes(s[parent(k)], s[k]));
                }
            }
            assert forall|k: int| 0 < k < z.len() && parent(k) == up && up > 0 implies precedes(
                z[parent(up as int)],
                #[trigger] z[k],
            ) by {
                assert(precedes(s[parent(up as int)], s[up as int]));
                if k != i {
                    assert(precedes(s[parent(k)], s[k]));
                }
            }
        }
        i = up;
    }
}

/// Moves the task at the root away from it until it precedes its children.
fn sift_down(tasks: &mut Vec<Task>)
    requires
        ordered_but_late(flights(old(tasks)@), 0),
    ensures
        heap_ordered(flights(final(tasks)@)),
        flights(final(tasks)@).to_multiset() == flights(old(tasks)@).to_multiset(),
        final(tasks).len() == old(tasks).len(),
{
    let n: usize = tasks.len();
    let mut i: usize = 0;
    loop
        invariant
            n == tasks.len(),
            tasks.len() == old(tasks).len(),
            i < n || n == 0,
            ordered_but_late(flights(tasks@), i as int),
            flights(tasks@).to_multiset() == flights(old(tasks)@).to_multiset(),
        ensures
            heap_ordered(flights(tasks@)),
            tasks.len() == old(tasks).len(),
            flights(tasks@).to_multiset() == flights(old(tasks)@).to_multiset(),
        decreases n - i,
    {
        if n < 2 || i > (n - 2) / 2 {
            proof {
                let z = flights(tasks@);
                assert forall|k: int| 0 < k < z.len() implies precedes(
                    z[parent(k)],
                    #[trigger] z[k],
                ) by {
                    assert(parent(k) != i);
                }
            }
            break;
        }
        let left: usize = 2 * i + 1;
        let right: usize = left + 1;
        let mut child: usize = left;
        if right < n && !tasks[left].goes_before(&tasks[right]) {
            child = right;
        }
        if tasks[i].goes_before(&tasks[child]) {
            proof {
                let z = flights(tasks@);
                assert forall|k: int| 0 < k < z.len() implies precedes(
                    z[parent(k)],
                    #[trigger] z[k],
                ) by {
                    if parent(k) == i {
                        assert(k == left || k == right);
                    }
                }
            }
            break;
        }
        let ghost s = flights(tasks@);
        exchange(tasks, i, child);
        proof {
            let z = flights(tasks@);
            assert forall|k: int| 0 < k < z.len() && parent(k) != child implies precedes(
                z[parent(k)],
                #[trigger] z[k],
            ) by {
                if parent(k) == i {
                    assert(k == left || k == right);
                } else if k == i {
                    assert(precedes(s[parent(i as int)], s[child as int]));
                } else {
                    assert(precedes(s[parent(k)], s[k]));
                }
            }
            assert forall|k: int|
                0 < k < z.len() && parent(k) == child && child > 0 implies precedes(
                z[parent(child as int)],
                #[trigger] z[k],
            ) by {
                assert(precedes(s[parent(k)], s[k]));
            }
        }
        i = child;
    }
}

/// The set of tasks in flight, handed out in order of finish time.
pub struct TaskQueue {
    heap: Vec<Task>,
}

impl View for TaskQueue {
    type V = Multiset<Flight>;

    closed spec fn view(&self) -> Multiset<Flight> {
        flights(self.heap@).to_multiset()
    }
}

impl TaskQueue {
    /// The tasks are arranged as a heap. Every queue made by `new` and
    /// changed only by `push` and `pop` is.
    pub closed spec fn wf(&self) -> bool {
        heap_ordered(flights(self.heap@))
    }

    /// An empty queue.
    pub fn new() -> (queue: TaskQueue)
        ensures
            queue.wf(),
            queue@ == Multiset::<Flight>::empty(),
    {
        let queue = TaskQueue { heap: Vec::new() };
        proof {
            assert(flights(queue.heap@) =~= Seq::<Flight>::empty());
            assert(Seq::<Flight>::empty().to_multiset() =~= Multiset::<Flight>::empty()) by {
                broadcast use group_to_multiset_ensures;
            }
        }
        queue
    }

    /// Number of tasks in flight.
    pub fn len(&self) -> (n: usize)
        ensures
            n == self@.len(),
    {
        proof {
            broadcast use to_multiset_len;
        }
        self.heap.len()
    }

    /// Adds a task.
    pub fn push(&mut self, task: Task)
        requires
            old(self).wf(),
        ensures
            final(self).wf(),
            final(self)@ == old(self)@.insert(task@),
    {
        let ghost s = flights(self.heap@);
        self.heap.push(task);
        proof {
            assert(flights(self.heap@) =~= s.push(task@));
            to_multiset_build(s, task@);
        }
        let last: usize = self.heap.len() - 1;
        sift_up(&mut self.heap, last);
    }

    /// Takes out the task that precedes all others, if the queue holds any.
    pub fn pop(&mut self) -> (first: Option<Task>)
        requires
            old(self).wf(),
        ensures
            final(self).wf(),
            match first {
                Some(task) => {
                    &&& old(self)@.count(task@) > 0
                    &&& forall|other: Flight|
                        old(self)@.count(other) > 0 ==> precedes(task@, other)
                    &&& final(self)@ == old(self)@.remove(task@)
                },
                None => old(self)@.len() == 0 && final(self)@ == old(self)@,
            },
    {
        proof {
            broadcast use {to_multiset_len, to_multiset_contains};
        }
        let ghost s = flights(self.heap@);
        if self.heap.len() == 0 {
            return None;
        }
        let first: Task = self.heap[0];
        proof {
            assert(s.contains(s[0]));
            assert forall|other: Flight| s.to_multiset().count(other) > 0 implies precedes(
                first@,
                other,
            ) by {
                assert(s.contains(other));
                let k = choose|k: int| 0 <= k < s.len() && s[k] == other;
                lemma_root_first(s, k);
            }
        }
        let last: Task = self.heap.pop().unwrap();
        proof {
            assert(s =~= flights(self.heap@).push(last@));
            to_multiset_build(flights(self.heap@), last@);
        }
        if self.heap.len() > 0 {
            let ghost rest = flights(self.heap@);
            self.heap.set(0, last);
            proof {
                let z = flights(self.heap@);
                assert(z =~= rest.update(0, last@));
                to_multiset_update(rest, 0, last@);
                assert(rest[0] == first@);
                assert(z.to_multiset() =~= s.to_multiset().remove(first@)) by {
                    broadcast use vstd::multiset::group_multiset_axioms;
                }
                assert forall|k: int| 0 < k < z.len() && parent(k) != 0 implies precedes(
                    z[parent(k)],
                    #[trigger] z[k],
                ) by {
                    assert(precedes(s[parent(k)], s[k]));
                }
            }
            sift_down(&mut self.heap);
        } else {
            proof {
                assert(last@ == first@);
                assert(flights(self.heap@).to_multiset() =~= s.to_multiset().remove(first@)) by {
                    broadcast use vstd::multiset::group_multiset_axioms;
                }
            }
        }
        Some(first)
    }
}

} // verus!
