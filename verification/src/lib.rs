//! Makespan estimation for placed dataflow graphs.
//!
//! Given a graph whose nodes are already assigned to devices, and a table
//! of measured per-operation durations, the scheduler of this crate
//! replays the graph on a virtual clock and reports the time at which the
//! last node is done. Nothing is executed: the answer is a function of the
//! graph, the placement and the table.
//!
//! * [`graph`]: the graph as it is handed in, and its index by node number.
//! * [`profile`]: the table of measured durations.
//! * [`queue`]: the queue of nodes in flight, ordered by finish time.
//! * [`model`]: what a run is, as mathematics.
//! * [`sim`]: a run in machine integers, kept in step with the model.
//! * [`scheduler`]: the scheduler interface and the scheduler itself.
//! * [`laws`]: what holds of every estimate.
//! * [`bookkeeping`], [`counting`], [`cycles`], [`order`], [`single`],
//!   [`timing`]: the proofs behind the laws.

pub mod bookkeeping;
pub mod counting;
pub mod cycles;
pub mod graph;
pub mod laws;
pub mod model;
pub mod order;
pub mod profile;
pub mod queue;
pub mod scheduler;
pub mod sim;
pub mod single;
pub mod timing;
