use tge_scheduler::graph::{Node, ScheduleError, Target};
use tge_scheduler::profile::ProfileTable;
use tge_scheduler::scheduler::{Scheduler, TensorFlowLikeScheduler};

fn node(name: &str, device: &str, input: &[&str]) -> Node {
    Node {
        name: name.to_string(),
        device: device.to_string(),
        input: input.iter().map(|s| s.to_string()).collect(),
        origin: Some(name.to_string()),
    }
}

fn replica(name: &str, origin: &str, device: &str, input: &[&str]) -> Node {
    Node {
        name: name.to_string(),
        device: device.to_string(),
        input: input.iter().map(|s| s.to_string()).collect(),
        origin: Some(origin.to_string()),
    }
}

fn target(nodes: Vec<Node>, devices: &[&str]) -> Target {
    Target { nodes, devices: devices.iter().map(|s| s.to_string()).collect() }
}

fn table(entries: &[(&str, u64)]) -> ProfileTable {
    let mut t = ProfileTable::new();
    for (name, duration) in entries {
        t.insert(name.to_string(), *duration);
    }
    t
}

fn scheduler(n: usize, entries: &[(&str, u64)]) -> TensorFlowLikeScheduler {
    TensorFlowLikeScheduler::new(n, table(entries))
}

fn diamond() -> Target {
    target(
        vec![
            node("a", "d0", &[]),
            node("b", "d0", &["a"]),
            node("c", "d1", &["a"]),
            node("d", "d0", &["b", "c"]),
        ],
        &["d0", "d1"],
    )
}

#[test]
fn profile_table_keeps_the_last_entry() {
    let mut t = ProfileTable::new();
    assert_eq!(t.len(), 0);
    assert_eq!(t.get("a"), None);
    t.insert("a".to_string(), 3);
    t.insert("b".to_string(), 4);
    t.insert("a".to_string(), 5);
    assert_eq!(t.len(), 2);
    assert_eq!(t.get("a"), Some(5));
    assert_eq!(t.get("b"), Some(4));
    assert_eq!(t.get("c"), None);
}

#[test]
fn replica_takes_its_share_of_the_origin() {
    let s = scheduler(4, &[("matmul", 100)]);
    assert_eq!(s.profile(&replica("matmul/replica_2", "matmul", "d0", &[]), 0), Some(25));
}

#[test]
fn node_that_is_its_own_origin_takes_the_whole() {
    let s = scheduler(4, &[("matmul", 100)]);
    assert_eq!(s.profile(&node("matmul", "d0", &[]), 0), Some(100));
}

#[test]
fn share_is_rounded_down() {
    let s = scheduler(4, &[("op", 10), ("tiny", 3)]);
    assert_eq!(s.profile(&replica("op_1", "op", "d0", &[]), 0), Some(2));
    assert_eq!(s.profile(&replica("tiny_1", "tiny", "d0", &[]), 0), Some(0));
}

#[test]
fn single_replica_takes_the_whole() {
    let s = scheduler(1, &[("op", 10)]);
    assert_eq!(s.profile(&replica("op_0", "op", "d0", &[]), 0), Some(10));
}

#[test]
fn device_makes_no_difference() {
    let s = scheduler(2, &[("op", 10)]);
    let r = replica("op_0", "op", "d0", &[]);
    assert_eq!(s.profile(&r, 0), s.profile(&r, 7));
}

#[test]
fn node_without_origin_has_no_duration() {
    let s = scheduler(4, &[("op", 10)]);
    let bare = Node {
        name: "op".to_string(),
        device: "d0".to_string(),
        input: vec![],
        origin: None,
    };
    assert_eq!(s.profile(&bare, 0), None);
}

#[test]
fn unmeasured_origin_has_no_duration() {
    let s = scheduler(4, &[("op", 10)]);
    assert_eq!(s.profile(&node("other", "d0", &[]), 0), None);
    assert_eq!(s.profile(&replica("op_1", "other", "d0", &[]), 0), None);
}

#[test]
fn empty_graph_takes_no_time() {
    let mut s = scheduler(1, &[]);
    assert_eq!(s.evaluate(&target(vec![], &[])), Ok(0));
    assert_eq!(s.evaluate(&target(vec![], &["d0", "d1"])), Ok(0));
}

#[test]
fn independent_nodes_on_one_device_add_up() {
    let mut s = scheduler(1, &[("a", 3), ("b", 4), ("c", 5), ("d", 6)]);
    let t = target(
        vec![node("a", "d0", &[]), node("b", "d0", &[]), node("c", "d0", &[]), node("d", "d0", &[])],
        &["d0"],
    );
    assert_eq!(s.evaluate(&t), Ok(18));
}

#[test]
fn independent_nodes_take_as_long_as_the_busiest_device() {
    let mut s = scheduler(1, &[("a", 3), ("b", 4), ("c", 5), ("d", 6), ("e", 1)]);
    let t = target(
        vec![
            node("a", "d0", &[]),
            node("b", "d1", &[]),
            node("c", "d0", &[]),
            node("d", "d2", &[]),
            node("e", "d1", &[]),
        ],
        &["d0", "d1", "d2", "idle"],
    );
    assert_eq!(s.evaluate(&t), Ok(8));
}

#[test]
fn chain_on_one_device() {
    let mut s = scheduler(1, &[("a", 3), ("b", 4), ("c", 5)]);
    let t = target(
        vec![node("a", "d0", &[]), node("b", "d0", &["a"]), node("c", "d0", &["b"])],
        &["d0"],
    );
    assert_eq!(s.evaluate(&t), Ok(12));
}

#[test]
fn chain_listed_backwards() {
    let mut s = scheduler(1, &[("a", 3), ("b", 4), ("c", 5)]);
    let t = target(
        vec![node("c", "d0", &["b:0"]), node("b", "d0", &["^a"]), node("a", "d0", &[])],
        &["d0"],
    );
    assert_eq!(s.evaluate(&t), Ok(12));
}

#[test]
fn diamond_on_two_devices() {
    let mut s = scheduler(1, &[("a", 2), ("b", 3), ("c", 5), ("d", 1)]);
    assert_eq!(s.evaluate(&diamond()), Ok(8));
}

#[test]
fn waiting_device_starts_late() {
    let mut s = scheduler(1, &[("a", 10), ("b", 1)]);
    let t = target(vec![node("a", "d0", &[]), node("b", "d1", &["a"])], &["d0", "d1"]);
    assert_eq!(s.evaluate(&t), Ok(11));
}

#[test]
fn busy_device_delays_a_ready_node() {
    let mut s = scheduler(1, &[("a", 1), ("long", 10), ("b", 2)]);
    let t = target(
        vec![node("a", "d0", &[]), node("long", "d1", &[]), node("b", "d1", &["a"])],
        &["d0", "d1"],
    );
    assert_eq!(s.evaluate(&t), Ok(12));
}

#[test]
fn replicas_share_the_measured_time() {
    let mut s = scheduler(4, &[("matmul", 100), ("sum", 7)]);
    let t = target(
        vec![
            replica("matmul/0", "matmul", "d0", &[]),
            replica("matmul/1", "matmul", "d1", &[]),
            replica("matmul/2", "matmul", "d0", &[]),
            node("sum", "d1", &["matmul/0", "matmul/1", "matmul/2"]),
        ],
        &["d0", "d1"],
    );
    assert_eq!(s.evaluate(&t), Ok(57));
}

#[test]
fn unprofiled_node_costs_nothing() {
    let mut s = scheduler(1, &[("a", 3), ("c", 5)]);
    let t = target(
        vec![node("a", "d0", &[]), node("b", "d0", &["a"]), node("c", "d0", &["b"])],
        &["d0"],
    );
    assert_eq!(s.evaluate(&t), Ok(8));
}

#[test]
fn unprofiled_node_leaves_its_device_where_it_was() {
    let mut s = scheduler(1, &[("a", 3), ("c", 5)]);
    let t = target(
        vec![node("a", "d0", &[]), node("b", "d1", &["a"]), node("c", "d1", &["b"])],
        &["d0", "d1"],
    );
    assert_eq!(s.evaluate(&t), Ok(8));
    let alone = target(vec![node("b", "d0", &[])], &["d0"]);
    assert_eq!(s.evaluate(&alone), Ok(0));
}

#[test]
fn node_is_started_once_however_often_it_names_an_input() {
    let mut s = scheduler(1, &[("x", 2), ("double", 3)]);
    let t = target(
        vec![node("x", "d0", &[]), node("double", "d0", &["x", "x:1", "^x"])],
        &["d0"],
    );
    assert_eq!(s.evaluate(&t), Ok(5));
}

#[test]
fn unused_results_still_occupy_their_device() {
    let mut s = scheduler(1, &[("a", 1), ("dead", 50), ("b", 1)]);
    let t = target(
        vec![node("a", "d0", &[]), node("dead", "d0", &[]), node("b", "d0", &["a"])],
        &["d0"],
    );
    assert_eq!(s.evaluate(&t), Ok(52));
}

#[test]
fn same_question_same_answer() {
    let mut s = scheduler(1, &[("a", 2), ("b", 3), ("c", 5), ("d", 1)]);
    let t = diamond();
    let first = s.evaluate(&t);
    let second = s.evaluate(&t);
    assert_eq!(first, Ok(8));
    assert_eq!(first, second);
    let mut other = scheduler(1, &[("d", 1), ("c", 5), ("b", 3), ("a", 2)]);
    assert_eq!(other.evaluate(&diamond()), first);
}

#[test]
fn longer_node_makes_the_diamond_no_shorter() {
    let base = scheduler(1, &[("a", 2), ("b", 3), ("c", 5), ("d", 1)]).evaluate(&diamond());
    assert_eq!(base, Ok(8));
    assert_eq!(scheduler(1, &[("a", 4), ("b", 3), ("c", 5), ("d", 1)]).evaluate(&diamond()), Ok(10));
    assert_eq!(scheduler(1, &[("a", 2), ("b", 9), ("c", 5), ("d", 1)]).evaluate(&diamond()), Ok(12));
    assert_eq!(scheduler(1, &[("a", 2), ("b", 3), ("c", 6), ("d", 1)]).evaluate(&diamond()), Ok(9));
    assert_eq!(scheduler(1, &[("a", 2), ("b", 3), ("c", 5), ("d", 2)]).evaluate(&diamond()), Ok(9));
    assert_eq!(scheduler(1, &[("a", 2), ("b", 4), ("c", 5), ("d", 1)]).evaluate(&diamond()), Ok(8));
}

#[test]
fn longer_node_can_change_the_order_on_a_shared_device() {
    let t = target(
        vec![
            node("a", "d0", &[]),
            node("b", "d1", &[]),
            node("x", "d2", &["a"]),
            node("y", "d2", &["b"]),
            node("z", "d3", &["x"]),
        ],
        &["d0", "d1", "d2", "d3"],
    );
    let quick = scheduler(1, &[("a", 2), ("b", 1), ("x", 1), ("y", 10), ("z", 100)]).evaluate(&t);
    let slow = scheduler(1, &[("a", 2), ("b", 3), ("x", 1), ("y", 10), ("z", 100)]).evaluate(&t);
    assert_eq!(quick, Ok(112));
    assert_eq!(slow, Ok(103));
}

#[test]
fn equal_finish_times_complete_by_node_index() {
    let t = target(
        vec![
            node("a", "d0", &[]),
            node("b", "d1", &[]),
            node("after_b", "d2", &["b"]),
            node("after_a", "d2", &["a"]),
            node("tail", "d3", &["after_a"]),
        ],
        &["d0", "d1", "d2", "d3"],
    );
    let mut s = scheduler(1, &[("a", 5), ("b", 5), ("after_a", 1), ("after_b", 10), ("tail", 20)]);
    assert_eq!(s.evaluate(&t), Ok(26));
}

#[test]
fn cycle_is_an_error() {
    let mut s = scheduler(1, &[("a", 1), ("b", 1), ("c", 1)]);
    let t = target(
        vec![node("a", "d0", &["c"]), node("b", "d0", &["a"]), node("c", "d0", &["b"])],
        &["d0"],
    );
    assert_eq!(s.evaluate(&t), Err(ScheduleError::Cycle));
}

#[test]
fn cycle_behind_runnable_nodes_is_an_error() {
    let mut s = scheduler(1, &[("a", 1), ("b", 1), ("c", 1), ("d", 1)]);
    let t = target(
        vec![
            node("a", "d0", &[]),
            node("b", "d0", &["a", "d"]),
            node("c", "d0", &["b"]),
            node("d", "d0", &["c"]),
        ],
        &["d0"],
    );
    assert_eq!(s.evaluate(&t), Err(ScheduleError::Cycle));
}

#[test]
fn node_that_waits_for_itself_is_a_cycle() {
    let mut s = scheduler(1, &[("a", 1)]);
    let t = target(vec![node("a", "d0", &["a:0"])], &["d0"]);
    assert_eq!(s.evaluate(&t), Err(ScheduleError::Cycle));
}

#[test]
fn unknown_input_is_an_error() {
    let mut s = scheduler(1, &[("a", 1), ("b", 1)]);
    let t = target(vec![node("a", "d0", &[]), node("b", "d0", &["a", "^missing"])], &["d0"]);
    assert_eq!(s.evaluate(&t), Err(ScheduleError::UnknownInput { node: 1, input: 1 }));
}

#[test]
fn unknown_device_is_an_error() {
    let mut s = scheduler(1, &[("a", 1), ("b", 1)]);
    let t = target(vec![node("a", "d0", &[]), node("b", "d9", &["a"])], &["d0"]);
    assert_eq!(s.evaluate(&t), Err(ScheduleError::UnknownDevice { node: 1 }));
}

#[test]
fn unknown_input_is_reported_before_unknown_device() {
    let mut s = scheduler(1, &[]);
    let t = target(vec![node("a", "nowhere", &[]), node("b", "d0", &["nobody"])], &["d0"]);
    assert_eq!(s.evaluate(&t), Err(ScheduleError::UnknownInput { node: 1, input: 0 }));
}

#[test]
fn time_beyond_64_bits_is_an_error() {
    let mut s = scheduler(1, &[("a", u64::MAX), ("b", 1)]);
    let t = target(vec![node("a", "d0", &[]), node("b", "d0", &[])], &["d0"]);
    assert_eq!(s.evaluate(&t), Err(ScheduleError::Overflow));
}

#[test]
fn largest_time_that_fits() {
    let mut s = scheduler(1, &[("a", u64::MAX - 1), ("b", 1)]);
    let t = target(vec![node("a", "d0", &[]), node("b", "d0", &["a"])], &["d0"]);
    assert_eq!(s.evaluate(&t), Ok(u64::MAX));
}

#[test]
fn overflow_is_reported_even_in_a_cyclic_graph() {
    let mut s = scheduler(1, &[("a", u64::MAX), ("b", 1), ("c", 1), ("d", 1)]);
    let t = target(
        vec![
            node("a", "d0", &[]),
            node("b", "d0", &[]),
            node("c", "d0", &["d"]),
            node("d", "d0", &["c"]),
        ],
        &["d0"],
    );
    assert_eq!(s.evaluate(&t), Err(ScheduleError::Overflow));
}

#[test]
fn repeated_node_name_stands_for_the_last_node() {
    let mut s = scheduler(1, &[("a", 2), ("b", 3)]);
    let t = target(
        vec![
            replica("twin", "b", "d0", &["twin"]),
            replica("twin", "a", "d0", &[]),
        ],
        &["d0"],
    );
    assert_eq!(s.evaluate(&t), Ok(5));
}
