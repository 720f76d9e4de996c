use tge_scheduler::graph::{
    index_names, place, referenced_name, GraphIndex, Node, ScheduleError, Target,
};

fn node(name: &str, device: &str, input: &[&str]) -> Node {
    Node {
        name: name.to_string(),
        device: device.to_string(),
        input: input.iter().map(|s| s.to_string()).collect(),
        origin: Some(name.to_string()),
    }
}

fn target(nodes: Vec<Node>, devices: &[&str]) -> Target {
    Target { nodes, devices: devices.iter().map(|s| s.to_string()).collect() }
}

#[test]
fn plain_reference_names_the_node() {
    assert_eq!(referenced_name("conv1"), "conv1");
}

#[test]
fn control_marker_is_stripped() {
    assert_eq!(referenced_name("^init"), "init");
}

#[test]
fn output_slot_is_stripped() {
    assert_eq!(referenced_name("conv1:2"), "conv1");
}

#[test]
fn only_the_first_separator_counts() {
    assert_eq!(referenced_name("a:b:c"), "a");
}

#[test]
fn control_reference_keeps_what_follows_the_marker() {
    assert_eq!(referenced_name("^a:1"), "a:1");
}

#[test]
fn marker_inside_a_name_is_kept() {
    assert_eq!(referenced_name("a^b"), "a^b");
}

#[test]
fn degenerate_references() {
    assert_eq!(referenced_name(""), "");
    assert_eq!(referenced_name("^"), "");
    assert_eq!(referenced_name(":0"), "");
}

#[test]
fn references_outside_ascii() {
    assert_eq!(referenced_name("größe:0"), "größe");
    assert_eq!(referenced_name("^变量"), "变量");
    assert_eq!(referenced_name("变量"), "变量");
}

#[test]
fn names_are_indexed_by_position() {
    let names = vec!["a".to_string(), "b".to_string(), "c".to_string()];
    let table = index_names(&names);
    assert_eq!(table.len(), 3);
    assert_eq!(table.get("a"), Some(&0));
    assert_eq!(table.get("b"), Some(&1));
    assert_eq!(table.get("c"), Some(&2));
    assert_eq!(table.get("d"), None);
}

#[test]
fn repeated_name_stands_for_its_last_position() {
    let names = vec!["a".to_string(), "b".to_string(), "a".to_string()];
    let table = index_names(&names);
    assert_eq!(table.len(), 2);
    assert_eq!(table.get("a"), Some(&2));
    assert_eq!(table.get("b"), Some(&1));
}

#[test]
fn diamond_is_indexed_both_ways() {
    let t = target(
        vec![
            node("a", "d0", &[]),
            node("b", "d0", &["a"]),
            node("c", "d1", &["a:0"]),
            node("d", "d0", &["b", "^c"]),
        ],
        &["d0", "d1"],
    );
    let index = GraphIndex::build(&t).unwrap();
    assert_eq!(index.inputs, vec![vec![], vec![0], vec![0], vec![1, 2]]);
    assert_eq!(index.outputs, vec![vec![1, 2], vec![3], vec![3], vec![]]);
    assert_eq!(index.names.get("c"), Some(&2));
    assert_eq!(index.names.get("e"), None);
}

#[test]
fn each_reference_is_an_edge_of_its_own() {
    let t = target(
        vec![node("x", "d0", &[]), node("sum", "d0", &["x", "x:1", "^x"]), node("y", "d0", &["x"])],
        &["d0"],
    );
    let index = GraphIndex::build(&t).unwrap();
    assert_eq!(index.inputs, vec![vec![], vec![0, 0, 0], vec![0]]);
    assert_eq!(index.outputs, vec![vec![1, 1, 1, 2], vec![], vec![]]);
}

#[test]
fn references_may_point_forward() {
    let t = target(vec![node("late", "d0", &["early"]), node("early", "d0", &[])], &["d0"]);
    let index = GraphIndex::build(&t).unwrap();
    assert_eq!(index.inputs, vec![vec![1], vec![]]);
    assert_eq!(index.outputs, vec![vec![], vec![0]]);
}

#[test]
fn empty_graph_has_an_empty_index() {
    let t = target(vec![], &[]);
    let index = GraphIndex::build(&t).unwrap();
    assert!(index.inputs.is_empty());
    assert!(index.outputs.is_empty());
    assert_eq!(index.names.len(), 0);
}

#[test]
fn first_unknown_input_is_reported() {
    let t = target(
        vec![
            node("a", "d0", &[]),
            node("b", "d0", &["a", "ghost:0", "phantom"]),
            node("c", "d0", &["nobody"]),
        ],
        &["d0"],
    );
    match GraphIndex::build(&t) {
        Err(e) => assert_eq!(e, ScheduleError::UnknownInput { node: 1, input: 1 }),
        Ok(_) => panic!("an unknown input went unnoticed"),
    }
}

#[test]
fn devices_are_resolved_by_name() {
    let t = target(
        vec![node("a", "gpu1", &[]), node("b", "gpu0", &[]), node("c", "gpu1", &[])],
        &["gpu0", "gpu1"],
    );
    assert_eq!(place(&t), Ok(vec![1, 0, 1]));
}

#[test]
fn first_unknown_device_is_reported() {
    let t = target(
        vec![node("a", "gpu0", &[]), node("b", "tpu", &[]), node("c", "cpu", &[])],
        &["gpu0"],
    );
    assert_eq!(place(&t), Err(ScheduleError::UnknownDevice { node: 1 }));
}

#[test]
fn node_on_an_empty_device_list_is_misplaced() {
    let t = target(vec![node("a", "gpu0", &[])], &[]);
    assert_eq!(place(&t), Err(ScheduleError::UnknownDevice { node: 0 }));
}
