//! The placed graph handed to a scheduler, and the resolution of its textual
//! dependency references into node indices.

use vstd::hash_map::StringHashMap;
use vstd::prelude::*;
use vstd::std_specs::iter::IteratorSpec;
use vstd::string::*;

verus! {

/// One operation of the graph.
pub struct Node {
    /// Name of the node, by which other nodes refer to it.
    pub name: String,
    /// Name of the device the node is placed on.
    pub device: String,
    /// Dependency references, in declaration order.
    pub input: Vec<String>,
    /// Name of the node this one was cloned from, if it carries one.
    pub origin: Option<String>,
}

/// Mathematical content of a [`Node`].
pub struct NodeView {
    pub name: Seq<char>,
    pub device: Seq<char>,
    pub input: Seq<Seq<char>>,
    pub origin: Option<Seq<char>>,
}

impl View for Node {
    type V = NodeView;

    open spec fn view(&self) -> NodeView {
        NodeView {
            name: self.name@,
            device: self.device@,
            input: self.input@.map_values(|s: String| s@),
            origin: match self.origin {
                Some(o) => Some(o@),
                None => None,
            },
        }
    }
}

/// A graph together with the devices its nodes are placed on.
pub struct Target {
    pub nodes: Vec<Node>,
    pub devices: Vec<String>,
}

/// Mathematical content of a [`Target`].
pub struct TargetView {
    pub nodes: Seq<NodeView>,
    pub devices: Seq<Seq<char>>,
}

impl View for Target {
    type V = TargetView;

    open spec fn view(&self) -> TargetView {
        TargetView {
            nodes: self.nodes@.map_values(|n: Node| n@),
            devices: self.devices@.map_values(|s: String| s@),
        }
    }
}

/// Position of the first `c` in `s` at or after `from`, or `s.len()` if there is none.
pub open spec fn first_at(s: Seq<char>, c: char, from: int) -> int
    decreases s.len() - from,
{
    if from < 0 || from >= s.len() {
        s.len() as int
    } else if s[from] == c {
        from
    } else {
        first_at(s, c, from + 1)
    }
}

/// The node name a dependency reference points at.
///
/// A reference that begins with `^` is a control dependency and names the
/// node by everything after the marker. Any other reference names the node
/// by the text before its first `:`, or by the whole text if it has none.
pub open spec fn producer_name(reference: Seq<char>) -> Seq<char> {
    if reference.len() > 0 && reference[0] == '^' {
        reference.subrange(1, reference.len() as int)
    } else {
        reference.subrange(0, first_at(reference, ':', 0))
    }
}

/// What `first_at` finds: the least position at or after `from` that
/// holds `c`.
pub proof fn lemma_first_at(s: Seq<char>, c: char, from: int)
    requires
        0 <= from <= s.len(),
    ensures
        from <= first_at(s, c, from) <= s.len(),
        first_at(s, c, from) < s.len() ==> s[first_at(s, c, from)] == c,
        forall|k: int| from <= k < first_at(s, c, from) ==> s[k] != c,
    decreases s.len() - from,
{
    if from < s.len() && s[from] != c {
        lemma_first_at(s, c, from + 1);
    }
}

/// Strips the control marker or the output slot from a dependency reference.
pub fn referenced_name(reference: &str) -> (name: &str)
    ensures
        name@ == producer_name(reference@),
{
    let n: usize = reference.unicode_len();
    let mut rest = reference.chars();
    let mut i: usize = 0;
    loop
        invariant
            n == reference@.len(),
            i <= n,
            rest.remaining() == reference@.skip(i as int),
            forall|k: int| 0 <= k < i ==> reference@[k] != ':',
            i > 0 ==> reference@[0] != '^',
        decreases n - i,
    {
        match rest.next() {
            Some(c) => {
                assert(c == reference@[i as int]);
                if i == 0 && c == '^' {
                    return reference.substring_char(1, n);
                }
                if c == ':' {
                    proof {
                        lemma_first_at(reference@, ':', 0);
                    }
                    return reference.substring_char(0, i);
                }
                i = i + 1;
            },
            None => {
                proof {
                    lemma_first_at(reference@, ':', 0);
                    assert(reference@.subrange(0, n as int) =~= reference@);
                }
                return reference;
            },
        }
    }
}

/// Why a target cannot be scheduled.
#[derive(Debug, Clone, Copy, PartialEq, Eq, Structural)]
pub enum ScheduleError {
    /// Input number `input` of node number `node` names no node of the graph.
    UnknownInput { node: usize, input: usize },
    /// Node number `node` is placed on a device that is not in the device list.
    UnknownDevice { node: usize },
    /// Some nodes wait on each other, so they can never start.
    Cycle,
    /// A finish time does not fit in 64 bits.
    Overflow,
}

/// The texts held by a sequence of strings.
pub open spec fn texts(v: Seq<String>) -> Seq<Seq<char>> {
    v.map_values(|s: String| s@)
}

/// A sequence of machine indices as mathematical integers.
pub open spec fn ints(v: Seq<usize>) -> Seq<int> {
    v.map_values(|x: usize| x as int)
}

/// Index of the last occurrence of `name` in `names`, if it occurs at all.
pub open spec fn find_last(names: Seq<Seq<char>>, name: Seq<char>) -> Option<int>
    decreases names.len(),
{
    if names.len() == 0 {
        None
    } else if names.last() == name {
        Some(names.len() - 1)
    } else {
        find_last(names.drop_last(), name)
    }
}

/// What `find_last` finds: the greatest index that holds `name`.
pub proof fn lemma_find_last(names: Seq<Seq<char>>, name: Seq<char>)
    ensures
        match find_last(names, name) {
            Some(k) => 0 <= k < names.len() && names[k] == name && forall|j: int|
                k < j < names.len() ==> names[j] != name,
            None => forall|j: int| 0 <= j < names.len() ==> names[j] != name,
        },
    decreases names.len(),
{
    if names.len() > 0 && names.last() != name {
        lemma_find_last(names.drop_last(), name);
        match find_last(names.drop_last(), name) {
            Some(k) => {
                assert forall|j: int| k < j < names.len() implies names[j] != name by {
                    if j < names.len() - 1 {
                        assert(names.drop_last()[j] == names[j]);
                    }
                }
            },
            None => {
                assert forall|j: int| 0 <= j < names.len() implies names[j] != name by {
                    if j < names.len() - 1 {
                        assert(names.drop_last()[j] == names[j]);
                    }
                }
            },
        }
    }
}

/// The entry of `table` under `name`, as an optional integer.
pub open spec fn entry(table: Map<Seq<char>, usize>, name: Seq<char>) -> Option<int> {
    if table.contains_key(name) {
        Some(table[name] as int)
    } else {
        None
    }
}

/// `table` sends each name to the last place where it stands in `names`.
pub open spec fn locates(table: Map<Seq<char>, usize>, names: Seq<Seq<char>>) -> bool {
    forall|name: Seq<char>| #[trigger] entry(table, name) == find_last(names, name)
}

/// A table that locates the first `i` names locates one name more once
/// that name is entered with its position.
pub proof fn lemma_locates_next(table: Map<Seq<char>, usize>, names: Seq<Seq<char>>, i: usize)
    requires
        i < names.len(),
        locates(table, names.take(i as int)),
    ensures
        locates(table.insert(names[i as int], i), names.take(i + 1)),
{
    let next = table.insert(names[i as int], i);
    assert(names.take(i + 1).drop_last() =~= names.take(i as int));
    assert(names.take(i + 1).last() == names[i as int]);
    assert forall|name: Seq<char>| #[trigger]
        entry(next, name) == find_last(names.take(i + 1), name) by {
        assert(entry(table, name) == find_last(names.take(i as int), name));
    }
}

/// Builds the table from names to positions. A name that occurs more than
/// once is sent to its last position.
pub fn index_names(names: &Vec<String>) -> (table: StringHashMap<usize>)
    ensures
        locates(table@, texts(names@)),
{
    let mut table: StringHashMap<usize> = StringHashMap::new();
    let mut i: usize = 0;
    while i < names.len()
        invariant
            i <= names.len(),
            locates(table@, texts(names@).take(i as int)),
        decreases names.len() - i,
    {
        proof {
            lemma_locates_next(table@, texts(names@), i);
        }
        table.insert(names[i].clone(), i);
        i = i + 1;
    }
    proof {
        assert(texts(names@).take(i as int) =~= texts(names@));
    }
    table
}

/// The names of the nodes of `t`, in order.
pub open spec fn node_names(t: TargetView) -> Seq<Seq<char>> {
    t.nodes.map_values(|n: NodeView| n.name)
}

/// The node that input `j` of node `i` waits for, if its name is known.
pub open spec fn producer(t: TargetView, i: int, j: int) -> Option<int> {
    find_last(node_names(t), producer_name(t.nodes[i].input[j]))
}

/// Input `j` of node `i` exists and names no node of `t`.
pub open spec fn dangling(t: TargetView, i: int, j: int) -> bool {
    &&& 0 <= i < t.nodes.len()
    &&& 0 <= j < t.nodes[i].input.len()
    &&& producer(t, i, j) is None
}

/// Input `(i, j)` comes no later than input `(k, l)` when nodes are read in
/// order and each node's inputs in order.
pub open spec fn no_later(i: int, j: int, k: int, l: int) -> bool {
    i < k || (i == k && j <= l)
}

/// The first input of `t` that names no node, if there is one.
pub open spec fn first_dangling(t: TargetView) -> Option<(int, int)> {
    if exists|i: int, j: int| dangling(t, i, j) {
        Some(
            choose|i: int, j: int|
                dangling(t, i, j) && forall|k: int, l: int| #[trigger]
                    dangling(t, k, l) ==> no_later(i, j, k, l),
        )
    } else {
        None
    }
}

/// The producers of every node's inputs, node by node. It is meant for
/// targets without a dangling input; a dangling one is listed as node 0.
pub open spec fn wiring(t: TargetView) -> Seq<Seq<int>> {
    Seq::new(
        t.nodes.len(),
        |i: int|
            Seq::new(
                t.nodes[i].input.len(),
                |j: int|
                    match producer(t, i, j) {
                        Some(p) => p,
                        None => 0,
                    },
            ),
    )
}

/// The consumers of node `u` among the inputs that come before input `j` of
/// node `i`: one entry for each such input that waits for `u`, in the order
/// of the inputs.
pub open spec fn consumers_before(wires: Seq<Seq<int>>, u: int, i: int, j: int) -> Seq<int>
    decreases i, j,
{
    if 0 < j && 0 <= i < wires.len() {
        let rest = consumers_before(wires, u, i, j - 1);
        if j <= wires[i].len() && wires[i][j - 1] == u {
            rest.push(i)
        } else {
            rest
        }
    } else if 0 < i <= wires.len() {
        consumers_before(wires, u, i - 1, wires[i - 1].len() as int)
    } else {
        Seq::empty()
    }
}

/// All consumers of node `u`, one entry for each input that waits for it.
pub open spec fn consumers(wires: Seq<Seq<int>>, u: int) -> Seq<int> {
    consumers_before(wires, u, wires.len() as int, 0)
}

/// Predecessors and successors of every node, by index.
pub struct GraphIndex {
    /// Position of each node name in the node list.
    pub names: StringHashMap<usize>,
    /// For each node, the nodes it waits for, one per input.
    pub inputs: Vec<Vec<usize>>,
    /// For each node, the nodes that wait for it, one per input that names it.
    pub outputs: Vec<Vec<usize>>,
}

impl GraphIndex {
    /// The predecessor lists as mathematical sequences.
    pub open spec fn wires(&self) -> Seq<Seq<int>> {
        Seq::new(self.inputs@.len(), |i: int| ints(self.inputs@[i]@))
    }

    /// The index describes exactly the graph `t`.
    pub open spec fn describes(&self, t: TargetView) -> bool {
        &&& locates(self.names@, node_names(t))
        &&& self.wires() == wiring(t)
        &&& self.outputs@.len() == t.nodes.len()
        &&& forall|u: int|
            0 <= u < t.nodes.len() ==> ints(#[trigger] self.outputs@[u]@) == consumers(
                wiring(t),
                u,
            )
    }

    /// Resolves every dependency reference of `target`.
    ///
    /// Fails on the first input, reading nodes in order and each node's
    /// inputs in order, whose reference names no node.
    pub fn build(target: &Target) -> (r: Result<GraphIndex, ScheduleError>)
        ensures
            match r {
                Ok(index) => first_dangling(target@) is None && index.describes(target@),
                Err(e) => match first_dangling(target@) {
                    Some(at) => e == (ScheduleError::UnknownInput {
                        node: at.0 as usize,
                        input: at.1 as usize,
                    }),
                    None => false,
                },
            },
    {
        let n: usize = target.nodes.len();
        let ghost t = target@;
        let mut names: StringHashMap<usize> = StringHashMap::new();
        let mut outputs: Vec<Vec<usize>> = Vec::new();
        let mut i: usize = 0;
        while i < n
            invariant
                n == target.nodes.len(),
                t == target@,
                i <= n,
                outputs.len() == i,
                locates(names@, node_names(t).take(i as int)),
                forall|u: int| 0 <= u < i ==> (#[trigger] outputs@[u])@.len() == 0,
            decreases n - i,
        {
            proof {
                lemma_locates_next(names@, node_names(t), i);
            }
            names.insert(target.nodes[i].name.clone(), i);
            outputs.push(Vec::new());
            i = i + 1;
        }
        proof {
            assert(node_names(t).take(n as int) =~= node_names(t));
        }
        let mut inputs: Vec<Vec<usize>> = Vec::new();
        i = 0;
        while i < n
            invariant
                n == target.nodes.len(),
                t == target@,
                i <= n,
                locates(names@, node_names(t)),
                inputs.len() == i,
                outputs.len() == n,
                forall|k: int, l: int| k < i ==> !dangling(t, k, l),
                forall|k: int| 0 <= k < i ==> ints(#[trigger] inputs@[k]@) == wiring(t)[k],
                forall|u: int|
                    0 <= u < n ==> ints(#[trigger] outputs@[u]@) == consumers_before(
                        wiring(t),
                        u,
                        i as int,
                        0,
                    ),
            decreases n - i,
        {
            let node = &target.nodes[i];
            let m: usize = node.input.len();
            let mut row: Vec<usize> = Vec::new();
            let mut j: usize = 0;
            while j < m
                invariant
                    n == target.nodes.len(),
                    t == target@,
                    i < n,
                    node == target.nodes[i as int],
                    m == node.input.len(),
                    j <= m,
                    locates(names@, node_names(t)),
                    outputs.len() == n,
                    row.len() == j,
                    forall|k: int, l: int| k < i ==> !dangling(t, k, l),
                    forall|l: int| 0 <= l < j ==> !dangling(t, i as int, l),
                    forall|l: int| 0 <= l < j ==> row@[l] as int == wiring(t)[i as int][l],
                    forall|u: int|
                        0 <= u < n ==> ints(#[trigger] outputs@[u]@) == consumers_before(
                            wiring(t),
                            u,
                            i as int,
                            j as int,
                        ),
                decreases m - j,
            {
                let name = referenced_name(node.input[j].as_str());
                proof {
                    assert(t.nodes[i as int] == node@);
                    assert(t.nodes[i as int].input[j as int] == node.input[j as int]@);
                    assert(entry(names@, name@) == producer(t, i as int, j as int));
                    lemma_find_last(node_names(t), name@);
                }
                match names.get(name) {
                    None => {
                        proof {
                            assert(dangling(t, i as int, j as int));
                            assert forall|k: int, l: int| #[trigger]
                                dangling(t, k, l) implies no_later(i as int, j as int, k, l) by {}
                            let at = first_dangling(t).unwrap();
                            assert(dangling(t, at.0, at.1));
                            assert(no_later(at.0, at.1, i as int, j as int));
                        }
                        return Err(ScheduleError::UnknownInput { node: i, input: j });
                    },
                    Some(found) => {
                        let p: usize = *found;
                        let ghost before = outputs@;
                        row.push(p);
                        outputs[p].push(i);
                        proof {
                            assert(wiring(t)[i as int][j as int] == p);
                            assert forall|u: int| 0 <= u < n implies ints(
                                #[trigger] outputs@[u]@,
                            ) == consumers_before(wiring(t), u, i as int, j + 1) by {
                                assert(ints(before[u]@) == consumers_before(
                                    wiring(t),
                                    u,
                                    i as int,
                                    j as int,
                                ));
                                if u == p {
                                    assert(ints(outputs@[u]@) =~= ints(before[u]@).push(i as int));
                                }
                            }
                        }
                    },
                }
                j = j + 1;
            }
            inputs.push(row);
            proof {
                assert(ints(row@) =~= wiring(t)[i as int]);
            }
            i = i + 1;
        }
        let index = GraphIndex { names, inputs, outputs };
        proof {
            assert(index.wires() =~= wiring(t));
        }
        Ok(index)
    }
}

/// Every consumer is a node of the graph.
pub proof fn lemma_consumers_are_nodes(wires: Seq<Seq<int>>, u: int, i: int, j: int)
    ensures
        forall|k: int|
            0 <= k < consumers_before(wires, u, i, j).len() ==> 0 <= #[trigger] consumers_before(
                wires,
                u,
                i,
                j,
            )[k] < wires.len(),
    decreases i, j,
{
    let all = consumers_before(wires, u, i, j);
    if 0 < j && 0 <= i < wires.len() {
        lemma_consumers_are_nodes(wires, u, i, j - 1);
        let rest = consumers_before(wires, u, i, j - 1);
        assert forall|k: int| 0 <= k < all.len() implies 0 <= #[trigger] all[k] < wires.len() by {
            if k < rest.len() {
                assert(all[k] == rest[k]);
            }
        }
    } else if 0 < i <= wires.len() {
        lemma_consumers_are_nodes(wires, u, i - 1, wires[i - 1].len() as int);
        assert(all == consumers_before(wires, u, i - 1, wires[i - 1].len() as int));
    } else {
        assert(all.len() == 0);
    }
}

/// The device that node `i` is placed on, if the device list has it.
pub open spec fn device_of(t: TargetView, i: int) -> Option<int> {
    find_last(t.devices, t.nodes[i].device)
}

/// Node `i` exists and is placed on a device that is not in the list.
pub open spec fn misplaced(t: TargetView, i: int) -> bool {
    0 <= i < t.nodes.len() && device_of(t, i) is None
}

/// The first node of `t` whose device is not in the device list, if there
/// is one.
pub open spec fn first_misplaced(t: TargetView) -> Option<int> {
    if exists|i: int| misplaced(t, i) {
        Some(choose|i: int| misplaced(t, i) && forall|k: int| #[trigger] misplaced(t, k) ==> i <= k)
    } else {
        None
    }
}

/// The device index of every node. It is meant for targets without a
/// misplaced node; a misplaced one is listed on device 0.
pub open spec fn seating(t: TargetView) -> Seq<int> {
    Seq::new(
        t.nodes.len(),
        |i: int|
            match device_of(t, i) {
                Some(d) => d,
                None => 0,
            },
    )
}

/// Resolves the device of every node of `target` to its index in the
/// device list. A device name that occurs more than once stands for its
/// last position.
///
/// Fails on the first node whose device is not in the list.
pub fn place(target: &Target) -> (r: Result<Vec<usize>, ScheduleError>)
    ensures
        match r {
            Ok(seats) => first_misplaced(target@) is None && ints(seats@) == seating(target@),
            Err(e) => match first_misplaced(target@) {
                Some(i) => e == (ScheduleError::UnknownDevice { node: i as usize }),
                None => false,
            },
        },
{
    let ghost t = target@;
    let table = index_names(&target.devices);
    let n: usize = target.nodes.len();
    let mut seats: Vec<usize> = Vec::new();
    let mut i: usize = 0;
    while i < n
        invariant
            n == target.nodes.len(),
            t == target@,
            i <= n,
            locates(table@, t.devices),
            seats.len() == i,
            forall|k: int| k < i ==> !misplaced(t, k),
            forall|k: int| 0 <= k < i ==> seats@[k] as int == seating(t)[k],
        decreases n - i,
    {
        let node = &target.nodes[i];
        proof {
            assert(t.nodes[i as int] == node@);
            assert(entry(table@, node.device@) == device_of(t, i as int));
        }
        match table.get(node.device.as_str()) {
            None => {
                proof {
                    assert(misplaced(t, i as int));
                    assert forall|k: int| #[trigger] misplaced(t, k) implies i <= k by {}
                    let at = first_misplaced(t).unwrap();
                    assert(misplaced(t, at));
                }
                return Err(ScheduleError::UnknownDevice { node: i });
            },
            Some(found) => {
                seats.push(*found);
            },
        }
        i = i + 1;
    }
    proof {
        assert(ints(seats@) =~= seating(t));
    }
    Ok(seats)
}

} // verus!
