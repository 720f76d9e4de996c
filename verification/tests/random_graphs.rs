use tge_scheduler::graph::{Node, ScheduleError, Target};
use tge_scheduler::profile::ProfileTable;
use tge_scheduler::scheduler::{Scheduler, TensorFlowLikeScheduler};

struct Lcg(u64);

impl Lcg {
    fn next(&mut self, bound: u64) -> u64 {
        self.0 = self.0.wrapping_mul(6364136223846793005).wrapping_add(1442695040888963407);
        (self.0 >> 33) % bound
    }
}

struct Case {
    inputs: Vec<Vec<usize>>,
    device: Vec<usize>,
    cost: Vec<u64>,
    devices: usize,
}

fn random_case(rng: &mut Lcg, acyclic: bool) -> Case {
    let n = rng.next(12) as usize;
    let devices = 1 + rng.next(4) as usize;
    let mut inputs = Vec::new();
    let mut device = Vec::new();
    let mut cost = Vec::new();
    for i in 0..n {
        let mut row = Vec::new();
        let wanted = rng.next(4);
        for _ in 0..wanted {
            if acyclic {
                if i > 0 {
                    row.push(rng.next(i as u64) as usize);
                }
            } else {
                row.push(rng.next(n as u64) as usize);
            }
        }
        inputs.push(row);
        device.push(rng.next(devices as u64) as usize);
        cost.push(rng.next(6));
    }
    Case { inputs, device, cost, devices }
}

/// The run written out with plain lists: ready nodes are dispatched in the
/// order in which they became ready, and of the nodes in flight the one
/// with the least finish time, and among those the least index, completes.
fn by_hand(case: &Case) -> Result<u64, ScheduleError> {
    let n = case.inputs.len();
    let mut waiting: Vec<usize> = case.inputs.iter().map(|row| row.len()).collect();
    let mut ready: Vec<usize> = (0..n).filter(|i| waiting[*i] == 0).collect();
    let mut flying: Vec<(u64, usize)> = Vec::new();
    let mut free_at = vec![0u64; case.devices];
    let mut clock = 0u64;
    let mut done = 0;
    loop {
        for id in ready.drain(..) {
            let d = case.device[id];
            let finish = free_at[d].max(clock) + case.cost[id];
            free_at[d] = finish;
            flying.push((finish, id));
        }
        if flying.is_empty() {
            break;
        }
        let first = *flying.iter().min().unwrap();
        flying.retain(|task| *task != first);
        clock = first.0;
        done += 1;
        for consumer in 0..n {
            for producer in &case.inputs[consumer] {
                if *producer == first.1 {
                    waiting[consumer] -= 1;
                    if waiting[consumer] == 0 {
                        ready.push(consumer);
                    }
                }
            }
        }
    }
    if done < n {
        Err(ScheduleError::Cycle)
    } else {
        Ok(clock)
    }
}

fn by_library(case: &Case) -> Result<u64, ScheduleError> {
    let mut table = ProfileTable::new();
    let mut nodes = Vec::new();
    for i in 0..case.inputs.len() {
        let name = format!("node{}", i);
        table.insert(name.clone(), case.cost[i]);
        let input = case.inputs[i]
            .iter()
            .enumerate()
            .map(|(slot, p)| match slot % 3 {
                0 => format!("node{}", p),
                1 => format!("node{}:{}", p, slot),
                _ => format!("^node{}", p),
            })
            .collect();
        nodes.push(Node {
            name: name.clone(),
            device: format!("device{}", case.device[i]),
            input,
            origin: Some(name),
        });
    }
    let devices = (0..case.devices).map(|d| format!("device{}", d)).collect();
    TensorFlowLikeScheduler::new(1, table).evaluate(&Target { nodes, devices })
}

#[test]
fn random_acyclic_graphs_agree_with_the_run_by_hand() {
    let mut rng = Lcg(2024);
    for _ in 0..400 {
        let case = random_case(&mut rng, true);
        let expected = by_hand(&case);
        assert!(expected.is_ok());
        assert_eq!(by_library(&case), expected);
    }
}

#[test]
fn random_graphs_agree_with_the_run_by_hand() {
    let mut rng = Lcg(7);
    let mut cyclic = 0;
    for _ in 0..400 {
        let case = random_case(&mut rng, false);
        let expected = by_hand(&case);
        if expected.is_err() {
            cyclic += 1;
        }
        assert_eq!(by_library(&case), expected);
    }
    assert!(cyclic > 0);
}

#[test]
fn random_graphs_on_one_device_take_the_sum_of_their_costs() {
    let mut rng = Lcg(99);
    for _ in 0..200 {
        let mut case = random_case(&mut rng, true);
        case.devices = 1;
        for d in case.device.iter_mut() {
            *d = 0;
        }
        assert_eq!(by_library(&case), Ok(case.cost.iter().sum()));
    }
}

#[test]
fn random_independent_nodes_take_as_long_as_the_busiest_device() {
    let mut rng = Lcg(5);
    for _ in 0..200 {
        let mut case = random_case(&mut rng, true);
        for row in case.inputs.iter_mut() {
            row.clear();
        }
        let mut load = vec![0u64; case.devices];
        for i in 0..case.cost.len() {
            load[case.device[i]] += case.cost[i];
        }
        assert_eq!(by_library(&case), Ok(*load.iter().max().unwrap()));
    }
}
