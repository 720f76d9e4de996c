use tge_scheduler::queue::{Task, TaskQueue};

#[test]
fn empty_queue_hands_out_nothing() {
    let mut queue = TaskQueue::new();
    assert_eq!(queue.len(), 0);
    assert_eq!(queue.pop(), None);
    assert_eq!(queue.len(), 0);
}

#[test]
fn tasks_leave_in_order_of_finish_time() {
    let mut queue = TaskQueue::new();
    let times: [u64; 9] = [50, 10, 40, 20, 90, 30, 80, 60, 70];
    for (id, eft) in times.iter().enumerate() {
        queue.push(Task { id, eft: *eft });
    }
    assert_eq!(queue.len(), 9);
    let mut seen = Vec::new();
    while let Some(task) = queue.pop() {
        assert_eq!(times[task.id], task.eft);
        seen.push(task.eft);
    }
    assert_eq!(seen, vec![10, 20, 30, 40, 50, 60, 70, 80, 90]);
    assert_eq!(queue.len(), 0);
}

#[test]
fn equal_finish_times_leave_by_node_index() {
    let mut queue = TaskQueue::new();
    for id in [4usize, 1, 3, 0, 2] {
        queue.push(Task { id, eft: 7 });
    }
    queue.push(Task { id: 9, eft: 6 });
    let mut seen = Vec::new();
    while let Some(task) = queue.pop() {
        seen.push((task.eft, task.id));
    }
    assert_eq!(seen, vec![(6, 9), (7, 0), (7, 1), (7, 2), (7, 3), (7, 4)]);
}

#[test]
fn pushes_and_pops_may_alternate() {
    let mut queue = TaskQueue::new();
    queue.push(Task { id: 0, eft: 5 });
    queue.push(Task { id: 1, eft: 3 });
    assert_eq!(queue.pop(), Some(Task { id: 1, eft: 3 }));
    queue.push(Task { id: 2, eft: 4 });
    queue.push(Task { id: 3, eft: 9 });
    assert_eq!(queue.pop(), Some(Task { id: 2, eft: 4 }));
    assert_eq!(queue.pop(), Some(Task { id: 0, eft: 5 }));
    queue.push(Task { id: 4, eft: 1 });
    assert_eq!(queue.pop(), Some(Task { id: 4, eft: 1 }));
    assert_eq!(queue.pop(), Some(Task { id: 3, eft: 9 }));
    assert_eq!(queue.pop(), None);
}

#[test]
fn the_same_task_may_be_queued_twice() {
    let mut queue = TaskQueue::new();
    queue.push(Task { id: 1, eft: 2 });
    queue.push(Task { id: 1, eft: 2 });
    assert_eq!(queue.len(), 2);
    assert_eq!(queue.pop(), Some(Task { id: 1, eft: 2 }));
    assert_eq!(queue.len(), 1);
    assert_eq!(queue.pop(), Some(Task { id: 1, eft: 2 }));
    assert_eq!(queue.pop(), None);
}

#[test]
fn order_of_two_tasks() {
    let early = Task { id: 5, eft: 1 };
    let late = Task { id: 0, eft: 2 };
    assert!(early.goes_before(&late));
    assert!(!late.goes_before(&early));
    assert!(early.goes_before(&early));
    let twin = Task { id: 6, eft: 1 };
    assert!(early.goes_before(&twin));
    assert!(!twin.goes_before(&early));
}

#[test]
fn many_tasks_come_out_sorted() {
    let mut queue = TaskQueue::new();
    let mut x: u64 = 12345;
    let mut expected = Vec::new();
    for id in 0..500usize {
        x = x.wrapping_mul(6364136223846793005).wrapping_add(1442695040888963407);
        let eft = (x >> 33) % 64;
        queue.push(Task { id, eft });
        expected.push((eft, id));
    }
    expected.sort();
    let mut seen = Vec::new();
    while let Some(task) = queue.pop() {
        seen.push((task.eft, task.id));
    }
    assert_eq!(seen, expected);
}
