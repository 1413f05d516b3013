use co_managed::{Drain, Manager, Phase, Release, Scan, Step};

fn ids<H>(batch: Vec<(u64, &H)>) -> Vec<u64> {
    batch.into_iter().map(|(id, _)| id).collect()
}

#[test]
fn thread_exit() {
    let mut manager = Manager::new();
    let mut children = Vec::new();
    for i in 0..10u64 {
        let token = manager.add(i * 10).unwrap();
        assert_eq!(token.id(), i);
        children.push(token);
    }
    assert_eq!(manager.len(), 10);
    let cancelled: Vec<(u64, u64)> =
        manager.cancel_all(4).into_iter().map(|(id, handle)| (id, *handle)).collect();
    assert_eq!(
        cancelled,
        vec![(9, 90), (8, 80), (7, 70), (6, 60), (5, 50), (4, 40), (3, 30), (2, 20), (1, 10), (0, 0)]
    );
    assert_eq!(manager.len(), 10);
    let mut yields = 0;
    while manager.drain_step(false) == Drain::Yield {
        let token = children.pop().unwrap();
        let id = token.id();
        assert_eq!(manager.release(token, false), Release::Join(id * 10));
        yields += 1;
    }
    assert_eq!(yields, 10);
    assert!(children.is_empty());
    assert!(manager.is_empty());
}

#[test]
fn coroutine_cancel() {
    let mut manager = Manager::new();
    let mut children = Vec::new();
    for i in 0..10u64 {
        children.push(manager.add(i * 10).unwrap());
    }
    assert_eq!(ids(manager.cancel_all(4)), vec![9, 8, 7, 6, 5, 4, 3, 2, 1, 0]);
    assert_eq!(manager.drain_step(true), Drain::Done);
    assert_eq!(manager.len(), 10);
    for token in children {
        let id = token.id();
        assert_eq!(manager.release(token, true), Release::Leak(id * 10));
    }
    assert!(manager.is_empty());
}

#[test]
fn drain_step_waits_only_for_registered_children() {
    let mut manager = Manager::new();
    assert_eq!(manager.drain_step(false), Drain::Done);
    assert_eq!(manager.drain_step(true), Drain::Done);
    let token = manager.add('x').unwrap();
    assert_eq!(manager.drain_step(false), Drain::Yield);
    assert_eq!(manager.drain_step(true), Drain::Done);
    assert_eq!(manager.release(token, false), Release::Join('x'));
    assert_eq!(manager.drain_step(false), Drain::Done);
}

#[test]
fn scan_starts_at_the_next_id() {
    let mut manager = Manager::new();
    assert_eq!(manager.begin_scan().bound(), 0);
    let _a = manager.add('a').unwrap();
    let _b = manager.add('b').unwrap();
    assert_eq!(manager.begin_scan().bound(), 2);
}

#[test]
fn scan_batch_hands_out_each_child_with_its_handle() {
    let mut manager = Manager::new();
    let _a = manager.add("a").unwrap();
    let b = manager.add("b").unwrap();
    let _c = manager.add("c").unwrap();
    assert_eq!(manager.release(b, false), Release::Join("b"));
    let mut scan = manager.begin_scan();
    assert_eq!(manager.scan_batch(&mut scan, 1), vec![(2, &"c")]);
    assert_eq!(manager.scan_batch(&mut scan, 1), vec![(0, &"a")]);
    assert_eq!(manager.scan_batch(&mut scan, 1), Vec::<(u64, &&str)>::new());
}

#[test]
fn scan_batches_walk_down_the_ids() {
    let mut manager = Manager::new();
    let mut tokens = Vec::new();
    for _ in 0..5 {
        tokens.push(manager.add('c').unwrap());
    }
    let mut scan = manager.begin_scan();
    assert_eq!(scan.bound(), 5);
    assert_eq!(ids(manager.scan_batch(&mut scan, 2)), vec![4, 3]);
    assert_eq!(scan.bound(), 3);
    assert_eq!(ids(manager.scan_batch(&mut scan, 2)), vec![2, 1]);
    assert_eq!(scan.bound(), 1);
    assert_eq!(ids(manager.scan_batch(&mut scan, 2)), vec![0]);
    assert_eq!(scan.bound(), 0);
    assert_eq!(ids(manager.scan_batch(&mut scan, 2)), Vec::<u64>::new());
    assert_eq!(scan.bound(), 0);
}

#[test]
fn an_empty_batch_leaves_the_bound() {
    let mut manager = Manager::new();
    let _a = manager.add('a').unwrap();
    let _b = manager.add('b').unwrap();
    let mut scan = manager.begin_scan();
    assert_eq!(ids(manager.scan_batch(&mut scan, 0)), Vec::<u64>::new());
    assert_eq!(scan.bound(), 2);
    assert_eq!(ids(manager.scan_batch(&mut scan, 5)), vec![1, 0]);
    assert_eq!(scan.bound(), 0);
}

#[test]
fn scan_of_an_empty_manager_is_over_at_once() {
    let manager: Manager<char> = Manager::with_first_id(12);
    let mut scan = manager.begin_scan();
    assert_eq!(ids(manager.scan_batch(&mut scan, 3)), Vec::<u64>::new());
    assert_eq!(scan.bound(), 12);
}

#[test]
fn cancel_all_names_every_child_whatever_the_batch_size() {
    let mut manager = Manager::new();
    let mut tokens = Vec::new();
    for _ in 0..6 {
        tokens.push(manager.add('c').unwrap());
    }
    let gone = tokens.remove(2);
    assert_eq!(manager.release(gone, false), Release::Join('c'));
    for limit in [0usize, 1, 2, 3, 5, 6, 100] {
        assert_eq!(ids(manager.cancel_all(limit)), vec![5, 4, 3, 1, 0]);
    }
    assert_eq!(manager.len(), 5);
    assert_eq!(ids(Manager::<char>::new().cancel_all(4)), Vec::<u64>::new());
}

#[test]
fn scan_visits_every_child_while_others_come_and_go() {
    let mut manager = Manager::new();
    let mut tokens = Vec::new();
    for _ in 0..6 {
        tokens.push(manager.add('c').unwrap());
    }
    let mut scan = manager.begin_scan();
    let mut visited = Vec::new();
    let first = ids(manager.scan_batch(&mut scan, 2));
    assert_eq!(first, vec![5, 4]);
    visited.extend(first);
    // a child is spawned and another one ends between two batches
    tokens.push(manager.add('c').unwrap());
    let ended = tokens.remove(3);
    assert_eq!(manager.release(ended, false), Release::Join('c'));
    let second = ids(manager.scan_batch(&mut scan, 2));
    assert_eq!(second, vec![2, 1]);
    visited.extend(second);
    tokens.push(manager.add('c').unwrap());
    let third = ids(manager.scan_batch(&mut scan, 2));
    assert_eq!(third, vec![0]);
    visited.extend(third);
    assert_eq!(scan.bound(), 0);
    for id in [0u64, 1, 2, 4, 5] {
        assert!(visited.contains(&id));
    }
    assert!(!visited.contains(&6));
    assert!(!visited.contains(&7));
    assert_eq!(manager.live_ids(), vec![7, 6, 5, 4, 2, 1, 0]);
}

fn cancelled<H>(step: Step<H>) -> Vec<u64> {
    match step {
        Step::Cancel(targets) => ids(targets),
        other => panic!("expected a batch to cancel, got {}", name(&other)),
    }
}

fn name<H>(step: &Step<H>) -> &'static str {
    match step {
        Step::Cancel(_) => "cancel",
        Step::Yield => "yield",
        Step::Done => "done",
    }
}

#[test]
fn teardown_cancels_in_batches_then_waits_until_empty() {
    let mut manager = Manager::new();
    let mut children = Vec::new();
    for n in 0..5u64 {
        children.push(manager.add(n).unwrap());
    }
    let phase = manager.begin_teardown();
    assert!(matches!(phase, Phase::Cancelling(Scan { hi: 5 })));
    let (phase, step) = manager.teardown_step(phase, false, 2);
    assert_eq!(cancelled(step), vec![4, 3]);
    assert!(matches!(phase, Phase::Cancelling(Scan { hi: 3 })));
    let (phase, step) = manager.teardown_step(phase, false, 2);
    assert_eq!(cancelled(step), vec![2, 1]);
    assert!(matches!(phase, Phase::Cancelling(Scan { hi: 1 })));
    let (phase, step) = manager.teardown_step(phase, false, 2);
    assert_eq!(cancelled(step), vec![0]);
    assert!(matches!(phase, Phase::Draining));
    let (mut phase, step) = manager.teardown_step(phase, false, 2);
    assert_eq!(name(&step), "yield");
    assert!(matches!(phase, Phase::Draining));
    while let Some(token) = children.pop() {
        let (next, step) = manager.teardown_step(phase, false, 2);
        assert_eq!(name(&step), "yield");
        assert!(matches!(next, Phase::Draining));
        phase = next;
        let id = token.id();
        assert_eq!(manager.release(token, false), Release::Join(id));
    }
    let (phase, step) = manager.teardown_step(phase, false, 2);
    assert_eq!(name(&step), "done");
    assert!(matches!(phase, Phase::Finished));
    let (phase, step) = manager.teardown_step(phase, false, 2);
    assert_eq!(name(&step), "done");
    assert!(matches!(phase, Phase::Finished));
}

#[test]
fn teardown_hands_out_the_handles_to_cancel() {
    let mut manager = Manager::new();
    let _a = manager.add("a").unwrap();
    let _b = manager.add("b").unwrap();
    let phase = manager.begin_teardown();
    let (_, step) = manager.teardown_step(phase, false, 8);
    match step {
        Step::Cancel(targets) => assert_eq!(targets, vec![(1, &"b"), (0, &"a")]),
        other => panic!("expected a batch to cancel, got {}", name(&other)),
    }
}

#[test]
fn teardown_with_a_full_last_batch_takes_one_more_step() {
    let mut manager = Manager::new();
    let _a = manager.add('a').unwrap();
    let _b = manager.add('b').unwrap();
    let phase = manager.begin_teardown();
    let (phase, step) = manager.teardown_step(phase, false, 2);
    assert_eq!(cancelled(step), vec![1, 0]);
    assert!(matches!(phase, Phase::Cancelling(Scan { hi: 0 })));
    let (phase, step) = manager.teardown_step(phase, false, 2);
    assert_eq!(name(&step), "yield");
    assert!(matches!(phase, Phase::Draining));
}

#[test]
fn teardown_of_an_empty_manager_is_over_at_once() {
    let manager: Manager<char> = Manager::new();
    let phase = manager.begin_teardown();
    let (phase, step) = manager.teardown_step(phase, false, 4);
    assert_eq!(name(&step), "done");
    assert!(matches!(phase, Phase::Finished));
}

#[test]
fn teardown_during_an_unwind_cancels_and_does_not_wait() {
    let mut manager = Manager::new();
    let mut children = Vec::new();
    for n in 0..3u64 {
        children.push(manager.add(n).unwrap());
    }
    let phase = manager.begin_teardown();
    let (phase, step) = manager.teardown_step(phase, true, 2);
    assert_eq!(cancelled(step), vec![2, 1]);
    let (phase, step) = manager.teardown_step(phase, true, 2);
    assert_eq!(cancelled(step), vec![0]);
    assert!(matches!(phase, Phase::Draining));
    let (phase, step) = manager.teardown_step(phase, true, 2);
    assert_eq!(name(&step), "done");
    assert!(matches!(phase, Phase::Finished));
    assert_eq!(manager.len(), 3);
}

#[test]
fn teardown_reads_a_limit_of_zero_as_one() {
    let mut manager = Manager::new();
    let _a = manager.add('a').unwrap();
    let _b = manager.add('b').unwrap();
    let phase = manager.begin_teardown();
    let (phase, step) = manager.teardown_step(phase, false, 0);
    assert_eq!(cancelled(step), vec![1]);
    assert!(matches!(phase, Phase::Cancelling(Scan { hi: 1 })));
    let (phase, step) = manager.teardown_step(phase, false, 0);
    assert_eq!(cancelled(step), vec![0]);
    assert!(matches!(phase, Phase::Cancelling(Scan { hi: 0 })));
    let (_, step) = manager.teardown_step(phase, false, 0);
    assert_eq!(name(&step), "yield");
}

#[test]
fn teardown_passes_over_children_spawned_after_its_start() {
    let mut manager = Manager::new();
    let _a = manager.add('a').unwrap();
    let phase = manager.begin_teardown();
    let _late = manager.add('b').unwrap();
    let (phase, step) = manager.teardown_step(phase, false, 4);
    assert_eq!(cancelled(step), vec![0]);
    assert!(matches!(phase, Phase::Draining));
}
