use mirage::run_loop::{LoopAction, LoopEvent, RunLoop};

fn poll_task(a: LoopAction<&'static str>) -> (usize, &'static str) {
    match a {
        LoopAction::PollTask(t, task) => (t, task),
        _ => panic!("expected a task to poll"),
    }
}

#[test]
fn main_first_then_register_then_adopt_and_wait() {
    let mut l: RunLoop<&str> = RunLoop::new();
    assert!(matches!(l.step(LoopEvent::Begin), LoopAction::PollMain));
    assert!(matches!(l.step(LoopEvent::MainPolled(false)), LoopAction::Register(1)));
    assert!(matches!(l.step(LoopEvent::Registered), LoopAction::AdoptSpawned));
    assert!(matches!(l.step(LoopEvent::Spawned(vec![])), LoopAction::Wait(None)));
    assert!(matches!(l.step(LoopEvent::Woken(vec![1])), LoopAction::PollMain));
    assert!(matches!(l.step(LoopEvent::MainPolled(true)), LoopAction::Return));
}

#[test]
fn spawned_task_waits_one_short_wait_then_is_polled() {
    let mut l: RunLoop<&str> = RunLoop::new();
    l.step(LoopEvent::Begin);
    l.step(LoopEvent::MainPolled(false));
    l.step(LoopEvent::Registered);
    assert!(matches!(l.step(LoopEvent::Spawned(vec!["a"])), LoopAction::Wait(Some(1))));
    assert_eq!(poll_task(l.step(LoopEvent::Woken(vec![]))), (2, "a"));
    assert!(matches!(l.step(LoopEvent::TaskPolled(false, "a")), LoopAction::Register(2)));
    assert!(matches!(l.step(LoopEvent::Registered), LoopAction::AdoptSpawned));
    assert!(matches!(l.step(LoopEvent::Spawned(vec![])), LoopAction::Wait(None)));
    // an event for another token leaves the parked task alone
    assert!(matches!(l.step(LoopEvent::Woken(vec![9])), LoopAction::AdoptSpawned));
    assert!(matches!(l.step(LoopEvent::Spawned(vec![])), LoopAction::Wait(None)));
    // its own event brings it back
    assert_eq!(poll_task(l.step(LoopEvent::Woken(vec![2]))), (2, "a"));
    assert!(matches!(l.step(LoopEvent::TaskPolled(true, "a")), LoopAction::AdoptSpawned));
    assert!(matches!(l.step(LoopEvent::Spawned(vec![])), LoopAction::Wait(None)));
    // a finished task's token is ignored
    assert!(matches!(l.step(LoopEvent::Woken(vec![2])), LoopAction::AdoptSpawned));
}

#[test]
fn every_ready_task_is_polled_once_per_round() {
    let mut l: RunLoop<&str> = RunLoop::new();
    l.step(LoopEvent::Begin);
    l.step(LoopEvent::MainPolled(false));
    l.step(LoopEvent::Registered);
    l.step(LoopEvent::Spawned(vec!["a", "b"]));
    let mut polled = vec![poll_task(l.step(LoopEvent::Woken(vec![])))];
    let next = l.step(LoopEvent::TaskPolled(true, polled[0].1));
    polled.push(poll_task(next));
    assert!(matches!(l.step(LoopEvent::TaskPolled(true, polled[1].1)), LoopAction::AdoptSpawned));
    polled.sort();
    assert_eq!(polled, vec![(2, "a"), (3, "b")]);
}

#[test]
fn main_event_polls_main_before_the_woken_tasks() {
    let mut l: RunLoop<&str> = RunLoop::new();
    l.step(LoopEvent::Begin);
    l.step(LoopEvent::MainPolled(false));
    l.step(LoopEvent::Registered);
    l.step(LoopEvent::Spawned(vec!["a"]));
    assert!(matches!(l.step(LoopEvent::Woken(vec![1])), LoopAction::PollMain));
    assert!(matches!(l.step(LoopEvent::MainPolled(false)), LoopAction::Register(1)));
    assert_eq!(poll_task(l.step(LoopEvent::Registered)), (2, "a"));
}

#[test]
fn a_returned_loop_can_start_again() {
    let mut l: RunLoop<&str> = RunLoop::new();
    l.step(LoopEvent::Begin);
    assert!(matches!(l.step(LoopEvent::MainPolled(true)), LoopAction::Return));
    assert!(matches!(l.step(LoopEvent::Begin), LoopAction::PollMain));
    assert_eq!(l.last_token_issued(), 1);
}

#[test]
fn tokens_count_adopted_tasks_across_batches() {
    let mut l: RunLoop<&str> = RunLoop::new();
    l.step(LoopEvent::Begin);
    l.step(LoopEvent::MainPolled(false));
    l.step(LoopEvent::Registered);
    l.step(LoopEvent::Spawned(vec!["a", "b"]));
    let first = poll_task(l.step(LoopEvent::Woken(vec![])));
    let second = poll_task(l.step(LoopEvent::TaskPolled(true, first.1)));
    assert!(matches!(l.step(LoopEvent::TaskPolled(true, second.1)), LoopAction::AdoptSpawned));
    let mut seen = vec![first, second];
    seen.sort();
    assert_eq!(seen, vec![(2, "a"), (3, "b")]);
    l.step(LoopEvent::Spawned(vec!["c"]));
    assert_eq!(l.last_token_issued(), 4);
    assert_eq!(poll_task(l.step(LoopEvent::Woken(vec![]))), (4, "c"));
}
