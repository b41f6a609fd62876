use mirage::scheduler::{Scheduler, Wake, MAIN_TASK};

#[test]
fn tokens_start_after_the_main_token() {
    let mut s: Scheduler<&str> = Scheduler::new();
    assert_eq!(MAIN_TASK, 1);
    assert_eq!(s.add_task("a"), 2);
    assert_eq!(s.add_task("b"), 3);
    assert_eq!(s.last_token_issued(), 3);
}

#[test]
fn add_tasks_keeps_spawn_order() {
    let mut s: Scheduler<&str> = Scheduler::new();
    let toks = s.add_tasks(vec!["a", "b", "c"]);
    assert_eq!(toks, vec![2, 3, 4]);
    let mut round = s.take_ready();
    round.sort();
    assert_eq!(round, vec![(2, "a"), (3, "b"), (4, "c")]);
}

#[test]
fn timeout_depends_on_ready_tasks() {
    let mut s: Scheduler<u8> = Scheduler::new();
    assert_eq!(s.poll_timeout_ms(), None);
    s.add_task(5);
    assert_eq!(s.poll_timeout_ms(), Some(1));
    let round = s.take_ready();
    assert_eq!(round.len(), 1);
    assert_eq!(s.poll_timeout_ms(), None);
}

#[test]
fn unfinished_task_is_parked_and_woken() {
    let mut s: Scheduler<u8> = Scheduler::new();
    let tok = s.add_task(9);
    let round = s.take_ready();
    assert_eq!(round, vec![(tok, 9)]);
    assert_eq!(s.settle(tok, 9, false), Ok(()));
    assert_eq!(s.poll_timeout_ms(), None);
    assert_eq!(s.wake(tok), Wake::Resumed);
    assert_eq!(s.take_ready(), vec![(tok, 9)]);
}

#[test]
fn finished_task_is_dropped() {
    let mut s: Scheduler<u8> = Scheduler::new();
    let tok = s.add_task(9);
    s.take_ready();
    assert_eq!(s.settle(tok, 9, true), Ok(()));
    assert_eq!(s.wake(tok), Wake::Ignored);
    assert_eq!(s.take_ready(), vec![]);
}

#[test]
fn settle_refuses_a_token_not_being_polled() {
    let mut s: Scheduler<u8> = Scheduler::new();
    let tok = s.add_task(9);
    assert_eq!(s.settle(tok, 1, false), Err(1));
    assert_eq!(s.settle(77, 2, false), Err(2));
    assert_eq!(s.take_ready(), vec![(tok, 9)]);
}

#[test]
fn main_token_wakes_main() {
    let mut s: Scheduler<u8> = Scheduler::new();
    assert_eq!(s.wake(MAIN_TASK), Wake::Main);
    assert_eq!(s.wake(12), Wake::Ignored);
}

#[test]
fn ready_task_ignores_events() {
    let mut s: Scheduler<u8> = Scheduler::new();
    let tok = s.add_task(3);
    assert_eq!(s.wake(tok), Wake::Ignored);
    assert_eq!(s.take_ready(), vec![(tok, 3)]);
}
