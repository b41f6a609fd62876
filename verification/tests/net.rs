use mirage::net::{
    nb_step, ConnectEvent, ConnectStep, Connecting, NbResult, NbStep, WriteAll, WriteAllStep,
    WriteEvent,
};
use mirage::reactor::{register_fallback, RegisterFallback};

#[test]
fn empty_buffer_is_done_at_once() {
    let w = WriteAll::new(0);
    assert!(matches!(w.next_step::<()>(), WriteAllStep::Done));
}

#[test]
fn partial_writes_continue_from_the_offset() {
    let mut w = WriteAll::new(10);
    assert!(matches!(w.next_step::<()>(), WriteAllStep::Write(0)));
    assert!(matches!(w.on_event::<()>(WriteEvent::Wrote(4)), WriteAllStep::Write(4)));
    assert!(matches!(w.on_event::<()>(WriteEvent::Interrupted), WriteAllStep::Write(4)));
    assert!(matches!(w.on_event::<()>(WriteEvent::Wrote(5)), WriteAllStep::Write(9)));
    assert!(matches!(w.on_event::<()>(WriteEvent::Wrote(1)), WriteAllStep::Done));
}

#[test]
fn zero_write_is_an_error() {
    let mut w = WriteAll::new(3);
    assert!(matches!(w.on_event::<()>(WriteEvent::Wrote(0)), WriteAllStep::WriteZero));
}

#[test]
fn other_failures_are_handed_on() {
    let mut w = WriteAll::new(3);
    assert!(matches!(w.on_event(WriteEvent::Failed("boom")), WriteAllStep::Failed("boom")));
}

#[test]
fn whole_buffer_in_one_write() {
    let mut w = WriteAll::new(7);
    assert!(matches!(w.on_event::<()>(WriteEvent::Wrote(7)), WriteAllStep::Done));
}

#[test]
fn nonblocking_outcomes() {
    assert!(matches!(nb_step::<u8, ()>(NbResult::Ready(3)), NbStep::Complete(Ok(3))));
    assert!(matches!(nb_step::<u8, ()>(NbResult::WouldBlock), NbStep::Wait));
    assert!(matches!(nb_step::<u8, &str>(NbResult::Failed("x")), NbStep::Complete(Err("x"))));
}

#[test]
fn already_registered_descriptor_is_reregistered() {
    assert_eq!(register_fallback(Some(17)), RegisterFallback::Reregister);
    assert_eq!(register_fallback(Some(2)), RegisterFallback::Fail);
    assert_eq!(register_fallback(None), RegisterFallback::Fail);
}

#[test]
fn connect_registers_then_finishes() {
    let mut c = Connecting::new();
    assert!(matches!(c.step::<()>(ConnectEvent::Opened(Ok(()))), ConnectStep::Register));
    assert!(matches!(c.step::<()>(ConnectEvent::Resumed), ConnectStep::Done(Ok(()))));
}

#[test]
fn connect_failure_ends_at_once() {
    let mut c = Connecting::new();
    assert!(matches!(c.step(ConnectEvent::Opened(Err("refused"))), ConnectStep::Done(Err("refused"))));
}

#[test]
fn interrupted_and_partial_writes_continue_from_accepted_bytes() {
    let mut w = WriteAll::new(6);
    assert!(matches!(w.on_event::<()>(WriteEvent::Interrupted), WriteAllStep::Write(0)));
    assert!(matches!(w.on_event::<()>(WriteEvent::Wrote(2)), WriteAllStep::Write(2)));
    assert!(matches!(w.on_event::<()>(WriteEvent::Interrupted), WriteAllStep::Write(2)));
    assert!(matches!(w.on_event::<()>(WriteEvent::Wrote(3)), WriteAllStep::Write(5)));
    assert!(matches!(w.on_event(WriteEvent::Failed(7)), WriteAllStep::Failed(7)));
}
