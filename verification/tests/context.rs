use mirage::context::{Context, Ready};
use mirage::net::{register_interest, Interest};

#[test]
fn fresh_context_polls_main() {
    let c: Context<u8> = Context::new();
    assert_eq!(c.current_token(), 1);
    assert_eq!(c.pending_interest(), None);
}

#[test]
fn spawned_tasks_come_out_in_order() {
    let mut c: Context<u8> = Context::new();
    c.spawn(1);
    c.spawn(2);
    assert_eq!(c.take_new_tasks(), vec![1, 2]);
    assert_eq!(c.take_new_tasks(), Vec::<u8>::new());
}

#[test]
fn registrations_replace_each_other() {
    let mut c: Context<u8> = Context::new();
    c.register_read(4);
    assert_eq!(c.pending_interest(), Some((4, Ready { readable: true, writable: false })));
    c.register_write(5);
    assert_eq!(c.pending_interest(), Some((5, Ready { readable: false, writable: true })));
    c.register_all(6);
    assert_eq!(c.pending_interest(), Some((6, Ready { readable: true, writable: true })));
}

#[test]
fn interest_stays_until_replaced() {
    let mut c: Context<u8> = Context::new();
    c.register_read(4);
    assert_eq!(c.pending_interest(), Some((4, Ready::readable())));
    assert_eq!(c.pending_interest(), Some((4, Ready::readable())));
}

#[test]
fn current_token_is_recorded() {
    let mut c: Context<u8> = Context::new();
    c.set_current_token(7);
    assert_eq!(c.current_token(), 7);
}

#[test]
fn ready_sets() {
    let r = Ready::readable();
    let w = Ready::writable();
    let both = r.union(w);
    assert!(both.is_readable() && both.is_writable());
    assert!(r.is_readable() && !r.is_writable());
    assert!(!w.is_readable() && w.is_writable());
}

#[test]
fn waiting_operations_register_their_interest() {
    let mut c: Context<u8> = Context::new();
    register_interest(&mut c, 3, Interest::Read);
    assert_eq!(c.pending_interest(), Some((3, Ready::readable())));
    register_interest(&mut c, 3, Interest::Write);
    assert_eq!(c.pending_interest(), Some((3, Ready::writable())));
    register_interest(&mut c, 8, Interest::All);
    assert_eq!(c.pending_interest(), Some((8, Ready { readable: true, writable: true })));
}
