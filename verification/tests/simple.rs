use mirage::simple::{
    accept_conn, greeting, server_address, start, start_client, AcceptAction, AcceptEvent,
    ClientAction, ClientEvent, StartAction, StartEvent, CLIENT_BUFFER, GREETING_COUNT,
};

#[test]
fn greetings_are_numbered_in_decimal() {
    assert_eq!(greeting(0), b"hello_0".to_vec());
    assert_eq!(greeting(7), b"hello_7".to_vec());
    assert_eq!(greeting(49), b"hello_49".to_vec());
    assert_eq!(greeting(1000), b"hello_1000".to_vec());
    assert_eq!(greeting(u32::MAX), b"hello_4294967295".to_vec());
}

#[test]
fn greeting_matches_format() {
    for i in [0u32, 9, 10, 99, 123456] {
        assert_eq!(greeting(i), format!("hello_{}", i).into_bytes());
    }
}

#[test]
fn server_sends_fifty_greetings_then_finishes() {
    let mut t = accept_conn();
    let mut sent = Vec::new();
    let mut a = t.step(AcceptEvent::Accepted);
    loop {
        match a {
            AcceptAction::Send(g) => {
                sent.push(g);
                a = t.step(AcceptEvent::Sent);
            }
            AcceptAction::Finish => break,
        }
    }
    assert_eq!(GREETING_COUNT, 50);
    assert_eq!(sent.len(), 50);
    for (i, g) in sent.iter().enumerate() {
        assert_eq!(*g, format!("hello_{}", i).into_bytes());
    }
}

#[test]
fn client_prints_until_empty_read() {
    let mut c = start_client();
    assert_eq!(c.step(ClientEvent::Connected), ClientAction::Read);
    assert_eq!(c.step(ClientEvent::Received(7)), ClientAction::Print(7));
    assert_eq!(c.step(ClientEvent::Received(CLIENT_BUFFER)), ClientAction::Print(1024));
    assert_eq!(c.step(ClientEvent::Received(0)), ClientAction::Finish);
}

#[test]
fn main_binds_spawns_and_runs_the_client() {
    let mut s = start();
    match s.step(StartEvent::Begin) {
        StartAction::Bind(a) => {
            assert_eq!(a.octets, [127, 0, 0, 1]);
            assert_eq!(a.port, 3333);
        }
        _ => panic!("expected a bind"),
    }
    assert!(matches!(s.step(StartEvent::Bound), StartAction::SpawnServer));
    match s.step(StartEvent::Spawned) {
        StartAction::RunClient(a) => assert_eq!(a.port, 3333),
        _ => panic!("expected the client"),
    }
    assert!(matches!(s.step(StartEvent::ClientDone), StartAction::Finish));
    let a = server_address();
    assert_eq!((a.octets, a.port), ([127, 0, 0, 1], 3333));
}
