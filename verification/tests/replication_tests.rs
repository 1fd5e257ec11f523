use verdis::replication::{handshake_init, handshake_step, HandshakeState, Replication,
    ReplicationSet};

#[test]
fn handshake_emits_the_four_frames_in_order() {
    let port = b"6380".to_vec();
    let (st, frame) = handshake_init();
    assert_eq!(st, HandshakeState::AwaitPong);
    assert_eq!(frame, b"*1\r\n$4\r\nPING\r\n".to_vec());

    let (st, frame) = handshake_step(st, b"PONG", &port).expect("PONG is accepted");
    assert_eq!(st, HandshakeState::AwaitPortOk);
    assert_eq!(
        frame,
        b"*3\r\n$8\r\nREPLCONF\r\n$14\r\nlistening-port\r\n$4\r\n6380\r\n".to_vec()
    );

    let (st, frame) = handshake_step(st, b"OK", &port).expect("OK is accepted");
    assert_eq!(st, HandshakeState::AwaitCapaOk);
    assert_eq!(frame, b"*3\r\n$8\r\nREPLCONF\r\n$4\r\ncapa\r\n$6\r\npsync2\r\n".to_vec());

    let (st, frame) = handshake_step(st, b"OK", &port).expect("OK is accepted");
    assert_eq!(st, HandshakeState::AwaitFullresync);
    assert_eq!(frame, b"*3\r\n$5\r\nPSYNC\r\n$1\r\n?\r\n$2\r\n-1\r\n".to_vec());

    let reply = b"FULLRESYNC aaaaaaaaaaaaaaaaaaaaaaaaaaaaaaaaaaaaaaaa 0";
    let (st, frame) = handshake_step(st, reply, &port).expect("FULLRESYNC is accepted");
    assert_eq!(st, HandshakeState::Established);
    assert!(frame.is_empty());
}

#[test]
fn handshake_rejects_unexpected_replies() {
    let port = b"6380".to_vec();
    let (st, _) = handshake_init();
    assert!(handshake_step(st, b"NOPE", &port).is_err());
    assert!(handshake_step(HandshakeState::AwaitPortOk, b"PONG", &port).is_err());
    assert!(handshake_step(HandshakeState::AwaitFullresync, b"OK", &port).is_err());
}

#[test]
fn handshake_requires_the_full_status_line_shape() {
    let port = b"6380".to_vec();
    let st = HandshakeState::AwaitFullresync;
    // the word alone, or run into garbage, is not a status line
    assert!(handshake_step(st, b"FULLRESYNC", &port).is_err());
    assert!(handshake_step(st, b"FULLRESYNCgarbage", &port).is_err());
    // a replid without an offset is rejected, as is a non-numeric offset
    assert!(handshake_step(st, b"FULLRESYNC abcd", &port).is_err());
    assert!(handshake_step(st, b"FULLRESYNC abcd x1", &port).is_err());
    // an empty replid is rejected
    assert!(handshake_step(st, b"FULLRESYNC  0", &port).is_err());
    // the well-shaped line is accepted
    let ok = handshake_step(st, b"FULLRESYNC abcd 12", &port);
    assert!(matches!(ok, Ok((HandshakeState::Established, _))));
}

#[test]
fn registry_tracks_ports_and_readiness() {
    let mut set = ReplicationSet::new();
    assert!(set.is_empty());
    assert!(!set.is_ready());
    set.add_a_repl(Replication { port: b"6380".to_vec() });
    assert!(!set.is_empty());
    assert!(set.is_exsits(&Replication { port: b"6380".to_vec() }));
    assert!(!set.is_exsits(&Replication { port: b"6381".to_vec() }));
    assert_eq!(set.get_repls().len(), 1);
    // registrations are keyed by port: announcing 6380 again replaces
    set.add_a_repl(Replication { port: b"6380".to_vec() });
    assert_eq!(set.get_repls().len(), 1);
    set.add_a_repl(Replication { port: b"6381".to_vec() });
    assert_eq!(set.get_repls().len(), 2);
    set.set_ready(true);
    assert!(set.is_ready());
}
