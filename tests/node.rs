use p2p_messaging::{
    decode, encode, parse_role, same_text, CloseReason, ConfigError, ConnectionRegistry,
    Decimal, DecodeError, Generator, Message, NodeConfig, Pump, PumpAction, PumpEvent, Role, FIRST_VALUE,
    QUEUE_CAPACITY, SEND_PERIOD_SECS,
};

fn addrs(list: &[&str]) -> Vec<String> {
    list.iter().map(|a| a.to_string()).collect()
}

#[test]
fn generator_counts_up_from_twenty() {
    let mut g = Generator::new();
    let first = g.next_message();
    let second = g.next_message();
    assert_eq!(
        first,
        Message { key: "temperature".to_string(), value: Decimal { units: FIRST_VALUE, scale: 0 } }
    );
    assert_eq!(encode(&first), b"temperature;20;end,".to_vec());
    assert_eq!(decode(&encode(&second)), Ok(Message { key: "temperature".to_string(), value: Decimal { units: 21, scale: 0 } }));
    assert!(g.has_next());
    assert_eq!(SEND_PERIOD_SECS, 5);
}

#[test]
fn roles_are_read_by_name() {
    assert_eq!(parse_role("listener"), Some(Role::Listener));
    assert_eq!(parse_role("sender"), Some(Role::Sender));
    assert_eq!(parse_role("Listener"), None);
    assert_eq!(parse_role(""), None);
    assert!(same_text("é", "é"));
    assert!(!same_text("ab", "abc"));
}

#[test]
fn config_checks_role_and_addresses() {
    let c = NodeConfig::new("listener", addrs(&["127.0.0.1:9001"])).unwrap();
    assert_eq!(c.role, Role::Listener);
    assert_eq!(c.addresses, addrs(&["127.0.0.1:9001"]));
    let c = NodeConfig::new("sender", addrs(&["a:1", "b:2"])).unwrap();
    assert_eq!(c.role, Role::Sender);
    assert_eq!(c.addresses.len(), 2);
    assert_eq!(
        NodeConfig::new("listener", addrs(&["a:1", "b:2"])).err(),
        Some(ConfigError::ListenerNeedsOneAddress)
    );
    assert_eq!(NodeConfig::new("sender", vec![]).err(), Some(ConfigError::NoAddress));
    assert_eq!(NodeConfig::new("listener", vec![]).err(), Some(ConfigError::NoAddress));
    assert_eq!(NodeConfig::new("relay", addrs(&["a:1"])).err(), Some(ConfigError::UnknownRole));
}

#[test]
fn registry_inserts_replaces_and_removes() {
    let mut r: ConnectionRegistry<u32> = ConnectionRegistry::new();
    assert_eq!(r.insert("a:1".to_string(), 1), None);
    assert_eq!(r.insert("b:2".to_string(), 2), None);
    assert_eq!(r.insert("a:1".to_string(), 3), Some(1));
    assert_eq!(r.len(), 2);
    assert_eq!(r.get("a:1"), Some(&3));
    assert_eq!(r.get("c:3"), None);
    assert_eq!(r.remove("a:1"), Some(3));
    assert_eq!(r.remove("a:1"), None);
    assert_eq!(r.get("b:2"), Some(&2));
    assert_eq!(r.len(), 1);
}

#[test]
fn pump_delivers_sends_and_closes() {
    let mut p = Pump::new();
    let m = Message { key: "temperature".to_string(), value: Decimal { units: 20, scale: 0 } };
    match p.step(PumpEvent::Outbound(m.clone())) {
        PumpAction::Send(bytes) => assert_eq!(bytes, b"temperature;20;end,".to_vec()),
        other => panic!("unexpected {:?}", other),
    }
    match p.step(PumpEvent::Received(b"garbage,temperature;2".to_vec())) {
        PumpAction::Deliver(es) => assert_eq!(es, vec![Err(DecodeError::Malformed)]),
        other => panic!("unexpected {:?}", other),
    }
    match p.step(PumpEvent::Received(b"0;end,".to_vec())) {
        PumpAction::Deliver(es) => assert_eq!(es, vec![Ok(m)]),
        other => panic!("unexpected {:?}", other),
    }
    assert!(p.is_open());
    match p.step(PumpEvent::PeerClosed) {
        PumpAction::Close(r) => assert_eq!(r, CloseReason::PeerClosed),
        other => panic!("unexpected {:?}", other),
    }
    assert!(!p.is_open());
    assert!(matches!(p.step(PumpEvent::Received(b"a;1;end,".to_vec())), PumpAction::Ignore));
}

#[test]
fn pump_closes_on_oversized_frame_and_write_failure() {
    let mut p = Pump::new();
    let mut stream = b"temperature;20;end,".to_vec();
    stream.extend(vec![b'x'; 5000]);
    match p.step(PumpEvent::Received(stream)) {
        PumpAction::DeliverThenClose(es, r) => {
            assert_eq!(
                es,
                vec![Ok(Message {
                    key: "temperature".to_string(),
                    value: Decimal { units: 20, scale: 0 }
                })]
            );
            assert_eq!(r, CloseReason::FrameTooLarge);
        }
        other => panic!("unexpected {:?}", other),
    }
    assert!(!p.is_open());
    let mut q = Pump::new();
    assert!(matches!(q.step(PumpEvent::WriteFailed), PumpAction::Close(CloseReason::WriteFailed)));
    let mut r = Pump::new();
    assert!(matches!(r.step(PumpEvent::QueueClosed), PumpAction::Close(CloseReason::QueueClosed)));
    let mut s = Pump::new();
    assert!(matches!(s.step(PumpEvent::ReadFailed), PumpAction::Close(CloseReason::ReadFailed)));
}

#[test]
fn closing_one_pump_leaves_another_open() {
    let mut a = Pump::new();
    let mut b = Pump::new();
    assert!(matches!(a.step(PumpEvent::PeerClosed), PumpAction::Close(_)));
    match b.step(PumpEvent::Received(b"temperature;20;end,".to_vec())) {
        PumpAction::Deliver(es) => assert_eq!(es.len(), 1),
        other => panic!("unexpected {:?}", other),
    }
    assert!(b.is_open());
}

#[test]
fn full_queue_blocks_until_a_receive() {
    let (tx, mut rx) = tokio::sync::mpsc::channel::<Message>(QUEUE_CAPACITY);
    let m = Message { key: "temperature".to_string(), value: Decimal { units: 20, scale: 0 } };
    for _ in 0..QUEUE_CAPACITY {
        assert!(tx.try_send(m.clone()).is_ok());
    }
    assert!(matches!(
        tx.try_send(m.clone()),
        Err(tokio::sync::mpsc::error::TrySendError::Full(_))
    ));
    assert!(rx.try_recv().is_ok());
    assert!(tx.try_send(m).is_ok());
}
