use chess_server::event_type::EventType;
use chess_server::tcp_connection::{ConnectionHolder, ReadOutcome};

fn holder_with(n: u32) -> ConnectionHolder<String> {
    let mut h: ConnectionHolder<String> = ConnectionHolder::new();
    for i in 0..n {
        let e = h.try_register_new_connection(format!("stream {}", i));
        assert_eq!(e, Some(EventType::PlayerConnect(i)));
    }
    h
}

#[test]
fn identifiers_increase_from_zero() {
    let mut h = holder_with(3);
    assert_eq!(h.len(), 3);
    assert_eq!(h.position_of(0), Some(0));
    assert_eq!(h.position_of(2), Some(2));
    assert_eq!(h.position_of(3), None);
    assert_eq!(h.stream_mut(1).as_str(), "stream 1");
}

#[test]
fn received_bytes_are_reported_in_connection_order() {
    let mut h = holder_with(3);
    let events = h.process_reads(vec![
        ReadOutcome::Received(b"a".to_vec()),
        ReadOutcome::WouldBlock,
        ReadOutcome::Received(b"bc".to_vec()),
    ]);
    assert_eq!(
        events,
        vec![
            EventType::PlayerSay(0, b"a".to_vec()),
            EventType::PlayerSay(2, b"bc".to_vec()),
        ]
    );
    assert_eq!(h.len(), 3);
}

#[test]
fn closed_connections_leave_in_reverse_order() {
    let mut h = holder_with(5);
    let events = h.process_reads(vec![
        ReadOutcome::Closed,
        ReadOutcome::Received(b"x".to_vec()),
        ReadOutcome::Failed,
        ReadOutcome::WouldBlock,
        ReadOutcome::Closed,
    ]);
    assert_eq!(
        events,
        vec![
            EventType::PlayerSay(1, b"x".to_vec()),
            EventType::PlayerDisconnect(4),
            EventType::PlayerDisconnect(2),
            EventType::PlayerDisconnect(0),
        ]
    );
    assert_eq!(h.len(), 2);
    assert_eq!(h.position_of(1), Some(0));
    assert_eq!(h.position_of(3), Some(1));
    assert_eq!(h.position_of(0), None);
    assert_eq!(h.position_of(4), None);
    assert_eq!(h.stream_mut(1).as_str(), "stream 3");
}

#[test]
fn identifiers_are_not_reused_after_a_disconnect() {
    let mut h = holder_with(2);
    h.process_reads(vec![ReadOutcome::WouldBlock, ReadOutcome::Closed]);
    assert_eq!(
        h.try_register_new_connection("late".to_string()),
        Some(EventType::PlayerConnect(2))
    );
    assert_eq!(h.position_of(2), Some(1));
    assert_eq!(h.position_of(1), None);
}

#[test]
fn each_peer_gets_exactly_its_own_events() {
    let mut h = holder_with(4);
    let events = h.process_reads(vec![
        ReadOutcome::Received(b"p0".to_vec()),
        ReadOutcome::Closed,
        ReadOutcome::Received(b"p2".to_vec()),
        ReadOutcome::WouldBlock,
    ]);
    let for_peer = |u: u32| events.iter().filter(|e| e.uid() == u).cloned().collect::<Vec<_>>();
    assert_eq!(for_peer(0), vec![EventType::PlayerSay(0, b"p0".to_vec())]);
    assert_eq!(for_peer(1), vec![EventType::PlayerDisconnect(1)]);
    assert_eq!(for_peer(2), vec![EventType::PlayerSay(2, b"p2".to_vec())]);
    assert_eq!(for_peer(3), Vec::<EventType>::new());
    let next = h.process_reads(vec![
        ReadOutcome::Received(b"again".to_vec()),
        ReadOutcome::Closed,
        ReadOutcome::WouldBlock,
    ]);
    assert_eq!(
        next,
        vec![EventType::PlayerSay(0, b"again".to_vec()), EventType::PlayerDisconnect(2)]
    );
}

#[test]
fn stream_can_be_written_through() {
    let mut h = holder_with(2);
    let i = h.position_of(1).expect("live");
    h.stream_mut(i).push_str(" written");
    assert_eq!(h.stream_mut(1).as_str(), "stream 1 written");
    assert_eq!(h.position_of(1), Some(1));
}
