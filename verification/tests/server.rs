use hyper_tungstenite::tungstenite::Message;
use netcode::common::SerializableMessage;
use netcode::server::ClientId;
use netcode::server::ClientIdSequence;
use netcode::server::Event;
use netcode::server::Incoming;
use netcode::server::InternalEvent;
use netcode::server::ReaderStep;
use netcode::server::Server;

fn send(server: &mut Server<String>, id: u64, msg: &str) -> bool {
    match server.prepare_send(ClientId::from(id), msg.to_string()) {
        Some(frame) => match server.sink(ClientId::from(id)) {
            Some(sink) => sink.send(Message::Binary(frame.into())).is_ok(),
            None => false,
        },
        None => false,
    }
}

#[test]
fn client_id_converts_both_ways() {
    let id = ClientId::from(42u64);
    assert_eq!(u64::from(id), 42);
    assert!(ClientId::from(7u64) == ClientId::from(7u64));
    assert!(ClientId::from(7u64) != ClientId::from(8u64));
}

#[test]
fn client_ids_are_issued_from_one() {
    let mut ids = ClientIdSequence::new();
    assert_eq!(u64::from(ids.next_id().unwrap()), 1);
    assert_eq!(u64::from(ids.next_id().unwrap()), 2);
    assert_eq!(u64::from(ids.next_id().unwrap()), 3);
}

#[test]
fn send_to_unknown_client_fails() {
    let mut server: Server<String> = Server::default();
    assert!(!send(&mut server, 1, "hi"));
    assert_eq!(server.metrics.send_total(), 0);
}

#[test]
fn connected_client_receives_what_is_sent() {
    let mut server: Server<String> = Server::default();
    let (sink, mut rx) = tokio::sync::mpsc::unbounded_channel::<Message>();
    let events = server.handle_events(vec![InternalEvent::ClientConnected { client_id: ClientId::from(5u64), sink }]);
    assert_eq!(events.len(), 1);
    assert!(matches!(events[0], Event::ClientConnected { client_id } if u64::from(client_id) == 5));
    assert!(send(&mut server, 5, "hi"));
    let expected = "hi".to_string().to_bytes().unwrap();
    match rx.try_recv() {
        Ok(Message::Binary(b)) => assert_eq!(b.to_vec(), expected),
        _ => panic!("no binary message"),
    }
    assert_eq!(server.metrics.send_total(), expected.len());
}

#[test]
fn send_fails_when_the_writer_is_gone() {
    let mut server: Server<String> = Server::default();
    let (sink, rx) = tokio::sync::mpsc::unbounded_channel::<Message>();
    drop(rx);
    server.handle_events(vec![InternalEvent::ClientConnected { client_id: ClientId::from(1u64), sink }]);
    assert!(!send(&mut server, 1, "hi"));
    assert_eq!(server.metrics.send_total(), 10);
}

#[test]
fn disconnected_client_is_dropped() {
    let mut server: Server<String> = Server::default();
    let (sink, _rx) = tokio::sync::mpsc::unbounded_channel::<Message>();
    let events = server.handle_events(vec![
        InternalEvent::ClientConnected { client_id: ClientId::from(2u64), sink },
        InternalEvent::ClientDisconnected { client_id: ClientId::from(2u64) },
    ]);
    assert_eq!(events.len(), 2);
    assert!(matches!(events[1], Event::ClientDisconnected { client_id } if u64::from(client_id) == 2));
    assert!(!send(&mut server, 2, "hi"));
}

#[test]
fn messages_are_reported_in_order_and_counted() {
    let mut server: Server<String> = Server::default();
    let events = server.handle_events(vec![
        InternalEvent::Message { client_id: ClientId::from(1u64), msg: "a".to_string(), len: 9 },
        InternalEvent::Message { client_id: ClientId::from(2u64), msg: "bc".to_string(), len: 10 },
    ]);
    assert_eq!(events.len(), 2);
    match (&events[0], &events[1]) {
        (Event::Message { client_id: a, msg: ma }, Event::Message { client_id: b, msg: mb }) => {
            assert_eq!(u64::from(*a), 1);
            assert_eq!(ma, "a");
            assert_eq!(u64::from(*b), 2);
            assert_eq!(mb, "bc");
        }
        _ => panic!("unexpected events"),
    }
    assert_eq!(server.metrics.recv_total(), 19);
    assert_eq!(server.metrics.send_total(), 0);
}

#[test]
fn reconnecting_client_uses_its_new_channel() {
    let mut server: Server<String> = Server::default();
    let (old_sink, old_rx) = tokio::sync::mpsc::unbounded_channel::<Message>();
    let (new_sink, mut new_rx) = tokio::sync::mpsc::unbounded_channel::<Message>();
    drop(old_rx);
    server.handle_events(vec![
        InternalEvent::ClientConnected { client_id: ClientId::from(3u64), sink: old_sink },
        InternalEvent::ClientConnected { client_id: ClientId::from(3u64), sink: new_sink },
    ]);
    assert!(send(&mut server, 3, "x"));
    assert!(new_rx.try_recv().is_ok());
}

#[test]
fn clearing_drops_clients_and_metrics() {
    let mut server: Server<String> = Server::default();
    let (sink, _rx) = tokio::sync::mpsc::unbounded_channel::<Message>();
    server.handle_events(vec![
        InternalEvent::ClientConnected { client_id: ClientId::from(1u64), sink },
        InternalEvent::Message { client_id: ClientId::from(1u64), msg: "a".to_string(), len: 9 },
    ]);
    server.clear();
    assert!(!send(&mut server, 1, "hi"));
    assert_eq!(server.metrics.recv_total(), 0);
}

#[test]
fn reader_reports_decoded_binary_messages() {
    let bytes = "hey".to_string().to_bytes().unwrap();
    let len = bytes.len();
    match Server::<String>::read_incoming(ClientId::from(4u64), Incoming::Binary(bytes)) {
        ReaderStep::Report(InternalEvent::Message { client_id, msg, len: l }) => {
            assert_eq!(u64::from(client_id), 4);
            assert_eq!(msg, "hey");
            assert_eq!(l, len);
        }
        _ => panic!("expected a report"),
    }
}

#[test]
fn reader_stops_on_undecodable_binary() {
    assert!(matches!(Server::<String>::read_incoming(ClientId::from(4u64), Incoming::Binary(vec![9, 9])), ReaderStep::Stop));
}

#[test]
fn reader_skips_other_messages_and_stops_on_errors() {
    assert!(matches!(Server::<String>::read_incoming(ClientId::from(4u64), Incoming::Other), ReaderStep::Skip));
    assert!(matches!(Server::<String>::read_incoming(ClientId::from(4u64), Incoming::Failed), ReaderStep::Stop));
    assert!(matches!(Server::<String>::read_incoming(ClientId::from(4u64), Incoming::Ended), ReaderStep::Stop));
}

#[test]
fn after_decode_maps_results() {
    assert!(matches!(Server::<String>::after_decode(ClientId::from(1u64), 3, Err(())), ReaderStep::Stop));
    assert!(matches!(
        Server::<String>::after_decode(ClientId::from(1u64), 3, Ok("m".to_string())),
        ReaderStep::Report(InternalEvent::Message { len: 3, .. })
    ));
}

#[test]
fn prepare_send_hands_back_the_encoded_bytes() {
    let mut server: Server<String> = Server::default();
    assert!(server.prepare_send(ClientId::from(1u64), "hi".to_string()).is_none());
    assert!(server.sink(ClientId::from(1u64)).is_none());
    let (sink, _rx) = tokio::sync::mpsc::unbounded_channel::<Message>();
    server.handle_events(vec![InternalEvent::ClientConnected { client_id: ClientId::from(1u64), sink }]);
    let frame = server.prepare_send(ClientId::from(1u64), "hi".to_string()).unwrap();
    assert_eq!(frame, "hi".to_string().to_bytes().unwrap());
    assert!(server.sink(ClientId::from(1u64)).is_some());
    assert_eq!(server.metrics().sent_so_far(), frame.len());
}

#[test]
fn prepare_bytes_counts_what_it_hands_back() {
    let mut server: Server<String> = Server::default();
    assert!(server.prepare_bytes(ClientId::from(2u64), vec![1, 2, 3]).is_none());
    let (sink, _rx) = tokio::sync::mpsc::unbounded_channel::<Message>();
    server.handle_events(vec![InternalEvent::ClientConnected { client_id: ClientId::from(2u64), sink }]);
    assert_eq!(server.prepare_bytes(ClientId::from(2u64), vec![1, 2, 3]), Some(vec![1, 2, 3]));
    assert_eq!(server.metrics.send_total(), 3);
}
