use netcode::client::Client;
use netcode::client::Event;
use netcode::client::State;
use netcode::client::WsEvent;
use netcode::client::WsMessage;
use netcode::common::Format;
use netcode::common::SerializableMessage;

fn connected_client(format: Format) -> Client {
    let mut c = Client::default().with_format(format);
    c.connect("ws://localhost:8080".to_string());
    let events: Vec<Event<String>> = c.poll(true, vec![WsEvent::Opened]);
    assert_eq!(events.len(), 2);
    c
}

#[test]
fn new_client_is_disconnected_and_idle() {
    let mut c = Client::default();
    assert!(c.state() == State::Disconnected);
    assert!(c.connect_target().is_none());
    let events: Vec<Event<String>> = c.poll(false, vec![]);
    assert!(events.is_empty());
}

#[test]
fn connecting_client_asks_for_a_socket() {
    let mut c = Client::default();
    c.connect("ws://localhost:8080".to_string());
    assert_eq!(c.connect_target(), Some("ws://localhost:8080".to_string()));
    let events: Vec<Event<String>> = c.poll(false, vec![]);
    assert_eq!(events.len(), 1);
    assert!(matches!(events[0], Event::Connecting));
    assert!(!c.has_socket());
    assert!(c.connect_target().is_some());
}

#[test]
fn opened_socket_connects() {
    let mut c = Client::default();
    c.connect("ws://localhost:8080".to_string());
    let events: Vec<Event<String>> = c.poll(true, vec![WsEvent::Opened]);
    assert!(matches!(events[..], [Event::Connecting, Event::Connected]));
    assert!(c.state() == State::Connected);
    assert!(c.has_socket());
    assert!(c.connect_target().is_none());
}

#[test]
fn binary_messages_are_decoded() {
    let mut c = connected_client(Format::Binary);
    let bytes = "hello".to_string().to_bytes().unwrap();
    let events: Vec<Event<String>> = c.poll(false, vec![WsEvent::Binary(bytes), WsEvent::Text("\"x\"".to_string())]);
    assert_eq!(events.len(), 1);
    assert!(matches!(&events[0], Event::Message(m) if m == "hello"));
}

#[test]
fn json_messages_are_decoded() {
    let mut c = connected_client(Format::Json);
    let events: Vec<Event<String>> = c.poll(false, vec![WsEvent::Text("\"hello\"".to_string()), WsEvent::Binary(vec![1])]);
    assert_eq!(events.len(), 1);
    assert!(matches!(&events[0], Event::Message(m) if m == "hello"));
}

#[test]
fn closed_socket_disconnects_and_reconnects() {
    let mut c = connected_client(Format::Binary);
    let events: Vec<Event<String>> = c.poll(false, vec![WsEvent::Closed]);
    assert!(matches!(events[..], [Event::Disconnected]));
    assert!(c.state() == State::Disconnected);
    assert!(!c.has_socket());
    assert!(c.connect_target().is_some());
    let events: Vec<Event<String>> = c.poll(false, vec![]);
    assert!(matches!(events[..], [Event::Connecting]));
}

#[test]
fn undecodable_message_drops_the_socket() {
    let mut c = connected_client(Format::Binary);
    let events: Vec<Event<String>> = c.poll(false, vec![WsEvent::Binary(vec![7]), WsEvent::Opened]);
    assert!(matches!(events[..], [Event::Connected, Event::Disconnected]));
    assert!(c.state() == State::Disconnected);
    assert!(!c.has_socket());
}

#[test]
fn error_before_opening_reports_no_disconnect() {
    let mut c = Client::default();
    c.connect("ws://localhost:8080".to_string());
    let events: Vec<Event<String>> = c.poll(true, vec![WsEvent::Error("refused".to_string())]);
    assert!(matches!(events[..], [Event::Connecting]));
    assert!(c.state() == State::Disconnected);
    assert!(!c.has_socket());
}

#[test]
fn disconnect_is_reported_on_next_poll() {
    let mut c = connected_client(Format::Binary);
    c.disconnect();
    assert!(c.state() == State::Connected);
    assert!(c.connect_target().is_none());
    let events: Vec<Event<String>> = c.poll(false, vec![]);
    assert!(matches!(events[..], [Event::Disconnected]));
    assert!(c.state() == State::Disconnected);
    let events: Vec<Event<String>> = c.poll(false, vec![]);
    assert!(events.is_empty());
}

#[test]
fn send_frames_in_the_clients_format() {
    let c = connected_client(Format::Binary);
    match c.send("hi".to_string()) {
        (Some(WsMessage::Binary(b)), true) => assert_eq!(b, "hi".to_string().to_bytes().unwrap()),
        _ => panic!("expected a binary frame"),
    }
    let c = connected_client(Format::Json);
    match c.send("hi".to_string()) {
        (Some(WsMessage::Text(t)), true) => assert_eq!(t, "\"hi\""),
        _ => panic!("expected a text frame"),
    }
}

#[test]
fn send_needs_a_connection() {
    let mut c = Client::default();
    assert!(matches!(c.send("hi".to_string()), (None, false)));
    c.connect("ws://localhost:8080".to_string());
    let _: Vec<Event<String>> = c.poll(true, vec![]);
    assert!(matches!(c.send("hi".to_string()), (None, false)));
}

#[test]
fn send_encoded_writes_only_when_connected() {
    let c = connected_client(Format::Binary);
    assert!(matches!(c.send_encoded(Ok(WsMessage::Binary(vec![1, 2]))), (Some(WsMessage::Binary(_)), true)));
    assert!(matches!(c.send_encoded(Err(())), (None, false)));
    let idle = Client::default();
    assert!(matches!(idle.send_encoded(Ok(WsMessage::Text("x".to_string()))), (None, false)));
}
