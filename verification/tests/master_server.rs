use netcode::master_server::Instance;
use netcode::master_server::InstanceEvent;
use netcode::master_server::MasterEvent;
use netcode::master_server::MasterServer;
use netcode::server::ClientId;
use netcode::server::Event;

struct Recorder {
    received: Vec<Event<String>>,
}

impl Instance<String> for Recorder {
    fn tx(&mut self, t: Event<String>) {
        self.received.push(t);
    }

    fn poll(&mut self) -> Vec<InstanceEvent<String>> {
        Vec::new()
    }
}

#[test]
fn master_passes_unrouted_events_through() {
    let mut master: MasterServer<String, Recorder> = MasterServer::new();
    let (events, outgoing) = master.poll(vec![
        Event::ClientConnected { client_id: ClientId::from(1u64) },
        Event::Message { client_id: ClientId::from(1u64), msg: "m".to_string() },
        Event::ClientDisconnected { client_id: ClientId::from(1u64) },
    ]);
    assert!(outgoing.is_empty());
    assert_eq!(events.len(), 3);
    assert!(matches!(events[0], MasterEvent::ClientConnected { client_id } if u64::from(client_id) == 1));
    assert!(matches!(&events[1], MasterEvent::Message { client_id, msg } if u64::from(*client_id) == 1 && msg == "m"));
    assert!(matches!(events[2], MasterEvent::ClientDisconnected { client_id } if u64::from(client_id) == 1));
}

#[test]
fn master_knows_no_memberships_at_first() {
    let mut master: MasterServer<String, Recorder> = MasterServer::new();
    assert!(master.client_instance(ClientId::from(1u64)).is_none());
    assert!(master.leave_instance(ClientId::from(1u64)).is_none());
}

#[test]
fn instance_events_for_unknown_clients_change_nothing() {
    let mut master: MasterServer<String, Recorder> = MasterServer::new();
    let (events, outgoing) = master.apply_instance_events(vec![
        InstanceEvent::ClientLeftInstance { client_id: ClientId::from(1u64) },
        InstanceEvent::ClientJoinedInstance { client_id: ClientId::from(2u64) },
        InstanceEvent::Message { client_id: ClientId::from(3u64), msg: "to 3".to_string() },
    ]);
    assert!(events.is_empty());
    assert_eq!(outgoing.len(), 1);
    assert_eq!(u64::from(outgoing[0].0), 3);
    assert_eq!(outgoing[0].1, "to 3");
}

#[test]
fn routing_without_memberships_delivers_nothing() {
    let master: MasterServer<String, Recorder> = MasterServer::new();
    let (events, deliveries) = master.route_server_events(vec![Event::ClientConnected { client_id: ClientId::from(9u64) }]);
    assert_eq!(events.len(), 1);
    assert!(deliveries.is_empty());
}
