# netcode

Websocket networking for real-time applications, verified with Verus.

- `src/` is the verified library:
  - `common.rs`: the wire format, the `SerializableMessage` trait, and the
    traffic `Metrics` (totals and per-second figures over one-second windows).
  - `string_message.rs`: `String` as a message, framed by bincode or quoted by
    serde_json, with the binary round trip proved.
  - `server.rs`: the server's registry of connected clients, sending, the
    handling of what connection tasks report, and the decisions of a
    connection's reader and of the listener's id allocation.
  - `client.rs`: the client's connection state machine.
  - `master_server.rs`: routing of events between the server, instances and
    the application.
- `app/` holds the async networking around it: the tokio/hyper websocket
  server, the ewebsock client and the master server loop.
- `tests/` exercises the library on concrete values.
