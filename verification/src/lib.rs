//! Websocket networking for games and real-time applications: a server that
//! tracks connected clients, a client that keeps itself connected, and a
//! master server that routes clients to instances.

pub mod common;
pub mod server;
pub mod client;
pub mod master_server;
pub mod string_message;
