//! The server's bookkeeping: which clients are connected, what they sent, and
//! the traffic it counts.

use vstd::prelude::*;
use std::collections::HashMap;
use std::marker::PhantomData;
use hyper_tungstenite::tungstenite::Message;
use tokio::sync::mpsc::UnboundedSender;
use crate::common::Metrics;
use crate::common::MetricsView;
use crate::common::SerializableMessage;
use crate::common::decodes_bytes;
use crate::common::encodes_bytes;

verus! {

broadcast use vstd::std_specs::hash::group_hash_axioms;

/// Unique id of a client
#[derive(Hash, PartialEq, Eq, Clone, Copy, Structural, Debug)]
pub struct ClientId(u64);

impl View for ClientId {
    type V = u64;

    closed spec fn view(&self) -> u64 {
        self.0
    }
}

impl ClientId {
    /// Two ids are the same exactly when their numbers are, so converting an
    /// id to its number and back gives the same id.
    pub proof fn lemma_same_number_same_id(a: ClientId, b: ClientId)
        ensures
            a@ == b@ <==> a == b,
    {
    }
}

impl From<ClientId> for u64 {
    fn from(value: ClientId) -> (r: u64)
        ensures
            r == value@,
    {
        value.0
    }
}

impl vstd::std_specs::convert::FromSpecImpl<ClientId> for u64 {
    open spec fn obeys_from_spec() -> bool {
        true
    }

    open spec fn from_spec(v: ClientId) -> u64 {
        v@
    }
}

impl From<u64> for ClientId {
    fn from(value: u64) -> (r: ClientId)
        ensures
            r@ == value,
    {
        ClientId(value)
    }
}

impl vstd::std_specs::convert::FromSpecImpl<u64> for ClientId {
    open spec fn obeys_from_spec() -> bool {
        true
    }

    closed spec fn from_spec(v: u64) -> ClientId {
        ClientId(v)
    }
}

/// The channel through which a connection's writer task sends to its client.
#[verifier::external_type_specification]
#[verifier::external_body]
#[verifier::reject_recursive_types(T)]
pub struct ExUnboundedSender<T>(UnboundedSender<T>);

/// A websocket message.
#[verifier::external_type_specification]
#[verifier::external_body]
pub struct ExMessage(Message);

pub struct Client {
    pub sink: UnboundedSender<Message>,
}

/// What a connection task reports to the server.
pub enum InternalEvent<T> {
    ClientConnected { client_id: ClientId, sink: UnboundedSender<Message> },
    ClientDisconnected { client_id: ClientId },
    Message { client_id: ClientId, msg: T, len: usize },
}

/// What the server reports to the application.
pub enum Event<T> {
    ClientConnected { client_id: ClientId },
    ClientDisconnected { client_id: ClientId },
    Message { client_id: ClientId, msg: T },
}

impl<T> InternalEvent<T> {
    /// The event the application sees for this one.
    pub open spec fn public_event(self) -> Event<T> {
        match self {
            InternalEvent::ClientConnected { client_id, .. } => Event::ClientConnected { client_id },
            InternalEvent::ClientDisconnected { client_id } => Event::ClientDisconnected { client_id },
            InternalEvent::Message { client_id, msg, .. } => Event::Message { client_id, msg },
        }
    }

    /// The number of bytes this event brought in.
    pub open spec fn received_len(self) -> nat {
        match self {
            InternalEvent::Message { len, .. } => len as nat,
            _ => 0,
        }
    }

    /// The connected clients once this event is taken into account.
    pub open spec fn apply(self, registry: Map<u64, Client>) -> Map<u64, Client> {
        match self {
            InternalEvent::ClientConnected { client_id, sink } => registry.insert(
                client_id@,
                Client { sink },
            ),
            InternalEvent::ClientDisconnected { client_id } => registry.remove(client_id@),
            InternalEvent::Message { .. } => registry,
        }
    }
}

/// The connected clients after `events`, in order, starting from `registry`.
pub open spec fn registry_after<T>(registry: Map<u64, Client>, events: Seq<InternalEvent<T>>) -> Map<
    u64,
    Client,
>
    decreases events.len(),
{
    if events.len() == 0 {
        registry
    } else {
        events.last().apply(registry_after(registry, events.drop_last()))
    }
}

/// Whether the last of `events` that connects or disconnects the client `id`
/// connects it; `before` when none does.
pub open spec fn connected_after<T>(id: u64, events: Seq<InternalEvent<T>>, before: bool) -> bool
    decreases events.len(),
{
    if events.len() == 0 {
        before
    } else {
        match events.last() {
            InternalEvent::ClientConnected { client_id, .. } => if client_id@ == id {
                true
            } else {
                connected_after(id, events.drop_last(), before)
            },
            InternalEvent::ClientDisconnected { client_id } => if client_id@ == id {
                false
            } else {
                connected_after(id, events.drop_last(), before)
            },
            InternalEvent::Message { .. } => connected_after(id, events.drop_last(), before),
        }
    }
}

/// A client is connected exactly when the latest event that connects or
/// disconnects it connects it, or, when there is none, if it was connected
/// before; messages change nothing.
pub proof fn lemma_connected_follows_events<T>(
    registry: Map<u64, Client>,
    events: Seq<InternalEvent<T>>,
    id: u64,
)
    ensures
        registry_after(registry, events).contains_key(id) == connected_after(
            id,
            events,
            registry.contains_key(id),
        ),
    decreases events.len(),
{
    if events.len() > 0 {
        lemma_connected_follows_events(registry, events.drop_last(), id);
    }
}

/// The bytes that `events` brought in.
pub open spec fn received_total<T>(events: Seq<InternalEvent<T>>) -> nat
    decreases events.len(),
{
    if events.len() == 0 {
        0
    } else {
        received_total(events.drop_last()) + events.last().received_len()
    }
}

/// `steps` are the server's counters before and after each of `events` in
/// turn: a message's bytes are counted as received, and a new window may
/// start after it; any other event changes nothing.
pub open spec fn traffic_steps<T>(steps: Seq<MetricsView>, events: Seq<InternalEvent<T>>) -> bool {
    &&& steps.len() == events.len() + 1
    &&& forall|i: int|
        0 <= i < events.len() ==> match #[trigger] events[i] {
            InternalEvent::Message { len, .. } => steps[i + 1].same_or_rolled(steps[i].received(len)),
            _ => steps[i + 1] == steps[i],
        }
}

/// What the application sees of `events`.
pub open spec fn public_events<T>(events: Seq<InternalEvent<T>>) -> Seq<Event<T>> {
    events.map_values(|e: InternalEvent<T>| e.public_event())
}

/// What a connection's websocket yielded.
pub enum Incoming {
    /// A binary message.
    Binary(Vec<u8>),
    /// Any other message.
    Other,
    /// An error.
    Failed,
    /// The end of the stream.
    Ended,
}

/// What a connection's reader does next.
pub enum ReaderStep<T> {
    /// Report this event to the server and read on.
    Report(InternalEvent<T>),
    /// Read on.
    Skip,
    /// End the connection.
    Stop,
}

/// The step for a binary message of `len` bytes that decoded as `decoded`.
pub open spec fn decoded_step<T>(client_id: ClientId, len: usize, decoded: Result<T, ()>) -> ReaderStep<T> {
    match decoded {
        Ok(msg) => ReaderStep::Report(InternalEvent::Message { client_id, msg, len }),
        Err(_) => ReaderStep::Stop,
    }
}

/// What framing the bytes `b` does to the counters `before`: when counting
/// them would overflow the total, nothing is handed back and nothing
/// changes; otherwise they are counted as sent and handed back unchanged.
pub open spec fn bytes_prepared(before: MetricsView, after: MetricsView, b: Seq<u8>, frame: Option<Vec<u8>>) -> bool {
    if before.send_total + b.len() > usize::MAX {
        frame is None && after == before
    } else {
        &&& frame matches Some(f) && f@ == b
        &&& after.same_or_rolled(before.sent(b.len() as usize))
    }
}

/// The ids that a server's listener gives the connections it accepts, in
/// order, starting at 1.
pub struct ClientIdSequence {
    next: u64,
}

impl View for ClientIdSequence {
    type V = u64;

    closed spec fn view(&self) -> u64 {
        self.next
    }
}

impl ClientIdSequence {
    pub fn new() -> (r: Self)
        ensures
            r@ == 1,
    {
        ClientIdSequence { next: 1 }
    }

    /// The id for the next accepted connection; `None`, changing nothing,
    /// once every id up to `u64::MAX` has been handed out.
    pub fn next_id(&mut self) -> (id: Option<ClientId>)
        ensures
            old(self)@ < u64::MAX ==> (id matches Some(i) && i@ == old(self)@) && final(self)@
                == old(self)@ + 1,
            old(self)@ == u64::MAX ==> id is None && final(self)@ == old(self)@,
    {
        if self.next == u64::MAX {
            return None;
        }
        let id = ClientId(self.next);
        self.next = self.next + 1;
        Some(id)
    }
}

/// `Server` part of `netcode`: the connected clients and the traffic.
pub struct Server<T> {
    clients: HashMap<u64, Client>,
    /// holds the metrics of the server
    pub metrics: Metrics,
    phantom: PhantomData<T>,
}

impl<T> Default for Server<T> {
    fn default() -> (r: Self)
        ensures
            r.registry() == Map::<u64, Client>::empty(),
            r.traffic() == MetricsView::zero(),
    {
        Server { clients: HashMap::new(), metrics: Default::default(), phantom: PhantomData }
    }
}

impl<T> Server<T> {
    /// The connected clients, by id, with the channel to each.
    pub closed spec fn registry(&self) -> Map<u64, Client> {
        self.clients@
    }

    /// The counters of the server's metrics.
    pub closed spec fn traffic(&self) -> MetricsView {
        self.metrics@
    }

    /// Takes the events that the connection tasks reported, in order: a
    /// connected client is registered with its channel, a disconnected one is
    /// dropped, and the bytes of each message are counted as received.
    /// Returns what the application sees of them, one for one.
    pub fn handle_events(&mut self, events: Vec<InternalEvent<T>>) -> (out: Vec<Event<T>>)
        requires
            old(self).traffic().recv_total + received_total(events@) <= usize::MAX,
        ensures
            out@ == public_events(events@),
            final(self).registry() == registry_after(old(self).registry(), events@),
            final(self).traffic().wf(),
            final(self).traffic().recv_total == old(self).traffic().recv_total + received_total(
                events@,
            ),
            final(self).traffic().send_total == old(self).traffic().send_total,
            exists|steps: Seq<MetricsView>|
                #[trigger] traffic_steps(steps, events@) && steps[0] == old(self).traffic()
                    && steps.last() == final(self).traffic(),
    {
        let mut out: Vec<Event<T>> = Vec::new();
        let ghost mut steps: Seq<MetricsView> = seq![self.metrics@];
        let ghost all = events@;
        let ghost start_registry = self.clients@;
        let ghost start_metrics = self.metrics@;
        proof {
            use_type_invariant(&self.metrics);
        }
        for e in it: events
            invariant
                it.seq() == all,
                out@ == public_events(all.take(it.index() as int)),
                self.clients@ == registry_after(start_registry, all.take(it.index() as int)),
                self.metrics@.wf(),
                self.metrics@.recv_total == start_metrics.recv_total + received_total(
                    all.take(it.index() as int),
                ),
                self.metrics@.send_total == start_metrics.send_total,
                start_metrics.recv_total + received_total(all) <= usize::MAX,
                traffic_steps(steps, all.take(it.index() as int)),
                steps[0] == start_metrics,
                steps.last() == self.metrics@,
        {
            let ghost i = it.index() as int;
            assert(all.take(i + 1).drop_last() =~= all.take(i));
            assert(all.take(i + 1).last() == e);
            proof {
                lemma_received_total_prefix(all, i + 1);
            }
            match e {
                InternalEvent::ClientConnected { client_id, sink } => {
                    self.clients.insert(client_id.0, Client { sink });
                    out.push(Event::ClientConnected { client_id });
                },
                InternalEvent::ClientDisconnected { client_id } => {
                    self.clients.remove(&client_id.0);
                    out.push(Event::ClientDisconnected { client_id });
                },
                InternalEvent::Message { client_id, msg, len } => {
                    self.metrics.add_recv(len);
                    out.push(Event::Message { client_id, msg });
                },
            }
            assert(out@ =~= public_events(all.take(i + 1)));
            proof {
                let prev = steps;
                steps = steps.push(self.metrics@);
                assert forall|j: int| 0 <= j < i + 1 implies match #[trigger] all.take(i + 1)[j] {
                    InternalEvent::Message { len, .. } => steps[j + 1].same_or_rolled(
                        steps[j].received(len),
                    ),
                    _ => steps[j + 1] == steps[j],
                } by {
                    if j < i {
                        assert(all.take(i + 1)[j] == all.take(i)[j]);
                        assert(steps[j] == prev[j] && steps[j + 1] == prev[j + 1]);
                    }
                }
            }
        }
        assert(all.take(all.len() as int) =~= all);
        out
    }

    /// Frames `bytes` for the client with id `client_id`: when that client is
    /// connected and counting the bytes does not overflow the total of sent
    /// bytes, they are counted as sent and handed back, unchanged, to be
    /// written to the client's channel ([`Server::sink`]). Otherwise nothing
    /// changes and nothing is handed back.
    pub fn prepare_bytes(&mut self, client_id: ClientId, bytes: Vec<u8>) -> (frame: Option<Vec<u8>>)
        ensures
            final(self).registry() == old(self).registry(),
            final(self).traffic().wf(),
            !old(self).registry().contains_key(client_id@) ==> frame is None && final(self).traffic()
                == old(self).traffic(),
            old(self).registry().contains_key(client_id@) ==> bytes_prepared(
                old(self).traffic(),
                final(self).traffic(),
                bytes@,
                frame,
            ),
    {
        proof {
            use_type_invariant(&self.metrics);
        }
        if !self.clients.contains_key(&client_id.0) {
            return None;
        }
        let len = bytes.len();
        if len > usize::MAX - self.metrics.sent_so_far() {
            return None;
        }
        self.metrics.add_send(len);
        Some(bytes)
    }

    /// The channel to the client with id `client_id`, if it is connected.
    pub fn sink(&self, client_id: ClientId) -> (r: Option<&UnboundedSender<Message>>)
        ensures
            match r {
                Some(sink) => self.registry().contains_key(client_id@) && *sink == self.registry()[client_id@].sink,
                None => !self.registry().contains_key(client_id@),
            },
    {
        match self.clients.get(&client_id.0) {
            Some(client) => Some(&client.sink),
            None => None,
        }
    }

    /// The server's metrics.
    pub fn metrics(&self) -> (r: &Metrics)
        ensures
            r@ == self.traffic(),
    {
        &self.metrics
    }
}

impl<T> Server<T> {
    /// Drops every client and starts the metrics afresh, as stopping the
    /// server does.
    pub fn clear(&mut self)
        ensures
            final(self).registry() == Map::<u64, Client>::empty(),
            final(self).traffic() == MetricsView::zero(),
    {
        self.clients.clear();
        self.metrics = Default::default();
    }

    /// What a connection's reader does with a decoded binary message of `len`
    /// bytes: a message is reported to the server, and a message that could
    /// not be decoded ends the connection.
    pub fn after_decode(client_id: ClientId, len: usize, decoded: Result<T, ()>) -> (step: ReaderStep<T>)
        ensures
            step == decoded_step(client_id, len, decoded),
    {
        match decoded {
            Ok(msg) => ReaderStep::Report(InternalEvent::Message { client_id, msg, len }),
            Err(_) => ReaderStep::Stop,
        }
    }
}

impl<T: SerializableMessage> Server<T> {
    /// What a connection's reader does with what its websocket yielded: a
    /// binary message is decoded and reported, any other message is skipped,
    /// and an error or the end of the stream ends the connection.
    pub fn read_incoming(client_id: ClientId, incoming: Incoming) -> (step: ReaderStep<T>)
        ensures
            match incoming {
                Incoming::Binary(bytes) => exists|decoded: Result<T, ()>|
                    #[trigger] decodes_bytes(bytes@, decoded) && step == decoded_step(
                        client_id,
                        bytes@.len() as usize,
                        decoded,
                    ),
                Incoming::Other => step is Skip,
                Incoming::Failed => step is Stop,
                Incoming::Ended => step is Stop,
            },
    {
        match incoming {
            Incoming::Binary(bytes) => {
                let len = bytes.len();
                let slice = bytes.as_slice();
                let decoded = T::from_bytes(slice);
                let ghost d = decoded;
                assert(slice@ == bytes@ && call_ensures(T::from_bytes, (slice,), d));
                assert(decodes_bytes(bytes@, d));
                let step = Self::after_decode(client_id, len, decoded);
                assert(step == decoded_step(client_id, bytes@.len() as usize, d));
                step
            },
            Incoming::Other => ReaderStep::Skip,
            Incoming::Failed => ReaderStep::Stop,
            Incoming::Ended => ReaderStep::Stop,
        }
    }

    /// Frames a message for a client: when the client is connected, the
    /// message is encoded in binary and the bytes go through
    /// [`Server::prepare_bytes`]. Returns the bytes to write to the client's
    /// channel ([`Server::sink`]), or `None`, changing nothing, when the
    /// client is not connected, the message does not encode, or counting the
    /// bytes would overflow the total of sent bytes.
    pub fn prepare_send(&mut self, client_id: ClientId, msg: T) -> (frame: Option<Vec<u8>>)
        ensures
            final(self).registry() == old(self).registry(),
            final(self).traffic().wf(),
            !old(self).registry().contains_key(client_id@) ==> frame is None && final(self).traffic()
                == old(self).traffic(),
            old(self).registry().contains_key(client_id@) ==> (exists|e: Result<Vec<u8>, ()>|
                #[trigger] encodes_bytes(msg, e) && match e {
                    Ok(b) => bytes_prepared(old(self).traffic(), final(self).traffic(), b@, frame),
                    Err(_) => frame is None && final(self).traffic() == old(self).traffic(),
                }),
    {
        proof {
            use_type_invariant(&self.metrics);
        }
        if !self.clients.contains_key(&client_id.0) {
            return None;
        }
        let e = msg.to_bytes();
        let ghost eg = e;
        assert(encodes_bytes(msg, eg));
        match e {
            Ok(bytes) => self.prepare_bytes(client_id, bytes),
            Err(_) => None,
        }
    }
}

/// The bytes received by the first `n` of `events` are at most those of all of them.
proof fn lemma_received_total_prefix<T>(events: Seq<InternalEvent<T>>, n: int)
    requires
        0 <= n <= events.len(),
    ensures
        received_total(events.take(n)) <= received_total(events),
    decreases events.len() - n,
{
    if n < events.len() {
        lemma_received_total_prefix(events, n + 1);
        assert(events.take(n + 1).drop_last() =~= events.take(n));
    } else {
        assert(events.take(n) =~= events);
    }
}

} // verus!
