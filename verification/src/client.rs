//! The client's connection logic: it keeps itself connected to one address,
//! turns what its websocket brings in into events, and frames what it sends.

use vstd::prelude::*;
use crate::common::Format;
use crate::common::SerializableMessage;
use crate::common::decodes_bytes;
use crate::common::decodes_json;
use crate::common::undecodable_bytes;
use crate::common::undecodable_json;
use crate::common::encodes_bytes;
use crate::common::encodes_json;

verus! {

#[derive(Debug)]
pub enum Event<T> {
    Connecting,
    Connected,
    Disconnected,
    Message(T),
}

#[derive(Clone, Copy, PartialEq, Eq, Structural, Debug)]
pub enum State {
    Connected,
    Disconnected,
}

/// What the websocket brought in.
pub enum WsEvent {
    /// The connection opened.
    Opened,
    /// A binary message.
    Binary(Vec<u8>),
    /// A text message.
    Text(String),
    /// Any other message.
    Other,
    /// An error, with its description.
    Error(String),
    /// The connection closed.
    Closed,
}

/// What to write to the websocket.
pub enum WsMessage {
    Binary(Vec<u8>),
    Text(String),
}

/// What an incoming websocket event means once decoded.
pub enum Decoded<T> {
    /// The connection opened.
    Opened,
    /// A message of the client's format that decoded to this.
    Message(T),
    /// A message of the client's format that did not decode.
    Undecodable,
    /// Something the client passes over.
    Ignored,
    /// The connection failed or closed.
    Failed,
}

/// Whether `d` is what `ev` can mean to a client that speaks `format`: a
/// binary message is decoded by a client that speaks `Binary`, a text
/// message by one that speaks `Json`, and it is a message exactly when the
/// decoder gives one; other messages are passed over.
pub open spec fn decodes_as<T: SerializableMessage>(format: Format, ev: WsEvent, d: Decoded<T>) -> bool {
    match ev {
        WsEvent::Opened => d is Opened,
        WsEvent::Binary(b) => if format == Format::Binary {
            match d {
                Decoded::Message(m) => decodes_bytes(b@, Ok(m)),
                Decoded::Undecodable => undecodable_bytes::<T>(b@),
                _ => false,
            }
        } else {
            d is Ignored
        },
        WsEvent::Text(t) => if format == Format::Json {
            match d {
                Decoded::Message(m) => decodes_json(t@, Ok(m)),
                Decoded::Undecodable => undecodable_json::<T>(t@),
                _ => false,
            }
        } else {
            d is Ignored
        },
        WsEvent::Other => d is Ignored,
        WsEvent::Error(_) => d is Failed,
        WsEvent::Closed => d is Failed,
    }
}

/// The frame for a message that encoded in binary as `e`.
pub open spec fn binary_frame(e: Result<Vec<u8>, ()>) -> Result<WsMessage, ()> {
    match e {
        Ok(b) => Ok(WsMessage::Binary(b)),
        Err(_) => Err(()),
    }
}

/// The frame for a message that encoded as JSON text `e`.
pub open spec fn text_frame(e: Result<String, ()>) -> Result<WsMessage, ()> {
    match e {
        Ok(t) => Ok(WsMessage::Text(t)),
        Err(_) => Err(()),
    }
}

/// The state, whether the socket has to be dropped, and the events, after
/// one more decoded event.
pub open spec fn receive_step<T>(acc: (State, bool, Seq<Event<T>>), d: Decoded<T>) -> (
    State,
    bool,
    Seq<Event<T>>,
) {
    match d {
        Decoded::Opened => (State::Connected, acc.1, acc.2.push(Event::Connected)),
        Decoded::Message(m) => (acc.0, acc.1, acc.2.push(Event::Message(m))),
        Decoded::Undecodable => (acc.0, true, acc.2),
        Decoded::Ignored => acc,
        Decoded::Failed => (acc.0, true, acc.2),
    }
}

/// [`receive_step`] over `ds`, in order.
pub open spec fn receive_all<T>(acc: (State, bool, Seq<Event<T>>), ds: Seq<Decoded<T>>) -> (
    State,
    bool,
    Seq<Event<T>>,
)
    decreases ds.len(),
{
    if ds.len() == 0 {
        acc
    } else {
        receive_step(receive_all(acc, ds.drop_last()), ds.last())
    }
}

/// The state, whether the socket is kept, and the events, once `ds` are taken
/// in by a client in `state` that has a socket and has already emitted
/// `events`: a failure drops the socket, and a client that was connected
/// then reports that it is disconnected.
pub open spec fn receive_outcome<T>(state: State, events: Seq<Event<T>>, ds: Seq<Decoded<T>>) -> (
    State,
    bool,
    Seq<Event<T>>,
) {
    let r = receive_all((state, false, events), ds);
    if r.1 {
        (
            State::Disconnected,
            false,
            if r.0 == State::Connected {
                r.2.push(Event::Disconnected)
            } else {
                r.2
            },
        )
    } else {
        (r.0, true, r.2)
    }
}

/// The connection state that `events` leave a client in that was in
/// `before`: that of the last `Connected` or `Disconnected` among them.
pub open spec fn link_state_after<T>(events: Seq<Event<T>>, before: State) -> State
    decreases events.len(),
{
    if events.len() == 0 {
        before
    } else {
        match events.last() {
            Event::Connected => State::Connected,
            Event::Disconnected => State::Disconnected,
            _ => link_state_after(events.drop_last(), before),
        }
    }
}

/// Taking in events keeps the state in step with the events reported: the
/// state after [`receive_all`] is the one the reported events lead to.
proof fn lemma_receive_all_state<T>(acc: (State, bool, Seq<Event<T>>), ds: Seq<Decoded<T>>, before: State)
    requires
        acc.0 == link_state_after(acc.2, before),
    ensures
        receive_all(acc, ds).0 == link_state_after(receive_all(acc, ds).2, before),
        receive_all(acc, ds).2.len() >= acc.2.len(),
    decreases ds.len(),
{
    if ds.len() > 0 {
        lemma_receive_all_state(acc, ds.drop_last(), before);
        let r = receive_all(acc, ds.drop_last());
        match ds.last() {
            Decoded::Opened => {
                assert(r.2.push(Event::Connected).drop_last() =~= r.2);
            },
            Decoded::Message(m) => {
                assert(r.2.push(Event::Message(m)).drop_last() =~= r.2);
            },
            _ => {},
        }
    }
}

/// The state a client is left in always agrees with the events it reported:
/// it is connected exactly when the last of its `Connected` and
/// `Disconnected` events is `Connected`, and unchanged when it reported
/// neither.
pub proof fn lemma_state_follows_events<T>(state: State, events: Seq<Event<T>>, ds: Seq<Decoded<T>>)
    requires
        link_state_after(events, state) == state,
    ensures
        receive_outcome(state, events, ds).0 == link_state_after(
            receive_outcome(state, events, ds).2,
            state,
        ),
{
    lemma_receive_all_state((state, false, events), ds, state);
    let r = receive_all((state, false, events), ds);
    if r.1 && r.0 == State::Connected {
        assert(r.2.push(Event::Disconnected).drop_last() =~= r.2);
    }
}

/// Some event in `events` is `Connected`.
pub open spec fn has_connected<T>(events: Seq<Event<T>>) -> bool {
    exists|i: int| 0 <= i < events.len() && #[trigger] events[i] is Connected
}

/// Some event in `events` is `Disconnected`.
pub open spec fn has_disconnected<T>(events: Seq<Event<T>>) -> bool {
    exists|i: int| 0 <= i < events.len() && #[trigger] events[i] is Disconnected
}

/// Taking in events reports no `Disconnected`.
proof fn lemma_receive_all_no_disconnect<T>(acc: (State, bool, Seq<Event<T>>), ds: Seq<Decoded<T>>)
    requires
        !has_disconnected(acc.2),
    ensures
        !has_disconnected(receive_all(acc, ds).2),
        receive_all(acc, ds).2.len() >= acc.2.len(),
        forall|i: int| 0 <= i < acc.2.len() ==> receive_all(acc, ds).2[i] == acc.2[i],
    decreases ds.len(),
{
    if ds.len() > 0 {
        lemma_receive_all_no_disconnect(acc, ds.drop_last());
        let r = receive_all(acc, ds.drop_last());
        let n = receive_all(acc, ds).2;
        assert forall|i: int| 0 <= i < n.len() implies !(#[trigger] n[i] is Disconnected) by {
            if i < r.2.len() {
                assert(n[i] == r.2[i]);
            }
        }
    }
}

/// Over events with no `Disconnected`, a client ends up connected exactly
/// when it was, or some event connected it.
proof fn lemma_link_state_without_disconnect<T>(events: Seq<Event<T>>, before: State)
    requires
        !has_disconnected(events),
    ensures
        (link_state_after(events, before) == State::Connected) == (before == State::Connected
            || has_connected(events)),
    decreases events.len(),
{
    if events.len() > 0 {
        let init = events.drop_last();
        assert forall|i: int| 0 <= i < init.len() implies !(#[trigger] init[i] is Disconnected) by {
            assert(init[i] == events[i]);
        }
        lemma_link_state_without_disconnect(init, before);
        assert(!(events[events.len() - 1] is Disconnected));
        if events.last() is Connected {
            assert(events[events.len() - 1] is Connected);
        } else {
            if has_connected(events) {
                let i = choose|i: int| 0 <= i < events.len() && #[trigger] events[i] is Connected;
                assert(i < events.len() - 1);
                assert(init[i] == events[i]);
            }
            if has_connected(init) {
                let i = choose|i: int| 0 <= i < init.len() && #[trigger] init[i] is Connected;
                assert(events[i] == init[i]);
            }
        }
    }
}

/// A client reports `Disconnected` at most once, as its last event, and is
/// left connected exactly when it was or got connected and did not report
/// a disconnection.
pub proof fn lemma_disconnect_comes_last<T>(state: State, events: Seq<Event<T>>, ds: Seq<Decoded<T>>)
    requires
        link_state_after(events, state) == state,
        !has_disconnected(events),
    ensures
        ({
            let r = receive_outcome(state, events, ds);
            &&& forall|i: int| 0 <= i < r.2.len() - 1 ==> !(#[trigger] r.2[i] is Disconnected)
            &&& (r.0 == State::Connected) == ((state == State::Connected || has_connected(r.2))
                && !has_disconnected(r.2))
        }),
{
    lemma_receive_all_state((state, false, events), ds, state);
    lemma_receive_all_no_disconnect((state, false, events), ds);
    let a = receive_all((state, false, events), ds);
    lemma_link_state_without_disconnect(a.2, state);
    let r = receive_outcome(state, events, ds);
    if a.1 && a.0 == State::Connected {
        let n = a.2.push(Event::Disconnected);
        assert(n[n.len() - 1] is Disconnected);
        assert forall|i: int| 0 <= i < n.len() - 1 implies !(#[trigger] n[i] is Disconnected) by {
            assert(n[i] == a.2[i]);
        }
    }
}

/// Taking in `ds1` and then `ds2` is taking in `ds1 + ds2`.
proof fn lemma_receive_all_append<T>(acc: (State, bool, Seq<Event<T>>), ds1: Seq<Decoded<T>>, ds2: Seq<Decoded<T>>)
    ensures
        receive_all(acc, ds1 + ds2) == receive_all(receive_all(acc, ds1), ds2),
    decreases ds2.len(),
{
    if ds2.len() > 0 {
        lemma_receive_all_append(acc, ds1, ds2.drop_last());
        assert((ds1 + ds2).drop_last() =~= ds1 + ds2.drop_last());
        assert((ds1 + ds2).last() == ds2.last());
    }
}

/// Once the socket is to be dropped, it stays so; and a message that did not
/// decode or a failure among `ds` has it dropped.
proof fn lemma_receive_all_drops<T>(acc: (State, bool, Seq<Event<T>>), ds: Seq<Decoded<T>>, k: int)
    requires
        acc.1 || (0 <= k < ds.len() && (ds[k] is Undecodable || ds[k] is Failed)),
    ensures
        receive_all(acc, ds).1,
    decreases ds.len(),
{
    if ds.len() > 0 {
        assert(ds.last() == ds[ds.len() - 1]);
        if k == ds.len() - 1 && (ds[k] is Undecodable || ds[k] is Failed) {
        } else {
            assert(0 <= k < ds.len() - 1 ==> ds.drop_last()[k] == ds[k]);
            lemma_receive_all_drops(acc, ds.drop_last(), k);
        }
    }
}

/// A websocket message that is neither of the client's format nor an
/// opening, an error or a close (a ping, a pong, or a message of the other
/// format) is passed over: wherever it comes among what a poll brings in, the
/// client ends in the same state, with the same socket and the same events
/// as without it.
pub proof fn lemma_foreign_frame_passed_over<T: SerializableMessage>(
    format: Format,
    state: State,
    first: Seq<Event<T>>,
    before: Seq<Decoded<T>>,
    ev: WsEvent,
    d: Decoded<T>,
    after: Seq<Decoded<T>>,
)
    requires
        ev is Other || (ev is Binary && format != Format::Binary) || (ev is Text && format
            != Format::Json),
        decodes_as(format, ev, d),
    ensures
        receive_outcome(state, first, before.push(d) + after) == receive_outcome(
            state,
            first,
            before + after,
        ),
{
    let acc = (state, false, first);
    lemma_receive_all_append(acc, before.push(d), after);
    lemma_receive_all_append(acc, before, after);
    assert(before.push(d).drop_last() =~= before);
}

/// Whether `ev` is a message of the client's format that `T`'s decoder
/// rejects whatever it gives: bytes for a binary client, text for a JSON one.
pub open spec fn rejected_by<T: SerializableMessage>(format: Format, ev: WsEvent) -> bool {
    match ev {
        WsEvent::Binary(b) => format == Format::Binary && forall|r: Result<T, ()>|
            #[trigger] decodes_bytes(b@, r) ==> r is Err,
        WsEvent::Text(t) => format == Format::Json && forall|r: Result<T, ()>|
            #[trigger] decodes_json(t@, r) ==> r is Err,
        _ => false,
    }
}

/// A message of the client's format that it cannot decode, an error, or a
/// close, anywhere among what a poll brings in, drops the socket: the client
/// ends disconnected, without a socket, and reports `Disconnected` last if it
/// was connected when it took the last of them in.
pub proof fn lemma_failure_drops_socket<T: SerializableMessage>(
    format: Format,
    state: State,
    first: Seq<Event<T>>,
    incoming: Seq<WsEvent>,
    ds: Seq<Decoded<T>>,
    k: int,
)
    requires
        ds.len() == incoming.len(),
        forall|i: int| 0 <= i < ds.len() ==> decodes_as(format, incoming[i], #[trigger] ds[i]),
        0 <= k < ds.len(),
        rejected_by::<T>(format, incoming[k]) || incoming[k] is Error || incoming[k] is Closed,
    ensures
        receive_outcome(state, first, ds).0 == State::Disconnected,
        !receive_outcome(state, first, ds).1,
{
    assert(decodes_as(format, incoming[k], ds[k]));
    assert(ds[k] is Undecodable || ds[k] is Failed);
    lemma_receive_all_drops((state, false, first), ds, k);
}

/// A connected client that is handed one message of its format that it
/// cannot decode reports `Disconnected`, and nothing else, and drops its
/// socket, so that it reconnects on its next poll.
pub proof fn lemma_rejected_message_disconnects<T: SerializableMessage>(
    format: Format,
    first: Seq<Event<T>>,
    ev: WsEvent,
    d: Decoded<T>,
)
    requires
        rejected_by::<T>(format, ev),
        decodes_as(format, ev, d),
    ensures
        receive_outcome(State::Connected, first, seq![d]) == (
            State::Disconnected,
            false,
            first.push(Event::Disconnected),
        ),
{
    assert(d is Undecodable);
    let ds = seq![d];
    assert(ds.drop_last() =~= Seq::<Decoded<T>>::empty());
    assert(ds.last() == d);
    assert(receive_all((State::Connected, false, first), Seq::<Decoded<T>>::empty()) == (
        State::Connected,
        false,
        first,
    ));
    assert(receive_all((State::Connected, false, first), ds) == receive_step(
        (State::Connected, false, first),
        d,
    ));
}

/// `Client` for `netcode`
/// The client will autoconnect to the server and try to keep connected
///
/// The socket itself is held by the caller, who tells the client whether an
/// attempt to open one succeeded and hands it what the socket brought in.
pub struct Client {
    /// Messaging format used
    format: Format,
    /// Address to connect to
    url: String,
    /// Whether a socket to `url` is held
    socket: bool,
    /// The state of the connection
    state: State,
}

impl Default for Client {
    fn default() -> (r: Self)
        ensures
            r.url_view() == Seq::<char>::empty(),
            !r.has_socket_view(),
            r.state_view() == State::Disconnected,
            r.format_view() == Format::Binary,
    {
        Client { url: String::new(), socket: false, state: State::Disconnected, format: Format::Binary }
    }
}

impl Client {
    #[verifier::type_invariant]
    closed spec fn inv(self) -> bool {
        self.url@.len() == 0 ==> !self.socket
    }

    /// The address the client keeps connected to; empty when it is not to connect.
    pub closed spec fn url_view(&self) -> Seq<char> {
        self.url@
    }

    /// Whether the caller holds a socket for the client.
    pub closed spec fn has_socket_view(&self) -> bool {
        self.socket
    }

    pub closed spec fn state_view(&self) -> State {
        self.state
    }

    pub closed spec fn format_view(&self) -> Format {
        self.format
    }
}

impl Client {
    pub fn with_format(self, format: Format) -> (r: Self)
        ensures
            r.format_view() == format,
            r.url_view() == self.url_view(),
            r.has_socket_view() == self.has_socket_view(),
            r.state_view() == self.state_view(),
    {
        proof {
            use_type_invariant(&self);
        }
        let mut this = self;
        this.format = format;
        this
    }

    /// Connect to the websocket server
    ///
    /// Will try to connect forever and will re-connect in case of disconnections.
    /// Any socket held so far is to be dropped.
    pub fn connect(&mut self, url: String)
        ensures
            final(self).url_view() == url@,
            !final(self).has_socket_view(),
            final(self).state_view() == old(self).state_view(),
            final(self).format_view() == old(self).format_view(),
    {
        self.disconnect();
        self.url = url;
    }

    /// Stops connecting: the socket is to be dropped, and the next poll
    /// reports the disconnection if the client was connected.
    pub fn disconnect(&mut self)
        ensures
            final(self).url_view() == Seq::<char>::empty(),
            !final(self).has_socket_view(),
            final(self).state_view() == old(self).state_view(),
            final(self).format_view() == old(self).format_view(),
    {
        self.socket = false;
        self.url = String::new();
    }

    /// State of the connection
    ///
    /// Ensure `events()` has been called before obtaining the state of the connection
    pub fn state(&self) -> (r: State)
        ensures
            r == self.state_view(),
    {
        self.state
    }

    /// Whether the caller holds a socket for the client.
    pub fn has_socket(&self) -> (r: bool)
        ensures
            r == self.has_socket_view(),
    {
        self.socket
    }

    /// The address to open a socket to before the next poll, if the client is
    /// to connect and holds no socket.
    pub fn connect_target(&self) -> (r: Option<String>)
        ensures
            match r {
                Some(url) => self.url_view().len() > 0 && !self.has_socket_view() && url@
                    == self.url_view(),
                None => self.url_view().len() == 0 || self.has_socket_view(),
            },
    {
        proof {
            use_type_invariant(self);
        }
        if self.url.as_str().is_empty() || self.socket {
            None
        } else {
            Some(self.url.clone())
        }
    }

    /// What sending a message that encoded as `encoded` comes to: the frame
    /// is written, and the message counts as sent, only when the client is
    /// connected, holds a socket, and the message encoded.
    pub open spec fn sending(&self, encoded: Result<WsMessage, ()>) -> (Option<WsMessage>, bool) {
        if self.state_view() != State::Connected || !self.has_socket_view() {
            (None, false)
        } else {
            match encoded {
                Ok(frame) => (Some(frame), true),
                Err(_) => (None, false),
            }
        }
    }

    /// Sends a message that was already encoded as `encoded`.
    ///
    /// Returns the frame to write to the socket and whether the message was
    /// sent (but not necessarly received by the server).
    pub fn send_encoded(&self, encoded: Result<WsMessage, ()>) -> (r: (Option<WsMessage>, bool))
        ensures
            r == self.sending(encoded),
    {
        if self.state != State::Connected || !self.socket {
            return (None, false);
        }
        match encoded {
            Ok(frame) => (Some(frame), true),
            Err(_) => (None, false),
        }
    }

    /// Sends a message to the server: it is encoded in the client's format,
    /// as bytes for `Binary` and as JSON text for `Json`, once the client is
    /// known to be connected.
    ///
    /// Returns the frame to write to the socket and whether the message was
    /// sent (but not necessarly received by the server).
    pub fn send<T: SerializableMessage>(&self, msg: T) -> (r: (Option<WsMessage>, bool))
        ensures
            (self.state_view() != State::Connected || !self.has_socket_view()) ==> (r.0 is None
                && !r.1),
            (self.state_view() == State::Connected && self.has_socket_view() && self.format_view()
                == Format::Binary) ==> (exists|e: Result<Vec<u8>, ()>|
                #[trigger] encodes_bytes(msg, e) && r == self.sending(binary_frame(e))),
            (self.state_view() == State::Connected && self.has_socket_view() && self.format_view()
                == Format::Json) ==> (exists|e: Result<String, ()>|
                #[trigger] encodes_json(msg, e) && r == self.sending(text_frame(e))),
    {
        if self.state != State::Connected || !self.socket {
            return (None, false);
        }
        match self.format {
            Format::Binary => {
                let e = msg.to_bytes();
                let ghost eg = e;
                let encoded = match e {
                    Ok(bytes) => Ok(WsMessage::Binary(bytes)),
                    Err(_) => Err(()),
                };
                assert(encoded == binary_frame(eg));
                assert(encodes_bytes(msg, eg));
                let r = self.send_encoded(encoded);
                assert(r == self.sending(binary_frame(eg)));
                r
            },
            Format::Json => {
                let e = msg.to_json();
                let ghost eg = e;
                let encoded = match e {
                    Ok(json) => Ok(WsMessage::Text(json)),
                    Err(_) => Err(()),
                };
                assert(encoded == text_frame(eg));
                assert(encodes_json(msg, eg));
                let r = self.send_encoded(encoded);
                assert(r == self.sending(text_frame(eg)));
                r
            },
        }
    }

    /// Takes in what the socket brought in, already decoded, after `events`
    /// were reported in this poll: an opened connection makes the client
    /// connected, a decoded message is reported, and a failure, or a message
    /// that does not decode, drops the socket and leaves the client
    /// disconnected.
    pub fn receive<T>(&mut self, events: Vec<Event<T>>, decoded: Vec<Decoded<T>>) -> (out: Vec<
        Event<T>,
    >)
        requires
            old(self).has_socket_view(),
        ensures
            (final(self).state_view(), final(self).has_socket_view(), out@) == receive_outcome(
                old(self).state_view(),
                events@,
                decoded@,
            ),
            final(self).url_view() == old(self).url_view(),
            final(self).format_view() == old(self).format_view(),
    {
        proof {
            use_type_invariant(&*self);
        }
        let ghost ds = decoded@;
        let ghost start = (self.state, false, events@);
        let ghost url0 = self.url@;
        let ghost format0 = self.format;
        let mut out = events;
        let mut recreate = false;
        for d in it: decoded
            invariant
                it.seq() == ds,
                (self.state, recreate, out@) == receive_all(start, ds.take(it.index() as int)),
                self.socket,
                self.url@ == url0,
                self.format == format0,
                self.url@.len() > 0,
        {
            let ghost i = it.index() as int;
            assert(ds.take(i + 1).drop_last() =~= ds.take(i));
            assert(ds.take(i + 1).last() == d);
            match d {
                Decoded::Opened => {
                    out.push(Event::Connected);
                    self.state = State::Connected;
                },
                Decoded::Message(m) => {
                    out.push(Event::Message(m));
                },
                Decoded::Undecodable => {
                    recreate = true;
                },
                Decoded::Ignored => {},
                Decoded::Failed => {
                    recreate = true;
                },
            }
        }
        assert(ds.take(ds.len() as int) =~= ds);
        if recreate {
            self.socket = false;
            if self.state == State::Connected {
                out.push(Event::Disconnected);
            }
            self.state = State::Disconnected;
        }
        out
    }

    /// Collect and process events
    ///
    /// Before the poll the caller opens a socket to [`Client::connect_target`],
    /// if there is one, and says whether that succeeded (`opened`); it hands
    /// the poll what the socket brought in since. A client that is not to
    /// connect reports that it is disconnected if it was connected; one that
    /// had no socket reports that it is connecting.
    ///
    /// Returns the processed events which can be further processed by the calling application
    pub fn poll<T: SerializableMessage>(&mut self, opened: bool, incoming: Vec<WsEvent>) -> (events:
        Vec<Event<T>>)
        ensures
            final(self).url_view() == old(self).url_view(),
            final(self).format_view() == old(self).format_view(),
            final(self).state_view() == link_state_after(events@, old(self).state_view()),
            forall|i: int| 0 <= i < events@.len() - 1 ==> !(#[trigger] events@[i] is Disconnected),
            (final(self).state_view() == State::Connected) == ((old(self).state_view()
                == State::Connected || has_connected(events@)) && !has_disconnected(events@)),
            old(self).url_view().len() == 0 ==> {
                &&& final(self).state_view() == State::Disconnected
                &&& !final(self).has_socket_view()
                &&& events@ == (if old(self).state_view() == State::Connected {
                    seq![Event::Disconnected]
                } else {
                    Seq::<Event<T>>::empty()
                })
            },
            old(self).url_view().len() > 0 ==> {
                let first = if old(self).has_socket_view() {
                    Seq::<Event<T>>::empty()
                } else {
                    seq![Event::Connecting]
                };
                if old(self).has_socket_view() || opened {
                    exists|ds: Seq<Decoded<T>>|
                        {
                            &&& ds.len() == incoming@.len()
                            &&& forall|i: int|
                                0 <= i < ds.len() ==> decodes_as(
                                    old(self).format_view(),
                                    incoming@[i],
                                    #[trigger] ds[i],
                                )
                            &&& (final(self).state_view(), final(self).has_socket_view(), events@)
                                == receive_outcome(old(self).state_view(), first, ds)
                        }
                } else {
                    &&& final(self).state_view() == old(self).state_view()
                    &&& !final(self).has_socket_view()
                    &&& events@ == first
                }
            },
    {
        proof {
            use_type_invariant(&*self);
        }
        let mut events: Vec<Event<T>> = Vec::new();
        proof {
            reveal_with_fuel(link_state_after, 2);
        }
        if self.url.as_str().is_empty() {
            if self.state == State::Connected {
                self.state = State::Disconnected;
                events.push(Event::Disconnected);
            }
            assert(events@ =~= (if old(self).state_view() == State::Connected {
                seq![Event::<T>::Disconnected]
            } else {
                Seq::<Event<T>>::empty()
            }));
            return events;
        }
        if !self.socket {
            self.socket = opened;
            events.push(Event::Connecting);
            assert(events@.drop_last() =~= Seq::<Event<T>>::empty());
        }
        if !self.socket {
            return events;
        }
        let mut decoded: Vec<Decoded<T>> = Vec::new();
        let ghost evs = incoming@;
        for ev in it: incoming
            invariant
                it.seq() == evs,
                decoded@.len() == it.index(),
                forall|i: int|
                    0 <= i < decoded@.len() ==> decodes_as(
                        self.format,
                        evs[i],
                        #[trigger] decoded@[i],
                    ),
        {
            let d = self.decode(ev);
            decoded.push(d);
        }
        proof {
            lemma_state_follows_events(self.state, events@, decoded@);
            lemma_disconnect_comes_last(self.state, events@, decoded@);
        }
        self.receive(events, decoded)
    }

    /// Decodes one incoming websocket event the way a client of this format does.
    pub fn decode<T: SerializableMessage>(&self, ev: WsEvent) -> (d: Decoded<T>)
        ensures
            decodes_as(self.format_view(), ev, d),
    {
        let ghost ev0 = ev;
        match ev {
            WsEvent::Opened => Decoded::Opened,
            WsEvent::Binary(bytes) => {
                if self.format == Format::Binary {
                    let slice = bytes.as_slice();
                    let r = T::from_bytes(slice);
                    assert(slice@ == bytes@ && call_ensures(T::from_bytes, (slice,), r));
                    assert(decodes_bytes::<T>(bytes@, r));
                    let ghost rg = r;
                    let d = match r {
                        Ok(m) => Decoded::Message(m),
                        Err(_) => Decoded::Undecodable,
                    };
                    assert(rg is Ok ==> d == Decoded::<T>::Message(rg->Ok_0));
                    d
                } else {
                    Decoded::Ignored
                }
            },
            WsEvent::Text(text) => {
                if self.format == Format::Json {
                    let json = text.as_str();
                    let r = T::from_json(json);
                    assert(json@ == text@ && call_ensures(T::from_json, (json,), r));
                    assert(decodes_json::<T>(text@, r));
                    let ghost rg = r;
                    let d = match r {
                        Ok(m) => Decoded::Message(m),
                        Err(_) => Decoded::Undecodable,
                    };
                    assert(rg is Ok ==> d == Decoded::<T>::Message(rg->Ok_0));
                    d
                } else {
                    Decoded::Ignored
                }
            },
            WsEvent::Other => Decoded::Ignored,
            WsEvent::Error(_) => Decoded::Failed,
            WsEvent::Closed => Decoded::Failed,
        }
    }
}

} // verus!
