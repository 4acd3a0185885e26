//! What the server and the client share: the wire format and the traffic metrics.

use vstd::prelude::*;
use std::time::Duration;
use std::time::Instant;

verus! {

/// Messaging format used
#[derive(Clone, Copy, PartialEq, Eq, Structural, Debug)]
pub enum Format {
    Binary,
    Json,
}

impl Default for Format {
    fn default() -> (r: Self)
        ensures
            r == Format::Binary,
    {
        Format::Binary
    }
}

/// Trait messages must implement to ensure they can be serialized as `Binary` or as `Json`
pub trait SerializableMessage: Clone + Send + Sync + Sized + 'static {
    fn to_bytes(&self) -> Result<Vec<u8>, ()>;

    fn from_bytes(bytes: &[u8]) -> Result<Self, ()>;

    fn to_json(&self) -> Result<String, ()>;

    fn from_json(json: &str) -> Result<Self, ()>;
}

/// `r` is a result that `msg.to_bytes()` can give.
pub open spec fn encodes_bytes<T: SerializableMessage>(msg: T, r: Result<Vec<u8>, ()>) -> bool {
    call_ensures(T::to_bytes, (&msg,), r)
}

/// `r` is a result that `msg.to_json()` can give.
pub open spec fn encodes_json<T: SerializableMessage>(msg: T, r: Result<String, ()>) -> bool {
    call_ensures(T::to_json, (&msg,), r)
}

/// `r` is a result that `T::from_bytes` can give on the bytes `b`.
pub open spec fn decodes_bytes<T: SerializableMessage>(b: Seq<u8>, r: Result<T, ()>) -> bool {
    exists|s: &[u8]| s@ == b && #[trigger] call_ensures(T::from_bytes, (s,), r)
}

/// `T::from_bytes` can fail on the bytes `b`.
pub open spec fn undecodable_bytes<T: SerializableMessage>(b: Seq<u8>) -> bool {
    exists|r: Result<T, ()>| r is Err && #[trigger] decodes_bytes(b, r)
}

/// `T::from_json` can fail on the text `j`.
pub open spec fn undecodable_json<T: SerializableMessage>(j: Seq<char>) -> bool {
    exists|r: Result<T, ()>| r is Err && #[trigger] decodes_json(j, r)
}

/// `r` is a result that `T::from_json` can give on the text `j`.
pub open spec fn decodes_json<T: SerializableMessage>(j: Seq<char>, r: Result<T, ()>) -> bool {
    exists|s: &str| s@ == j && #[trigger] call_ensures(T::from_json, (s,), r)
}

/// The moment the current measuring window of a [`Metrics`] started.
#[verifier::external_type_specification]
#[verifier::external_body]
pub struct ExInstant(Instant);

/// `Instant::now`: the current moment. It depends on the clock, so nothing is
/// claimed of it.
#[verifier::external_body]
fn now() -> Instant {
    Instant::now()
}

/// `Instant::elapsed`: the time since `start`. It depends on the clock, so
/// nothing is claimed of it.
#[verifier::external_body]
fn elapsed_since(start: &Instant) -> Duration {
    start.elapsed()
}

/// `Duration::as_secs`: the whole seconds of `d`. A `Duration` is opaque here,
/// so the result is not tied to it; it is only ever used on a clock reading.
#[verifier::external_body]
fn whole_seconds(d: &Duration) -> u64 {
    d.as_secs()
}

/// The counters of a [`Metrics`].
pub struct MetricsView {
    pub recv_total: usize,
    pub recv_sec: usize,
    pub recv_sec_buffer: usize,
    pub send_total: usize,
    pub send_sec: usize,
    pub send_sec_buffer: usize,
}

impl MetricsView {
    /// All counters at zero.
    pub open spec fn zero() -> MetricsView {
        MetricsView {
            recv_total: 0,
            recv_sec: 0,
            recv_sec_buffer: 0,
            send_total: 0,
            send_sec: 0,
            send_sec_buffer: 0,
        }
    }

    /// What the last full window and the current one counted never exceeds the total.
    pub open spec fn wf(self) -> bool {
        &&& self.recv_sec + self.recv_sec_buffer <= self.recv_total
        &&& self.send_sec + self.send_sec_buffer <= self.send_total
    }

    /// A new window starts: what the current window counted becomes the
    /// per-second figure, and the current window starts empty.
    pub open spec fn rolled(self) -> MetricsView {
        MetricsView {
            recv_sec: self.recv_sec_buffer,
            recv_sec_buffer: 0,
            send_sec: self.send_sec_buffer,
            send_sec_buffer: 0,
            ..self
        }
    }

    /// `value` more bytes were sent.
    pub open spec fn sent(self, value: usize) -> MetricsView {
        MetricsView {
            send_total: (self.send_total + value) as usize,
            send_sec_buffer: (self.send_sec_buffer + value) as usize,
            ..self
        }
    }

    /// `value` more bytes were received.
    pub open spec fn received(self, value: usize) -> MetricsView {
        MetricsView {
            recv_total: (self.recv_total + value) as usize,
            recv_sec_buffer: (self.recv_sec_buffer + value) as usize,
            ..self
        }
    }

    /// The counters are either as they were, or a new window has started.
    pub open spec fn same_or_rolled(self, before: MetricsView) -> bool {
        self == before || self == before.rolled()
    }
}

/// Starting a new window never changes the totals and keeps the counters
/// well formed.
pub proof fn lemma_window_keeps_totals(m: MetricsView)
    requires
        m.wf(),
    ensures
        m.rolled().wf(),
        m.rolled().recv_total == m.recv_total,
        m.rolled().send_total == m.send_total,
{
}

/// The per-second figures never exceed the totals.
pub proof fn lemma_per_sec_within_total(m: MetricsView)
    requires
        m.wf(),
    ensures
        m.recv_sec <= m.recv_total,
        m.send_sec <= m.send_total,
{
}

/// Recording keeps the counters well formed, and what a window counted is the
/// per-second figure once the window ends.
pub proof fn lemma_window_reports_recorded(m: MetricsView, v: usize)
    requires
        m.wf(),
        m.send_total + v <= usize::MAX,
        m.recv_total + v <= usize::MAX,
    ensures
        m.sent(v).wf(),
        m.received(v).wf(),
        m.sent(v).rolled().send_sec == m.send_sec_buffer + v,
        m.received(v).rolled().recv_sec == m.recv_sec_buffer + v,
{
}

/// A window with no traffic reads zero per second once it ends.
pub proof fn lemma_quiet_window_reads_zero(m: MetricsView)
    ensures
        m.rolled().rolled().send_sec == 0,
        m.rolled().rolled().recv_sec == 0,
{
}

/// One call on a [`Metrics`] that records or reads.
pub enum Recording {
    /// `add_send` of this many bytes.
    Sent(usize),
    /// `add_recv` of this many bytes.
    Received(usize),
    /// A reading: `recv_total`, `recv_per_sec`, `send_total` or `send_per_sec`.
    Read,
}

/// Whether a [`Metrics`] with counters `before` can hold `after` once `r` returns.
pub open spec fn recorded(before: MetricsView, after: MetricsView, r: Recording) -> bool {
    match r {
        Recording::Sent(v) => after.same_or_rolled(before.sent(v)),
        Recording::Received(v) => after.same_or_rolled(before.received(v)),
        Recording::Read => after.same_or_rolled(before),
    }
}

/// The bytes that `rs` record as sent.
pub open spec fn sent_sum(rs: Seq<Recording>) -> nat
    decreases rs.len(),
{
    if rs.len() == 0 {
        0
    } else {
        sent_sum(rs.drop_last()) + match rs.last() {
            Recording::Sent(v) => v as nat,
            _ => 0,
        }
    }
}

/// The bytes that `rs` record as received.
pub open spec fn received_sum(rs: Seq<Recording>) -> nat
    decreases rs.len(),
{
    if rs.len() == 0 {
        0
    } else {
        received_sum(rs.drop_last()) + match rs.last() {
            Recording::Received(v) => v as nat,
            _ => 0,
        }
    }
}

/// Whatever windows start in between, the totals after a run of recordings
/// and readings are the totals before plus every amount recorded: a reading
/// or a new window never changes them.
pub proof fn lemma_totals_count_every_recording(ms: Seq<MetricsView>, rs: Seq<Recording>)
    requires
        ms.len() == rs.len() + 1,
        forall|i: int| 0 <= i < rs.len() ==> recorded(ms[i], ms[i + 1], #[trigger] rs[i]),
        ms[0].send_total + sent_sum(rs) <= usize::MAX,
        ms[0].recv_total + received_sum(rs) <= usize::MAX,
    ensures
        ms.last().send_total == ms[0].send_total + sent_sum(rs),
        ms.last().recv_total == ms[0].recv_total + received_sum(rs),
    decreases rs.len(),
{
    if rs.len() > 0 {
        let n = rs.len() - 1;
        let ms0 = ms.drop_last();
        let rs0 = rs.drop_last();
        assert forall|i: int| 0 <= i < rs0.len() implies recorded(ms0[i], ms0[i + 1], #[trigger] rs0[i]) by {
            assert(rs0[i] == rs[i]);
            assert(ms0[i] == ms[i] && ms0[i + 1] == ms[i + 1]);
        }
        lemma_totals_count_every_recording(ms0, rs0);
        assert(recorded(ms[n], ms[n + 1], rs[n]));
        assert(ms0.last() == ms[n]);
        assert(rs.last() == rs[n]);
    }
}

/// One reading of the clock by a [`Metrics`].
pub enum ClockReading {
    /// The whole seconds that had passed since `since`, the start of the
    /// window then current.
    SecondsSince { since: Instant, secs: u64 },
    /// The moment a new window started.
    Moment(Instant),
}

/// Struct holdning common network metric information
pub struct Metrics {
    instant: Instant,
    readings: Ghost<Seq<ClockReading>>,
    recv_total: usize,
    recv_sec: usize,
    recv_sec_buffer: usize,
    send_total: usize,
    send_sec: usize,
    send_sec_buffer: usize,
}

impl View for Metrics {
    type V = MetricsView;

    closed spec fn view(&self) -> MetricsView {
        MetricsView {
            recv_total: self.recv_total,
            recv_sec: self.recv_sec,
            recv_sec_buffer: self.recv_sec_buffer,
            send_total: self.send_total,
            send_sec: self.send_sec,
            send_sec_buffer: self.send_sec_buffer,
        }
    }
}

impl Default for Metrics {
    fn default() -> (r: Self)
        ensures
            r@ == MetricsView::zero(),
            r@.wf(),
            r.clock_readings() == seq![ClockReading::Moment(r.window_start())],
    {
        let started = now();
        let readings = Ghost(Seq::empty().push(ClockReading::Moment(started)));
        Metrics {
            instant: started,
            readings,
            recv_total: 0,
            recv_sec: 0,
            send_total: 0,
            send_sec: 0,
            recv_sec_buffer: 0,
            send_sec_buffer: 0,
        }
    }
}

impl Metrics {
    #[verifier::type_invariant]
    pub(crate) open spec fn inv(self) -> bool {
        self@.wf()
    }

    /// When the current measuring window started.
    pub closed spec fn window_start(&self) -> Instant {
        self.instant
    }

    /// Every reading of the clock this value took, in order, from the moment
    /// its first window started.
    pub closed spec fn clock_readings(&self) -> Seq<ClockReading> {
        self.readings@
    }

    /// The whole seconds since its window started that the call which took
    /// `before` to `self` read from the clock.
    pub open spec fn seconds_read(&self, before: &Metrics) -> u64 {
        self.clock_readings()[before.clock_readings().len() as int]->secs
    }

    /// What a call that records or reads leaves, from `before`, once the
    /// counters are `counters`: it reads from the clock, once, the whole
    /// seconds since the current window started. When at least one has
    /// passed, what the window counted becomes the per-second figures and a
    /// new window starts at a moment it reads from the clock right then;
    /// otherwise nothing else changes.
    pub open spec fn clocked(&self, before: &Metrics, counters: MetricsView) -> bool {
        let n = before.clock_readings().len() as int;
        let r = self.clock_readings()[n];
        &&& self.clock_readings().len() > n
        &&& self.clock_readings().subrange(0, n) == before.clock_readings()
        &&& r is SecondsSince
        &&& r->since == before.window_start()
        &&& if r->secs >= 1 {
            &&& self@ == counters.rolled()
            &&& self.clock_readings().len() == n + 2
            &&& self.clock_readings()[n + 1] == ClockReading::Moment(self.window_start())
        } else {
            &&& self@ == counters
            &&& self.clock_readings().len() == n + 1
            &&& self.window_start() == before.window_start()
        }
    }

    /// Either no new window started, so the counters are `counters` and the
    /// window started when `before`'s did, or a new window started after the
    /// counters became `counters`.
    pub open spec fn kept_or_rolled(&self, before: &Metrics, counters: MetricsView) -> bool {
        ||| (self@ == counters && self.window_start() == before.window_start())
        ||| self@ == counters.rolled()
    }

    /// Starts a new window when `elapsed_secs`, the whole seconds since the
    /// current window started, is at least one; otherwise nothing changes.
    pub fn roll_window(&mut self, elapsed_secs: u64)
        ensures
            final(self)@.wf(),
            final(self)@ == (if elapsed_secs >= 1 { old(self)@.rolled() } else { old(self)@ }),
            elapsed_secs < 1 ==> final(self).window_start() == old(self).window_start(),
            elapsed_secs < 1 ==> final(self).clock_readings() == old(self).clock_readings(),
            elapsed_secs >= 1 ==> final(self).clock_readings() == old(self).clock_readings().push(
                ClockReading::Moment(final(self).window_start()),
            ),
    {
        proof {
            use_type_invariant(&*self);
        }
        if elapsed_secs >= 1 {
            let started = now();
            let send_window = self.send_sec_buffer;
            let recv_window = self.recv_sec_buffer;
            self.send_sec_buffer = 0;
            self.recv_sec_buffer = 0;
            self.send_sec = send_window;
            self.recv_sec = recv_window;
            self.instant = started;
            proof {
                self.readings@ = self.readings@.push(ClockReading::Moment(started));
            }
        }
    }

    /// The bytes sent so far, read without starting a new window.
    pub fn sent_so_far(&self) -> (r: usize)
        ensures
            r == self@.send_total,
    {
        self.send_total
    }

    /// The bytes received so far, read without starting a new window.
    pub fn received_so_far(&self) -> (r: usize)
        ensures
            r == self@.recv_total,
    {
        self.recv_total
    }

    fn update(&mut self)
        ensures
            final(self)@.wf(),
            final(self).kept_or_rolled(old(self), old(self)@),
            final(self).clocked(old(self), old(self)@),
    {
        proof {
            use_type_invariant(&*self);
        }
        let ghost before = self.readings@;
        let elapsed = elapsed_since(&self.instant);
        let secs = whole_seconds(&elapsed);
        proof {
            self.readings@ = self.readings@.push(
                ClockReading::SecondsSince { since: self.instant, secs },
            );
        }
        self.roll_window(secs);
        assert(self.readings@.subrange(0, before.len() as int) =~= before);
    }

    pub fn add_send(&mut self, value: usize)
        requires
            old(self)@.send_total + value <= usize::MAX,
        ensures
            final(self)@.wf(),
            final(self).kept_or_rolled(old(self), old(self)@.sent(value)),
            final(self).clocked(old(self), old(self)@.sent(value)),
    {
        proof {
            use_type_invariant(&*self);
        }
        self.send_total = self.send_total + value;
        self.send_sec_buffer = self.send_sec_buffer + value;
        self.update();
    }

    pub fn add_recv(&mut self, value: usize)
        requires
            old(self)@.recv_total + value <= usize::MAX,
        ensures
            final(self)@.wf(),
            final(self).kept_or_rolled(old(self), old(self)@.received(value)),
            final(self).clocked(old(self), old(self)@.received(value)),
    {
        proof {
            use_type_invariant(&*self);
        }
        self.recv_total = self.recv_total + value;
        self.recv_sec_buffer = self.recv_sec_buffer + value;
        self.update();
    }

    pub fn recv_total(&mut self) -> (r: usize)
        ensures
            final(self)@.wf(),
            final(self).kept_or_rolled(old(self), old(self)@),
            final(self).clocked(old(self), old(self)@),
            r == old(self)@.recv_total,
    {
        self.update();
        self.recv_total
    }

    pub fn recv_per_sec(&mut self) -> (r: usize)
        ensures
            final(self)@.wf(),
            final(self).kept_or_rolled(old(self), old(self)@),
            final(self).clocked(old(self), old(self)@),
            r == final(self)@.recv_sec,
    {
        self.update();
        self.recv_sec
    }

    pub fn send_total(&mut self) -> (r: usize)
        ensures
            final(self)@.wf(),
            final(self).kept_or_rolled(old(self), old(self)@),
            final(self).clocked(old(self), old(self)@),
            r == old(self)@.send_total,
    {
        self.update();
        self.send_total
    }

    pub fn send_per_sec(&mut self) -> (r: usize)
        ensures
            final(self)@.wf(),
            final(self).kept_or_rolled(old(self), old(self)@),
            final(self).clocked(old(self), old(self)@),
            r == final(self)@.send_sec,
    {
        self.update();
        self.send_sec
    }
}

/// A per-second reading of bytes sent, taken once a whole second has passed
/// since the window started, gives what that window counted and starts a new,
/// empty window; taken within the second, it gives the figure of the last
/// window that ended and changes nothing.
pub proof fn lemma_send_per_sec_reading(before: Metrics, after: Metrics, r: usize)
    requires
        after.clocked(&before, before@),
        r == after@.send_sec,
    ensures
        after.seconds_read(&before) >= 1 ==> {
            &&& r == before@.send_sec_buffer
            &&& after@.send_sec_buffer == 0
            &&& after@.recv_sec == before@.recv_sec_buffer
            &&& after@.recv_sec_buffer == 0
        },
        after.seconds_read(&before) < 1 ==> {
            &&& r == before@.send_sec
            &&& after@ == before@
            &&& after.window_start() == before.window_start()
        },
        after@.send_total == before@.send_total,
        after@.recv_total == before@.recv_total,
{
}

/// A per-second reading of bytes received, taken once a whole second has
/// passed since the window started, gives what that window counted and starts
/// a new, empty window; taken within the second, it gives the figure of the
/// last window that ended and changes nothing.
pub proof fn lemma_recv_per_sec_reading(before: Metrics, after: Metrics, r: usize)
    requires
        after.clocked(&before, before@),
        r == after@.recv_sec,
    ensures
        after.seconds_read(&before) >= 1 ==> {
            &&& r == before@.recv_sec_buffer
            &&& after@.recv_sec_buffer == 0
            &&& after@.send_sec == before@.send_sec_buffer
            &&& after@.send_sec_buffer == 0
        },
        after.seconds_read(&before) < 1 ==> {
            &&& r == before@.recv_sec
            &&& after@ == before@
            &&& after.window_start() == before.window_start()
        },
        after@.send_total == before@.send_total,
        after@.recv_total == before@.recv_total,
{
}

/// Recording bytes sent once a whole second has passed since the window
/// started ends that window with those bytes counted in it: the figure per
/// second becomes what the window had counted plus `v`. Within the second,
/// the bytes are only added to the current window.
pub proof fn lemma_send_recorded_in_ending_window(before: Metrics, after: Metrics, v: usize)
    requires
        before@.wf(),
        before@.send_total + v <= usize::MAX,
        after.clocked(&before, before@.sent(v)),
    ensures
        after@.send_total == before@.send_total + v,
        after.seconds_read(&before) >= 1 ==> after@.send_sec == before@.send_sec_buffer + v
            && after@.send_sec_buffer == 0,
        after.seconds_read(&before) < 1 ==> after@.send_sec == before@.send_sec
            && after@.send_sec_buffer == before@.send_sec_buffer + v,
{
}

/// Recording bytes received once a whole second has passed since the window
/// started ends that window with those bytes counted in it: the figure per
/// second becomes what the window had counted plus `v`. Within the second,
/// the bytes are only added to the current window.
pub proof fn lemma_recv_recorded_in_ending_window(before: Metrics, after: Metrics, v: usize)
    requires
        before@.wf(),
        before@.recv_total + v <= usize::MAX,
        after.clocked(&before, before@.received(v)),
    ensures
        after@.recv_total == before@.recv_total + v,
        after.seconds_read(&before) >= 1 ==> after@.recv_sec == before@.recv_sec_buffer + v
            && after@.recv_sec_buffer == 0,
        after.seconds_read(&before) < 1 ==> after@.recv_sec == before@.recv_sec
            && after@.recv_sec_buffer == before@.recv_sec_buffer + v,
{
}

/// A new window starts at the moment of the call that ends the old one: that
/// call reads the moment from the clock after it read the seconds passed,
/// and the next call measures the seconds from that moment. So a call within
/// a second of it ends no window: its counters are what it recorded.
pub proof fn lemma_window_restarts_at_roll(
    m0: Metrics,
    m1: Metrics,
    m2: Metrics,
    c1: MetricsView,
    c2: MetricsView,
)
    requires
        m1.clocked(&m0, c1),
        m1.seconds_read(&m0) >= 1,
        m2.clocked(&m1, c2),
    ensures
        m1.clock_readings().len() == m0.clock_readings().len() + 2,
        m1.clock_readings().last() == ClockReading::Moment(m1.window_start()),
        m2.clock_readings()[m1.clock_readings().len() as int]->since == m1.window_start(),
        m2.seconds_read(&m1) < 1 ==> m2@ == c2 && m2.window_start() == m1.window_start(),
        m2.seconds_read(&m1) >= 1 ==> m2@ == c2.rolled(),
{
}

} // verus!
