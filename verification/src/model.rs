//! The probe scheduler as a transition system: what a run's state is, which
//! events move it, and what each event makes of it.

use vstd::prelude::*;
use crate::codec::{
    echo_message,
    spec_decode,
    DecodeError,
    MessageView,
    ECHO_REQUEST,
};
use crate::config::ProbeConfig;
use crate::inflight::{
    expired_count,
    first_index,
    has_seq,
    has_wire,
    is_expired,
    is_fresh,
    lemma_expired_stand_in_front,
    lemma_first_index_is_first,
    lemma_ordered_remove,
    ordered,
    wire_seq,
    InFlight,
};
use crate::outcome::{ProbeOutcome, ProbeTarget, TransportFault};

verus! {

/// Where a run stands.
#[derive(Debug, Clone, Copy, PartialEq, Eq, Structural)]
pub enum Phase {
    /// Configured; the transport is not open yet.
    Idle,
    /// Sending on the timer and listening.
    Running,
    /// Sending no more; waiting a while for replies still outstanding.
    Draining,
    /// Done: every request sent has its outcome.
    Stopped,
}

/// What stays fixed through a run.
#[derive(Debug, Clone, Copy, PartialEq, Eq, Structural)]
pub struct Settings {
    pub config: ProbeConfig,
    /// The address probed.
    pub target: ProbeTarget,
    /// Marks this run's requests among those of others on the same socket.
    pub identifier: u16,
    /// Microseconds after which a request without a reply has timed out.
    pub timeout_us: u32,
    /// Microseconds that draining waits for outstanding replies.
    pub grace_us: u32,
}

/// What happened outside. Every event carries the time at which it happened,
/// in microseconds of a clock that does not run backwards.
pub enum Event {
    /// The transport was opened.
    Start { now: u64 },
    /// The send timer fired.
    SendDue { now: u64 },
    /// The transport could not send the request numbered `seq`.
    SendFailed { now: u64, seq: u32 },
    /// An ICMP message arrived from `from`, in a datagram with the hop limit
    /// `ttl`.
    Packet { now: u64, from: ProbeTarget, ttl: u8, bytes: Vec<u8> },
    /// Waiting for a packet ended with nothing received.
    Quiet { now: u64 },
    /// Waiting for a packet ended in an error.
    ReceiveFailed { now: u64 },
    /// The run was told to stop.
    Stop { now: u64 },
    /// The transport reports that its socket can no longer be used.
    Broken { now: u64 },
}

impl Event {
    /// The time at which the event happened.
    pub open spec fn spec_time(&self) -> u64 {
        match *self {
            Event::Start { now } => now,
            Event::SendDue { now } => now,
            Event::SendFailed { now, .. } => now,
            Event::Packet { now, .. } => now,
            Event::Quiet { now } => now,
            Event::ReceiveFailed { now } => now,
            Event::Stop { now } => now,
            Event::Broken { now } => now,
        }
    }

    /// The time at which the event happened.
    #[verifier::when_used_as_spec(spec_time)]
    pub fn time(&self) -> (t: u64)
        ensures
            t == self.spec_time(),
    {
        match *self {
            Event::Start { now } => now,
            Event::SendDue { now } => now,
            Event::SendFailed { now, .. } => now,
            Event::Packet { now, .. } => now,
            Event::Quiet { now } => now,
            Event::ReceiveFailed { now } => now,
            Event::Stop { now } => now,
            Event::Broken { now } => now,
        }
    }
}

/// The state of a run.
pub struct State {
    pub phase: Phase,
    /// The latest time seen.
    pub now: u64,
    /// Requests handed out so far; they are numbered from 1 in that order.
    pub sent: u32,
    /// Outcomes produced so far.
    pub produced: u32,
    /// The requests without an outcome, oldest first.
    pub in_flight: Seq<InFlight>,
    /// When draining began.
    pub drain_started: u64,
    /// Whether the run ended because the transport broke.
    pub aborted: bool,
}

/// What one event came to.
pub struct Step {
    pub state: State,
    /// The outcomes the event produced, in the order they were produced.
    pub outcomes: Seq<ProbeOutcome>,
    /// Whether a request is to be sent.
    pub sends: bool,
    /// Why an inbound packet was dropped, if one was.
    pub dropped: Option<DecodeError>,
}

/// The settings a run has when nothing else is asked for: requests time out
/// after one interval, and draining waits one interval.
pub open spec fn default_settings(config: ProbeConfig, target: ProbeTarget, identifier: u16) -> Settings {
    Settings {
        config,
        target,
        identifier,
        timeout_us: config.spec_interval_us(),
        grace_us: config.spec_interval_us(),
    }
}

/// The state of a run before it starts.
pub open spec fn initial() -> State {
    State {
        phase: Phase::Idle,
        now: 0,
        sent: 0,
        produced: 0,
        in_flight: Seq::empty(),
        drain_started: 0,
        aborted: false,
    }
}

/// The payload of a request: `len` bytes that count up from zero and start
/// over after 255.
pub open spec fn payload_pattern(len: nat) -> Seq<u8> {
    Seq::new(len, |i: int| (i % 256) as u8)
}

/// The bytes of the request numbered `seq`.
pub open spec fn request_packet(settings: Settings, seq: u32) -> Seq<u8> {
    echo_message(
        ECHO_REQUEST,
        wire_seq(seq),
        settings.identifier,
        payload_pattern(settings.config.payload_size as nat),
    )
}

/// A timeout for each of `entries`, in their order.
pub open spec fn timed_out(entries: Seq<InFlight>) -> Seq<ProbeOutcome> {
    Seq::new(entries.len(), |i: int| ProbeOutcome::Timeout { seq: entries[i].seq })
}

/// A transport error for each of `entries`, in their order.
pub open spec fn failed(entries: Seq<InFlight>, reason: TransportFault) -> Seq<ProbeOutcome> {
    Seq::new(entries.len(), |i: int| ProbeOutcome::TransportError { seq: entries[i].seq, reason })
}

/// The state with the clock moved on to `time`, unless it is there or beyond
/// already.
pub open spec fn advance(st: State, time: u64) -> State {
    State {
        now: if time > st.now {
            time
        } else {
            st.now
        },
        ..st
    }
}

/// Nothing happens.
pub open spec fn quiet(st: State) -> Step {
    Step { state: st, outcomes: Seq::empty(), sends: false, dropped: None }
}

/// The request at index `at` leaves the table with `outcome`.
pub open spec fn resolve(st: State, at: int, outcome: ProbeOutcome) -> Step {
    Step {
        state: State {
            in_flight: st.in_flight.remove(at),
            produced: (st.produced + 1) as u32,
            ..st
        },
        outcomes: seq![outcome],
        sends: false,
        dropped: None,
    }
}

/// Every request that has waited longer than the timeout leaves the table as
/// timed out.
pub open spec fn expire(settings: Settings, st: State) -> Step {
    let k: int = expired_count(st.in_flight, st.now, settings.timeout_us);
    Step {
        state: State {
            in_flight: st.in_flight.skip(k),
            produced: (st.produced + k) as u32,
            ..st
        },
        outcomes: timed_out(st.in_flight.take(k)),
        sends: false,
        dropped: None,
    }
}

/// The send timer fired: while the run is running and has not handed out as
/// many requests as it may, the next one goes out.
pub open spec fn on_send_due(settings: Settings, st: State) -> Step {
    if st.phase == Phase::Running && st.sent < settings.config.spec_limit() {
        Step {
            state: State {
                in_flight: st.in_flight.push(
                    InFlight { seq: (st.sent + 1) as u32, sent_at: st.now },
                ),
                sent: (st.sent + 1) as u32,
                ..st
            },
            outcomes: Seq::empty(),
            sends: true,
            dropped: None,
        }
    } else {
        quiet(st)
    }
}

/// A request could not be sent: if it is in flight, it ends in a transport
/// error.
pub open spec fn on_send_failed(st: State, seq: u32) -> Step {
    let at: int = first_index(st.in_flight, has_seq(seq));
    if at < st.in_flight.len() {
        resolve(st, at, ProbeOutcome::TransportError { seq, reason: TransportFault::SendFailed })
    } else {
        quiet(st)
    }
}

/// A message arrived. An Echo Reply with this run's identifier answers the
/// oldest request in flight that travels under its sequence number; a Time
/// Exceeded message that quotes this run's identifier ends the oldest request
/// that travels under the sequence number it quotes; a message that does not
/// decode is dropped; anything else goes unheeded.
pub open spec fn on_packet(settings: Settings, st: State, from: ProbeTarget, ttl: u8, bytes: Seq<u8>) -> Step {
    match spec_decode(bytes) {
        Ok(MessageView::EchoReply { seq, identifier, payload }) => {
            let at: int = first_index(st.in_flight, has_wire(seq));
            if identifier == settings.identifier && at < st.in_flight.len() {
                resolve(
                    st,
                    at,
                    ProbeOutcome::Reply {
                        seq: st.in_flight[at].seq,
                        rtt: (st.now - st.in_flight[at].sent_at) as u32,
                        ttl,
                        addr: from,
                    },
                )
            } else {
                quiet(st)
            }
        },
        Ok(MessageView::TimeExceeded { original_seq, original_identifier }) => {
            let at: int = first_index(st.in_flight, has_wire(original_seq));
            if original_identifier == settings.identifier && at < st.in_flight.len() {
                resolve(
                    st,
                    at,
                    ProbeOutcome::TtlExceeded { seq: st.in_flight[at].seq, addr: from },
                )
            } else {
                quiet(st)
            }
        },
        Ok(MessageView::Other) => quiet(st),
        Err(e) => Step { state: st, outcomes: Seq::empty(), sends: false, dropped: Some(e) },
    }
}

/// Receiving failed: the oldest request in flight, the one whose reply was
/// waited for, ends in a transport error.
pub open spec fn on_receive_failed(st: State) -> Step {
    if st.in_flight.len() > 0 {
        resolve(
            st,
            0,
            ProbeOutcome::TransportError {
                seq: st.in_flight[0].seq,
                reason: TransportFault::ReceiveFailed,
            },
        )
    } else {
        quiet(st)
    }
}

/// The run was told to stop: a running run begins to drain.
pub open spec fn on_stop(st: State) -> Step {
    if st.phase == Phase::Running {
        quiet(State { phase: Phase::Draining, drain_started: st.now, ..st })
    } else {
        quiet(st)
    }
}

/// The transport broke: the run is over, and every request in flight ends in
/// a transport error.
pub open spec fn on_broken(st: State) -> Step {
    Step {
        state: State {
            phase: Phase::Stopped,
            in_flight: Seq::empty(),
            produced: (st.produced + st.in_flight.len()) as u32,
            aborted: true,
            ..st
        },
        outcomes: failed(st.in_flight, TransportFault::SocketUnusable),
        sends: false,
        dropped: None,
    }
}

/// What the event itself does to a run that is running or draining.
pub open spec fn handle(settings: Settings, st: State, event: Event) -> Step {
    match event {
        Event::Start { .. } => quiet(st),
        Event::SendDue { .. } => on_send_due(settings, st),
        Event::SendFailed { seq, .. } => on_send_failed(st, seq),
        Event::Packet { from, ttl, bytes, .. } => on_packet(settings, st, from, ttl, bytes@),
        Event::Quiet { .. } => quiet(st),
        Event::ReceiveFailed { .. } => on_receive_failed(st),
        Event::Stop { .. } => on_stop(st),
        Event::Broken { .. } => on_broken(st),
    }
}

/// Whether draining is over: nothing is outstanding, or the grace period has
/// passed.
pub open spec fn drained(settings: Settings, st: State) -> bool {
    st.in_flight.len() == 0 || st.now - st.drain_started >= settings.grace_us
}

/// The stop condition and the end of draining. A running run that has
/// produced as many outcomes as it may begins to drain; a draining run that
/// has nothing outstanding, or has waited the grace period, gives up on what
/// is outstanding as timed out, and stops.
pub open spec fn settle(settings: Settings, st: State) -> Step {
    let st1: State = if st.phase == Phase::Running && st.produced >= settings.config.spec_limit() {
        State { phase: Phase::Draining, drain_started: st.now, ..st }
    } else {
        st
    };
    if st1.phase == Phase::Draining && drained(settings, st1) {
        Step {
            state: State {
                phase: Phase::Stopped,
                in_flight: Seq::empty(),
                produced: (st1.produced + st1.in_flight.len()) as u32,
                ..st1
            },
            outcomes: timed_out(st1.in_flight),
            sends: false,
            dropped: None,
        }
    } else {
        quiet(st1)
    }
}

/// What an event makes of a run. A stopped run heeds nothing, an idle one
/// only its start. Otherwise the clock moves on to the event's time, the
/// requests that have timed out by then leave, the event is handled, and the
/// run is settled.
pub open spec fn step(settings: Settings, st: State, event: Event) -> Step {
    match st.phase {
        Phase::Stopped => quiet(st),
        Phase::Idle => match event {
            Event::Start { now } => settle(
                settings,
                State { phase: Phase::Running, ..advance(st, now) },
            ),
            _ => quiet(st),
        },
        _ => {
            let expired: Step = expire(settings, advance(st, event.spec_time()));
            let handled: Step = handle(settings, expired.state, event);
            let settled: Step = settle(settings, handled.state);
            Step {
                state: settled.state,
                outcomes: expired.outcomes + handled.outcomes + settled.outcomes,
                sends: handled.sends,
                dropped: handled.dropped,
            }
        },
    }
}

/// What holds of the state of every run: the table is ordered and holds
/// requests that were sent, at times that have passed; every request sent is
/// in flight or has produced its outcome; no more requests were sent than the
/// run may send; and a stopped run has nothing in flight.
pub open spec fn inv(settings: Settings, st: State) -> bool {
    &&& settings.config.is_valid()
    &&& ordered(st.in_flight)
    &&& st.produced + st.in_flight.len() == st.sent
    &&& st.sent <= settings.config.spec_limit()
    &&& forall|i: int|
        0 <= i < st.in_flight.len() ==> 1 <= (#[trigger] st.in_flight[i]).seq <= st.sent
            && st.in_flight[i].sent_at <= st.now
    &&& st.phase == Phase::Idle ==> st.sent == 0
    &&& st.phase == Phase::Stopped ==> st.in_flight.len() == 0
}

/// What a step keeps and accounts for: the invariant, one more outcome
/// produced for each outcome handed out, and one more request sent where one
/// is to be sent.
pub open spec fn accounted(settings: Settings, before: State, after: Step) -> bool {
    &&& inv(settings, after.state)
    &&& after.state.produced == before.produced + after.outcomes.len()
    &&& after.state.sent == before.sent + (if after.sends {
        1int
    } else {
        0int
    })
    &&& after.state.now == before.now
}

/// Moving the clock on keeps the invariant, and the clock does not run
/// backwards.
pub proof fn lemma_advance(settings: Settings, st: State, time: u64)
    requires
        inv(settings, st),
    ensures
        inv(settings, advance(st, time)),
        advance(st, time).now >= st.now,
        advance(st, time).now >= time,
{
}

/// A request that leaves the table with its outcome keeps the invariant and
/// is accounted for.
pub proof fn lemma_resolve(settings: Settings, st: State, at: int, outcome: ProbeOutcome)
    requires
        inv(settings, st),
        0 <= at < st.in_flight.len(),
    ensures
        accounted(settings, st, resolve(st, at, outcome)),
{
    lemma_ordered_remove(st.in_flight, at);
    let after: Seq<InFlight> = st.in_flight.remove(at);
    assert forall|i: int| 0 <= i < after.len() implies 1 <= (#[trigger] after[i]).seq <= st.sent
        && after[i].sent_at <= st.now by {
        let j: int = if i < at {
            i
        } else {
            i + 1
        };
        assert(after[i] == st.in_flight[j]);
    }
}

/// Timing out keeps the invariant, and leaves nothing in flight that has
/// waited longer than the timeout.
pub proof fn lemma_expire(settings: Settings, st: State)
    requires
        inv(settings, st),
    ensures
        accounted(settings, st, expire(settings, st)),
        forall|i: int|
            0 <= i < expire(settings, st).state.in_flight.len() ==> !is_expired(
                #[trigger] expire(settings, st).state.in_flight[i],
                st.now,
                settings.timeout_us,
            ),
{
    let k: int = expired_count(st.in_flight, st.now, settings.timeout_us);
    lemma_first_index_is_first(st.in_flight, is_fresh(st.now, settings.timeout_us));
    lemma_expired_stand_in_front(st.in_flight, st.now, settings.timeout_us);
    let after: Seq<InFlight> = st.in_flight.skip(k);
    assert forall|i: int| 0 <= i < after.len() implies 1 <= (#[trigger] after[i]).seq <= st.sent
        && after[i].sent_at <= st.now && !is_expired(after[i], st.now, settings.timeout_us) by {
        assert(after[i] == st.in_flight[i + k]);
    }
    assert forall|i: int, j: int| 0 <= i < j < after.len() implies after[i].seq < after[j].seq
        && after[i].sent_at <= after[j].sent_at by {
        assert(after[i] == st.in_flight[i + k]);
        assert(after[j] == st.in_flight[j + k]);
    }
}

/// Handling an event keeps the invariant, and accounts for each outcome and
/// for the request sent.
pub proof fn lemma_handle(settings: Settings, st: State, event: Event)
    requires
        inv(settings, st),
        st.phase == Phase::Running || st.phase == Phase::Draining,
    ensures
        accounted(settings, st, handle(settings, st, event)),
{
    match event {
        Event::SendDue { .. } => {
            if st.phase == Phase::Running && st.sent < settings.config.spec_limit() {
                let entry: InFlight = InFlight { seq: (st.sent + 1) as u32, sent_at: st.now };
                let after: Seq<InFlight> = st.in_flight.push(entry);
                assert forall|i: int, j: int| 0 <= i < j < after.len() implies after[i].seq
                    < after[j].seq && after[i].sent_at <= after[j].sent_at by {
                    assert(after[i] == st.in_flight[i]);
                    if j < st.in_flight.len() {
                        assert(after[j] == st.in_flight[j]);
                    }
                }
                assert forall|i: int| 0 <= i < after.len() implies 1 <= (#[trigger] after[i]).seq
                    <= st.sent + 1 && after[i].sent_at <= st.now by {
                    if i < st.in_flight.len() {
                        assert(after[i] == st.in_flight[i]);
                    }
                }
            }
        },
        Event::SendFailed { seq, .. } => {
            let at: int = first_index(st.in_flight, has_seq(seq));
            lemma_first_index_is_first(st.in_flight, has_seq(seq));
            if at < st.in_flight.len() {
                lemma_resolve(
                    settings,
                    st,
                    at,
                    ProbeOutcome::TransportError { seq, reason: TransportFault::SendFailed },
                );
            }
        },
        Event::Packet { from, ttl, bytes, .. } => {
            match spec_decode(bytes@) {
                Ok(MessageView::EchoReply { seq, identifier, payload }) => {
                    let at: int = first_index(st.in_flight, has_wire(seq));
                    lemma_first_index_is_first(st.in_flight, has_wire(seq));
                    if identifier == settings.identifier && at < st.in_flight.len() {
                        lemma_resolve(
                            settings,
                            st,
                            at,
                            ProbeOutcome::Reply {
                                seq: st.in_flight[at].seq,
                                rtt: (st.now - st.in_flight[at].sent_at) as u32,
                                ttl,
                                addr: from,
                            },
                        );
                    }
                },
                Ok(MessageView::TimeExceeded { original_seq, original_identifier }) => {
                    let at: int = first_index(st.in_flight, has_wire(original_seq));
                    lemma_first_index_is_first(st.in_flight, has_wire(original_seq));
                    if original_identifier == settings.identifier && at < st.in_flight.len() {
                        lemma_resolve(
                            settings,
                            st,
                            at,
                            ProbeOutcome::TtlExceeded { seq: st.in_flight[at].seq, addr: from },
                        );
                    }
                },
                _ => {},
            }
        },
        Event::ReceiveFailed { .. } => {
            if st.in_flight.len() > 0 {
                lemma_resolve(
                    settings,
                    st,
                    0,
                    ProbeOutcome::TransportError {
                        seq: st.in_flight[0].seq,
                        reason: TransportFault::ReceiveFailed,
                    },
                );
            }
        },
        _ => {},
    }
}

/// Settling keeps the invariant, and accounts for each outcome.
pub proof fn lemma_settle(settings: Settings, st: State)
    requires
        inv(settings, st),
    ensures
        accounted(settings, st, settle(settings, st)),
{
}

/// Every step keeps the invariant, and hands out exactly the outcomes and the
/// request that its state accounts for.
pub proof fn lemma_step(settings: Settings, st: State, event: Event)
    requires
        inv(settings, st),
    ensures
        inv(settings, step(settings, st, event).state),
        step(settings, st, event).state.produced == st.produced + step(
            settings,
            st,
            event,
        ).outcomes.len(),
        step(settings, st, event).state.sent == st.sent + (if step(settings, st, event).sends {
            1int
        } else {
            0int
        }),
        step(settings, st, event).state.now >= st.now,
{
    match st.phase {
        Phase::Stopped => {},
        Phase::Idle => {
            match event {
                Event::Start { now } => {
                    let started: State = State { phase: Phase::Running, ..advance(st, now) };
                    lemma_settle(settings, started);
                },
                _ => {},
            }
        },
        _ => {
            let moved: State = advance(st, event.spec_time());
            lemma_advance(settings, st, event.spec_time());
            let expired: Step = expire(settings, moved);
            lemma_expire(settings, moved);
            let handled: Step = handle(settings, expired.state, event);
            lemma_handle(settings, expired.state, event);
            lemma_settle(settings, handled.state);
        },
    }
}

/// A stopped run has an outcome for every request it sent: nothing is left in
/// flight, and as many outcomes were produced as requests were sent.
pub proof fn lemma_stopped_run_is_complete(settings: Settings, st: State)
    requires
        inv(settings, st),
        st.phase == Phase::Stopped,
    ensures
        st.in_flight.len() == 0,
        st.produced == st.sent,
{
}

/// The table never holds more requests than the run may send.
pub proof fn lemma_in_flight_is_bounded(settings: Settings, st: State)
    requires
        inv(settings, st),
    ensures
        st.in_flight.len() <= settings.config.spec_limit(),
{
}

/// What a run has come to after a sequence of events.
pub struct Trace {
    pub state: State,
    /// All outcomes handed out, in order.
    pub outcomes: Seq<ProbeOutcome>,
    /// How many requests were handed out to be sent.
    pub requests: nat,
}

/// The run that starts in `st` and sees `events` one after the other.
pub open spec fn run(settings: Settings, st: State, events: Seq<Event>) -> Trace
    decreases events.len(),
{
    if events.len() == 0 {
        Trace { state: st, outcomes: Seq::empty(), requests: 0 }
    } else {
        let before: Trace = run(settings, st, events.drop_last());
        let last: Step = step(settings, before.state, events.last());
        Trace {
            state: last.state,
            outcomes: before.outcomes + last.outcomes,
            requests: before.requests + (if last.sends {
                1nat
            } else {
                0nat
            }),
        }
    }
}

/// Whatever events a run sees from its beginning, the requests it has handed
/// out are those that have an outcome and those still in flight; once it has
/// stopped, the outcomes are as many as the requests.
pub proof fn lemma_run_accounts_for_every_request(settings: Settings, events: Seq<Event>)
    requires
        settings.config.is_valid(),
    ensures
        inv(settings, run(settings, initial(), events).state),
        run(settings, initial(), events).state.sent == run(settings, initial(), events).requests,
        run(settings, initial(), events).state.produced == run(
            settings,
            initial(),
            events,
        ).outcomes.len(),
        run(settings, initial(), events).outcomes.len() + run(
            settings,
            initial(),
            events,
        ).state.in_flight.len() == run(settings, initial(), events).requests,
        run(settings, initial(), events).state.phase == Phase::Stopped ==> run(
            settings,
            initial(),
            events,
        ).outcomes.len() == run(settings, initial(), events).requests,
    decreases events.len(),
{
    if events.len() > 0 {
        lemma_run_accounts_for_every_request(settings, events.drop_last());
        let before: Trace = run(settings, initial(), events.drop_last());
        lemma_step(settings, before.state, events.last());
    }
}

/// Cancellation. When a draining run has waited its grace period, the next
/// event that only tells the time ends it, and every request that was still
/// in flight leaves as timed out, oldest first.
pub proof fn lemma_drain_flushes_as_timeouts(settings: Settings, st: State, now: u64)
    requires
        inv(settings, st),
        st.phase == Phase::Draining,
        advance(st, now).now - st.drain_started >= settings.grace_us,
    ensures
        step(settings, st, Event::Quiet { now }).state.phase == Phase::Stopped,
        step(settings, st, Event::Quiet { now }).outcomes == timed_out(st.in_flight),
{
    let moved: State = advance(st, now);
    let k: int = expired_count(moved.in_flight, moved.now, settings.timeout_us);
    lemma_first_index_is_first(moved.in_flight, is_fresh(moved.now, settings.timeout_us));
    let result: Step = step(settings, st, Event::Quiet { now });
    assert(result.outcomes =~= timed_out(st.in_flight));
}

/// A stop signal makes a running run drain, or, with nothing in flight or no
/// grace to wait, stop at once; it sends nothing more.
pub proof fn lemma_stop_ends_sending(settings: Settings, st: State, now: u64)
    requires
        inv(settings, st),
        st.phase == Phase::Running,
    ensures
        step(settings, st, Event::Stop { now }).state.phase == Phase::Draining || step(
            settings,
            st,
            Event::Stop { now },
        ).state.phase == Phase::Stopped,
        !step(settings, st, Event::Stop { now }).sends,
{
}

} // verus!
