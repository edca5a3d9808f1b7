//! The probe scheduler: it is told what happens outside, event by event, and
//! answers with the outcomes that have become known and the request that is
//! to be sent next.

use vstd::prelude::*;
use crate::codec::{decode, encode, DecodeError, ParsedMessage};
use crate::config::ProbeConfig;
use crate::inflight::{
    has_wire,
    is_expired,
    is_fresh,
    lemma_first_index_is_first,
    InFlight,
    InFlightTable,
};
use crate::model::{
    advance,
    default_settings,
    expire,
    failed,
    handle,
    initial,
    inv,
    lemma_advance,
    lemma_expire,
    lemma_handle,
    lemma_settle,
    on_packet,
    payload_pattern,
    request_packet,
    settle,
    step,
    timed_out,
    Event,
    Phase,
    Settings,
    State,
    Step,
};
use crate::outcome::{ProbeOutcome, ProbeTarget, TransportFault};

verus! {

/// A request to be sent.
#[derive(Debug, Clone, PartialEq, Eq)]
pub struct ProbeRequest {
    /// The request's number in the run, from 1.
    pub seq: u32,
    /// The time, in microseconds, at which it counts as sent.
    pub sent_at: u64,
    /// Where it goes.
    pub target: ProbeTarget,
    /// The hop limit it goes with.
    pub ttl: u8,
    /// The ICMP message.
    pub packet: Vec<u8>,
}

/// What the scheduler answers an event with.
#[derive(Debug, Clone, PartialEq, Eq)]
pub struct Reaction {
    /// The outcomes that the event produced, in order.
    pub outcomes: Vec<ProbeOutcome>,
    /// The request to send now, if there is one.
    pub request: Option<ProbeRequest>,
    /// Why the packet that the event brought was dropped, if it was.
    pub dropped: Option<DecodeError>,
}

/// Whether `request` is the request numbered `seq` of a run with these
/// settings, sent at `now`.
pub open spec fn is_request(request: ProbeRequest, settings: Settings, seq: u32, now: u64) -> bool {
    &&& request.seq == seq
    &&& request.sent_at == now
    &&& request.target == settings.target
    &&& request.ttl == settings.config.ttl
    &&& request.packet@ == request_packet(settings, seq)
}

/// Whether `reaction` is what `answer` asks for, where `before` requests had
/// been sent.
pub open spec fn reacts(reaction: Reaction, answer: Step, settings: Settings, before: u32) -> bool {
    &&& reaction.outcomes@ == answer.outcomes
    &&& reaction.dropped == answer.dropped
    &&& reaction.request.is_some() == answer.sends
    &&& reaction.request matches Some(request) ==> is_request(
        request,
        settings,
        (before + 1) as u32,
        answer.state.now,
    )
}

/// The scheduler of one run.
pub struct Scheduler {
    settings: Settings,
    phase: Phase,
    now: u64,
    sent: u32,
    produced: u32,
    drain_started: u64,
    aborted: bool,
    table: InFlightTable,
}

impl View for Scheduler {
    type V = State;

    closed spec fn view(&self) -> State {
        State {
            phase: self.phase,
            now: self.now,
            sent: self.sent,
            produced: self.produced,
            in_flight: self.table@,
            drain_started: self.drain_started,
            aborted: self.aborted,
        }
    }
}

/// The payload of a request of `len` bytes.
pub fn make_payload(len: u16) -> (payload: Vec<u8>)
    ensures
        payload@ == payload_pattern(len as nat),
{
    let mut payload: Vec<u8> = Vec::new();
    let mut i: u16 = 0;
    while i < len
        invariant
            i <= len,
            payload@ =~= payload_pattern(i as nat),
        decreases len - i,
    {
        payload.push((i % 256) as u8);
        i = i + 1;
    }
    payload
}

/// Appends a timeout for each of `entries` to `outcomes`.
fn push_timeouts(outcomes: &mut Vec<ProbeOutcome>, entries: &Vec<InFlight>)
    ensures
        final(outcomes)@ == old(outcomes)@ + timed_out(entries@),
{
    let mut i: usize = 0;
    while i < entries.len()
        invariant
            i <= entries.len(),
            outcomes@ =~= old(outcomes)@ + timed_out(entries@.take(i as int)),
        decreases entries.len() - i,
    {
        outcomes.push(ProbeOutcome::Timeout { seq: entries[i].seq });
        i = i + 1;
    }
    proof {
        assert(entries@.take(i as int) =~= entries@);
    }
}

/// Appends a transport error for each of `entries` to `outcomes`.
fn push_failures(outcomes: &mut Vec<ProbeOutcome>, entries: &Vec<InFlight>, reason: TransportFault)
    ensures
        final(outcomes)@ == old(outcomes)@ + failed(entries@, reason),
{
    let mut i: usize = 0;
    while i < entries.len()
        invariant
            i <= entries.len(),
            outcomes@ =~= old(outcomes)@ + failed(entries@.take(i as int), reason),
        decreases entries.len() - i,
    {
        outcomes.push(ProbeOutcome::TransportError { seq: entries[i].seq, reason });
        i = i + 1;
    }
    proof {
        assert(entries@.take(i as int) =~= entries@);
    }
}

impl Scheduler {
    /// What stays fixed through the run.
    pub closed spec fn spec_settings(&self) -> Settings {
        self.settings
    }

    /// The state is one that a run can be in.
    pub open spec fn wf(&self) -> bool {
        inv(self.spec_settings(), self@)
    }

    /// A scheduler for a run that has not started. Requests time out after
    /// one interval, and draining waits one interval.
    pub fn new(config: ProbeConfig, target: ProbeTarget, identifier: u16) -> (scheduler: Scheduler)
        requires
            config.is_valid(),
        ensures
            scheduler.wf(),
            scheduler.spec_settings() == default_settings(config, target, identifier),
            scheduler@ == initial(),
    {
        let interval: u32 = config.interval_us();
        Scheduler {
            settings: Settings {
                config,
                target,
                identifier,
                timeout_us: interval,
                grace_us: interval,
            },
            phase: Phase::Idle,
            now: 0,
            sent: 0,
            produced: 0,
            drain_started: 0,
            aborted: false,
            table: InFlightTable::new(),
        }
    }

    /// The same scheduler with another timeout, in microseconds.
    pub fn with_timeout(self, timeout_us: u32) -> (scheduler: Scheduler)
        requires
            self.wf(),
        ensures
            scheduler.wf(),
            scheduler@ == self@,
            scheduler.spec_settings() == (Settings { timeout_us, ..self.spec_settings() }),
    {
        let mut scheduler: Scheduler = self;
        scheduler.settings.timeout_us = timeout_us;
        scheduler
    }

    /// The same scheduler with another grace period, in microseconds.
    pub fn with_grace(self, grace_us: u32) -> (scheduler: Scheduler)
        requires
            self.wf(),
        ensures
            scheduler.wf(),
            scheduler@ == self@,
            scheduler.spec_settings() == (Settings { grace_us, ..self.spec_settings() }),
    {
        let mut scheduler: Scheduler = self;
        scheduler.settings.grace_us = grace_us;
        scheduler
    }

    /// What stays fixed through the run.
    pub fn settings(&self) -> (settings: Settings)
        ensures
            settings == self.spec_settings(),
    {
        self.settings
    }

    /// Where the run stands.
    pub fn phase(&self) -> (phase: Phase)
        ensures
            phase == self@.phase,
    {
        self.phase
    }

    /// How many requests were handed out.
    pub fn sent(&self) -> (n: u32)
        ensures
            n == self@.sent,
    {
        self.sent
    }

    /// How many outcomes were produced.
    pub fn produced(&self) -> (n: u32)
        ensures
            n == self@.produced,
    {
        self.produced
    }

    /// How many requests are in flight.
    pub fn in_flight(&self) -> (n: usize)
        ensures
            n == self@.in_flight.len(),
    {
        self.table.len()
    }

    /// Whether the run ended because the transport broke.
    pub fn aborted(&self) -> (aborted: bool)
        ensures
            aborted == self@.aborted,
    {
        self.aborted
    }

    /// The exit code of the process that made the run: zero, unless the
    /// transport broke.
    pub fn exit_code(&self) -> (code: i32)
        ensures
            code == (if self@.aborted {
                1i32
            } else {
                0i32
            }),
    {
        if self.aborted {
            1
        } else {
            0
        }
    }

    /// The request with the number `seq`.
    fn make_request(&self, seq: u32) -> (request: ProbeRequest)
        requires
            self.spec_settings().config.is_valid(),
        ensures
            is_request(request, self.spec_settings(), seq, self@.now),
    {
        let payload: Vec<u8> = make_payload(self.settings.config.payload_size);
        let packet: Vec<u8> = encode(
            (seq % 0x1_0000) as u16,
            self.settings.identifier,
            payload.as_slice(),
        );
        ProbeRequest {
            seq,
            sent_at: self.now,
            target: self.settings.target,
            ttl: self.settings.config.ttl,
            packet,
        }
    }

    /// Lets the requests that have timed out leave.
    fn expire(&mut self, outcomes: &mut Vec<ProbeOutcome>)
        requires
            old(self).wf(),
        ensures
            final(self).spec_settings() == old(self).spec_settings(),
            final(self)@ == expire(old(self).spec_settings(), old(self)@).state,
            final(outcomes)@ == old(outcomes)@ + expire(
                old(self).spec_settings(),
                old(self)@,
            ).outcomes,
            final(self).wf(),
            forall|i: int|
                0 <= i < final(self)@.in_flight.len() ==> !is_expired(
                    #[trigger] final(self)@.in_flight[i],
                    final(self)@.now,
                    final(self).spec_settings().timeout_us,
                ),
    {
        proof {
            lemma_expire(self.settings, self@);
            lemma_first_index_is_first(self@.in_flight, is_fresh(self.now, self.settings.timeout_us));
        }
        let gone: Vec<InFlight> = self.table.take_expired(self.now, self.settings.timeout_us);
        push_timeouts(outcomes, &gone);
        self.produced = self.produced + gone.len() as u32;
    }

    /// Hands out `outcome` for a request that has just left the table.
    fn count(&mut self, outcomes: &mut Vec<ProbeOutcome>, outcome: ProbeOutcome)
        requires
            old(self).produced < u32::MAX,
        ensures
            final(self).spec_settings() == old(self).spec_settings(),
            final(self)@ == (State { produced: (old(self)@.produced + 1) as u32, ..old(self)@ }),
            final(outcomes)@ == old(outcomes)@.push(outcome),
    {
        outcomes.push(outcome);
        self.produced = self.produced + 1;
    }

    /// Handles a message that arrived.
    fn packet(
        &mut self,
        outcomes: &mut Vec<ProbeOutcome>,
        from: ProbeTarget,
        ttl: u8,
        bytes: &Vec<u8>,
    ) -> (dropped: Option<DecodeError>)
        requires
            old(self).wf(),
            forall|i: int|
                0 <= i < old(self)@.in_flight.len() ==> !is_expired(
                    #[trigger] old(self)@.in_flight[i],
                    old(self)@.now,
                    old(self).spec_settings().timeout_us,
                ),
        ensures
            final(self).spec_settings() == old(self).spec_settings(),
            final(self)@ == on_packet(old(self).spec_settings(), old(self)@, from, ttl, bytes@).state,
            final(outcomes)@ == old(outcomes)@ + on_packet(
                old(self).spec_settings(),
                old(self)@,
                from,
                ttl,
                bytes@,
            ).outcomes,
            dropped == on_packet(old(self).spec_settings(), old(self)@, from, ttl, bytes@).dropped,
    {
        match decode(bytes.as_slice()) {
            Ok(ParsedMessage::EchoReply { seq, identifier, payload }) => {
                proof {
                    lemma_first_index_is_first(self@.in_flight, has_wire(seq));
                }
                if identifier == self.settings.identifier {
                    match self.table.take_by_wire(seq) {
                        Some(entry) => {
                            let outcome: ProbeOutcome = ProbeOutcome::Reply {
                                seq: entry.seq,
                                rtt: (self.now - entry.sent_at) as u32,
                                ttl,
                                addr: from,
                            };
                            self.count(outcomes, outcome);
                            proof {
                                assert(outcomes@ =~= old(outcomes)@ + seq![outcome]);
                            }
                        },
                        None => {
                            proof {
                                assert(outcomes@ =~= old(outcomes)@ + Seq::<ProbeOutcome>::empty());
                            }
                        },
                    }
                } else {
                    proof {
                        assert(outcomes@ =~= old(outcomes)@ + Seq::<ProbeOutcome>::empty());
                    }
                }
                None
            },
            Ok(ParsedMessage::TimeExceeded { original_seq, original_identifier }) => {
                proof {
                    lemma_first_index_is_first(self@.in_flight, has_wire(original_seq));
                }
                if original_identifier == self.settings.identifier {
                    match self.table.take_by_wire(original_seq) {
                        Some(entry) => {
                            let outcome: ProbeOutcome = ProbeOutcome::TtlExceeded {
                                seq: entry.seq,
                                addr: from,
                            };
                            self.count(outcomes, outcome);
                            proof {
                                assert(outcomes@ =~= old(outcomes)@ + seq![outcome]);
                            }
                        },
                        None => {
                            proof {
                                assert(outcomes@ =~= old(outcomes)@ + Seq::<ProbeOutcome>::empty());
                            }
                        },
                    }
                } else {
                    proof {
                        assert(outcomes@ =~= old(outcomes)@ + Seq::<ProbeOutcome>::empty());
                    }
                }
                None
            },
            Ok(ParsedMessage::Other) => {
                proof {
                    assert(outcomes@ =~= old(outcomes)@ + Seq::<ProbeOutcome>::empty());
                }
                None
            },
            Err(e) => {
                proof {
                    assert(outcomes@ =~= old(outcomes)@ + Seq::<ProbeOutcome>::empty());
                }
                Some(e)
            },
        }
    }

    /// Applies the stop condition and ends a drain that is over.
    fn settle(&mut self, outcomes: &mut Vec<ProbeOutcome>)
        requires
            old(self).wf(),
        ensures
            final(self).spec_settings() == old(self).spec_settings(),
            final(self)@ == settle(old(self).spec_settings(), old(self)@).state,
            final(outcomes)@ == old(outcomes)@ + settle(
                old(self).spec_settings(),
                old(self)@,
            ).outcomes,
            final(self).wf(),
    {
        proof {
            lemma_settle(self.settings, self@);
        }
        if self.phase == Phase::Running && self.produced >= self.settings.config.limit() {
            self.phase = Phase::Draining;
            self.drain_started = self.now;
        }
        if self.phase == Phase::Draining && (self.table.is_empty() || (self.now >= self.drain_started
            && self.now - self.drain_started >= self.settings.grace_us as u64)) {
            let gone: Vec<InFlight> = self.table.take_all();
            push_timeouts(outcomes, &gone);
            self.produced = self.produced + gone.len() as u32;
            self.phase = Phase::Stopped;
        } else {
            proof {
                assert(outcomes@ =~= old(outcomes)@ + Seq::<ProbeOutcome>::empty());
            }
        }
    }

    /// Takes one event and answers with what it came to.
    pub fn step(&mut self, event: Event) -> (reaction: Reaction)
        requires
            old(self).wf(),
        ensures
            final(self).wf(),
            final(self).spec_settings() == old(self).spec_settings(),
            final(self)@ == step(old(self).spec_settings(), old(self)@, event).state,
            reacts(
                reaction,
                step(old(self).spec_settings(), old(self)@, event),
                old(self).spec_settings(),
                old(self)@.sent,
            ),
    {
        let mut outcomes: Vec<ProbeOutcome> = Vec::new();
        let mut request: Option<ProbeRequest> = None;
        let mut dropped: Option<DecodeError> = None;
        let ghost settings: Settings = self.settings;
        match self.phase {
            Phase::Stopped => {},
            Phase::Idle => {
                if let Event::Start { now } = event {
                    if now > self.now {
                        self.now = now;
                    }
                    self.phase = Phase::Running;
                    self.settle(&mut outcomes);
                    proof {
                        assert(outcomes@ =~= step(settings, old(self)@, event).outcomes);
                    }
                }
            },
            _ => {
                let time: u64 = event.time();
                if time > self.now {
                    self.now = time;
                }
                proof {
                    lemma_advance(settings, old(self)@, time);
                }
                self.expire(&mut outcomes);
                let ghost expired: State = self@;
                let ghost after_expire: Seq<ProbeOutcome> = outcomes@;
                proof {
                    lemma_handle(settings, expired, event);
                    assert(after_expire =~= expire(settings, advance(old(self)@, time)).outcomes);
                }
                match event {
                    Event::Start { .. } => {},
                    Event::Quiet { .. } => {},
                    Event::SendDue { .. } => {
                        if self.phase == Phase::Running && self.sent < self.settings.config.limit() {
                            let seq: u32 = self.sent + 1;
                            self.table.record(seq, self.now);
                            self.sent = seq;
                            request = Some(self.make_request(seq));
                        }
                    },
                    Event::SendFailed { seq, .. } => {
                        match self.table.take_by_seq(seq) {
                            Some(entry) => {
                                self.count(
                                    &mut outcomes,
                                    ProbeOutcome::TransportError {
                                        seq,
                                        reason: TransportFault::SendFailed,
                                    },
                                );
                            },
                            None => {},
                        }
                    },
                    Event::Packet { from, ttl, bytes, .. } => {
                        dropped = self.packet(&mut outcomes, from, ttl, &bytes);
                    },
                    Event::ReceiveFailed { .. } => {
                        match self.table.take_oldest() {
                            Some(entry) => {
                                proof {
                                    assert(expired.in_flight.remove(0) =~= expired.in_flight.skip(1));
                                }
                                self.count(
                                    &mut outcomes,
                                    ProbeOutcome::TransportError {
                                        seq: entry.seq,
                                        reason: TransportFault::ReceiveFailed,
                                    },
                                );
                            },
                            None => {},
                        }
                    },
                    Event::Stop { .. } => {
                        if self.phase == Phase::Running {
                            self.phase = Phase::Draining;
                            self.drain_started = self.now;
                        }
                    },
                    Event::Broken { .. } => {
                        let gone: Vec<InFlight> = self.table.take_all();
                        push_failures(&mut outcomes, &gone, TransportFault::SocketUnusable);
                        self.produced = self.produced + gone.len() as u32;
                        self.phase = Phase::Stopped;
                        self.aborted = true;
                    },
                }
                proof {
                    let handled: Step = handle(settings, expired, event);
                    assert(self@ == handled.state);
                    assert(outcomes@ =~= after_expire + handled.outcomes);
                }
                self.settle(&mut outcomes);
            },
        }
        Reaction { outcomes, request, dropped }
    }
}

} // verus!
