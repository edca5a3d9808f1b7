//! Bookkeeping over whole runs: every request that is sent ends in exactly
//! one outcome.

use vstd::prelude::*;
use crate::codec::{spec_decode, MessageView};
use crate::inflight::{
    expired_count,
    first_index,
    has_seq,
    has_wire,
    is_fresh,
    lemma_first_index_is_first,
    ordered,
    InFlight,
};
use crate::model::{
    advance,
    expire,
    failed,
    handle,
    initial,
    inv,
    lemma_advance,
    lemma_expire,
    lemma_handle,
    lemma_run_accounts_for_every_request,
    lemma_step,
    run,
    settle,
    step,
    timed_out,
    Event,
    Phase,
    Settings,
    State,
    Step,
    Trace,
};
use crate::outcome::{ProbeOutcome, TransportFault};

verus! {

/// Whether one of `outcomes` is that of the request numbered `n`.
pub open spec fn names(outcomes: Seq<ProbeOutcome>, n: u32) -> bool {
    exists|i: int| 0 <= i < outcomes.len() && (#[trigger] outcomes[i]).spec_seq() == n
}

/// Whether the request numbered `n` is among `entries`.
pub open spec fn holds(entries: Seq<InFlight>, n: u32) -> bool {
    exists|j: int| 0 <= j < entries.len() && (#[trigger] entries[j]).seq == n
}

/// No two of `outcomes` are of the same request.
pub open spec fn distinct(outcomes: Seq<ProbeOutcome>) -> bool {
    forall|i: int, j: int|
        0 <= i < j < outcomes.len() ==> (#[trigger] outcomes[i]).spec_seq() != (
        #[trigger] outcomes[j]).spec_seq()
}

/// What becomes of the requests in flight: each of `before`, and the request
/// `fresh` where one was sent, is in `after` or has one of `outcomes`, never
/// both; and there is nothing in `after` or among `outcomes` but these.
pub open spec fn hands_over(
    before: Seq<InFlight>,
    after: Seq<InFlight>,
    outcomes: Seq<ProbeOutcome>,
    fresh: Option<u32>,
) -> bool {
    &&& distinct(outcomes)
    &&& forall|n: u32|
        #![trigger names(outcomes, n)]
        #![trigger holds(after, n)]
        !(names(outcomes, n) && holds(after, n))
    &&& forall|n: u32|
        #![trigger names(outcomes, n)]
        #![trigger holds(after, n)]
        #![trigger holds(before, n)]
        (names(outcomes, n) || holds(after, n)) <==> (holds(before, n) || fresh == Some(n))
}

proof fn lemma_names_concat(a: Seq<ProbeOutcome>, b: Seq<ProbeOutcome>)
    ensures
        forall|n: u32| #[trigger] names(a + b, n) <==> names(a, n) || names(b, n),
{
    let c: Seq<ProbeOutcome> = a + b;
    assert forall|n: u32| #[trigger] names(c, n) <==> names(a, n) || names(b, n) by {
        if names(c, n) {
            let i: int = choose|i: int| 0 <= i < c.len() && (#[trigger] c[i]).spec_seq() == n;
            if i < a.len() {
                assert(a[i].spec_seq() == n);
            } else {
                assert(b[i - a.len()].spec_seq() == n);
            }
        }
        if names(a, n) {
            let i: int = choose|i: int| 0 <= i < a.len() && (#[trigger] a[i]).spec_seq() == n;
            assert(c[i].spec_seq() == n);
        }
        if names(b, n) {
            let i: int = choose|i: int| 0 <= i < b.len() && (#[trigger] b[i]).spec_seq() == n;
            assert(c[i + a.len()].spec_seq() == n);
        }
    }
}

proof fn lemma_distinct_concat(a: Seq<ProbeOutcome>, b: Seq<ProbeOutcome>)
    requires
        distinct(a),
        distinct(b),
        forall|n: u32| !(#[trigger] names(a, n) && names(b, n)),
    ensures
        distinct(a + b),
{
    let c: Seq<ProbeOutcome> = a + b;
    assert forall|i: int, j: int| 0 <= i < j < c.len() implies (#[trigger] c[i]).spec_seq() != (
    #[trigger] c[j]).spec_seq() by {
        if i < a.len() && j >= a.len() {
            let n: u32 = a[i].spec_seq();
            assert(names(a, n));
            if b[j - a.len()].spec_seq() == n {
                assert(names(b, n));
            }
        } else if j < a.len() {
            assert(c[i] == a[i] && c[j] == a[j]);
        } else {
            assert(c[i] == b[i - a.len()] && c[j] == b[j - a.len()]);
        }
    }
}

proof fn lemma_names_of_timed_out(entries: Seq<InFlight>)
    ensures
        forall|n: u32| #[trigger] names(timed_out(entries), n) <==> holds(entries, n),
        ordered(entries) ==> distinct(timed_out(entries)),
{
    let o: Seq<ProbeOutcome> = timed_out(entries);
    assert forall|n: u32| #[trigger] names(o, n) <==> holds(entries, n) by {
        if names(o, n) {
            let i: int = choose|i: int| 0 <= i < o.len() && (#[trigger] o[i]).spec_seq() == n;
            assert(entries[i].seq == n);
        }
        if holds(entries, n) {
            let j: int = choose|j: int| 0 <= j < entries.len() && (#[trigger] entries[j]).seq == n;
            assert(o[j].spec_seq() == n);
        }
    }
    if ordered(entries) {
        assert forall|i: int, j: int| 0 <= i < j < o.len() implies (#[trigger] o[i]).spec_seq() != (
        #[trigger] o[j]).spec_seq() by {
            assert(entries[i].seq < entries[j].seq);
        }
    }
}

proof fn lemma_names_of_failed(entries: Seq<InFlight>, reason: TransportFault)
    ensures
        forall|n: u32| #[trigger] names(failed(entries, reason), n) <==> holds(entries, n),
        ordered(entries) ==> distinct(failed(entries, reason)),
{
    let o: Seq<ProbeOutcome> = failed(entries, reason);
    assert forall|n: u32| #[trigger] names(o, n) <==> holds(entries, n) by {
        if names(o, n) {
            let i: int = choose|i: int| 0 <= i < o.len() && (#[trigger] o[i]).spec_seq() == n;
            assert(entries[i].seq == n);
        }
        if holds(entries, n) {
            let j: int = choose|j: int| 0 <= j < entries.len() && (#[trigger] entries[j]).seq == n;
            assert(o[j].spec_seq() == n);
        }
    }
    if ordered(entries) {
        assert forall|i: int, j: int| 0 <= i < j < o.len() implies (#[trigger] o[i]).spec_seq() != (
        #[trigger] o[j]).spec_seq() by {
            assert(entries[i].seq < entries[j].seq);
        }
    }
}

proof fn lemma_nothing_named_or_held()
    ensures
        forall|n: u32| !#[trigger] names(Seq::<ProbeOutcome>::empty(), n),
        forall|n: u32| !#[trigger] holds(Seq::<InFlight>::empty(), n),
        distinct(Seq::<ProbeOutcome>::empty()),
{
}

proof fn lemma_holds_split(entries: Seq<InFlight>, k: int)
    requires
        0 <= k <= entries.len(),
    ensures
        forall|n: u32|
            #![trigger holds(entries.take(k), n)]
            #![trigger holds(entries.skip(k), n)]
            #![trigger holds(entries, n)]
            holds(entries, n) <==> holds(entries.take(k), n) || holds(entries.skip(k), n),
        ordered(entries) ==> forall|n: u32|
            #![trigger holds(entries.take(k), n)]
            #![trigger holds(entries.skip(k), n)]
            !(holds(entries.take(k), n) && holds(entries.skip(k), n)),
{
    let front: Seq<InFlight> = entries.take(k);
    let back: Seq<InFlight> = entries.skip(k);
    assert forall|n: u32|
        #![trigger holds(front, n)]
        #![trigger holds(back, n)]
        #![trigger holds(entries, n)]
        holds(entries, n) <==> holds(front, n) || holds(back, n) by {
        if holds(entries, n) {
            let j: int = choose|j: int| 0 <= j < entries.len() && (#[trigger] entries[j]).seq == n;
            if j < k {
                assert(front[j].seq == n);
            } else {
                assert(back[j - k].seq == n);
            }
        }
        if holds(front, n) {
            let j: int = choose|j: int| 0 <= j < front.len() && (#[trigger] front[j]).seq == n;
            assert(entries[j].seq == n);
        }
        if holds(back, n) {
            let j: int = choose|j: int| 0 <= j < back.len() && (#[trigger] back[j]).seq == n;
            assert(entries[j + k].seq == n);
        }
    }
    if ordered(entries) {
        assert forall|n: u32|
            #![trigger holds(front, n)]
            #![trigger holds(back, n)]
            !(holds(front, n) && holds(back, n)) by {
            if holds(front, n) && holds(back, n) {
                let i: int = choose|j: int| 0 <= j < front.len() && (#[trigger] front[j]).seq == n;
                let j: int = choose|j: int| 0 <= j < back.len() && (#[trigger] back[j]).seq == n;
                assert(entries[i].seq < entries[j + k].seq);
            }
        }
    }
}

proof fn lemma_holds_remove(entries: Seq<InFlight>, at: int)
    requires
        ordered(entries),
        0 <= at < entries.len(),
    ensures
        forall|n: u32|
            #![trigger holds(entries.remove(at), n)]
            #![trigger holds(entries, n)]
            holds(entries, n) <==> holds(entries.remove(at), n) || n == entries[at].seq,
        !holds(entries.remove(at), entries[at].seq),
{
    let rest: Seq<InFlight> = entries.remove(at);
    assert forall|n: u32|
        #![trigger holds(rest, n)]
        #![trigger holds(entries, n)]
        holds(entries, n) <==> holds(rest, n) || n == entries[at].seq by {
        if holds(entries, n) {
            let j: int = choose|j: int| 0 <= j < entries.len() && (#[trigger] entries[j]).seq == n;
            if j < at {
                assert(rest[j].seq == n);
            } else if j > at {
                assert(rest[j - 1].seq == n);
            }
        }
        if holds(rest, n) {
            let j: int = choose|j: int| 0 <= j < rest.len() && (#[trigger] rest[j]).seq == n;
            if j < at {
                assert(entries[j].seq == n);
            } else {
                assert(entries[j + 1].seq == n);
            }
        }
        if n == entries[at].seq {
            assert(entries[at].seq == n);
        }
    }
    if holds(rest, entries[at].seq) {
        let j: int = choose|j: int|
            0 <= j < rest.len() && (#[trigger] rest[j]).seq == entries[at].seq;
        if j < at {
            assert(entries[j].seq < entries[at].seq);
        } else {
            assert(rest[j] == entries[j + 1]);
            assert(entries[at].seq < entries[j + 1].seq);
        }
    }
}

proof fn lemma_holds_push(entries: Seq<InFlight>, entry: InFlight)
    ensures
        forall|n: u32|
            #![trigger holds(entries.push(entry), n)]
            #![trigger holds(entries, n)]
            holds(entries.push(entry), n) <==> holds(entries, n) || n == entry.seq,
{
    let more: Seq<InFlight> = entries.push(entry);
    assert forall|n: u32|
        #![trigger holds(more, n)]
        #![trigger holds(entries, n)]
        holds(more, n) <==> holds(entries, n) || n == entry.seq by {
        if holds(more, n) {
            let j: int = choose|j: int| 0 <= j < more.len() && (#[trigger] more[j]).seq == n;
            if j < entries.len() {
                assert(entries[j].seq == n);
            }
        }
        if holds(entries, n) {
            let j: int = choose|j: int| 0 <= j < entries.len() && (#[trigger] entries[j]).seq == n;
            assert(more[j].seq == n);
        }
        if n == entry.seq {
            assert(more[entries.len() as int].seq == n);
        }
    }
}

proof fn lemma_single_outcome(outcome: ProbeOutcome)
    ensures
        forall|n: u32| #[trigger] names(seq![outcome], n) <==> n == outcome.spec_seq(),
        distinct(seq![outcome]),
{
    let o: Seq<ProbeOutcome> = seq![outcome];
    assert forall|n: u32| #[trigger] names(o, n) <==> n == outcome.spec_seq() by {
        if n == outcome.spec_seq() {
            assert(o[0].spec_seq() == n);
        }
    }
}

/// Two steps in a row hand over what one step from the first state to the
/// last would.
proof fn lemma_hand_over_twice(
    a: Seq<InFlight>,
    b: Seq<InFlight>,
    c: Seq<InFlight>,
    first: Seq<ProbeOutcome>,
    second: Seq<ProbeOutcome>,
    fresh1: Option<u32>,
    fresh2: Option<u32>,
)
    requires
        hands_over(a, b, first, fresh1),
        hands_over(b, c, second, fresh2),
        fresh1 is None || fresh2 is None,
        fresh1 matches Some(m) ==> !holds(a, m),
        fresh2 matches Some(m) ==> !holds(a, m),
    ensures
        hands_over(a, c, first + second, if fresh1 is Some {
            fresh1
        } else {
            fresh2
        }),
{
    let both: Seq<ProbeOutcome> = first + second;
    let fresh: Option<u32> = if fresh1 is Some {
        fresh1
    } else {
        fresh2
    };
    lemma_names_concat(first, second);
    assert forall|n: u32| !(#[trigger] names(first, n) && names(second, n)) by {
        if names(first, n) && names(second, n) {
            assert(holds(b, n) || fresh2 == Some(n));
            assert(holds(a, n) || fresh1 == Some(n));
            assert(!holds(b, n));
        }
    }
    lemma_distinct_concat(first, second);
    assert forall|n: u32|
        #![trigger names(both, n)]
        #![trigger holds(c, n)]
        !(names(both, n) && holds(c, n)) by {
        if names(both, n) && holds(c, n) {
            assert(names(first, n) || names(second, n));
            assert(holds(b, n) || fresh2 == Some(n));
            if names(first, n) {
                assert(holds(a, n) || fresh1 == Some(n));
                assert(!holds(b, n));
            }
        }
    }
    assert forall|n: u32|
        #![trigger names(both, n)]
        #![trigger holds(c, n)]
        #![trigger holds(a, n)]
        (names(both, n) || holds(c, n)) <==> (holds(a, n) || fresh == Some(n)) by {
        assert(names(both, n) <==> names(first, n) || names(second, n));
        assert((names(first, n) || holds(b, n)) <==> (holds(a, n) || fresh1 == Some(n)));
        assert((names(second, n) || holds(c, n)) <==> (holds(b, n) || fresh2 == Some(n)));
    }
}

proof fn lemma_quiet_hands_over(entries: Seq<InFlight>)
    ensures
        hands_over(entries, entries, Seq::<ProbeOutcome>::empty(), None),
{
    lemma_nothing_named_or_held();
}

proof fn lemma_resolve_hands_over(entries: Seq<InFlight>, at: int, outcome: ProbeOutcome)
    requires
        ordered(entries),
        0 <= at < entries.len(),
        outcome.spec_seq() == entries[at].seq,
    ensures
        hands_over(entries, entries.remove(at), seq![outcome], None),
{
    lemma_single_outcome(outcome);
    lemma_holds_remove(entries, at);
}

proof fn lemma_flush_hands_over(entries: Seq<InFlight>, outcomes: Seq<ProbeOutcome>)
    requires
        ordered(entries),
        distinct(outcomes),
        forall|n: u32| #[trigger] names(outcomes, n) <==> holds(entries, n),
    ensures
        hands_over(entries, Seq::<InFlight>::empty(), outcomes, None),
{
    lemma_nothing_named_or_held();
}

proof fn lemma_expire_hands_over(settings: Settings, st: State)
    requires
        inv(settings, st),
    ensures
        hands_over(
            st.in_flight,
            expire(settings, st).state.in_flight,
            expire(settings, st).outcomes,
            None,
        ),
{
    let k: int = expired_count(st.in_flight, st.now, settings.timeout_us);
    lemma_first_index_is_first(st.in_flight, is_fresh(st.now, settings.timeout_us));
    lemma_holds_split(st.in_flight, k);
    lemma_names_of_timed_out(st.in_flight.take(k));
    assert(ordered(st.in_flight.take(k))) by {
        let front: Seq<InFlight> = st.in_flight.take(k);
        assert forall|i: int, j: int| 0 <= i < j < front.len() implies front[i].seq < front[j].seq
            && front[i].sent_at <= front[j].sent_at by {
            assert(front[i] == st.in_flight[i]);
            assert(front[j] == st.in_flight[j]);
        }
    }
}

proof fn lemma_handle_hands_over(settings: Settings, st: State, event: Event)
    requires
        inv(settings, st),
        st.phase == Phase::Running || st.phase == Phase::Draining,
    ensures
        hands_over(
            st.in_flight,
            handle(settings, st, event).state.in_flight,
            handle(settings, st, event).outcomes,
            if handle(settings, st, event).sends {
                Some((st.sent + 1) as u32)
            } else {
                None
            },
        ),
{
    lemma_quiet_hands_over(st.in_flight);
    match event {
        Event::SendDue { .. } => {
            if st.phase == Phase::Running && st.sent < settings.config.spec_limit() {
                lemma_nothing_named_or_held();
                lemma_holds_push(
                    st.in_flight,
                    InFlight { seq: (st.sent + 1) as u32, sent_at: st.now },
                );
            }
        },
        Event::SendFailed { seq, .. } => {
            let at: int = first_index(st.in_flight, has_seq(seq));
            lemma_first_index_is_first(st.in_flight, has_seq(seq));
            if at < st.in_flight.len() {
                assert(has_seq(seq)(st.in_flight[at]));
                lemma_resolve_hands_over(
                    st.in_flight,
                    at,
                    ProbeOutcome::TransportError { seq, reason: TransportFault::SendFailed },
                );
            }
        },
        Event::Packet { from, ttl, bytes, .. } => {
            match spec_decode(bytes@) {
                Ok(MessageView::EchoReply { seq, identifier, payload }) => {
                    let at: int = first_index(st.in_flight, has_wire(seq));
                    lemma_first_index_is_first(st.in_flight, has_wire(seq));
                    if identifier == settings.identifier && at < st.in_flight.len() {
                        lemma_resolve_hands_over(
                            st.in_flight,
                            at,
                            ProbeOutcome::Reply {
                                seq: st.in_flight[at].seq,
                                rtt: (st.now - st.in_flight[at].sent_at) as u32,
                                ttl,
                                addr: from,
                            },
                        );
                    }
                },
                Ok(MessageView::TimeExceeded { original_seq, original_identifier }) => {
                    let at: int = first_index(st.in_flight, has_wire(original_seq));
                    lemma_first_index_is_first(st.in_flight, has_wire(original_seq));
                    if original_identifier == settings.identifier && at < st.in_flight.len() {
                        lemma_resolve_hands_over(
                            st.in_flight,
                            at,
                            ProbeOutcome::TtlExceeded { seq: st.in_flight[at].seq, addr: from },
                        );
                    }
                },
                _ => {},
            }
        },
        Event::ReceiveFailed { .. } => {
            if st.in_flight.len() > 0 {
                lemma_resolve_hands_over(
                    st.in_flight,
                    0,
                    ProbeOutcome::TransportError {
                        seq: st.in_flight[0].seq,
                        reason: TransportFault::ReceiveFailed,
                    },
                );
            }
        },
        Event::Broken { .. } => {
            lemma_names_of_failed(st.in_flight, TransportFault::SocketUnusable);
            lemma_flush_hands_over(
                st.in_flight,
                failed(st.in_flight, TransportFault::SocketUnusable),
            );
        },
        _ => {},
    }
}

proof fn lemma_settle_hands_over(settings: Settings, st: State)
    requires
        inv(settings, st),
    ensures
        hands_over(
            st.in_flight,
            settle(settings, st).state.in_flight,
            settle(settings, st).outcomes,
            None,
        ),
{
    lemma_quiet_hands_over(st.in_flight);
    lemma_names_of_timed_out(st.in_flight);
    lemma_flush_hands_over(st.in_flight, timed_out(st.in_flight));
}

/// What a step hands out comes from the table: every request that was in
/// flight, and the one that the step sends, is in flight afterwards or has
/// exactly one of the step's outcomes; and the step has no other outcomes.
pub proof fn lemma_step_hands_over(settings: Settings, st: State, event: Event)
    requires
        inv(settings, st),
    ensures
        hands_over(
            st.in_flight,
            step(settings, st, event).state.in_flight,
            step(settings, st, event).outcomes,
            if step(settings, st, event).sends {
                Some((st.sent + 1) as u32)
            } else {
                None
            },
        ),
{
    match st.phase {
        Phase::Stopped => {
            lemma_quiet_hands_over(st.in_flight);
        },
        Phase::Idle => {
            match event {
                Event::Start { now } => {
                    let started: State = State { phase: Phase::Running, ..advance(st, now) };
                    lemma_settle_hands_over(settings, started);
                },
                _ => {
                    lemma_quiet_hands_over(st.in_flight);
                },
            }
        },
        _ => {
            let moved: State = advance(st, event.spec_time());
            lemma_advance(settings, st, event.spec_time());
            let expired: Step = expire(settings, moved);
            lemma_expire(settings, moved);
            lemma_expire_hands_over(settings, moved);
            let handled: Step = handle(settings, expired.state, event);
            lemma_handle(settings, expired.state, event);
            lemma_handle_hands_over(settings, expired.state, event);
            let settled: Step = settle(settings, handled.state);
            lemma_settle_hands_over(settings, handled.state);
            let fresh: Option<u32> = if handled.sends {
                Some((st.sent + 1) as u32)
            } else {
                None
            };
            if holds(st.in_flight, (st.sent + 1) as u32) {
                let j: int = choose|j: int|
                    0 <= j < st.in_flight.len() && (#[trigger] st.in_flight[j]).seq == (st.sent
                        + 1) as u32;
                assert(st.in_flight[j].seq <= st.sent);
            }
            lemma_hand_over_twice(
                st.in_flight,
                expired.state.in_flight,
                handled.state.in_flight,
                expired.outcomes,
                handled.outcomes,
                None,
                fresh,
            );
            lemma_hand_over_twice(
                st.in_flight,
                handled.state.in_flight,
                settled.state.in_flight,
                expired.outcomes + handled.outcomes,
                settled.outcomes,
                fresh,
                None,
            );
        },
    }
}

/// Exactly once. Whatever events a run sees from its beginning: no two of its
/// outcomes are of the same request; an outcome is of a request that was
/// sent and is no longer in flight; and every request that was sent is in
/// flight or has its outcome. So once the run has stopped, every request has
/// exactly one outcome.
pub proof fn lemma_every_request_has_one_outcome(settings: Settings, events: Seq<Event>)
    requires
        settings.config.is_valid(),
    ensures
        distinct(run(settings, initial(), events).outcomes),
        forall|n: u32| #[trigger]
            names(run(settings, initial(), events).outcomes, n) ==> 1 <= n <= run(
                settings,
                initial(),
                events,
            ).requests && !holds(run(settings, initial(), events).state.in_flight, n),
        forall|n: u32|
            1 <= n <= run(settings, initial(), events).requests ==> #[trigger] names(
                run(settings, initial(), events).outcomes,
                n,
            ) || holds(run(settings, initial(), events).state.in_flight, n),
        run(settings, initial(), events).state.phase == Phase::Stopped ==> forall|n: u32|
            1 <= n <= run(settings, initial(), events).requests ==> #[trigger] names(
                run(settings, initial(), events).outcomes,
                n,
            ),
    decreases events.len(),
{
    let t: Trace = run(settings, initial(), events);
    lemma_run_accounts_for_every_request(settings, events);
    lemma_nothing_named_or_held();
    if events.len() > 0 {
        let before: Trace = run(settings, initial(), events.drop_last());
        lemma_every_request_has_one_outcome(settings, events.drop_last());
        lemma_run_accounts_for_every_request(settings, events.drop_last());
        let last: Step = step(settings, before.state, events.last());
        lemma_step(settings, before.state, events.last());
        lemma_step_hands_over(settings, before.state, events.last());
        lemma_names_concat(before.outcomes, last.outcomes);
        let fresh: Option<u32> = if last.sends {
            Some((before.state.sent + 1) as u32)
        } else {
            None
        };
        assert forall|n: u32| #[trigger] holds(before.state.in_flight, n) implies 1 <= n
            <= before.requests by {
            let j: int = choose|j: int|
                0 <= j < before.state.in_flight.len() && (#[trigger] before.state.in_flight[j]).seq
                    == n;
        }
        assert forall|n: u32| !(#[trigger] names(before.outcomes, n) && names(last.outcomes, n)) by {
            if names(before.outcomes, n) && names(last.outcomes, n) {
                assert(holds(before.state.in_flight, n) || fresh == Some(n));
            }
        }
        lemma_distinct_concat(before.outcomes, last.outcomes);
        assert forall|n: u32| #[trigger] names(t.outcomes, n) implies 1 <= n <= t.requests && !holds(
            t.state.in_flight,
            n,
        ) by {
            if names(last.outcomes, n) {
                assert(holds(before.state.in_flight, n) || fresh == Some(n));
                assert(!holds(last.state.in_flight, n));
            } else {
                assert(names(before.outcomes, n));
                if holds(last.state.in_flight, n) {
                    assert(holds(before.state.in_flight, n) || fresh == Some(n));
                }
            }
        }
        assert forall|n: u32| 1 <= n <= t.requests implies #[trigger] names(t.outcomes, n) || holds(
            t.state.in_flight,
            n,
        ) by {
            if n <= before.requests {
                assert(names(before.outcomes, n) || holds(before.state.in_flight, n));
                if holds(before.state.in_flight, n) {
                    assert(names(last.outcomes, n) || holds(last.state.in_flight, n));
                }
            } else {
                assert(fresh == Some(n));
                assert(names(last.outcomes, n) || holds(last.state.in_flight, n)) by {
                    assert((names(last.outcomes, n) || holds(last.state.in_flight, n)) <==> (holds(
                        before.state.in_flight,
                        n,
                    ) || fresh == Some(n)));
                }
            }
        }
    }
    if t.state.phase == Phase::Stopped {
        assert forall|n: u32| 1 <= n <= t.requests implies #[trigger] names(t.outcomes, n) by {
            assert(names(t.outcomes, n) || holds(t.state.in_flight, n));
        }
    }
}

} // verus!
