use ping_util_rs::checksum::checksum;
use ping_util_rs::codec::{decode, DecodeError, ParsedMessage};
use ping_util_rs::config::{ConfigError, Opt, ProbeConfig};
use ping_util_rs::inflight::{InFlight, InFlightTable};
use ping_util_rs::model::{Event, Phase};
use ping_util_rs::outcome::{AddressFamily, ProbeOutcome, ProbeTarget, TransportFault};
use ping_util_rs::report::summary;
use ping_util_rs::scheduler::{make_payload, ProbeRequest, Reaction, Scheduler};
use ping_util_rs::stats::RunningStats;

const TARGET: ProbeTarget = ProbeTarget::V4(0x0a00_0001);
const ROUTER: ProbeTarget = ProbeTarget::V4(0x0a00_00fe);
const IDENT: u16 = 0x4242;

fn config(count: Option<u32>) -> ProbeConfig {
    ProbeConfig { ttl: 64, payload_size: 56, interval_ms: 1000, max_packets: count }
}

fn scheduler(count: Option<u32>) -> Scheduler {
    Scheduler::new(config(count), TARGET, IDENT)
}

fn with_sum(mut bytes: Vec<u8>) -> Vec<u8> {
    bytes[2] = 0;
    bytes[3] = 0;
    let sum = checksum(&bytes);
    bytes[2] = (sum >> 8) as u8;
    bytes[3] = (sum & 0xff) as u8;
    bytes
}

/// The Echo Reply that the target sends back for a request.
fn reply_to(request: &ProbeRequest) -> Vec<u8> {
    let mut reply = request.packet.clone();
    reply[0] = 0;
    with_sum(reply)
}

/// The Time Exceeded message that a router sends back for a request.
fn time_exceeded_for(request: &ProbeRequest) -> Vec<u8> {
    let mut bytes = vec![11u8, 0, 0, 0, 0, 0, 0, 0];
    bytes.extend_from_slice(&[0x45, 0, 0, 84, 0, 0, 0, 0, 1, 1, 0, 0, 10, 0, 0, 9, 10, 0, 0, 1]);
    bytes.extend_from_slice(&request.packet[..8]);
    with_sum(bytes)
}

fn send(s: &mut Scheduler, now: u64) -> ProbeRequest {
    let reaction = s.step(Event::SendDue { now });
    assert!(reaction.dropped.is_none());
    reaction.request.expect("a request is due")
}

fn packet(s: &mut Scheduler, now: u64, from: ProbeTarget, bytes: Vec<u8>) -> Reaction {
    s.step(Event::Packet { now, from, ttl: 57, bytes })
}

#[test]
fn a_new_scheduler_is_idle() {
    let s = scheduler(Some(4));
    assert_eq!(s.phase(), Phase::Idle);
    assert_eq!(s.sent(), 0);
    assert_eq!(s.produced(), 0);
    assert_eq!(s.in_flight(), 0);
    assert!(!s.aborted());
    assert_eq!(s.exit_code(), 0);
    let settings = s.settings();
    assert_eq!(settings.config, config(Some(4)));
    assert_eq!(settings.target, TARGET);
    assert_eq!(settings.identifier, IDENT);
    assert_eq!(settings.timeout_us, 1_000_000);
    assert_eq!(settings.grace_us, 1_000_000);
}

#[test]
fn timeout_and_grace_can_be_set() {
    let s = scheduler(None).with_timeout(5_000_000).with_grace(250_000);
    assert_eq!(s.settings().timeout_us, 5_000_000);
    assert_eq!(s.settings().grace_us, 250_000);
    assert_eq!(s.settings().config, config(None));
    assert_eq!(s.phase(), Phase::Idle);
}

#[test]
fn an_idle_scheduler_heeds_only_its_start() {
    let mut s = scheduler(Some(4));
    for event in [
        Event::SendDue { now: 5 },
        Event::Quiet { now: 6 },
        Event::Stop { now: 7 },
        Event::ReceiveFailed { now: 8 },
        Event::SendFailed { now: 9, seq: 1 },
        Event::Broken { now: 10 },
    ] {
        let reaction = s.step(event);
        assert_eq!(reaction, Reaction { outcomes: vec![], request: None, dropped: None });
        assert_eq!(s.phase(), Phase::Idle);
    }
    s.step(Event::Start { now: 11 });
    assert_eq!(s.phase(), Phase::Running);
    assert_eq!(s.exit_code(), 0);
}

#[test]
fn a_run_of_no_probes_stops_at_its_start() {
    let mut s = scheduler(Some(0));
    let reaction = s.step(Event::Start { now: 0 });
    assert_eq!(reaction, Reaction { outcomes: vec![], request: None, dropped: None });
    assert_eq!(s.phase(), Phase::Stopped);
    assert_eq!(s.sent(), 0);
}

#[test]
fn requests_are_numbered_from_one_and_carry_the_settings() {
    let mut s = scheduler(None);
    s.step(Event::Start { now: 100 });
    for n in 1..=5u32 {
        let now = 100 + (n as u64 - 1) * 1000;
        let request = send(&mut s, now);
        assert_eq!(request.seq, n);
        assert_eq!(request.sent_at, now);
        assert_eq!(request.target, TARGET);
        assert_eq!(request.ttl, 64);
        assert_eq!(request.packet.len(), 64);
        assert_eq!(request.packet[0], 8);
        assert_eq!(&request.packet[4..8], &[0x42, 0x42, 0, n as u8]);
        assert_eq!(&request.packet[8..], &make_payload(56)[..]);
        assert_eq!(s.sent(), n);
        assert_eq!(s.in_flight(), n as usize);
    }
}

#[test]
fn payload_counts_up_and_starts_over() {
    assert_eq!(make_payload(0), Vec::<u8>::new());
    assert_eq!(make_payload(3), vec![0, 1, 2]);
    let long = make_payload(600);
    assert_eq!(long.len(), 600);
    assert_eq!(long[255], 255);
    assert_eq!(long[256], 0);
    assert_eq!(long[599], (599 % 256) as u8);
}

#[test]
fn four_probes_all_answered() {
    let mut s = Scheduler::new(
        ProbeConfig { ttl: 64, payload_size: 56, interval_ms: 1000, max_packets: Some(4) },
        TARGET,
        IDENT,
    );
    let mut stats = RunningStats::new();
    let mut lines: Vec<ProbeOutcome> = Vec::new();
    s.step(Event::Start { now: 0 });
    let rtts = [12_000u32, 15_000, 11_000, 20_000];
    for (i, rtt) in rtts.iter().enumerate() {
        let at = i as u64 * 1_000_000;
        let request = send(&mut s, at);
        assert_eq!(request.seq, i as u32 + 1);
        let reaction = packet(&mut s, at + *rtt as u64, TARGET, reply_to(&request));
        assert_eq!(
            reaction.outcomes,
            vec![ProbeOutcome::Reply { seq: i as u32 + 1, rtt: *rtt, ttl: 57, addr: TARGET }]
        );
        for outcome in &reaction.outcomes {
            stats.observe(outcome);
            lines.push(*outcome);
        }
    }
    assert_eq!(s.phase(), Phase::Stopped);
    assert_eq!(s.sent(), 4);
    assert_eq!(s.produced(), 4);
    assert_eq!(s.in_flight(), 0);
    assert_eq!(lines.len(), 4);
    let snapshot = stats.snapshot();
    assert_eq!(snapshot.rtt_stddev, 3_500);
    assert_eq!(
        summary("10.0.0.1", &snapshot),
        "--- 10.0.0.1 ping statistics ---\n\
         4 packets transmitted, 4 packets received, 0% packet loss\n\
         round-trip min/avg/max/stddev = 11.000/14.500/20.000/3.500 ms"
    );
    // a stopped run sends nothing more
    let after = s.step(Event::SendDue { now: 4_000_000 });
    assert_eq!(after, Reaction { outcomes: vec![], request: None, dropped: None });
}

#[test]
fn unreachable_target_times_out_every_probe() {
    let mut s = scheduler(Some(3));
    let mut stats = RunningStats::new();
    let mut outcomes: Vec<ProbeOutcome> = Vec::new();
    s.step(Event::Start { now: 0 });
    let mut now = 0u64;
    while s.phase() != Phase::Stopped {
        let reaction = s.step(Event::SendDue { now });
        outcomes.extend(reaction.outcomes);
        let reaction = s.step(Event::Quiet { now: now + 500_000 });
        outcomes.extend(reaction.outcomes);
        now += 1_000_000;
        assert!(now < 10_000_000);
    }
    assert_eq!(
        outcomes,
        vec![
            ProbeOutcome::Timeout { seq: 1 },
            ProbeOutcome::Timeout { seq: 2 },
            ProbeOutcome::Timeout { seq: 3 },
        ]
    );
    assert_eq!(s.sent(), 3);
    for outcome in &outcomes {
        stats.observe(outcome);
    }
    let text = summary("10.0.0.1", &stats.snapshot());
    assert!(text.contains("3 packets transmitted, 0 packets received, 100% packet loss"));
}

#[test]
fn a_request_times_out_only_after_more_than_the_timeout() {
    let mut s = scheduler(None);
    s.step(Event::Start { now: 0 });
    send(&mut s, 10);
    assert_eq!(s.step(Event::Quiet { now: 1_000_010 }).outcomes, vec![]);
    assert_eq!(
        s.step(Event::Quiet { now: 1_000_011 }).outcomes,
        vec![ProbeOutcome::Timeout { seq: 1 }]
    );
    assert_eq!(s.in_flight(), 0);
    assert_eq!(s.produced(), 1);
}

#[test]
fn a_reply_after_the_timeout_is_too_late() {
    let mut s = scheduler(None);
    s.step(Event::Start { now: 0 });
    let request = send(&mut s, 0);
    let reaction = packet(&mut s, 1_000_001, TARGET, reply_to(&request));
    assert_eq!(reaction.outcomes, vec![ProbeOutcome::Timeout { seq: 1 }]);
    assert!(reaction.dropped.is_none());
}

#[test]
fn a_longer_timeout_waits_longer() {
    let mut s = scheduler(None).with_timeout(3_000_000);
    s.step(Event::Start { now: 0 });
    let first = send(&mut s, 0);
    send(&mut s, 1_000_000);
    send(&mut s, 2_000_000);
    assert_eq!(s.in_flight(), 3);
    let reaction = packet(&mut s, 2_999_999, TARGET, reply_to(&first));
    assert_eq!(
        reaction.outcomes,
        vec![ProbeOutcome::Reply { seq: 1, rtt: 2_999_999, ttl: 57, addr: TARGET }]
    );
    assert_eq!(
        s.step(Event::Quiet { now: 5_000_001 }).outcomes,
        vec![ProbeOutcome::Timeout { seq: 2 }, ProbeOutcome::Timeout { seq: 3 }]
    );
}

#[test]
fn a_second_reply_to_one_request_is_not_heeded() {
    let mut s = scheduler(None);
    s.step(Event::Start { now: 0 });
    let request = send(&mut s, 0);
    assert_eq!(packet(&mut s, 5, TARGET, reply_to(&request)).outcomes.len(), 1);
    let again = packet(&mut s, 6, TARGET, reply_to(&request));
    assert_eq!(again, Reaction { outcomes: vec![], request: None, dropped: None });
    assert_eq!(s.produced(), 1);
}

#[test]
fn a_reply_for_another_identifier_is_not_heeded() {
    let mut s = scheduler(None);
    s.step(Event::Start { now: 0 });
    let request = send(&mut s, 0);
    let mut foreign = reply_to(&request);
    foreign[4] ^= 0xff;
    let reaction = packet(&mut s, 5, TARGET, with_sum(foreign));
    assert_eq!(reaction, Reaction { outcomes: vec![], request: None, dropped: None });
    assert_eq!(s.in_flight(), 1);
}

#[test]
fn the_own_request_heard_back_is_not_a_reply() {
    let mut s = scheduler(None);
    s.step(Event::Start { now: 0 });
    let request = send(&mut s, 0);
    assert_eq!(decode(&request.packet), Ok(ParsedMessage::Other));
    let reaction = packet(&mut s, 5, TARGET, request.packet.clone());
    assert_eq!(reaction, Reaction { outcomes: vec![], request: None, dropped: None });
    assert_eq!(s.in_flight(), 1);
}

#[test]
fn packets_that_do_not_decode_are_dropped() {
    let mut s = scheduler(None);
    s.step(Event::Start { now: 0 });
    let request = send(&mut s, 0);
    let mut corrupted = reply_to(&request);
    corrupted[30] ^= 4;
    let reaction = packet(&mut s, 5, TARGET, corrupted);
    assert_eq!(reaction.outcomes, vec![]);
    assert_eq!(reaction.dropped, Some(DecodeError::ChecksumMismatch));
    assert_eq!(packet(&mut s, 6, TARGET, vec![0, 0]).dropped, Some(DecodeError::Truncated));
    assert_eq!(
        packet(&mut s, 7, TARGET, with_sum(vec![99, 0, 0, 0, 0, 0, 0, 0])).dropped,
        Some(DecodeError::UnrecognizedType)
    );
    assert_eq!(s.in_flight(), 1);
    assert_eq!(s.phase(), Phase::Running);
}

#[test]
fn time_exceeded_ends_the_quoted_request() {
    let mut s = scheduler(None);
    s.step(Event::Start { now: 0 });
    let first = send(&mut s, 0);
    let second = send(&mut s, 10);
    let reaction = packet(&mut s, 20, ROUTER, time_exceeded_for(&second));
    assert_eq!(reaction.outcomes, vec![ProbeOutcome::TtlExceeded { seq: 2, addr: ROUTER }]);
    assert_eq!(s.in_flight(), 1);
    let reaction = packet(&mut s, 30, TARGET, reply_to(&first));
    assert_eq!(
        reaction.outcomes,
        vec![ProbeOutcome::Reply { seq: 1, rtt: 30, ttl: 57, addr: TARGET }]
    );
    let reaction = packet(&mut s, 40, ROUTER, time_exceeded_for(&second));
    assert_eq!(reaction.outcomes, vec![]);
}

#[test]
fn time_exceeded_for_another_identifier_is_not_heeded() {
    let mut s = scheduler(None);
    s.step(Event::Start { now: 0 });
    let request = send(&mut s, 0);
    let mut foreign = time_exceeded_for(&request);
    foreign[32] ^= 0x01;
    let reaction = packet(&mut s, 5, ROUTER, with_sum(foreign));
    assert_eq!(reaction, Reaction { outcomes: vec![], request: None, dropped: None });
    assert_eq!(s.in_flight(), 1);
}

#[test]
fn a_failed_send_ends_its_request() {
    let mut s = scheduler(Some(2));
    s.step(Event::Start { now: 0 });
    send(&mut s, 0);
    let reaction = s.step(Event::SendFailed { now: 1, seq: 1 });
    assert_eq!(
        reaction.outcomes,
        vec![ProbeOutcome::TransportError { seq: 1, reason: TransportFault::SendFailed }]
    );
    assert_eq!(s.phase(), Phase::Running);
    assert_eq!(s.step(Event::SendFailed { now: 2, seq: 1 }).outcomes, vec![]);
    assert_eq!(s.step(Event::SendFailed { now: 2, seq: 77 }).outcomes, vec![]);
    send(&mut s, 1000);
    let reaction = s.step(Event::SendFailed { now: 1001, seq: 2 });
    assert_eq!(reaction.outcomes.len(), 1);
    assert_eq!(s.phase(), Phase::Stopped);
    assert_eq!(s.exit_code(), 0);
}

#[test]
fn a_failed_receive_ends_the_oldest_request() {
    let mut s = scheduler(None).with_timeout(10_000_000);
    s.step(Event::Start { now: 0 });
    assert_eq!(s.step(Event::ReceiveFailed { now: 1 }).outcomes, vec![]);
    send(&mut s, 2);
    send(&mut s, 3);
    assert_eq!(
        s.step(Event::ReceiveFailed { now: 4 }).outcomes,
        vec![ProbeOutcome::TransportError { seq: 1, reason: TransportFault::ReceiveFailed }]
    );
    assert_eq!(s.in_flight(), 1);
    assert_eq!(s.phase(), Phase::Running);
}

#[test]
fn a_broken_transport_aborts_the_run() {
    let mut s = scheduler(None).with_timeout(10_000_000);
    s.step(Event::Start { now: 0 });
    send(&mut s, 0);
    send(&mut s, 1);
    let reaction = s.step(Event::Broken { now: 2 });
    assert_eq!(
        reaction.outcomes,
        vec![
            ProbeOutcome::TransportError { seq: 1, reason: TransportFault::SocketUnusable },
            ProbeOutcome::TransportError { seq: 2, reason: TransportFault::SocketUnusable },
        ]
    );
    assert_eq!(s.phase(), Phase::Stopped);
    assert!(s.aborted());
    assert_eq!(s.exit_code(), 1);
    assert_eq!(s.produced(), s.sent());
}

#[test]
fn stop_with_two_probes_in_flight_flushes_both_as_timeouts() {
    let mut s = scheduler(None).with_timeout(5_000_000).with_grace(1_000_000);
    s.step(Event::Start { now: 0 });
    let first = send(&mut s, 0);
    packet(&mut s, 10, TARGET, reply_to(&first));
    send(&mut s, 1_000_000);
    send(&mut s, 2_000_000);
    assert_eq!(s.in_flight(), 2);
    let reaction = s.step(Event::Stop { now: 2_100_000 });
    assert_eq!(reaction, Reaction { outcomes: vec![], request: None, dropped: None });
    assert_eq!(s.phase(), Phase::Draining);
    // a draining run sends nothing more
    assert!(s.step(Event::SendDue { now: 3_000_000 }).request.is_none());
    assert_eq!(s.phase(), Phase::Draining);
    assert_eq!(s.step(Event::Quiet { now: 3_099_999 }).outcomes, vec![]);
    let reaction = s.step(Event::Quiet { now: 3_100_000 });
    assert_eq!(
        reaction.outcomes,
        vec![ProbeOutcome::Timeout { seq: 2 }, ProbeOutcome::Timeout { seq: 3 }]
    );
    assert_eq!(s.phase(), Phase::Stopped);
    assert_eq!(s.produced(), 3);
    assert_eq!(s.sent(), 3);
    assert_eq!(s.exit_code(), 0);
}

#[test]
fn a_draining_run_still_takes_replies_and_stops_when_none_is_outstanding() {
    let mut s = scheduler(None).with_grace(4_000_000).with_timeout(4_000_000);
    s.step(Event::Start { now: 0 });
    let first = send(&mut s, 0);
    let second = send(&mut s, 1_000);
    s.step(Event::Stop { now: 2_000 });
    assert_eq!(s.phase(), Phase::Draining);
    let reaction = packet(&mut s, 3_000, TARGET, reply_to(&second));
    assert_eq!(
        reaction.outcomes,
        vec![ProbeOutcome::Reply { seq: 2, rtt: 2_000, ttl: 57, addr: TARGET }]
    );
    assert_eq!(s.phase(), Phase::Draining);
    let reaction = packet(&mut s, 4_000, TARGET, reply_to(&first));
    assert_eq!(reaction.outcomes.len(), 1);
    assert_eq!(s.phase(), Phase::Stopped);
}

#[test]
fn stop_with_nothing_in_flight_stops_at_once() {
    let mut s = scheduler(None);
    s.step(Event::Start { now: 0 });
    s.step(Event::Stop { now: 1 });
    assert_eq!(s.phase(), Phase::Stopped);
}

#[test]
fn the_clock_does_not_run_backwards() {
    let mut s = scheduler(None);
    s.step(Event::Start { now: 1_000 });
    let request = send(&mut s, 500);
    assert_eq!(request.sent_at, 1_000);
    let reaction = packet(&mut s, 900, TARGET, reply_to(&request));
    assert_eq!(
        reaction.outcomes,
        vec![ProbeOutcome::Reply { seq: 1, rtt: 0, ttl: 57, addr: TARGET }]
    );
}

#[test]
fn no_more_requests_are_sent_than_the_run_may_send() {
    let mut s = scheduler(Some(2)).with_timeout(60_000_000);
    s.step(Event::Start { now: 0 });
    send(&mut s, 0);
    send(&mut s, 1_000_000);
    for k in 2..10u64 {
        assert!(s.step(Event::SendDue { now: k * 1_000_000 }).request.is_none());
    }
    assert_eq!(s.phase(), Phase::Running);
    assert_eq!(s.sent(), 2);
    assert_eq!(s.in_flight(), 2);
}

#[test]
fn sequence_numbers_beyond_sixteen_bits_travel_by_their_low_bits() {
    let mut s = scheduler(None);
    s.step(Event::Start { now: 0 });
    let mut now = 0u64;
    let mut last = None;
    for n in 1..=65_537u32 {
        let request = send(&mut s, now);
        let reaction = packet(&mut s, now + 1, TARGET, reply_to(&request));
        assert_eq!(
            reaction.outcomes,
            vec![ProbeOutcome::Reply { seq: n, rtt: 1, ttl: 57, addr: TARGET }]
        );
        now += 10;
        last = Some(request);
    }
    let last = last.expect("requests were sent");
    assert_eq!(last.seq, 65_537);
    assert_eq!(&last.packet[6..8], &[0, 1]);
}

#[test]
fn every_request_ends_in_exactly_one_outcome() {
    // a made-up run: replies to some requests, in and out of order, twice or
    // never, and every kind of mishap in between
    let mut state = 12345u32;
    let mut next = move || {
        state = state.wrapping_mul(1_103_515_245).wrapping_add(12_345);
        (state >> 16) & 0x7fff
    };
    for round in 0..50 {
        let mut s = scheduler(if round % 2 == 0 { None } else { Some(round) })
            .with_timeout(1_500_000 + next())
            .with_grace(next() * 100);
        let mut requests: Vec<ProbeRequest> = Vec::new();
        let mut outcomes: Vec<ProbeOutcome> = Vec::new();
        let mut now = 0u64;
        s.step(Event::Start { now });
        let mut steps = 0;
        while s.phase() != Phase::Stopped {
            steps += 1;
            now += (next() as u64) * 40;
            let event = if steps > 300 {
                Event::Stop { now }
            } else {
                match next() % 8 {
                    0 | 1 | 2 => Event::SendDue { now },
                    3 | 4 if !requests.is_empty() => {
                        let request = &requests[next() as usize % requests.len()];
                        Event::Packet { now, from: TARGET, ttl: 1, bytes: reply_to(request) }
                    }
                    5 if !requests.is_empty() => {
                        let request = &requests[next() as usize % requests.len()];
                        Event::Packet { now, from: ROUTER, ttl: 1, bytes: time_exceeded_for(request) }
                    }
                    6 => Event::ReceiveFailed { now },
                    7 if !requests.is_empty() => {
                        Event::SendFailed { now, seq: requests[requests.len() - 1].seq }
                    }
                    _ => Event::Quiet { now },
                }
            };
            let reaction = s.step(event);
            outcomes.extend(reaction.outcomes);
            requests.extend(reaction.request);
            assert_eq!(s.sent() as usize, requests.len());
            assert_eq!(s.produced() as usize, outcomes.len());
            assert_eq!(s.in_flight() + outcomes.len(), requests.len());
            assert!(steps < 10_000);
        }
        assert_eq!(outcomes.len(), requests.len());
        assert_eq!(s.in_flight(), 0);
        let mut seen: Vec<u32> = outcomes.iter().map(|o| o.seq()).collect();
        seen.sort();
        let sent: Vec<u32> = requests.iter().map(|r| r.seq).collect();
        assert_eq!(seen, sent);
        assert_eq!(sent, (1..=requests.len() as u32).collect::<Vec<u32>>());
    }
}

#[test]
fn default_options_are_valid() {
    let opt = Opt::new(TARGET);
    assert!(!opt.debug);
    assert_eq!(opt.ip, TARGET);
    assert_eq!(opt.ttl, 255);
    assert_eq!(opt.max_packets, -1);
    assert_eq!(opt.packet_size, 56);
    assert_eq!(opt.max_rtt, 1000);
    assert_eq!(
        opt.validate(),
        Ok(ProbeConfig { ttl: 255, payload_size: 56, interval_ms: 1000, max_packets: None })
    );
}

#[test]
fn options_are_checked_in_order() {
    let good = Opt { debug: true, ip: TARGET, ttl: 64, max_packets: 4, packet_size: 0, max_rtt: 0 };
    assert_eq!(
        good.validate(),
        Ok(ProbeConfig { ttl: 64, payload_size: 0, interval_ms: 0, max_packets: Some(4) })
    );
    assert_eq!(Opt { ttl: 0, ..good }.validate(), Err(ConfigError::InvalidTtl));
    assert_eq!(Opt { packet_size: -1, ..good }.validate(), Err(ConfigError::InvalidPacketSize));
    assert_eq!(Opt { packet_size: 65_508, ..good }.validate(), Err(ConfigError::InvalidPacketSize));
    assert_eq!(Opt { max_rtt: 4_294_968, ..good }.validate(), Err(ConfigError::InvalidInterval));
    assert_eq!(
        Opt { ttl: 0, packet_size: -1, max_rtt: u64::MAX, ..good }.validate(),
        Err(ConfigError::InvalidTtl)
    );
    assert_eq!(
        Opt { packet_size: 70_000, max_rtt: u64::MAX, ..good }.validate(),
        Err(ConfigError::InvalidPacketSize)
    );
    let edge = Opt { packet_size: 65_507, max_rtt: 4_294_967, max_packets: i32::MAX, ttl: 1, ..good };
    assert_eq!(
        edge.validate(),
        Ok(ProbeConfig {
            ttl: 1,
            payload_size: 65_507,
            interval_ms: 4_294_967,
            max_packets: Some(i32::MAX as u32),
        })
    );
    assert_eq!(Opt { max_packets: i32::MIN, ..good }.validate().map(|c| c.max_packets), Ok(None));
    assert_eq!(Opt { max_packets: 0, ..good }.validate().map(|c| c.max_packets), Ok(Some(0)));
}

#[test]
fn config_limit_and_interval() {
    assert_eq!(config(Some(7)).limit(), 7);
    assert_eq!(config(None).limit(), u32::MAX);
    assert_eq!(config(None).interval_us(), 1_000_000);
    let longest = ProbeConfig { ttl: 1, payload_size: 0, interval_ms: 4_294_967, max_packets: None };
    assert_eq!(longest.interval_us(), 4_294_967_000);
}

#[test]
fn target_knows_its_family() {
    assert_eq!(TARGET.family(), AddressFamily::V4);
    assert_eq!(ProbeTarget::V6(1).family(), AddressFamily::V6);
}

#[test]
fn event_knows_its_time() {
    assert_eq!(Event::Start { now: 1 }.time(), 1);
    assert_eq!(Event::SendDue { now: 2 }.time(), 2);
    assert_eq!(Event::SendFailed { now: 3, seq: 0 }.time(), 3);
    assert_eq!(Event::Packet { now: 4, from: TARGET, ttl: 0, bytes: vec![] }.time(), 4);
    assert_eq!(Event::Quiet { now: 5 }.time(), 5);
    assert_eq!(Event::ReceiveFailed { now: 6 }.time(), 6);
    assert_eq!(Event::Stop { now: 7 }.time(), 7);
    assert_eq!(Event::Broken { now: 8 }.time(), 8);
}

#[test]
fn table_keeps_requests_oldest_first() {
    let mut table = InFlightTable::new();
    assert!(table.is_empty());
    table.record(1, 100);
    table.record(2, 200);
    table.record(65_537, 300);
    table.record(65_538, 300);
    assert_eq!(table.len(), 4);
    assert_eq!(table.take_by_wire(1), Some(InFlight { seq: 1, sent_at: 100 }));
    assert_eq!(table.take_by_wire(1), Some(InFlight { seq: 65_537, sent_at: 300 }));
    assert_eq!(table.take_by_wire(1), None);
    assert_eq!(table.take_by_seq(65_538), Some(InFlight { seq: 65_538, sent_at: 300 }));
    assert_eq!(table.take_by_seq(65_538), None);
    assert_eq!(table.take_oldest(), Some(InFlight { seq: 2, sent_at: 200 }));
    assert_eq!(table.take_oldest(), None);
    assert!(table.is_empty());
}

#[test]
fn table_gives_up_what_has_waited_too_long() {
    let mut table = InFlightTable::new();
    for seq in 1..=5u32 {
        table.record(seq, seq as u64 * 100);
    }
    assert_eq!(table.take_expired(350, 100), vec![
        InFlight { seq: 1, sent_at: 100 },
        InFlight { seq: 2, sent_at: 200 },
    ]);
    assert_eq!(table.len(), 3);
    assert_eq!(table.take_expired(350, 100), vec![]);
    assert_eq!(table.take_expired(0, 0), vec![]);
    assert_eq!(table.take_expired(400, 100), vec![]);
    assert_eq!(table.take_expired(401, 100), vec![InFlight { seq: 3, sent_at: 300 }]);
    assert_eq!(table.take_all(), vec![
        InFlight { seq: 4, sent_at: 400 },
        InFlight { seq: 5, sent_at: 500 },
    ]);
    assert!(table.is_empty());
    assert_eq!(table.take_all(), vec![]);
}
