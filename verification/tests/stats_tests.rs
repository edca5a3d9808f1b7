use ping_util_rs::outcome::{ProbeOutcome, ProbeTarget, TransportFault};
use ping_util_rs::report::{banner, decimal, outcome_line, percent, summary, thousandths};
use ping_util_rs::stats::{isqrt, loss, RunningStats, Summary};

fn reply(seq: u32, rtt: u32) -> ProbeOutcome {
    ProbeOutcome::Reply { seq, rtt, ttl: 64, addr: ProbeTarget::V4(0x0a000001) }
}

fn stats_of(rtts: &[u32]) -> RunningStats {
    let mut stats = RunningStats::new();
    for (i, rtt) in rtts.iter().enumerate() {
        stats.observe(&reply(i as u32 + 1, *rtt));
    }
    stats
}

/// Mean and population standard deviation by two passes over the samples.
fn two_pass(rtts: &[u32]) -> (f64, f64) {
    let n = rtts.len() as f64;
    let mean = rtts.iter().map(|x| *x as f64).sum::<f64>() / n;
    let var = rtts.iter().map(|x| (*x as f64 - mean) * (*x as f64 - mean)).sum::<f64>() / n;
    (mean, var.sqrt())
}

#[test]
fn new_stats_are_empty() {
    let stats = RunningStats::new();
    assert_eq!(stats.sent(), 0);
    assert_eq!(stats.received(), 0);
    assert_eq!(stats.loss(), 0);
    assert_eq!(
        stats.snapshot(),
        Summary { sent: 0, received: 0, loss: 0, rtt_min: 0, rtt_avg: 0, rtt_max: 0, rtt_stddev: 0 }
    );
}

#[test]
fn loss_is_zero_when_every_probe_is_answered() {
    let stats = stats_of(&[5, 6, 7]);
    assert_eq!(stats.loss(), 0);
    assert_eq!(loss(1, 1), 0);
    assert_eq!(loss(u32::MAX, u32::MAX), 0);
}

#[test]
fn loss_is_all_when_no_probe_is_answered() {
    let mut stats = RunningStats::new();
    stats.observe(&ProbeOutcome::Timeout { seq: 1 });
    stats.observe(&ProbeOutcome::TtlExceeded { seq: 2, addr: ProbeTarget::V4(1) });
    stats.observe(&ProbeOutcome::TransportError { seq: 3, reason: TransportFault::SendFailed });
    assert_eq!(stats.sent(), 3);
    assert_eq!(stats.received(), 0);
    assert_eq!(stats.loss(), 100_000);
    assert_eq!(loss(1, 0), 100_000);
    assert_eq!(loss(u32::MAX, 0), 100_000);
}

#[test]
fn loss_is_the_lost_share_rounded_down() {
    assert_eq!(loss(0, 0), 0);
    assert_eq!(loss(4, 3), 25_000);
    assert_eq!(loss(3, 2), 33_333);
    assert_eq!(loss(3, 1), 66_666);
    assert_eq!(loss(8, 7), 12_500);
    assert_eq!(loss(1000, 999), 100);
    assert_eq!(loss(u32::MAX, 1), 99_999);
}

#[test]
fn loss_follows_the_lost_share() {
    for sent in 1u32..40 {
        for received in 1..=sent {
            assert!(loss(sent, received) <= loss(sent, received - 1));
        }
    }
    assert!(loss(3, 2) <= loss(2, 1));
    assert!(loss(7, 6) <= loss(6, 5));
}

#[test]
fn mean_and_deviation_of_four_samples() {
    let summary = stats_of(&[10_000, 20_000, 15_000, 30_000]).snapshot();
    assert_eq!(summary.rtt_min, 10_000);
    assert_eq!(summary.rtt_avg, 18_750);
    assert_eq!(summary.rtt_max, 30_000);
    assert_eq!(summary.rtt_stddev, 7_395);
}

#[test]
fn running_sums_agree_with_two_passes() {
    let sets: [&[u32]; 6] = [
        &[10_000, 20_000, 15_000, 30_000],
        &[12_000, 15_000, 11_000, 20_000],
        &[1],
        &[7, 7, 7, 7, 7],
        &[0, u32::MAX],
        &[123_456, 1, 999_999_999, 42, 4_000_000_000, 17, 17],
    ];
    for rtts in sets {
        let summary = stats_of(rtts).snapshot();
        let (mean, deviation) = two_pass(rtts);
        assert_eq!(summary.rtt_avg as f64, mean.floor());
        assert!((summary.rtt_stddev as f64 - deviation).abs() <= 1.0);
        assert!(summary.rtt_stddev as f64 <= deviation + 1e-6);
    }
}

#[test]
fn one_sample_has_no_deviation() {
    let summary = stats_of(&[1234]).snapshot();
    assert_eq!(summary.rtt_min, 1234);
    assert_eq!(summary.rtt_avg, 1234);
    assert_eq!(summary.rtt_max, 1234);
    assert_eq!(summary.rtt_stddev, 0);
}

#[test]
fn largest_samples_do_not_overflow() {
    let mut stats = RunningStats::new();
    for seq in 0..1000u32 {
        stats.observe(&reply(seq + 1, if seq % 2 == 0 { u32::MAX } else { 0 }));
    }
    let summary = stats.snapshot();
    assert_eq!(summary.rtt_min, 0);
    assert_eq!(summary.rtt_max, u32::MAX);
    assert_eq!(summary.rtt_avg, u32::MAX / 2);
    assert_eq!(summary.rtt_stddev, u32::MAX / 2);
}

#[test]
fn only_replies_count_as_received() {
    let mut stats = RunningStats::new();
    stats.observe(&reply(1, 100));
    stats.observe(&ProbeOutcome::Timeout { seq: 2 });
    stats.observe(&reply(3, 300));
    stats.observe(&ProbeOutcome::TtlExceeded { seq: 4, addr: ProbeTarget::V6(1) });
    let summary = stats.snapshot();
    assert_eq!(summary.sent, 4);
    assert_eq!(summary.received, 2);
    assert_eq!(summary.loss, 50_000);
    assert_eq!(summary.rtt_min, 100);
    assert_eq!(summary.rtt_avg, 200);
    assert_eq!(summary.rtt_max, 300);
    assert_eq!(summary.rtt_stddev, 100);
}

#[test]
fn isqrt_rounds_down() {
    assert_eq!(isqrt(0), 0);
    assert_eq!(isqrt(1), 1);
    assert_eq!(isqrt(2), 1);
    assert_eq!(isqrt(3), 1);
    assert_eq!(isqrt(4), 2);
    assert_eq!(isqrt(99), 9);
    assert_eq!(isqrt(100), 10);
    assert_eq!(isqrt(54_687_500), 7395);
    assert_eq!(isqrt(u128::MAX), u64::MAX);
    assert_eq!(isqrt((u64::MAX as u128) * (u64::MAX as u128)), u64::MAX);
    assert_eq!(isqrt((u64::MAX as u128) * (u64::MAX as u128) - 1), u64::MAX - 1);
}

#[test]
fn decimal_writes_numbers_without_leading_zeros() {
    assert_eq!(decimal(0), "0");
    assert_eq!(decimal(7), "7");
    assert_eq!(decimal(10), "10");
    assert_eq!(decimal(1234567890), "1234567890");
    assert_eq!(decimal(u64::MAX), "18446744073709551615");
}

#[test]
fn thousandths_always_have_three_places() {
    assert_eq!(thousandths(0), "0.000");
    assert_eq!(thousandths(5), "0.005");
    assert_eq!(thousandths(50), "0.050");
    assert_eq!(thousandths(500), "0.500");
    assert_eq!(thousandths(12_345), "12.345");
    assert_eq!(thousandths(4_294_967_295), "4294967.295");
}

#[test]
fn percent_is_as_short_as_it_can_be() {
    assert_eq!(percent(0), "0");
    assert_eq!(percent(100_000), "100");
    assert_eq!(percent(25_000), "25");
    assert_eq!(percent(12_500), "12.5");
    assert_eq!(percent(12_340), "12.34");
    assert_eq!(percent(33_333), "33.333");
    assert_eq!(percent(7), "0.007");
    assert_eq!(percent(70), "0.07");
    assert_eq!(percent(1_005), "1.005");
}

#[test]
fn banner_names_the_target_twice() {
    assert_eq!(banner("10.0.0.1", 56), "PING 10.0.0.1 (10.0.0.1): 56 data bytes");
}

#[test]
fn reply_line_has_every_field() {
    let line = outcome_line(&reply(3, 12_345), 64, "10.0.0.1", 25_000);
    assert_eq!(line, "64 bytes from 10.0.0.1: icmp_seq=3 ttl=64 rtt=12.345ms loss=25%");
}

#[test]
fn lines_for_the_other_outcomes() {
    assert_eq!(
        outcome_line(&ProbeOutcome::Timeout { seq: 9 }, 64, "", 0),
        "Request timeout for icmp_seq 9"
    );
    assert_eq!(
        outcome_line(
            &ProbeOutcome::TtlExceeded { seq: 2, addr: ProbeTarget::V4(1) },
            64,
            "192.168.0.1",
            0
        ),
        "TTL Time Exceeded from 192.168.0.1: icmp_seq=2 payload=64B"
    );
    assert_eq!(
        outcome_line(
            &ProbeOutcome::TransportError { seq: 4, reason: TransportFault::SendFailed },
            64,
            "",
            0
        ),
        "Transport error for icmp_seq 4: send failed"
    );
    assert_eq!(
        outcome_line(
            &ProbeOutcome::TransportError { seq: 5, reason: TransportFault::ReceiveFailed },
            64,
            "",
            0
        ),
        "Transport error for icmp_seq 5: receive failed"
    );
    assert_eq!(
        outcome_line(
            &ProbeOutcome::TransportError { seq: 6, reason: TransportFault::SocketUnusable },
            64,
            "",
            0
        ),
        "Transport error for icmp_seq 6: socket unusable"
    );
}

#[test]
fn summary_of_four_replies() {
    let text = summary("10.0.0.1", &stats_of(&[12_000, 15_000, 11_000, 20_000]).snapshot());
    assert_eq!(
        text,
        "--- 10.0.0.1 ping statistics ---\n\
         4 packets transmitted, 4 packets received, 0% packet loss\n\
         round-trip min/avg/max/stddev = 11.000/14.500/20.000/3.500 ms"
    );
}

#[test]
fn summary_of_an_unreachable_target() {
    let mut stats = RunningStats::new();
    for seq in 1..=3 {
        stats.observe(&ProbeOutcome::Timeout { seq });
    }
    assert_eq!(
        summary("::1", &stats.snapshot()),
        "--- ::1 ping statistics ---\n\
         3 packets transmitted, 0 packets received, 100% packet loss\n\
         round-trip min/avg/max/stddev = 0.000/0.000/0.000/0.000 ms"
    );
}

#[test]
fn summary_of_a_partial_loss() {
    let mut stats = stats_of(&[1_000, 3_000]);
    stats.observe(&ProbeOutcome::Timeout { seq: 3 });
    assert_eq!(
        summary("example", &stats.snapshot()),
        "--- example ping statistics ---\n\
         3 packets transmitted, 2 packets received, 33.333% packet loss\n\
         round-trip min/avg/max/stddev = 1.000/2.000/3.000/1.000 ms"
    );
}

#[test]
fn outcome_knows_its_sequence_number() {
    assert_eq!(reply(7, 1).seq(), 7);
    assert_eq!(ProbeOutcome::Timeout { seq: 8 }.seq(), 8);
    assert_eq!(ProbeOutcome::TtlExceeded { seq: 9, addr: ProbeTarget::V4(0) }.seq(), 9);
    assert_eq!(
        ProbeOutcome::TransportError { seq: 10, reason: TransportFault::SocketUnusable }.seq(),
        10
    );
}
