//! Running statistics over probe outcomes: counters, and the smallest, mean,
//! largest and standard deviation of the round-trip times, kept in exact
//! integer arithmetic and updated in constant time per outcome.

use vstd::prelude::*;
use crate::outcome::ProbeOutcome;

verus! {

/// The largest round-trip time, in microseconds, that a sample can hold.
pub const RTT_MAX: u32 = 0xFFFF_FFFF;

/// Loss is counted in thousandths of a percent: this is 100%.
pub const LOSS_ALL: u32 = 100_000;

/// The sum of the samples.
pub open spec fn total(s: Seq<u32>) -> nat
    decreases s.len(),
{
    if s.len() == 0 {
        0
    } else {
        total(s.drop_last()) + s.last() as nat
    }
}

/// The sum of the squares of the samples.
pub open spec fn total_of_squares(s: Seq<u32>) -> nat
    decreases s.len(),
{
    if s.len() == 0 {
        0
    } else {
        total_of_squares(s.drop_last()) + (s.last() as nat) * (s.last() as nat)
    }
}

/// The population variance of the samples, times the square of their number:
/// `n * sum(x^2) - sum(x)^2`.
pub open spec fn scaled_variance(s: Seq<u32>) -> int {
    s.len() * total_of_squares(s) - total(s) * total(s)
}

/// The two-pass sum behind the variance, over the first `upto` samples: with
/// the mean `sum / n` known from a first pass, each sample contributes the
/// square of its distance from the mean. Taken times `n^2` it stays whole:
/// the sum of `(n * x - sum)^2`.
pub open spec fn squared_deviations(s: Seq<u32>, upto: int) -> int
    decreases upto,
{
    if upto <= 0 {
        0
    } else {
        let d: int = s.len() * s[upto - 1] - total(s);
        squared_deviations(s, upto - 1) + d * d
    }
}

/// Whether `least` is the smallest of the samples.
pub open spec fn is_smallest(s: Seq<u32>, least: u32) -> bool {
    &&& s.contains(least)
    &&& forall|i: int| 0 <= i < s.len() ==> least <= s[i]
}

/// Whether `most` is the largest of the samples.
pub open spec fn is_largest(s: Seq<u32>, most: u32) -> bool {
    &&& s.contains(most)
    &&& forall|i: int| 0 <= i < s.len() ==> s[i] <= most
}

/// Whether `root` is the square root of `n`, rounded down.
pub open spec fn is_floor_sqrt(n: int, root: int) -> bool {
    0 <= root && root * root <= n < (root + 1) * (root + 1)
}

/// Whether `d` is the population standard deviation of the samples, rounded
/// down: the largest whole number whose square is at most the variance.
pub open spec fn is_std_deviation(s: Seq<u32>, d: int) -> bool {
    0 <= d && (d * s.len()) * (d * s.len()) <= scaled_variance(s) < ((d + 1) * s.len()) * ((d + 1)
        * s.len())
}

/// The share of probes without a reply, in thousandths of a percent, rounded
/// down; zero when nothing was sent.
pub open spec fn loss_of(sent: nat, received: nat) -> nat {
    if sent == 0 {
        0
    } else {
        ((sent - received) * 100_000 / sent as int) as nat
    }
}

/// What a run came to. Loss is in thousandths of a percent, times are in
/// microseconds; with no reply seen, all four times are zero.
#[derive(Debug, Clone, Copy, PartialEq, Eq, Structural)]
pub struct Summary {
    pub sent: u32,
    pub received: u32,
    pub loss: u32,
    pub rtt_min: u32,
    pub rtt_avg: u32,
    pub rtt_max: u32,
    pub rtt_stddev: u32,
}

/// Whether `summary` is the summary of a run in which `sent` outcomes were
/// seen, the replies among them with the round-trip times `samples`.
pub open spec fn summarizes(summary: Summary, sent: nat, samples: Seq<u32>) -> bool {
    &&& summary.sent == sent
    &&& summary.received == samples.len()
    &&& summary.loss == loss_of(sent, samples.len())
    &&& samples.len() == 0 ==> summary.rtt_min == 0 && summary.rtt_avg == 0 && summary.rtt_max == 0
        && summary.rtt_stddev == 0
    &&& samples.len() > 0 ==> {
        &&& is_smallest(samples, summary.rtt_min)
        &&& is_largest(samples, summary.rtt_max)
        &&& summary.rtt_avg == total(samples) / samples.len()
        &&& is_std_deviation(samples, summary.rtt_stddev as int)
    }
}

/// The accumulators of a run.
pub struct RunningStats {
    sent: u32,
    received: u32,
    sum: u64,
    sum_sq: u128,
    min: u32,
    max: u32,
    samples: Ghost<Seq<u32>>,
}

proof fn lemma_product_bound(a: nat, b: nat, c: nat, d: nat)
    by (nonlinear_arith)
    requires
        a <= c,
        b <= d,
    ensures
        a * b <= c * d,
{
}

/// Bounds on the two sums by the number of samples.
pub proof fn lemma_totals_bounded(s: Seq<u32>)
    ensures
        total(s) <= s.len() * 0xFFFF_FFFF,
        total_of_squares(s) <= s.len() * 0xFFFF_FFFE_0000_0001,
    decreases s.len(),
{
    if s.len() > 0 {
        lemma_totals_bounded(s.drop_last());
        let x: nat = s.last() as nat;
        lemma_product_bound(x, x, 0xFFFF_FFFF, 0xFFFF_FFFF);
    }
}

proof fn lemma_totals_push(s: Seq<u32>, x: u32)
    ensures
        total(s.push(x)) == total(s) + x,
        total_of_squares(s.push(x)) == total_of_squares(s) + (x as nat) * (x as nat),
{
    assert(s.push(x).drop_last() =~= s);
}

proof fn lemma_deviation_expansion(n: int, x: int, t: int)
    by (nonlinear_arith)
    ensures
        (n * x - t) * (n * x - t) == n * n * (x * x) - 2 * n * t * x + t * t,
{
}

proof fn lemma_deviations_prefix(s: Seq<u32>, upto: int)
    requires
        0 <= upto <= s.len(),
    ensures
        squared_deviations(s, upto) == s.len() * s.len() * total_of_squares(s.take(upto)) - 2
            * s.len() * total(s) * total(s.take(upto)) + upto * (total(s) * total(s)),
    decreases upto,
{
    let n: int = s.len() as int;
    let t: int = total(s) as int;
    if upto > 0 {
        lemma_deviations_prefix(s, upto - 1);
        let x: int = s[upto - 1] as int;
        assert(s.take(upto).drop_last() =~= s.take(upto - 1));
        assert(s.take(upto).last() == s[upto - 1]);
        let q0: int = total_of_squares(s.take(upto - 1)) as int;
        let s0: int = total(s.take(upto - 1)) as int;
        lemma_deviation_expansion(n, x, t);
        assert(n * n * (q0 + x * x) == n * n * q0 + n * n * (x * x)) by (nonlinear_arith);
        assert(2 * n * t * (s0 + x) == 2 * n * t * s0 + 2 * n * t * x) by (nonlinear_arith);
        assert(upto * (t * t) == (upto - 1) * (t * t) + t * t) by (nonlinear_arith);
    } else {
        assert(s.take(0) =~= Seq::<u32>::empty());
        assert(0 * (t * t) == 0) by (nonlinear_arith);
        assert(n * n * 0 == 0) by (nonlinear_arith);
        assert(2 * n * t * 0 == 0) by (nonlinear_arith);
    }
}

/// The variance that the running sums give is the variance of the two-pass
/// calculation: `n` times `n * sum(x^2) - sum(x)^2` is the sum over all
/// samples of `(n * x - sum)^2`.
pub proof fn lemma_running_matches_two_pass(s: Seq<u32>)
    ensures
        s.len() * scaled_variance(s) == squared_deviations(s, s.len() as int),
{
    let n: int = s.len() as int;
    let t: int = total(s) as int;
    let q: int = total_of_squares(s) as int;
    lemma_deviations_prefix(s, n);
    assert(s.take(n) =~= s);
    assert(n * (n * q - t * t) == n * n * q - 2 * n * t * t + n * (t * t)) by (nonlinear_arith);
}

proof fn lemma_deviations_nonnegative(s: Seq<u32>, upto: int)
    ensures
        squared_deviations(s, upto) >= 0,
    decreases upto,
{
    if upto > 0 {
        lemma_deviations_nonnegative(s, upto - 1);
        let d: int = s.len() * s[upto - 1] - total(s);
        assert(d * d >= 0) by (nonlinear_arith);
    }
}

/// The variance is never negative.
pub proof fn lemma_variance_nonnegative(s: Seq<u32>)
    ensures
        scaled_variance(s) >= 0,
{
    let n: int = s.len() as int;
    let v: int = scaled_variance(s);
    lemma_running_matches_two_pass(s);
    lemma_deviations_nonnegative(s, n);
    if n > 0 {
        assert(v >= 0) by (nonlinear_arith)
            requires
                n > 0,
                n * v >= 0,
        ;
    } else {
        assert(0 * total_of_squares(s) == 0) by (nonlinear_arith);
    }
}

/// Welford's recurrence in whole numbers: how the variance of the samples
/// seen so far moves when one more sample arrives.
pub proof fn lemma_welford_step(s: Seq<u32>, x: u32)
    ensures
        s.len() * scaled_variance(s.push(x)) == (s.len() + 1) * scaled_variance(s) + (s.len() * x
            - total(s)) * (s.len() * x - total(s)),
{
    let n: int = s.len() as int;
    let t: int = total(s) as int;
    let q: int = total_of_squares(s) as int;
    let y: int = x as int;
    lemma_totals_push(s, x);
    let p: int = n * q;
    let b: int = t * t;
    let c: int = y * y;
    let e: int = t * y;
    assert((t + y) * (t + y) == b + 2 * e + c) by (nonlinear_arith)
        requires
            b == t * t,
            c == y * y,
            e == t * y,
    ;
    assert((n + 1) * (q + c) == p + q + n * c + c) by (nonlinear_arith)
        requires
            p == n * q,
    ;
    assert((n * y - t) * (n * y - t) == n * (n * c) - 2 * (n * e) + b) by (nonlinear_arith)
        requires
            b == t * t,
            c == y * y,
            e == t * y,
    ;
    assert(n * (p + q + n * c - b - 2 * e) == n * p + p + n * (n * c) - n * b - 2 * (n * e))
        by (nonlinear_arith)
        requires
            p == n * q,
    ;
    assert((n + 1) * (p - b) == n * p + p - n * b - b) by (nonlinear_arith);
}

/// There is one standard deviation: two numbers that both are the rounded
/// deviation of the same samples are the same number.
pub proof fn lemma_std_deviation_unique(s: Seq<u32>, d1: int, d2: int)
    requires
        s.len() > 0,
        is_std_deviation(s, d1),
        is_std_deviation(s, d2),
    ensures
        d1 == d2,
{
    let n: int = s.len() as int;
    let v: int = scaled_variance(s);
    if d1 < d2 {
        assert(((d1 + 1) * n) * ((d1 + 1) * n) <= (d2 * n) * (d2 * n)) by (nonlinear_arith)
            requires
                0 <= d1 + 1 <= d2,
                0 < n,
        ;
    }
    if d2 < d1 {
        assert(((d2 + 1) * n) * ((d2 + 1) * n) <= (d1 * n) * (d1 * n)) by (nonlinear_arith)
            requires
                0 <= d2 + 1 <= d1,
                0 < n,
        ;
    }
}

proof fn lemma_total_between(s: Seq<u32>, low: u32, high: u32)
    requires
        forall|i: int| 0 <= i < s.len() ==> low <= #[trigger] s[i] && s[i] <= high,
    ensures
        s.len() * low <= total(s) <= s.len() * high,
    decreases s.len(),
{
    if s.len() > 0 {
        let rest: Seq<u32> = s.drop_last();
        assert forall|i: int| 0 <= i < rest.len() implies low <= #[trigger] rest[i] && rest[i] <= high by {
            assert(rest[i] == s[i]);
        }
        lemma_total_between(rest, low, high);
        let n: int = rest.len() as int;
        assert((n + 1) * low == n * low + low) by (nonlinear_arith);
        assert((n + 1) * high == n * high + high) by (nonlinear_arith);
    } else {
        assert(0 * low == 0 && 0 * high == 0) by (nonlinear_arith);
    }
}

/// The mean lies between the smallest and the largest sample.
pub proof fn lemma_mean_lies_between(s: Seq<u32>, least: u32, most: u32)
    requires
        s.len() > 0,
        is_smallest(s, least),
        is_largest(s, most),
    ensures
        least <= total(s) / s.len() <= most,
{
    lemma_total_between(s, least, most);
    let n: int = s.len() as int;
    let t: int = total(s) as int;
    assert(least <= t / n <= most) by (nonlinear_arith)
        requires
            0 < n,
            n * least <= t <= n * most,
    ;
}

/// With every probe answered, nothing is lost.
pub proof fn lemma_loss_none(sent: nat)
    ensures
        loss_of(sent, sent) == 0,
{
}

/// With no probe answered, everything is lost.
pub proof fn lemma_loss_all(sent: nat)
    requires
        sent > 0,
    ensures
        loss_of(sent, 0) == 100_000,
{
    vstd::arithmetic::div_mod::lemma_div_multiples_vanish(100_000, sent as int);
    assert(sent * 100_000 == 100_000 * sent) by (nonlinear_arith);
}

/// Loss lies between nothing and everything.
pub proof fn lemma_loss_bounded(sent: nat, received: nat)
    requires
        received <= sent,
    ensures
        loss_of(sent, received) <= 100_000,
{
    if sent > 0 {
        let lost: int = sent - received;
        let l: int = lost * 100_000 / sent as int;
        assert(l <= 100_000) by (nonlinear_arith)
            requires
                0 <= lost <= sent,
                sent > 0,
                l == lost * 100_000 / sent as int,
        ;
        assert(l >= 0) by (nonlinear_arith)
            requires
                0 <= lost,
                sent > 0,
                l == lost * 100_000 / sent as int,
        ;
    }
}

/// Loss follows the lost share: of two runs, the one that lost the smaller
/// share of its probes reports the smaller loss, or the same.
pub proof fn lemma_loss_monotone(sent1: nat, received1: nat, sent2: nat, received2: nat)
    requires
        0 < sent1,
        0 < sent2,
        received1 <= sent1,
        received2 <= sent2,
        (sent1 - received1) * sent2 <= (sent2 - received2) * sent1,
    ensures
        loss_of(sent1, received1) <= loss_of(sent2, received2),
{
    let a: int = (sent1 - received1) * 100_000;
    let c: int = (sent2 - received2) * 100_000;
    let b: int = sent1 as int;
    let d: int = sent2 as int;
    assert(a * d <= c * b) by (nonlinear_arith)
        requires
            a == (sent1 - received1) * 100_000,
            c == (sent2 - received2) * 100_000,
            b == sent1,
            d == sent2,
            (sent1 - received1) * sent2 <= (sent2 - received2) * sent1,
    ;
    assert(a / b <= c / d) by (nonlinear_arith)
        requires
            a * d <= c * b,
            0 <= a,
            0 <= c,
            0 < b,
            0 < d,
    ;
    lemma_loss_bounded(sent1, received1);
    lemma_loss_bounded(sent2, received2);
}

/// The share of probes without a reply, in thousandths of a percent.
pub fn loss(sent: u32, received: u32) -> (l: u32)
    requires
        received <= sent,
    ensures
        l == loss_of(sent as nat, received as nat),
        l <= LOSS_ALL,
{
    if sent == 0 {
        0
    } else {
        let lost: u64 = (sent - received) as u64;
        proof {
            lemma_loss_bounded(sent as nat, received as nat);
        }
        (lost * 100_000 / (sent as u64)) as u32
    }
}

/// The square root of `n`, rounded down.
pub fn isqrt(n: u128) -> (root: u64)
    ensures
        is_floor_sqrt(n as int, root as int),
{
    let mut low: u128 = 0;
    let mut high: u128 = 0x1_0000_0000_0000_0000;
    assert(0x1_0000_0000_0000_0000int * 0x1_0000_0000_0000_0000int > u128::MAX) by (nonlinear_arith);
    while high - low > 1
        invariant
            low < high <= 0x1_0000_0000_0000_0000,
            low * low <= n < high * high,
        decreases high - low,
    {
        let mid: u128 = low + (high - low) / 2;
        assert(mid * mid <= 0xFFFF_FFFF_FFFF_FFFF * 0xFFFF_FFFF_FFFF_FFFF) by (nonlinear_arith)
            requires
                mid <= 0xFFFF_FFFF_FFFF_FFFF,
        ;
        if mid * mid <= n {
            low = mid;
        } else {
            high = mid;
        }
    }
    low as u64
}

impl RunningStats {
    /// How many outcomes were seen.
    pub closed spec fn spec_sent(&self) -> nat {
        self.sent as nat
    }

    /// The round-trip times of the replies seen, in the order they came.
    pub closed spec fn samples(&self) -> Seq<u32> {
        self.samples@
    }

    /// The accumulators agree with the samples they stand for.
    pub closed spec fn wf(&self) -> bool {
        let s: Seq<u32> = self.samples@;
        &&& self.received == s.len()
        &&& self.received <= self.sent
        &&& self.sum == total(s)
        &&& self.sum_sq == total_of_squares(s)
        &&& s.len() > 0 ==> is_smallest(s, self.min) && is_largest(s, self.max)
    }

    /// Statistics of a run in which nothing has happened yet.
    pub fn new() -> (stats: RunningStats)
        ensures
            stats.wf(),
            stats.spec_sent() == 0,
            stats.samples() == Seq::<u32>::empty(),
    {
        RunningStats {
            sent: 0,
            received: 0,
            sum: 0,
            sum_sq: 0,
            min: 0,
            max: 0,
            samples: Ghost(Seq::empty()),
        }
    }

    /// How many outcomes were seen.
    pub fn sent(&self) -> (n: u32)
        ensures
            n == self.spec_sent(),
    {
        self.sent
    }

    /// How many of the outcomes seen were replies.
    pub fn received(&self) -> (n: u32)
        requires
            self.wf(),
        ensures
            n == self.samples().len(),
    {
        self.received
    }

    /// Takes one outcome into the statistics: every outcome counts as a probe
    /// sent, and a reply adds its round-trip time to the samples.
    pub fn observe(&mut self, outcome: &ProbeOutcome)
        requires
            old(self).wf(),
            old(self).spec_sent() < u32::MAX,
        ensures
            final(self).wf(),
            final(self).spec_sent() == old(self).spec_sent() + 1,
            final(self).samples() == (match *outcome {
                ProbeOutcome::Reply { rtt, .. } => old(self).samples().push(rtt),
                _ => old(self).samples(),
            }),
    {
        self.sent = self.sent + 1;
        if let ProbeOutcome::Reply { rtt, .. } = *outcome {
            let ghost before: Seq<u32> = self.samples@;
            let ghost after: Seq<u32> = before.push(rtt);
            proof {
                lemma_totals_bounded(before);
                lemma_totals_push(before, rtt);
                lemma_product_bound(rtt as nat, rtt as nat, 0xFFFF_FFFF, 0xFFFF_FFFF);
                lemma_product_bound(before.len(), 0xFFFF_FFFF, 0xFFFF_FFFE, 0xFFFF_FFFF);
                lemma_product_bound(
                    before.len(),
                    0xFFFF_FFFE_0000_0001,
                    0xFFFF_FFFE,
                    0xFFFF_FFFE_0000_0001,
                );
                assert(after[before.len() as int] == rtt);
                assert(forall|i: int| 0 <= i < before.len() ==> after[i] == before[i]);
            }
            if self.received == 0 || rtt < self.min {
                self.min = rtt;
            }
            if self.received == 0 || rtt > self.max {
                self.max = rtt;
            }
            proof {
                if before.len() > 0 {
                    let i_min: int = choose|i: int| 0 <= i < before.len() && before[i] == old(self).min;
                    let i_max: int = choose|i: int| 0 <= i < before.len() && before[i] == old(self).max;
                    assert(after[i_min] == old(self).min);
                    assert(after[i_max] == old(self).max);
                }
            }
            self.received = self.received + 1;
            self.sum = self.sum + rtt as u64;
            self.sum_sq = self.sum_sq + (rtt as u128) * (rtt as u128);
            self.samples = Ghost(after);
        }
    }

    /// The share of the outcomes seen that were no replies, in thousandths of
    /// a percent.
    pub fn loss(&self) -> (l: u32)
        requires
            self.wf(),
        ensures
            l == loss_of(self.spec_sent(), self.samples().len()),
            l <= LOSS_ALL,
    {
        loss(self.sent, self.received)
    }

    /// The summary of what was seen so far.
    pub fn snapshot(&self) -> (summary: Summary)
        requires
            self.wf(),
        ensures
            summarizes(summary, self.spec_sent(), self.samples()),
    {
        let loss: u32 = loss(self.sent, self.received);
        if self.received == 0 {
            return Summary {
                sent: self.sent,
                received: 0,
                loss,
                rtt_min: 0,
                rtt_avg: 0,
                rtt_max: 0,
                rtt_stddev: 0,
            };
        }
        let ghost s: Seq<u32> = self.samples@;
        let n: u128 = self.received as u128;
        let sum: u128 = self.sum as u128;
        proof {
            lemma_totals_bounded(s);
            lemma_variance_nonnegative(s);
            lemma_product_bound(s.len(), total_of_squares(s), 0xFFFF_FFFF, 0xFFFF_FFFF * 0xFFFF_FFFE_0000_0001);
            lemma_product_bound(s.len(), 0xFFFF_FFFE_0000_0001, 0xFFFF_FFFF, 0xFFFF_FFFE_0000_0001);
            lemma_product_bound(total(s), total(s), 0xFFFF_FFFF * 0xFFFF_FFFF, 0xFFFF_FFFF * 0xFFFF_FFFF);
            lemma_product_bound(s.len(), 0xFFFF_FFFF, 0xFFFF_FFFF, 0xFFFF_FFFF);
        }
        let variance: u128 = n * self.sum_sq - sum * sum;
        let root: u64 = isqrt(variance);
        let deviation: u64 = root / (self.received as u64);
        let avg: u64 = self.sum / (self.received as u64);
        proof {
            lemma_deviation_of_root(s, variance as int, root as int, deviation as int);
            lemma_mean_bounded(total(s) as int, s.len() as int, avg as int);
        }
        Summary {
            sent: self.sent,
            received: self.received,
            loss,
            rtt_min: self.min,
            rtt_avg: avg as u32,
            rtt_max: self.max,
            rtt_stddev: deviation as u32,
        }
    }
}

proof fn lemma_mean_bounded(t: int, n: int, avg: int)
    by (nonlinear_arith)
    requires
        0 < n,
        0 <= t <= n * 0xFFFF_FFFF,
        avg == t / n,
    ensures
        0 <= avg <= 0xFFFF_FFFF,
{
}

proof fn lemma_deviation_of_root(s: Seq<u32>, v: int, root: int, d: int)
    requires
        s.len() > 0,
        v == scaled_variance(s),
        is_floor_sqrt(v, root),
        d == root / (s.len() as int),
    ensures
        is_std_deviation(s, d),
        d <= 0xFFFF_FFFF,
{
    let n: int = s.len() as int;
    lemma_totals_bounded(s);
    let q: int = total_of_squares(s) as int;
    let t: int = total(s) as int;
    assert(0 <= d && d * n <= root < (d + 1) * n) by (nonlinear_arith)
        requires
            0 < n,
            0 <= root,
            d == root / n,
    ;
    assert((d * n) * (d * n) <= root * root) by (nonlinear_arith)
        requires
            0 <= d * n <= root,
    ;
    assert((root + 1) * (root + 1) <= ((d + 1) * n) * ((d + 1) * n)) by (nonlinear_arith)
        requires
            0 <= root + 1 <= (d + 1) * n,
    ;
    // the variance is below (n * 2^32)^2, so that the root is below n * 2^32
    assert(v <= n * q) by (nonlinear_arith)
        requires
            v == n * q - t * t,
    ;
    assert(n * q <= n * (n * 0xFFFF_FFFE_0000_0001)) by (nonlinear_arith)
        requires
            0 < n,
            q <= n * 0xFFFF_FFFE_0000_0001,
    ;
    assert(n * (n * 0xFFFF_FFFE_0000_0001) == (n * 0xFFFF_FFFF) * (n * 0xFFFF_FFFF))
        by (nonlinear_arith);
    assert(root <= n * 0xFFFF_FFFF) by (nonlinear_arith)
        requires
            0 <= root,
            0 < n,
            root * root <= (n * 0xFFFF_FFFF) * (n * 0xFFFF_FFFF),
    ;
    assert(d <= 0xFFFF_FFFF) by (nonlinear_arith)
        requires
            0 < n,
            d * n <= root,
            root <= n * 0xFFFF_FFFF,
    ;
}

} // verus!
