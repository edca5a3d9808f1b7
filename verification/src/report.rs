//! The text of a run: the line for each outcome and the closing summary.

use vstd::prelude::*;
use vstd::string::StringExecFns;
use crate::outcome::{ProbeOutcome, TransportFault};
use crate::stats::Summary;

verus! {

/// The character for a digit.
pub open spec fn digit(d: nat) -> char {
    if d == 0 {
        '0'
    } else if d == 1 {
        '1'
    } else if d == 2 {
        '2'
    } else if d == 3 {
        '3'
    } else if d == 4 {
        '4'
    } else if d == 5 {
        '5'
    } else if d == 6 {
        '6'
    } else if d == 7 {
        '7'
    } else if d == 8 {
        '8'
    } else {
        '9'
    }
}

/// A number in decimal, without leading zeros.
pub open spec fn decimal_text(n: nat) -> Seq<char>
    decreases n,
{
    if n < 10 {
        seq![digit(n)]
    } else {
        decimal_text(n / 10).push(digit(n % 10))
    }
}

/// A number of thousandths as a decimal fraction with three places:
/// 12345 reads `12.345`.
pub open spec fn thousandths_text(n: nat) -> Seq<char> {
    decimal_text(n / 1000) + seq!['.', digit(n / 100 % 10), digit(n / 10 % 10), digit(n % 10)]
}

/// A number of thousandths as the shortest decimal fraction that says the
/// same: 25000 reads `25`, 12500 reads `12.5`, 33333 reads `33.333`.
pub open spec fn short_thousandths_text(n: nat) -> Seq<char> {
    if n % 1000 == 0 {
        decimal_text(n / 1000)
    } else if n % 100 == 0 {
        decimal_text(n / 1000) + seq!['.', digit(n / 100 % 10)]
    } else if n % 10 == 0 {
        decimal_text(n / 1000) + seq!['.', digit(n / 100 % 10), digit(n / 10 % 10)]
    } else {
        thousandths_text(n)
    }
}

/// The words for a transport fault.
pub open spec fn fault_text(reason: TransportFault) -> Seq<char> {
    match reason {
        TransportFault::SendFailed => "send failed"@,
        TransportFault::ReceiveFailed => "receive failed"@,
        TransportFault::SocketUnusable => "socket unusable"@,
    }
}

/// The first line of a run.
pub open spec fn banner_text(target: Seq<char>, payload_size: nat) -> Seq<char> {
    "PING "@ + target + " ("@ + target + "): "@ + decimal_text(payload_size) + " data bytes"@
}

/// The line for a reply.
pub open spec fn reply_text(size: nat, addr: Seq<char>, seq: nat, ttl: nat, rtt: nat, loss: nat) -> Seq<
    char,
> {
    decimal_text(size) + " bytes from "@ + addr + ": icmp_seq="@ + decimal_text(seq) + " ttl="@
        + decimal_text(ttl) + " rtt="@ + thousandths_text(rtt) + "ms loss="@
        + short_thousandths_text(loss) + "%"@
}

/// The line for an outcome. `size` is the length of the ICMP message in bytes,
/// `addr` the text of the address that the outcome names (of none where it
/// names none), `loss` the loss so far in thousandths of a percent.
pub open spec fn outcome_text(outcome: ProbeOutcome, size: nat, addr: Seq<char>, loss: nat) -> Seq<char> {
    match outcome {
        ProbeOutcome::Reply { seq, rtt, ttl, .. } => reply_text(
            size,
            addr,
            seq as nat,
            ttl as nat,
            rtt as nat,
            loss,
        ),
        ProbeOutcome::Timeout { seq } => "Request timeout for icmp_seq "@ + decimal_text(seq as nat),
        ProbeOutcome::TtlExceeded { seq, .. } => "TTL Time Exceeded from "@ + addr + ": icmp_seq="@
            + decimal_text(seq as nat) + " payload="@ + decimal_text(size) + "B"@,
        ProbeOutcome::TransportError { seq, reason } => "Transport error for icmp_seq "@
            + decimal_text(seq as nat) + ": "@ + fault_text(reason),
    }
}

/// The closing block of a run: three lines, the first two ended by a line
/// feed.
pub open spec fn summary_text(target: Seq<char>, stats: Summary) -> Seq<char> {
    "--- "@ + target + " ping statistics ---\n"@ + decimal_text(stats.sent as nat)
        + " packets transmitted, "@ + decimal_text(stats.received as nat) + " packets received, "@
        + short_thousandths_text(stats.loss as nat) + "% packet loss\n"@
        + "round-trip min/avg/max/stddev = "@ + thousandths_text(stats.rtt_min as nat) + "/"@
        + thousandths_text(stats.rtt_avg as nat) + "/"@ + thousandths_text(stats.rtt_max as nat)
        + "/"@ + thousandths_text(stats.rtt_stddev as nat) + " ms"@
}

/// The number that a text of digits reads as.
pub open spec fn decimal_value(text: Seq<char>) -> nat
    decreases text.len(),
{
    if text.len() == 0 {
        0
    } else {
        10 * decimal_value(text.drop_last()) + (text.last() as nat - '0' as nat) as nat
    }
}

/// The decimal text of a number reads as that number.
pub proof fn lemma_decimal_reads_back(n: nat)
    ensures
        decimal_value(decimal_text(n)) == n,
        decimal_text(n).len() >= 1,
    decreases n,
{
    if n < 10 {
        let t: Seq<char> = decimal_text(n);
        assert(t.drop_last() =~= Seq::<char>::empty());
        assert(decimal_value(t.drop_last()) == 0);
    } else {
        lemma_decimal_reads_back(n / 10);
        let t: Seq<char> = decimal_text(n);
        assert(t.drop_last() =~= decimal_text(n / 10));
        assert(t.last() == digit(n % 10));
    }
}

/// The text of one digit.
fn digit_str(d: u8) -> (s: &'static str)
    requires
        d < 10,
    ensures
        s@ == seq![digit(d as nat)],
{
    proof {
        reveal_strlit("0");
        reveal_strlit("1");
        reveal_strlit("2");
        reveal_strlit("3");
        reveal_strlit("4");
        reveal_strlit("5");
        reveal_strlit("6");
        reveal_strlit("7");
        reveal_strlit("8");
        reveal_strlit("9");
    }
    let s: &'static str = if d == 0 {
        "0"
    } else if d == 1 {
        "1"
    } else if d == 2 {
        "2"
    } else if d == 3 {
        "3"
    } else if d == 4 {
        "4"
    } else if d == 5 {
        "5"
    } else if d == 6 {
        "6"
    } else if d == 7 {
        "7"
    } else if d == 8 {
        "8"
    } else {
        "9"
    };
    assert(s@ =~= seq![digit(d as nat)]);
    s
}

/// Appends `n` in decimal to `out`.
fn push_decimal(out: &mut String, n: u64)
    ensures
        final(out)@ == old(out)@ + decimal_text(n as nat),
    decreases n,
{
    if n >= 10 {
        push_decimal(out, n / 10);
    }
    out.append(digit_str((n % 10) as u8));
    proof {
        assert(final(out)@ =~= old(out)@ + decimal_text(n as nat)) by {
            if n >= 10 {
                assert(out@ =~= old(out)@ + decimal_text((n / 10) as nat).push(digit((n % 10) as nat)));
            }
        }
    }
}

/// Appends `n` thousandths as a decimal fraction with three places to `out`.
fn push_thousandths(out: &mut String, n: u64)
    ensures
        final(out)@ == old(out)@ + thousandths_text(n as nat),
{
    proof {
        reveal_strlit(".");
    }
    push_decimal(out, n / 1000);
    out.append(".");
    out.append(digit_str((n / 100 % 10) as u8));
    out.append(digit_str((n / 10 % 10) as u8));
    out.append(digit_str((n % 10) as u8));
    proof {
        assert(out@ =~= old(out)@ + thousandths_text(n as nat));
    }
}

/// Appends `n` thousandths as the shortest decimal fraction to `out`.
fn push_short_thousandths(out: &mut String, n: u64)
    ensures
        final(out)@ == old(out)@ + short_thousandths_text(n as nat),
{
    proof {
        reveal_strlit(".");
    }
    if n % 1000 == 0 {
        push_decimal(out, n / 1000);
    } else if n % 100 == 0 {
        push_decimal(out, n / 1000);
        out.append(".");
        out.append(digit_str((n / 100 % 10) as u8));
        proof {
            assert(out@ =~= old(out)@ + short_thousandths_text(n as nat));
        }
    } else if n % 10 == 0 {
        push_decimal(out, n / 1000);
        out.append(".");
        out.append(digit_str((n / 100 % 10) as u8));
        out.append(digit_str((n / 10 % 10) as u8));
        proof {
            assert(out@ =~= old(out)@ + short_thousandths_text(n as nat));
        }
    } else {
        push_thousandths(out, n);
    }
}

/// A number in decimal.
pub fn decimal(n: u64) -> (text: String)
    ensures
        text@ == decimal_text(n as nat),
{
    let mut text: String = String::new();
    push_decimal(&mut text, n);
    proof {
        assert(text@ =~= decimal_text(n as nat));
    }
    text
}

/// A number of thousandths as a decimal fraction with three places: a time in
/// microseconds reads as milliseconds.
pub fn thousandths(n: u64) -> (text: String)
    ensures
        text@ == thousandths_text(n as nat),
{
    let mut text: String = String::new();
    push_thousandths(&mut text, n);
    proof {
        assert(text@ =~= thousandths_text(n as nat));
    }
    text
}

/// A loss in thousandths of a percent as a number of percent.
pub fn percent(loss: u32) -> (text: String)
    ensures
        text@ == short_thousandths_text(loss as nat),
{
    let mut text: String = String::new();
    push_short_thousandths(&mut text, loss as u64);
    proof {
        assert(text@ =~= short_thousandths_text(loss as nat));
    }
    text
}

/// The words for a transport fault.
pub fn fault_str(reason: TransportFault) -> (s: &'static str)
    ensures
        s@ == fault_text(reason),
{
    match reason {
        TransportFault::SendFailed => "send failed",
        TransportFault::ReceiveFailed => "receive failed",
        TransportFault::SocketUnusable => "socket unusable",
    }
}

/// The first line of a run.
pub fn banner(target: &str, payload_size: u16) -> (text: String)
    ensures
        text@ == banner_text(target@, payload_size as nat),
{
    let mut text: String = String::new();
    text.append("PING ");
    text.append(target);
    text.append(" (");
    text.append(target);
    text.append("): ");
    push_decimal(&mut text, payload_size as u64);
    text.append(" data bytes");
    proof {
        assert(text@ =~= banner_text(target@, payload_size as nat));
    }
    text
}

/// The line for an outcome. `size` is the length of the ICMP message in bytes,
/// `addr` the text of the address that the outcome names, `loss` the loss so
/// far in thousandths of a percent.
pub fn outcome_line(outcome: &ProbeOutcome, size: u32, addr: &str, loss: u32) -> (text: String)
    ensures
        text@ == outcome_text(*outcome, size as nat, addr@, loss as nat),
{
    let mut text: String = String::new();
    match *outcome {
        ProbeOutcome::Reply { seq, rtt, ttl, .. } => {
            push_decimal(&mut text, size as u64);
            text.append(" bytes from ");
            text.append(addr);
            text.append(": icmp_seq=");
            push_decimal(&mut text, seq as u64);
            text.append(" ttl=");
            push_decimal(&mut text, ttl as u64);
            text.append(" rtt=");
            push_thousandths(&mut text, rtt as u64);
            text.append("ms loss=");
            push_short_thousandths(&mut text, loss as u64);
            text.append("%");
        },
        ProbeOutcome::Timeout { seq } => {
            text.append("Request timeout for icmp_seq ");
            push_decimal(&mut text, seq as u64);
        },
        ProbeOutcome::TtlExceeded { seq, .. } => {
            text.append("TTL Time Exceeded from ");
            text.append(addr);
            text.append(": icmp_seq=");
            push_decimal(&mut text, seq as u64);
            text.append(" payload=");
            push_decimal(&mut text, size as u64);
            text.append("B");
        },
        ProbeOutcome::TransportError { seq, reason } => {
            text.append("Transport error for icmp_seq ");
            push_decimal(&mut text, seq as u64);
            text.append(": ");
            text.append(fault_str(reason));
        },
    }
    proof {
        assert(text@ =~= outcome_text(*outcome, size as nat, addr@, loss as nat));
    }
    text
}

/// The closing block of a run.
pub fn summary(target: &str, stats: &Summary) -> (text: String)
    ensures
        text@ == summary_text(target@, *stats),
{
    let mut text: String = String::new();
    text.append("--- ");
    text.append(target);
    text.append(" ping statistics ---\n");
    push_decimal(&mut text, stats.sent as u64);
    text.append(" packets transmitted, ");
    push_decimal(&mut text, stats.received as u64);
    text.append(" packets received, ");
    push_short_thousandths(&mut text, stats.loss as u64);
    text.append("% packet loss\n");
    text.append("round-trip min/avg/max/stddev = ");
    push_thousandths(&mut text, stats.rtt_min as u64);
    text.append("/");
    push_thousandths(&mut text, stats.rtt_avg as u64);
    text.append("/");
    push_thousandths(&mut text, stats.rtt_max as u64);
    text.append("/");
    push_thousandths(&mut text, stats.rtt_stddev as u64);
    text.append(" ms");
    proof {
        assert(text@ =~= summary_text(target@, *stats));
    }
    text
}

} // verus!
