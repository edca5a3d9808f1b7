//! ICMP messages as bytes: building an Echo Request, and reading what comes
//! back.

use vstd::prelude::*;
use crate::checksum::{
    byte_weight,
    checksum,
    checksum_ok,
    flip_bit,
    internet_checksum,
    lemma_flipped_bit_is_detected,
    lemma_fold_closed_form,
    lemma_word_sum_update,
    verify_checksum,
    word_sum,
};

verus! {

/// ICMP type of an Echo Reply.
pub const ECHO_REPLY: u8 = 0;

/// ICMP type of a Destination Unreachable message.
pub const DESTINATION_UNREACHABLE: u8 = 3;

/// ICMP type of a Source Quench message.
pub const SOURCE_QUENCH: u8 = 4;

/// ICMP type of a Redirect message.
pub const REDIRECT: u8 = 5;

/// ICMP type of an Echo Request.
pub const ECHO_REQUEST: u8 = 8;

/// ICMP type of a Time Exceeded message.
pub const TIME_EXCEEDED: u8 = 11;

/// ICMP type of a Parameter Problem message.
pub const PARAMETER_PROBLEM: u8 = 12;

/// Length of the ICMP header that every message starts with.
pub const HEADER_LEN: usize = 8;

/// What an inbound ICMP message turned out to be.
#[derive(Debug, Clone, PartialEq, Eq)]
pub enum ParsedMessage {
    /// An answer to an Echo Request.
    EchoReply { seq: u16, identifier: u16, payload: Vec<u8> },
    /// A router dropped a request whose hop limit ran out; the message quotes
    /// the start of that request, and with it the request's sequence number
    /// and identifier.
    TimeExceeded { original_seq: u16, original_identifier: u16 },
    /// A well-formed message of a kind that a pinger has no use for.
    Other,
}

/// Why an inbound message was dropped.
#[derive(Debug, Clone, Copy, PartialEq, Eq)]
pub enum DecodeError {
    /// The message is shorter than a message of its type can be.
    Truncated,
    /// The message does not sum to what its checksum field promises.
    ChecksumMismatch,
    /// The type field holds a value that this codec does not know.
    UnrecognizedType,
}

/// A parsed message with its payload as a sequence.
pub enum MessageView {
    EchoReply { seq: u16, identifier: u16, payload: Seq<u8> },
    TimeExceeded { original_seq: u16, original_identifier: u16 },
    Other,
}

impl View for ParsedMessage {
    type V = MessageView;

    open spec fn view(&self) -> MessageView {
        match *self {
            ParsedMessage::EchoReply { seq, identifier, payload } => MessageView::EchoReply {
                seq,
                identifier,
                payload: payload@,
            },
            ParsedMessage::TimeExceeded {
                original_seq,
                original_identifier,
            } => MessageView::TimeExceeded { original_seq, original_identifier },
            ParsedMessage::Other => MessageView::Other,
        }
    }
}

/// The view of what `decode` returns.
pub open spec fn decoded_view(r: Result<ParsedMessage, DecodeError>) -> Result<
    MessageView,
    DecodeError,
> {
    match r {
        Ok(m) => Ok(m@),
        Err(e) => Err(e),
    }
}

/// The high byte of a 16-bit value.
pub open spec fn high_byte(x: u16) -> u8 {
    (x / 256) as u8
}

/// The low byte of a 16-bit value.
pub open spec fn low_byte(x: u16) -> u8 {
    (x % 256) as u8
}

/// The 16-bit value that two bytes spell in network order.
pub open spec fn be16(high: u8, low: u8) -> u16 {
    (high * 256 + low) as u16
}

/// An echo message of the given type with `sum` in its checksum field.
pub open spec fn echo_with_sum(kind: u8, seq: u16, identifier: u16, payload: Seq<u8>, sum: u16) -> Seq<
    u8,
> {
    seq![
        kind,
        0u8,
        high_byte(sum),
        low_byte(sum),
        high_byte(identifier),
        low_byte(identifier),
        high_byte(seq),
        low_byte(seq),
    ] + payload
}

/// An echo message of the given type: type, code 0, the checksum of the whole
/// message, identifier, sequence number, then the payload.
pub open spec fn echo_message(kind: u8, seq: u16, identifier: u16, payload: Seq<u8>) -> Seq<u8> {
    echo_with_sum(
        kind,
        seq,
        identifier,
        payload,
        internet_checksum(echo_with_sum(kind, seq, identifier, payload, 0)),
    )
}

/// The types that this codec knows and that are neither an Echo Reply nor a
/// Time Exceeded message.
pub open spec fn is_other_known_type(kind: u8) -> bool {
    kind == DESTINATION_UNREACHABLE || kind == SOURCE_QUENCH || kind == REDIRECT || kind
        == ECHO_REQUEST || kind == PARAMETER_PROBLEM
}

/// Length in bytes of the IP header that a Time Exceeded message quotes, as
/// the low four bits of the header's first byte give it in 32-bit words.
pub open spec fn quoted_header_len(bytes: Seq<u8>) -> int {
    4 * ((bytes[HEADER_LEN as int] % 16) as int)
}

/// Whether a Time Exceeded message holds all of what is read from it: the
/// quoted IP header, of twenty bytes at the least, and the eight bytes of the
/// request behind it.
pub open spec fn quote_is_complete(bytes: Seq<u8>) -> bool {
    &&& bytes.len() > HEADER_LEN
    &&& quoted_header_len(bytes) >= 20
    &&& bytes.len() >= HEADER_LEN + quoted_header_len(bytes) + 8
}

/// The sequence number of the request that a Time Exceeded message quotes.
pub open spec fn quoted_seq(bytes: Seq<u8>) -> u16 {
    let at: int = HEADER_LEN + quoted_header_len(bytes) + 6;
    be16(bytes[at], bytes[at + 1])
}

/// The identifier of the request that a Time Exceeded message quotes.
pub open spec fn quoted_identifier(bytes: Seq<u8>) -> u16 {
    let at: int = HEADER_LEN + quoted_header_len(bytes) + 4;
    be16(bytes[at], bytes[at + 1])
}

/// What a message is. The tests come in this order: length, then checksum,
/// then type.
pub open spec fn spec_decode(bytes: Seq<u8>) -> Result<MessageView, DecodeError> {
    if bytes.len() < HEADER_LEN {
        Err(DecodeError::Truncated)
    } else if !checksum_ok(bytes) {
        Err(DecodeError::ChecksumMismatch)
    } else if bytes[0] == ECHO_REPLY {
        Ok(
            MessageView::EchoReply {
                seq: be16(bytes[6], bytes[7]),
                identifier: be16(bytes[4], bytes[5]),
                payload: bytes.skip(HEADER_LEN as int),
            },
        )
    } else if bytes[0] == TIME_EXCEEDED {
        if quote_is_complete(bytes) {
            Ok(
                MessageView::TimeExceeded {
                    original_seq: quoted_seq(bytes),
                    original_identifier: quoted_identifier(bytes),
                },
            )
        } else {
            Err(DecodeError::Truncated)
        }
    } else if is_other_known_type(bytes[0]) {
        Ok(MessageView::Other)
    } else {
        Err(DecodeError::UnrecognizedType)
    }
}

/// Splitting a 16-bit value into bytes and joining them again changes nothing.
pub proof fn lemma_be16_of_halves(x: u16)
    ensures
        be16(high_byte(x), low_byte(x)) == x,
{
}

/// The word sum of an echo message is that of the same message with a zero
/// checksum field, plus the checksum.
pub proof fn lemma_sum_with_checksum(kind: u8, seq: u16, identifier: u16, payload: Seq<u8>, sum: u16)
    ensures
        word_sum(echo_with_sum(kind, seq, identifier, payload, sum)) == word_sum(
            echo_with_sum(kind, seq, identifier, payload, 0),
        ) + sum,
{
    let zero: Seq<u8> = echo_with_sum(kind, seq, identifier, payload, 0);
    let half: Seq<u8> = zero.update(2, high_byte(sum));
    let full: Seq<u8> = half.update(3, low_byte(sum));
    assert(full =~= echo_with_sum(kind, seq, identifier, payload, sum));
    lemma_word_sum_update(zero, 2, high_byte(sum));
    lemma_word_sum_update(half, 3, low_byte(sum));
    assert(zero[2] == 0 && half[3] == 0);
    assert(byte_weight(2) == 256 && byte_weight(3) == 1);
    assert(sum == 256 * (high_byte(sum) as nat) + (low_byte(sum) as nat));
}

/// An echo message carries a checksum that holds.
pub proof fn lemma_echo_message_checksum_ok(kind: u8, seq: u16, identifier: u16, payload: Seq<u8>)
    ensures
        checksum_ok(echo_message(kind, seq, identifier, payload)),
{
    let zero: Seq<u8> = echo_with_sum(kind, seq, identifier, payload, 0);
    let sum: u16 = internet_checksum(zero);
    let base: nat = word_sum(zero);
    lemma_sum_with_checksum(kind, seq, identifier, payload, sum);
    lemma_fold_closed_form(base);
    lemma_fold_closed_form(base + (sum as nat));
    if base > 0 {
        let k: int = (base - 1) / 65535;
        assert(base - 1 == 65535 * k + (base - 1) % 65535);
        assert(base + sum - 1 == 65535 * k + 65534);
        vstd::arithmetic::div_mod::lemma_fundamental_div_mod_converse_mod(
            (base + sum - 1) as int,
            65535,
            k,
            65534,
        );
    }
}

/// Round trip. The Echo Reply that carries a sequence number, an identifier
/// and a payload decodes to exactly these, whatever the payload's length.
pub proof fn lemma_reply_round_trip(seq: u16, identifier: u16, payload: Seq<u8>)
    ensures
        spec_decode(echo_message(ECHO_REPLY, seq, identifier, payload)) == Ok::<
            MessageView,
            DecodeError,
        >(MessageView::EchoReply { seq, identifier, payload }),
{
    let msg: Seq<u8> = echo_message(ECHO_REPLY, seq, identifier, payload);
    lemma_echo_message_checksum_ok(ECHO_REPLY, seq, identifier, payload);
    lemma_be16_of_halves(seq);
    lemma_be16_of_halves(identifier);
    assert(msg.skip(HEADER_LEN as int) =~= payload);
}

/// What `encode` builds decodes without an error, as a message that is not a
/// reply: a pinger that hears its own request does not take it for an answer.
pub proof fn lemma_request_decodes_as_other(seq: u16, identifier: u16, payload: Seq<u8>)
    ensures
        spec_decode(echo_message(ECHO_REQUEST, seq, identifier, payload)) == Ok::<
            MessageView,
            DecodeError,
        >(MessageView::Other),
{
    lemma_echo_message_checksum_ok(ECHO_REQUEST, seq, identifier, payload);
}

/// Corruption. A message that decodes, in which one bit is then flipped, is
/// rejected for its checksum, wherever the bit stands.
pub proof fn lemma_flipped_bit_is_rejected(bytes: Seq<u8>, i: int, bit: u8)
    requires
        spec_decode(bytes) is Ok,
        0 <= i < bytes.len(),
        bit < 8,
    ensures
        spec_decode(bytes.update(i, flip_bit(bytes[i], bit))) == Err::<MessageView, DecodeError>(
            DecodeError::ChecksumMismatch,
        ),
{
    lemma_flipped_bit_is_detected(bytes, i, bit);
}

/// Builds an Echo Request with the given sequence number, identifier and
/// payload.
pub fn encode(seq: u16, identifier: u16, payload: &[u8]) -> (out: Vec<u8>)
    requires
        payload.len() + HEADER_LEN <= usize::MAX,
    ensures
        out@ == echo_message(ECHO_REQUEST, seq, identifier, payload@),
{
    let mut out: Vec<u8> = Vec::with_capacity(payload.len() + HEADER_LEN);
    out.push(ECHO_REQUEST);
    out.push(0);
    out.push(0);
    out.push(0);
    out.push((identifier / 256) as u8);
    out.push((identifier % 256) as u8);
    out.push((seq / 256) as u8);
    out.push((seq % 256) as u8);
    let mut i: usize = 0;
    while i < payload.len()
        invariant
            i <= payload.len(),
            out@ =~= echo_with_sum(ECHO_REQUEST, seq, identifier, payload@.take(i as int), 0),
        decreases payload.len() - i,
    {
        out.push(payload[i]);
        i = i + 1;
    }
    proof {
        assert(payload@.take(i as int) =~= payload@);
    }
    let sum: u16 = checksum(out.as_slice());
    out.set(2, (sum / 256) as u8);
    out.set(3, (sum % 256) as u8);
    proof {
        assert(out@ =~= echo_with_sum(ECHO_REQUEST, seq, identifier, payload@, sum));
    }
    out
}

/// Reads an inbound ICMP message.
pub fn decode(bytes: &[u8]) -> (r: Result<ParsedMessage, DecodeError>)
    ensures
        decoded_view(r) == spec_decode(bytes@),
{
    if bytes.len() < HEADER_LEN {
        return Err(DecodeError::Truncated);
    }
    if !verify_checksum(bytes) {
        return Err(DecodeError::ChecksumMismatch);
    }
    let kind: u8 = bytes[0];
    if kind == ECHO_REPLY {
        let identifier: u16 = join_bytes(bytes[4], bytes[5]);
        let seq: u16 = join_bytes(bytes[6], bytes[7]);
        let mut payload: Vec<u8> = Vec::new();
        let mut i: usize = HEADER_LEN;
        while i < bytes.len()
            invariant
                HEADER_LEN <= i <= bytes.len(),
                payload@ =~= bytes@.subrange(HEADER_LEN as int, i as int),
            decreases bytes.len() - i,
        {
            payload.push(bytes[i]);
            i = i + 1;
        }
        proof {
            assert(payload@ =~= bytes@.skip(HEADER_LEN as int));
        }
        Ok(ParsedMessage::EchoReply { seq, identifier, payload })
    } else if kind == TIME_EXCEEDED {
        if bytes.len() <= HEADER_LEN {
            return Err(DecodeError::Truncated);
        }
        let quoted: usize = 4 * ((bytes[HEADER_LEN] % 16) as usize);
        if quoted < 20 || bytes.len() - HEADER_LEN < quoted + 8 {
            return Err(DecodeError::Truncated);
        }
        let at: usize = HEADER_LEN + quoted + 4;
        Ok(
            ParsedMessage::TimeExceeded {
                original_seq: join_bytes(bytes[at + 2], bytes[at + 3]),
                original_identifier: join_bytes(bytes[at], bytes[at + 1]),
            },
        )
    } else if kind == DESTINATION_UNREACHABLE || kind == SOURCE_QUENCH || kind == REDIRECT || kind
        == ECHO_REQUEST || kind == PARAMETER_PROBLEM {
        Ok(ParsedMessage::Other)
    } else {
        Err(DecodeError::UnrecognizedType)
    }
}

/// IP protocol number of ICMP.
pub const PROTOCOL_ICMP: u8 = 1;

/// What the IPv4 header of an inbound datagram says of the ICMP message
/// behind it.
#[derive(Debug, Clone, Copy, PartialEq, Eq, Structural)]
pub struct Ipv4Info {
    /// The hop limit that the datagram arrived with.
    pub ttl: u8,
    /// The address that the datagram came from.
    pub source: u32,
    /// The index at which the ICMP message begins.
    pub message_at: usize,
}

/// Whether `bytes` begin with the header of an IPv4 datagram that carries
/// ICMP: version 4, a header length of twenty bytes at the least that the
/// datagram is long enough for, and the protocol number of ICMP.
pub open spec fn is_ipv4_datagram(bytes: Seq<u8>) -> bool {
    &&& bytes.len() >= 20
    &&& bytes[0] / 16 == 4
    &&& bytes[0] % 16 >= 5
    &&& bytes.len() >= 4 * (bytes[0] % 16)
    &&& bytes[9] == PROTOCOL_ICMP
}

/// The 32-bit value that four bytes spell in network order.
pub open spec fn be32(b0: u8, b1: u8, b2: u8, b3: u8) -> u32 {
    (b0 * 0x100_0000 + b1 * 0x1_0000 + b2 * 0x100 + b3) as u32
}

/// What the header of a datagram says, where it is one of IPv4 that carries
/// ICMP.
pub open spec fn spec_read_ipv4(bytes: Seq<u8>) -> Option<Ipv4Info> {
    if is_ipv4_datagram(bytes) {
        Some(
            Ipv4Info {
                ttl: bytes[8],
                source: be32(bytes[12], bytes[13], bytes[14], bytes[15]),
                message_at: (4 * (bytes[0] % 16)) as usize,
            },
        )
    } else {
        None
    }
}

/// Reads the IPv4 header that a raw socket hands over in front of each ICMP
/// message.
pub fn read_ipv4(bytes: &[u8]) -> (info: Option<Ipv4Info>)
    ensures
        info == spec_read_ipv4(bytes@),
        info matches Some(i) ==> 20 <= i.message_at <= bytes.len(),
{
    if bytes.len() < 20 {
        return None;
    }
    let words: usize = (bytes[0] % 16) as usize;
    if bytes[0] / 16 != 4 || words < 5 || bytes.len() < 4 * words || bytes[9] != PROTOCOL_ICMP {
        return None;
    }
    let source: u32 = (bytes[12] as u32) * 0x100_0000 + (bytes[13] as u32) * 0x1_0000 + (
    bytes[14] as u32) * 0x100 + (bytes[15] as u32);
    Some(Ipv4Info { ttl: bytes[8], source, message_at: 4 * words })
}

/// Joins two bytes in network order.
pub fn join_bytes(high: u8, low: u8) -> (x: u16)
    ensures
        x == be16(high, low),
{
    (high as u16) * 256 + (low as u16)
}

} // verus!
