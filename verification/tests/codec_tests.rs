use ping_util_rs::checksum::{checksum, verify_checksum};
use ping_util_rs::codec::{
    decode, encode, join_bytes, read_ipv4, DecodeError, Ipv4Info, ParsedMessage,
};

/// The Echo Reply that a host sends back for `request`.
fn reply_to(request: &[u8]) -> Vec<u8> {
    let mut reply = request.to_vec();
    reply[0] = 0;
    reply[2] = 0;
    reply[3] = 0;
    let sum = checksum(&reply);
    reply[2] = (sum >> 8) as u8;
    reply[3] = (sum & 0xff) as u8;
    reply
}

/// A message with the given type, four zero bytes behind the checksum, and
/// `rest` behind them.
fn message(kind: u8, rest: &[u8]) -> Vec<u8> {
    let mut bytes = vec![kind, 0, 0, 0, 0, 0, 0, 0];
    bytes.extend_from_slice(rest);
    let sum = checksum(&bytes);
    bytes[2] = (sum >> 8) as u8;
    bytes[3] = (sum & 0xff) as u8;
    bytes
}

#[test]
fn checksum_of_a_known_message() {
    let bytes = [0x00u8, 0x01, 0xf2, 0x03, 0xf4, 0xf5, 0xf6, 0xf7];
    assert_eq!(checksum(&bytes), 0x220d);
}

#[test]
fn checksum_of_nothing_is_all_ones() {
    assert_eq!(checksum(&[]), 0xffff);
    assert_eq!(checksum(&[0, 0, 0, 0]), 0xffff);
}

#[test]
fn checksum_pads_an_odd_byte_with_zero() {
    assert_eq!(checksum(&[0x12]), !0x1200u16);
    assert_eq!(checksum(&[0x12, 0x34, 0x56]), !(0x1234u16 + 0x5600));
}

#[test]
fn checksum_folds_carries_back_in() {
    // 0xffff + 0x0002 = 0x1_0001, folded 0x0002
    assert_eq!(checksum(&[0xff, 0xff, 0x00, 0x02]), !0x0002u16);
    // 0xffff + 0xffff = 0x1_fffe, folded 0xffff
    assert_eq!(checksum(&[0xff, 0xff, 0xff, 0xff]), 0);
}

#[test]
fn checksum_of_a_long_message_does_not_overflow() {
    let bytes = vec![0xffu8; 200_000];
    assert_eq!(checksum(&bytes), 0);
    assert!(verify_checksum(&bytes));
}

#[test]
fn verify_checksum_accepts_only_a_matching_sum() {
    assert!(verify_checksum(&[0x00, 0x01, 0xf2, 0x03, 0xf4, 0xf5, 0xf6, 0xf7, 0x22, 0x0d]));
    assert!(!verify_checksum(&[0x00, 0x01, 0xf2, 0x03, 0xf4, 0xf5, 0xf6, 0xf7, 0x22, 0x0c]));
    assert!(!verify_checksum(&[]));
    assert!(!verify_checksum(&[0, 0, 0, 0]));
}

#[test]
fn join_bytes_reads_network_order() {
    assert_eq!(join_bytes(0x12, 0x34), 0x1234);
    assert_eq!(join_bytes(0xff, 0xff), 0xffff);
    assert_eq!(join_bytes(0, 1), 1);
}

#[test]
fn encode_builds_a_known_request() {
    let bytes = encode(1, 0x1234, b"abcd");
    assert_eq!(
        bytes,
        vec![0x08, 0x00, 0x21, 0x04, 0x12, 0x34, 0x00, 0x01, 0x61, 0x62, 0x63, 0x64]
    );
    assert!(verify_checksum(&bytes));
}

#[test]
fn encode_with_an_empty_payload() {
    let bytes = encode(0, 0, &[]);
    assert_eq!(bytes, vec![0x08, 0x00, 0xf7, 0xff, 0x00, 0x00, 0x00, 0x00]);
}

#[test]
fn decode_reads_a_known_reply() {
    let bytes = [0x00u8, 0x00, 0x29, 0x04, 0x12, 0x34, 0x00, 0x01, 0x61, 0x62, 0x63, 0x64];
    assert_eq!(
        decode(&bytes),
        Ok(ParsedMessage::EchoReply { seq: 1, identifier: 0x1234, payload: b"abcd".to_vec() })
    );
}

#[test]
fn reply_round_trip_recovers_every_field() {
    let sizes = [0usize, 1, 2, 3, 7, 8, 55, 56, 57, 255, 256, 1472, 65506, 65507];
    for (k, size) in sizes.iter().enumerate() {
        let payload: Vec<u8> = (0..*size).map(|i| (i * 7 + k) as u8).collect();
        let seq = (k as u16).wrapping_mul(9973).wrapping_add(65530);
        let identifier = 0xbeefu16.wrapping_add(k as u16);
        let request = encode(seq, identifier, &payload);
        assert_eq!(request.len(), size + 8);
        assert_eq!(
            decode(&reply_to(&request)),
            Ok(ParsedMessage::EchoReply { seq, identifier, payload })
        );
    }
}

#[test]
fn own_request_decodes_as_other() {
    assert_eq!(decode(&encode(7, 9, b"xyz")), Ok(ParsedMessage::Other));
}

#[test]
fn every_flipped_bit_is_rejected_for_its_checksum() {
    let reply = reply_to(&encode(300, 0xabcd, b"0123456789abcdefg"));
    assert!(decode(&reply).is_ok());
    for i in 0..reply.len() {
        for bit in 0..8 {
            let mut corrupted = reply.clone();
            corrupted[i] ^= 1 << bit;
            assert_eq!(decode(&corrupted), Err(DecodeError::ChecksumMismatch));
        }
    }
}

#[test]
fn a_flipped_payload_bit_is_a_checksum_mismatch() {
    let mut reply = reply_to(&encode(1, 2, &[0u8; 56]));
    reply[20] ^= 0x10;
    assert_eq!(decode(&reply), Err(DecodeError::ChecksumMismatch));
}

#[test]
fn short_messages_are_truncated() {
    assert_eq!(decode(&[]), Err(DecodeError::Truncated));
    assert_eq!(decode(&[0, 0, 0xff, 0xff]), Err(DecodeError::Truncated));
    assert_eq!(decode(&[0, 0, 0xff, 0xff, 0, 0, 0]), Err(DecodeError::Truncated));
    assert_eq!(
        decode(&[0, 0, 0xff, 0xff, 0, 0, 0, 0]),
        Ok(ParsedMessage::EchoReply { seq: 0, identifier: 0, payload: vec![] })
    );
}

#[test]
fn length_is_tested_before_the_checksum_and_the_checksum_before_the_type() {
    assert_eq!(decode(&[42, 0, 0, 0]), Err(DecodeError::Truncated));
    assert_eq!(decode(&[42, 0, 0, 0, 0, 0, 0, 0]), Err(DecodeError::ChecksumMismatch));
    assert_eq!(decode(&message(42, &[])), Err(DecodeError::UnrecognizedType));
}

#[test]
fn unknown_types_are_refused_and_known_ones_pass_as_other() {
    for kind in [3u8, 4, 5, 8, 12] {
        assert_eq!(decode(&message(kind, &[1, 2, 3])), Ok(ParsedMessage::Other));
    }
    for kind in [1u8, 2, 6, 7, 9, 10, 13, 14, 128, 129, 255] {
        assert_eq!(decode(&message(kind, &[1, 2, 3])), Err(DecodeError::UnrecognizedType));
    }
}

#[test]
fn time_exceeded_gives_the_quoted_sequence_number() {
    let mut quote = vec![0x45u8, 0, 0, 84, 0, 0, 0, 0, 1, 1, 0, 0, 10, 0, 0, 1, 10, 0, 0, 2];
    quote.extend_from_slice(&encode(0x0203, 0x1111, &[])[..8]);
    assert_eq!(
        decode(&message(11, &quote)),
        Ok(ParsedMessage::TimeExceeded { original_seq: 0x0203, original_identifier: 0x1111 })
    );
}

#[test]
fn time_exceeded_heeds_the_length_of_the_quoted_header() {
    let mut quote = vec![0x46u8, 0, 0, 88, 0, 0, 0, 0, 1, 1, 0, 0, 10, 0, 0, 1, 10, 0, 0, 2];
    quote.extend_from_slice(&[1, 1, 0, 0]);
    quote.extend_from_slice(&[8, 0, 0, 0, 0x11, 0x11, 0xfe, 0xdc]);
    assert_eq!(
        decode(&message(11, &quote)),
        Ok(ParsedMessage::TimeExceeded { original_seq: 0xfedc, original_identifier: 0x1111 })
    );
}

#[test]
fn time_exceeded_with_a_short_quote_is_truncated() {
    assert_eq!(decode(&message(11, &[])), Err(DecodeError::Truncated));
    let mut quote = vec![0x45u8, 0, 0, 84, 0, 0, 0, 0, 1, 1, 0, 0, 10, 0, 0, 1, 10, 0, 0, 2];
    quote.extend_from_slice(&[8, 0, 0, 0, 0, 1, 0]);
    assert_eq!(decode(&message(11, &quote)), Err(DecodeError::Truncated));
    quote.push(5);
    assert_eq!(
        decode(&message(11, &quote)),
        Ok(ParsedMessage::TimeExceeded { original_seq: 5, original_identifier: 1 })
    );
}

#[test]
fn time_exceeded_with_an_impossible_header_length_is_truncated() {
    let mut quote = vec![0x44u8, 0, 0, 84, 0, 0, 0, 0, 1, 1, 0, 0, 10, 0, 0, 1, 10, 0, 0, 2];
    quote.extend_from_slice(&[8, 0, 0, 0, 0, 1, 0, 5, 0, 0, 0, 0]);
    assert_eq!(decode(&message(11, &quote)), Err(DecodeError::Truncated));
}

#[test]
fn read_ipv4_finds_the_message_behind_the_header() {
    let mut datagram = vec![0x45u8, 0, 0, 28, 0, 0, 0, 0, 57, 1, 0, 0, 10, 0, 0, 1, 10, 0, 0, 2];
    datagram.extend_from_slice(&[0, 0, 0xff, 0xff, 0, 0, 0, 0]);
    assert_eq!(
        read_ipv4(&datagram),
        Some(Ipv4Info { ttl: 57, source: 0x0a00_0001, message_at: 20 })
    );
    datagram[0] = 0x46;
    assert_eq!(
        read_ipv4(&datagram),
        Some(Ipv4Info { ttl: 57, source: 0x0a00_0001, message_at: 24 })
    );
    datagram[0] = 0x47;
    assert_eq!(
        read_ipv4(&datagram),
        Some(Ipv4Info { ttl: 57, source: 0x0a00_0001, message_at: 28 })
    );
    datagram[12] = 0xff;
    datagram[15] = 0xfe;
    assert_eq!(read_ipv4(&datagram).map(|i| i.source), Some(0xff00_00fe));
}

#[test]
fn read_ipv4_refuses_what_is_no_ipv4_datagram_with_icmp() {
    let good = vec![0x45u8, 0, 0, 28, 0, 0, 0, 0, 57, 1, 0, 0, 10, 0, 0, 1, 10, 0, 0, 2];
    assert!(read_ipv4(&good).is_some());
    assert_eq!(read_ipv4(&[]), None);
    assert_eq!(read_ipv4(&good[..19]), None);
    let mut other = good.clone();
    other[0] = 0x65;
    assert_eq!(read_ipv4(&other), None);
    other[0] = 0x44;
    assert_eq!(read_ipv4(&other), None);
    other[0] = 0x46;
    assert_eq!(read_ipv4(&other), None);
    other[0] = 0x45;
    other[9] = 17;
    assert_eq!(read_ipv4(&other), None);
}
