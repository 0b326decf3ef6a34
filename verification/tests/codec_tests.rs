use doughnut::codec::DecodeError;
use doughnut::doughnut::DoughnutV0;
use doughnut::plug::PlugDoughnut;

fn sample_token() -> DoughnutV0 {
    DoughnutV0 {
        issuer: vec![7u8; 32],
        holder: vec![8u8; 32],
        not_before: 1,
        expiry: 2,
        payload_version: 0,
        signature: vec![9u8; 64],
        signature_version: 0,
        domains: vec![],
    }
}

#[test]
fn encode_decode_round_trips() {
    let token = DoughnutV0 {
        issuer: vec![3u8; 32],
        holder: vec![4u8; 32],
        not_before: 1000,
        expiry: 3000,
        payload_version: 0,
        signature: vec![5u8; 64],
        signature_version: 1,
        domains: vec![
            ("test".as_bytes().to_vec(), vec![0u8]),
            ("other".as_bytes().to_vec(), vec![1, 2, 3]),
        ],
    };
    let plug = PlugDoughnut::new(token);
    let encoded = plug.encode();
    let decoded = PlugDoughnut::decode(&encoded).unwrap();
    assert_eq!(decoded, plug);
}

#[test]
fn encode_round_trips_with_empty_domains() {
    let plug = PlugDoughnut::new(sample_token());
    let encoded = plug.encode();
    let decoded = PlugDoughnut::decode(&encoded).unwrap();
    assert_eq!(decoded, plug);
}

#[test]
fn encode_lays_fields_out_in_wire_order() {
    let plug = PlugDoughnut::new(sample_token());
    let encoded = plug.encode();
    // body: 32 + 32 + 4 + 4 + 2 + 64 + 1 + 1 = 140 bytes, prefixed by the
    // two-byte compact form of 140 (140 * 4 + 1 = 561 = 0x0231).
    assert_eq!(encoded.len(), 142);
    assert_eq!(encoded[0], 0x31);
    assert_eq!(encoded[1], 0x02);
    assert_eq!(&encoded[2..34], &[7u8; 32][..]);
    assert_eq!(&encoded[34..66], &[8u8; 32][..]);
    assert_eq!(&encoded[66..70], &[1, 0, 0, 0]);
    assert_eq!(&encoded[70..74], &[2, 0, 0, 0]);
    assert_eq!(&encoded[74..76], &[0, 0]);
    assert_eq!(&encoded[76..140], &[9u8; 64][..]);
    assert_eq!(encoded[140], 0);
    assert_eq!(encoded[141], 0);
}

#[test]
fn encode_prefixes_domain_strings_with_compact_lengths() {
    let mut token = sample_token();
    token.domains = vec![("ab".as_bytes().to_vec(), vec![0xAA, 0xBB, 0xCC])];
    let plug = PlugDoughnut::new(token);
    let encoded = plug.encode();
    // domain section: count 1, name length 2, "ab", payload length 3, payload
    let section = &encoded[encoded.len() - 8..];
    assert_eq!(
        section,
        &[1 << 2, 2 << 2, b'a', b'b', 3 << 2, 0xAA, 0xBB, 0xCC]
    );
}

#[test]
fn decode_rejects_empty_and_truncated_input() {
    assert_eq!(PlugDoughnut::decode(&[]), Err(DecodeError));
    let encoded = PlugDoughnut::new(sample_token()).encode();
    for cut in [1, 50, 141] {
        assert_eq!(
            PlugDoughnut::decode(&encoded[..encoded.len() - cut]),
            Err(DecodeError)
        );
    }
}

#[test]
fn decode_rejects_trailing_bytes() {
    let mut encoded = PlugDoughnut::new(sample_token()).encode();
    encoded.push(0);
    assert_eq!(PlugDoughnut::decode(&encoded), Err(DecodeError));
}

#[test]
fn decode_discards_the_prefix_value() {
    let plug = PlugDoughnut::new(sample_token());
    let mut encoded = plug.encode();
    // claim a body of 141 bytes (141 * 4 + 1 = 565 = 0x0235) over the
    // 140-byte body: the prefix value is wire framing and changes nothing
    encoded[0] = 0x35;
    assert_eq!(PlugDoughnut::decode(&encoded), Ok(plug.clone()));
    // a compact-zero prefix ahead of the same body decodes the same token
    let mut zero_prefixed = vec![0u8];
    zero_prefixed.extend_from_slice(&encoded[2..]);
    assert_eq!(PlugDoughnut::decode(&zero_prefixed), Ok(plug));
}

#[test]
fn decode_rejects_non_canonical_length_prefix() {
    let encoded = PlugDoughnut::new(sample_token()).encode();
    // same 140-byte body behind a wide four-byte form of 140 (140 * 4 + 2 = 562)
    let mut wide = vec![0x32, 0x02, 0x00, 0x00];
    wide.extend_from_slice(&encoded[2..]);
    assert_eq!(PlugDoughnut::decode(&wide), Err(DecodeError));
}

#[test]
fn decode_rejects_unknown_payload_version() {
    let mut token = sample_token();
    token.payload_version = 1;
    let encoded = PlugDoughnut::new(token).encode();
    assert_eq!(PlugDoughnut::decode(&encoded), Err(DecodeError));
}

#[test]
fn decode_rejects_garbled_domain_section() {
    let mut encoded = PlugDoughnut::new(sample_token()).encode();
    // a domain count of 1 with no pair bytes behind it
    encoded[141] = 1 << 2;
    assert_eq!(PlugDoughnut::decode(&encoded), Err(DecodeError));
}
