use dns_resolver::question::QueryType;
use dns_resolver::record::RData;
use dns_resolver::record::ResourceRecord;

#[test]
fn test_parse_a_record() {
    // An A record for "goo.com" -> 142.250.187.206, with the owner name
    // given as a pointer to offset 12.
    let data = vec![
        0xc0, 0x0c, // name: pointer to offset 12
        0x00, 0x01, // type A
        0x00, 0x01, // class IN
        0x00, 0x00, 0x00, 0x3c, // TTL 60
        0x00, 0x04, // data length 4
        142, 250, 187, 206, // the IPv4 address
    ];
    let full_packet = [
        &[0; 12][..],                                       // dummy header
        &[3, b'g', b'o', b'o', 3, b'c', b'o', b'm', 0][..], // the name the pointer targets
        &data[..],
    ]
    .concat();

    // The record starts right after the 12-byte header and the 9-byte name.
    let (record, end) = ResourceRecord::from_bytes(&full_packet, 12 + 9).unwrap();
    assert_eq!(record.name, "goo.com");
    assert_eq!(record.rtype, QueryType::A);
    assert_eq!(record.ttl, 60);
    assert_eq!(end, full_packet.len());
    match record.data {
        RData::A(addr) => assert_eq!(addr, [142, 250, 187, 206]),
        _ => panic!("Expected A record"),
    }
}

#[test]
fn parse_mx_record() {
    let mut data = vec![
        7, b'e', b'x', b'a', b'm', b'p', b'l', b'e', 3, b'c', b'o', b'm', 0, // owner name
        0x00, 0x0f, // type MX
        0x00, 0x01, // class IN
        0x00, 0x00, 0x0e, 0x10, // TTL 3600
        0x00, 0x14, // data length 20: preference + exchange name
        0x00, 0x0a, // preference 10
    ];
    data.extend_from_slice(&[
        4, b'm', b'a', b'i', b'l', 7, b'e', b'x', b'a', b'm', b'p', b'l', b'e', 3, b'c', b'o',
        b'm', 0,
    ]);
    let (record, end) = ResourceRecord::from_bytes(&data, 0).unwrap();
    assert_eq!(record.name, "example.com");
    assert_eq!(record.rtype, QueryType::MX);
    assert_eq!(record.ttl, 3600);
    assert_eq!(end, data.len());
    match &record.data {
        RData::MX { preference, exchange } => {
            assert_eq!(*preference, 10);
            assert_eq!(exchange, "mail.example.com");
        },
        _ => panic!("Expected MX record"),
    }
    let mx = record.get_mx_data().unwrap();
    assert_eq!(mx.preference, 10);
    assert_eq!(mx.exchange, "mail.example.com");
}

#[test]
fn parse_txt_record_concatenates_character_strings() {
    let data = vec![
        0, // owner: the root name
        0x00, 0x10, // type TXT
        0x00, 0x01, // class IN
        0x00, 0x00, 0x00, 0x00, // TTL 0
        0x00, 0x06, // data length 6
        2, b'a', b'b', // "ab"
        2, b'c', b'd', // "cd"
    ];
    let (record, end) = ResourceRecord::from_bytes(&data, 0).unwrap();
    assert_eq!(record.rtype, QueryType::TXT);
    assert_eq!(end, data.len());
    match &record.data {
        RData::TXT(text) => assert_eq!(text, "abcd"),
        _ => panic!("Expected TXT record"),
    }
    assert_eq!(record.get_txt_data(), Some("abcd"));
}

#[test]
fn parse_aaaa_record() {
    let mut data = vec![
        0, // owner: the root name
        0x00, 0x1c, // type AAAA
        0x00, 0x01, // class IN
        0x00, 0x00, 0x00, 0x05, // TTL 5
        0x00, 0x10, // data length 16
    ];
    let address: [u8; 16] = [
        0x20, 0x01, 0x0d, 0xb8, 0, 0, 0, 0, 0, 0, 0, 0, 0, 0, 0x12, 0x34,
    ];
    data.extend_from_slice(&address);
    let (record, end) = ResourceRecord::from_bytes(&data, 0).unwrap();
    assert_eq!(record.rtype, QueryType::AAAA);
    assert_eq!(end, data.len());
    assert_eq!(record.get_ipv6_address(), Some(address));
    assert_eq!(record.get_ipv4_address(), None);
}

#[test]
fn parse_cname_record_with_compression() {
    let data = vec![
        3, b'w', b'w', b'w', 3, b'f', b'o', b'o', 0, // owner www.foo at offset 0
        0x00, 0x05, // type CNAME
        0x00, 0x01, // class IN
        0x00, 0x00, 0x00, 0x3c, // TTL 60
        0x00, 0x02, // data length 2
        0xc0, 0x04, // pointer to offset 4: "foo"
    ];
    let (record, end) = ResourceRecord::from_bytes(&data, 0).unwrap();
    assert_eq!(record.name, "www.foo");
    assert_eq!(record.rtype, QueryType::CNAME);
    assert_eq!(end, data.len());
    assert_eq!(record.get_cname(), Some("foo"));
}

#[test]
fn unknown_record_type_keeps_raw_bytes() {
    let data = vec![
        0, // owner: the root name
        0x00, 0xff, // type 255, unsupported
        0x00, 0x01, // class IN
        0x00, 0x00, 0x00, 0x00, // TTL 0
        0x00, 0x05, // data length 5
        1, 2, 3, 4, 5, // raw payload
        0xEE, 0xEE, // trailing bytes past the record
    ];
    let (record, end) = ResourceRecord::from_bytes(&data, 0).unwrap();
    // The cursor lands exactly at the end of the declared payload region.
    assert_eq!(end, 16);
    let (code, raw) = record.get_raw_data().unwrap();
    assert_eq!(code, 255);
    assert_eq!(raw, &[1, 2, 3, 4, 5]);
    assert_eq!(record.get_class(), 1);
}

#[test]
fn cursor_is_forced_to_the_declared_payload_end() {
    // An A record whose declared payload length is 6: the parser consumes
    // only the 4 address bytes, but the cursor must land at the region end.
    let data = vec![
        0, // owner: the root name
        0x00, 0x01, // type A
        0x00, 0x01, // class IN
        0x00, 0x00, 0x00, 0x00, // TTL 0
        0x00, 0x06, // declared data length 6
        9, 9, 9, 9, // the address that is read
        7, 7, // extra declared payload the parser never touches
    ];
    let (record, end) = ResourceRecord::from_bytes(&data, 0).unwrap();
    assert_eq!(record.get_ipv4_address(), Some([9, 9, 9, 9]));
    assert_eq!(end, data.len());
}

#[test]
fn txt_character_string_may_cross_the_declared_payload_end() {
    // The declared payload is two bytes, but its single character-string
    // claims three: the read crosses the region end inside the buffer, and
    // the cursor is still forced back to the declared end.
    let data = vec![
        0, // owner: the root name
        0x00, 0x10, // type TXT
        0x00, 0x01, // class IN
        0x00, 0x00, 0x00, 0x00, // TTL 0
        0x00, 0x02, // declared data length 2
        3, b'x', b'y', b'z', // a character-string of 3 bytes
    ];
    let (record, end) = ResourceRecord::from_bytes(&data, 0).unwrap();
    assert_eq!(record.get_txt_data(), Some("xyz"));
    assert_eq!(end, 13);
}

#[test]
fn txt_zero_length_character_strings_are_skipped() {
    let data = vec![
        0, // owner: the root name
        0x00, 0x10, // type TXT
        0x00, 0x01, // class IN
        0x00, 0x00, 0x00, 0x00, // TTL 0
        0x00, 0x04, // data length 4
        0, // an empty character-string
        2, b'o', b'k', // "ok"
    ];
    let (record, end) = ResourceRecord::from_bytes(&data, 0).unwrap();
    assert_eq!(record.get_txt_data(), Some("ok"));
    assert_eq!(end, data.len());
}

#[test]
fn record_fails_when_fixed_fields_are_truncated() {
    let data = vec![
        0, // owner: the root name
        0x00, 0x01, // type A
        0x00, 0x01, // class IN
        0x00, 0x00, // TTL cut short
    ];
    assert!(ResourceRecord::from_bytes(&data, 0).is_err());
}

#[test]
fn record_fails_when_the_address_bytes_are_missing() {
    let data = vec![
        0, // owner: the root name
        0x00, 0x01, // type A
        0x00, 0x01, // class IN
        0x00, 0x00, 0x00, 0x00, // TTL 0
        0x00, 0x04, // data length 4
        1, 2, // only two of the four address bytes present
    ];
    assert!(ResourceRecord::from_bytes(&data, 0).is_err());
}

#[test]
fn getters_return_none_for_other_variants() {
    let data = vec![
        0, 0x00, 0x01, 0x00, 0x01, 0x00, 0x00, 0x00, 0x00, 0x00, 0x04, 1, 2, 3, 4,
    ];
    let (record, _) = ResourceRecord::from_bytes(&data, 0).unwrap();
    assert!(record.get_ipv6_address().is_none());
    assert!(record.get_mx_data().is_none());
    assert!(record.get_cname().is_none());
    assert!(record.get_txt_data().is_none());
    assert!(record.get_raw_data().is_none());
}
