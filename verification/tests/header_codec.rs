use dns_resolver::header::DnsHeader;
use dns_resolver::header::ResponseCode;

#[test]
fn header_pack_is_twelve_bytes_big_endian() {
    let mut header = DnsHeader::new();
    header.id = 0x1234;
    header.question_count = 1;
    let mut buffer = Vec::new();
    header.pack(&mut buffer);
    assert_eq!(buffer.len(), 12);
    assert_eq!(&buffer[0..2], &[0x12, 0x34]);
    assert_eq!(&buffer[4..6], &[0x00, 0x01]);
}

#[test]
fn header_round_trip_preserves_all_six_fields() {
    let header = DnsHeader {
        id: 0xABCD,
        flags: 0x8180,
        question_count: 3,
        answer_count: 0xFFFF,
        authority_count: 7,
        additional_count: 0x0102,
    };
    let mut buffer = Vec::new();
    header.pack(&mut buffer);
    assert_eq!(buffer.len(), 12);
    let (decoded, end) = DnsHeader::from_bytes(&buffer, 0).unwrap();
    assert_eq!(end, 12);
    assert_eq!(decoded.id, header.id);
    assert_eq!(decoded.flags, header.flags);
    assert_eq!(decoded.question_count, header.question_count);
    assert_eq!(decoded.answer_count, header.answer_count);
    assert_eq!(decoded.authority_count, header.authority_count);
    assert_eq!(decoded.additional_count, header.additional_count);
}

#[test]
fn header_from_bytes_fails_on_fewer_than_twelve_bytes() {
    let data = vec![0u8; 11];
    assert!(DnsHeader::from_bytes(&data, 0).is_err());
    let data = vec![0u8; 20];
    assert!(DnsHeader::from_bytes(&data, 9).is_err());
}

#[test]
fn header_from_bytes_reads_at_an_offset() {
    let mut data = vec![0xEE, 0xEE];
    data.extend_from_slice(&[
        0x12, 0x34, 0x01, 0x00, 0x00, 0x01, 0x00, 0x00, 0x00, 0x00, 0x00, 0x00,
    ]);
    let (header, end) = DnsHeader::from_bytes(&data, 2).unwrap();
    assert_eq!(end, 14);
    assert_eq!(header.id, 0x1234);
    assert_eq!(header.flags, 0x0100);
    assert_eq!(header.question_count, 1);
}

#[test]
fn response_code_name_error_from_flags() {
    let mut header = DnsHeader::new();
    header.flags = 0x8003;
    assert_eq!(header.get_response_code(), ResponseCode::NameError);
}

#[test]
fn response_code_server_failure_from_low_nibble_two() {
    let mut header = DnsHeader::new();
    header.flags = 0x8182;
    assert_eq!(header.get_response_code(), ResponseCode::ServerFailure);
}

#[test]
fn response_codes_zero_to_five_map_to_their_variants() {
    let expected = [
        ResponseCode::NoError,
        ResponseCode::FormatError,
        ResponseCode::ServerFailure,
        ResponseCode::NameError,
        ResponseCode::NotImplemented,
        ResponseCode::Refused,
    ];
    for (nibble, want) in expected.iter().enumerate() {
        let mut header = DnsHeader::new();
        header.flags = 0x8180 & 0xFFF0 | nibble as u16;
        assert_eq!(header.get_response_code(), *want);
    }
}

#[test]
fn response_codes_six_to_fifteen_default_to_server_failure() {
    for nibble in 6u16..=15 {
        let mut header = DnsHeader::new();
        header.flags = nibble;
        assert_eq!(header.get_response_code(), ResponseCode::ServerFailure);
        let mut with_high_bits = DnsHeader::new();
        with_high_bits.flags = 0x8180 | nibble;
        assert_eq!(with_high_bits.get_response_code(), ResponseCode::ServerFailure);
    }
}

#[test]
fn new_header_is_all_zero() {
    let header = DnsHeader::new();
    assert_eq!(header.id, 0);
    assert_eq!(header.flags, 0);
    assert_eq!(header.question_count, 0);
    assert_eq!(header.answer_count, 0);
    assert_eq!(header.authority_count, 0);
    assert_eq!(header.additional_count, 0);
}
