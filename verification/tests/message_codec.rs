use dns_resolver::error::DnsError;
use dns_resolver::header::ResponseCode;
use dns_resolver::message::DnsMessage;
use dns_resolver::question::DnsQuestion;
use dns_resolver::question::QueryType;
use dns_resolver::record::RData;
use dns_resolver::resolver::build_query;
use dns_resolver::resolver::parse_response;

/// A response with one question and one A-record answer for "example.com",
/// carrying the given flags.
fn one_answer_response(flags: u16) -> Vec<u8> {
    let mut data = vec![
        0x04, 0xd2, // id 1234
        (flags >> 8) as u8,
        (flags & 0xff) as u8, // flags
        0x00, 0x01, // 1 question
        0x00, 0x01, // 1 answer
        0x00, 0x00, // 0 authority records
        0x00, 0x00, // 0 additional records
    ];
    // Question: example.com A IN, name at offset 12.
    data.extend_from_slice(&[7, b'e', b'x', b'a', b'm', b'p', b'l', b'e', 3, b'c', b'o', b'm', 0]);
    data.extend_from_slice(&[0x00, 0x01, 0x00, 0x01]);
    // Answer: a pointer to the question's name, then an A record.
    data.extend_from_slice(&[0xc0, 0x0c]);
    data.extend_from_slice(&[0x00, 0x01, 0x00, 0x01, 0x00, 0x00, 0x00, 0x3c, 0x00, 0x04]);
    data.extend_from_slice(&[93, 184, 216, 34]);
    data
}

#[test]
fn message_decode_is_driven_by_the_header_counts() {
    let mut data = one_answer_response(0x8180);
    // Trailing bytes after the last declared record are ignored.
    data.extend_from_slice(&[0xAA, 0xBB, 0xCC]);
    let message = DnsMessage::from_bytes(&data).unwrap();
    assert_eq!(message.header.id, 1234);
    assert_eq!(message.questions.len(), 1);
    assert_eq!(message.answers.len(), 1);
    assert_eq!(message.authorities.len(), 0);
    assert_eq!(message.additionals.len(), 0);
    assert_eq!(message.questions[0].name, "example.com");
    assert_eq!(message.questions[0].qtype, QueryType::A);
    let answer = &message.answers[0];
    assert_eq!(answer.name, "example.com");
    assert_eq!(answer.ttl, 60);
    match answer.data {
        RData::A(addr) => assert_eq!(addr, [93, 184, 216, 34]),
        _ => panic!("Expected A record"),
    }
}

#[test]
fn message_decode_fails_when_a_declared_record_is_missing() {
    let mut data = one_answer_response(0x8180);
    // Claim a second answer that is not present.
    data[7] = 2;
    assert!(DnsMessage::from_bytes(&data).is_err());
}

#[test]
fn message_pack_writes_header_and_questions_only() {
    let mut message = DnsMessage::new();
    message.header.id = 0x0102;
    message.header.question_count = 1;
    message.questions.push(DnsQuestion {
        name: "abc.de".to_string(),
        qtype: QueryType::TXT,
        qclass: 1,
    });
    let mut buffer = Vec::new();
    message.pack(&mut buffer).unwrap();
    let expected = vec![
        0x01, 0x02, 0x00, 0x00, 0x00, 0x01, 0x00, 0x00, 0x00, 0x00, 0x00, 0x00, // header
        3, b'a', b'b', b'c', 2, b'd', b'e', 0, // the name
        0x00, 0x10, // type TXT
        0x00, 0x01, // class IN
    ];
    assert_eq!(buffer, expected);
}

#[test]
fn message_pack_fails_on_an_oversize_label() {
    let mut message = DnsMessage::new();
    message.questions.push(DnsQuestion {
        name: "a".repeat(64),
        qtype: QueryType::A,
        qclass: 1,
    });
    let mut buffer = Vec::new();
    assert!(message.pack(&mut buffer).is_err());
}

#[test]
fn question_pack_then_decode_returns_the_same_question() {
    let question = DnsQuestion {
        name: "www.example.com".to_string(),
        qtype: QueryType::MX,
        qclass: 1,
    };
    let mut buffer = Vec::new();
    question.pack(&mut buffer).unwrap();
    let (decoded, end) = DnsQuestion::from_bytes(&buffer, 0).unwrap();
    assert_eq!(end, buffer.len());
    assert_eq!(decoded.name, "www.example.com");
    assert_eq!(decoded.qtype, QueryType::MX);
    assert_eq!(decoded.qclass, 1);
}

#[test]
fn question_decode_fails_on_an_unknown_type_code() {
    let data = vec![
        3, b'a', b'b', b'c', 0, // the name "abc"
        0x00, 0x63, // type code 99: not one of the five supported
        0x00, 0x01, // class IN
    ];
    let result = DnsQuestion::from_bytes(&data, 0);
    assert!(matches!(result, Err(DnsError::InvalidResponse(_))));
}

#[test]
fn build_query_produces_the_exact_wire_bytes() {
    let bytes = build_query("abc.de", QueryType::A).unwrap();
    let expected = vec![
        0x04, 0xd2, // id 1234
        0x01, 0x00, // flags: recursion desired
        0x00, 0x01, // 1 question
        0x00, 0x00, 0x00, 0x00, 0x00, 0x00, // no records
        3, b'a', b'b', b'c', 2, b'd', b'e', 0, // the name
        0x00, 0x01, // type A
        0x00, 0x01, // class IN
    ];
    assert_eq!(bytes, expected);
}

#[test]
fn build_query_rejects_an_oversize_label() {
    let long = "a".repeat(64);
    let result = build_query(&long, QueryType::A);
    assert!(matches!(result, Err(DnsError::InvalidResponse(_))));
}

#[test]
fn built_queries_decode_back_to_one_question() {
    let bytes = build_query("www.example.com", QueryType::TXT).unwrap();
    let message = DnsMessage::from_bytes(&bytes).unwrap();
    assert_eq!(message.header.id, 1234);
    assert_eq!(message.header.flags, 0x0100);
    assert_eq!(message.questions.len(), 1);
    assert_eq!(message.questions[0].name, "www.example.com");
    assert_eq!(message.questions[0].qtype, QueryType::TXT);
    assert_eq!(message.questions[0].qclass, 1);
}

#[test]
fn parse_response_accepts_a_no_error_response() {
    let data = one_answer_response(0x8180);
    let message = parse_response(&data).unwrap();
    assert_eq!(message.answers.len(), 1);
}

#[test]
fn parse_response_reports_the_server_error_code() {
    // Low nibble 3: NXDOMAIN.
    let data = one_answer_response(0x8183);
    match parse_response(&data) {
        Err(DnsError::ServerReturnedError(code)) => assert_eq!(code, ResponseCode::NameError),
        _ => panic!("Expected a server-signalled error"),
    }
}

#[test]
fn parse_response_rejects_a_malformed_buffer() {
    let data = vec![0x01, 0x02, 0x03];
    let result = parse_response(&data);
    assert!(matches!(result, Err(DnsError::InvalidResponse(_))));
}

#[test]
fn query_type_from_str_is_case_insensitive() {
    assert_eq!(QueryType::from_str("A").unwrap(), QueryType::A);
    assert_eq!(QueryType::from_str("aaaa").unwrap(), QueryType::AAAA);
    assert_eq!(QueryType::from_str("CnAmE").unwrap(), QueryType::CNAME);
    assert_eq!(QueryType::from_str("mx").unwrap(), QueryType::MX);
    assert_eq!(QueryType::from_str("tXt").unwrap(), QueryType::TXT);
    assert!(QueryType::from_str("UNKNOWN").is_err());
    assert!(QueryType::from_str("").is_err());
}

#[test]
fn query_type_codes_round_trip() {
    for (qt, code) in [
        (QueryType::A, 1u16),
        (QueryType::AAAA, 28),
        (QueryType::CNAME, 5),
        (QueryType::MX, 15),
        (QueryType::TXT, 16),
    ] {
        assert_eq!(qt.code(), code);
        assert_eq!(QueryType::from_code(code).unwrap(), qt);
    }
    assert!(QueryType::from_code(2).is_err());
    assert!(QueryType::from_code(999).is_err());
}

#[test]
fn query_type_text_names() {
    assert_eq!(QueryType::A.text(), "A");
    assert_eq!(QueryType::AAAA.text(), "AAAA");
    assert_eq!(QueryType::CNAME.text(), "CNAME");
    assert_eq!(QueryType::MX.text(), "MX");
    assert_eq!(QueryType::TXT.text(), "TXT");
}
