use dns_resolver::error::DnsError;
use dns_resolver::name::pack_domain_name;
use dns_resolver::name::unpack_domain_name;

#[test]
fn test_pack_domain_name() {
    let mut buffer = Vec::new();
    pack_domain_name(&mut buffer, "www.google.com").unwrap();
    assert_eq!(
        buffer,
        vec![3, b'w', b'w', b'w', 6, b'g', b'o', b'o', b'g', b'l', b'e', 3, b'c', b'o', b'm', 0]
    );
}

#[test]
fn test_unpack_simple_domain_name() {
    let data = vec![
        3, b'w', b'w', b'w', 6, b'g', b'o', b'o', b'g', b'l', b'e', 3, b'c', b'o', b'm', 0,
    ];
    let (name, end) = unpack_domain_name(&data, 0).unwrap();
    assert_eq!(name, "www.google.com");
    // The cursor sits exactly at the byte following the terminating zero.
    assert_eq!(end, 16);
}

#[test]
fn test_unpack_compressed_domain_name() {
    // A buffer shaped like a response: a 12-byte header, the name
    // "www.google.com" at offset 12, unrelated bytes, then a 2-byte pointer
    // back to offset 12.
    let data = vec![
        0x00, 0x01, 0x02, 0x03, 0x04, 0x05, 0x06, 0x07, 0x08, 0x09, 0x0a, 0x0b, // header
        3, b'w', b'w', b'w', 6, b'g', b'o', b'o', b'g', b'l', b'e', 3, b'c', b'o', b'm',
        0, // the name at offset 12, 16 bytes
        0xDE, 0xAD, 0xBE, 0xEF, // unrelated bytes
        0xc0, 0x0c, // a pointer to offset 12
    ];
    // The pointer starts at offset 12 + 16 + 4 = 32.
    let (name, end) = unpack_domain_name(&data, 32).unwrap();
    assert_eq!(name, "www.google.com");
    // The cursor advances exactly two bytes past the pointer.
    assert_eq!(end, 34);
}

#[test]
fn test_unpack_complex_compression() {
    // "f.example.com", where the second name is one label "f" followed by a
    // pointer to "example.com" inside the first name.
    let data = vec![
        0x01, b'f', // "f"
        0x07, b'e', b'x', b'a', b'm', b'p', b'l', b'e', // "example" at offset 2
        0x03, b'c', b'o', b'm', // "com"
        0x00, // terminator of f.example.com
        0x01, b'f', 0xc0, 0x02, // one label "f", then a pointer to offset 2
    ];
    // The second name starts at offset 15.
    let (name, end) = unpack_domain_name(&data, 15).unwrap();
    assert_eq!(name, "f.example.com");
    // The cursor stops after the pointer: 15 + 2 + 2 = 19.
    assert_eq!(end, 19);
}

#[test]
fn pack_accepts_a_63_byte_label() {
    let label = "a".repeat(63);
    let mut buffer = Vec::new();
    pack_domain_name(&mut buffer, &label).unwrap();
    assert_eq!(buffer.len(), 1 + 63 + 1);
    assert_eq!(buffer[0], 63);
    assert_eq!(buffer[64], 0);
}

#[test]
fn pack_rejects_a_64_byte_label() {
    let label = "a".repeat(64);
    let domain = format!("{}.example.com", label);
    let mut buffer = Vec::new();
    let result = pack_domain_name(&mut buffer, &domain);
    assert!(result.is_err());
    // Nothing of the oversize label was appended: no silent truncation.
    assert!(buffer.is_empty());
}

#[test]
fn pack_rejects_only_the_long_label_after_earlier_ones() {
    let long = "b".repeat(70);
    let domain = format!("ok.{}", long);
    let mut buffer = Vec::new();
    assert!(pack_domain_name(&mut buffer, &domain).is_err());
    // The label before the oversize one was already appended.
    assert_eq!(buffer, vec![2, b'o', b'k']);
}

#[test]
fn name_round_trip_returns_the_original_name() {
    for name in ["example.com", "a.b.c.d", "with-dash.example", "x"] {
        let mut buffer = Vec::new();
        pack_domain_name(&mut buffer, name).unwrap();
        let wire_len = buffer.len();
        let (decoded, end) = unpack_domain_name(&buffer, 0).unwrap();
        assert_eq!(decoded, name);
        assert_eq!(end, wire_len);
    }
}

#[test]
fn unpack_decodes_label_bytes_as_utf8() {
    // 0xC3 0xA9 is the UTF-8 encoding of U+00E9.
    let data = vec![2, 0xC3, 0xA9, 0];
    let (name, end) = unpack_domain_name(&data, 0).unwrap();
    assert_eq!(name, "\u{e9}");
    assert_eq!(end, 4);
}

#[test]
fn unpack_substitutes_invalid_utf8_label_bytes() {
    // 0xFF can never occur in UTF-8; it decodes to the replacement character
    // rather than failing.
    let data = vec![1, 0xFF, 0];
    let (name, _) = unpack_domain_name(&data, 0).unwrap();
    assert_eq!(name, "\u{fffd}");
}

#[test]
fn unpack_of_a_lone_zero_byte_is_the_root_name() {
    let data = vec![0u8];
    let (name, end) = unpack_domain_name(&data, 0).unwrap();
    assert_eq!(name, "");
    assert_eq!(end, 1);
}

#[test]
fn unpack_fails_on_a_truncated_label() {
    let data = vec![5, b'a', b'b'];
    let result = unpack_domain_name(&data, 0);
    assert!(matches!(result, Err(DnsError::InvalidResponse(_))));
}

#[test]
fn unpack_fails_on_a_missing_terminator() {
    let data = vec![3, b'a', b'b', b'c'];
    assert!(unpack_domain_name(&data, 0).is_err());
}

#[test]
fn unpack_fails_on_a_pointer_past_the_buffer() {
    let data = vec![0xc0, 0x50];
    assert!(unpack_domain_name(&data, 0).is_err());
}

#[test]
fn unpack_fails_on_a_pointer_cycle() {
    // A pointer that points at itself would loop forever; the decoder caps
    // the chain and reports the packet as malformed instead.
    let data = vec![0xc0, 0x00];
    let result = unpack_domain_name(&data, 0);
    assert!(matches!(result, Err(DnsError::InvalidResponse(_))));
}

#[test]
fn unpack_fails_past_the_end_of_the_buffer() {
    let data = vec![0u8];
    assert!(unpack_domain_name(&data, 1).is_err());
    assert!(unpack_domain_name(&data, 7).is_err());
}
