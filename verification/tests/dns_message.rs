use xhttp::dns::answer::{
    age_response_ttls, fuzz_dns_message, parse_https_ech, parse_response, response_ttl,
    rewrite_response_ttls, skip_name, ttl_offsets,
};
use xhttp::dns::message::{
    DnsError, add_client_subnet, build_query, build_query_with_subnet, canonical_query, dns_id,
    encode_name, local_response, normalize, parse_client_subnet, parse_question, refused_response,
    replace_id, validate_response,
};
use xhttp::dns::record::{
    optimistic_enabled, parse_dns_record, parse_query_type, parse_rcode, predefined_response,
    validate_strategy,
};
use xhttp::json::Value;
use xhttp::net::parse_ip;

fn question(name: &str, qtype: u16) -> Vec<u8> {
    let mut query = vec![0u8; 12];
    query[2] = 1;
    query[4..6].copy_from_slice(&1u16.to_be_bytes());
    for label in name.split('.') {
        query.push(label.len() as u8);
        query.extend_from_slice(label.as_bytes());
    }
    query.push(0);
    query.extend(qtype.to_be_bytes());
    query.extend(1u16.to_be_bytes());
    query
}

fn text(word: &str) -> Value {
    Value::Text(word.to_string())
}

#[test]
fn dns_query_encoding() {
    let q = build_query(7, "example.com", 1).unwrap();
    assert_eq!(&q[12..25], b"\x07example\x03com\0");
}

#[test]
fn mod_query_encoding() {
    let q = build_query(7, "example.com", 1).unwrap();
    assert_eq!(&q[12..25], b"\x07example\x03com\0");
}

#[test]
fn parse_question_extracts_name_type_and_end() {
    let query = question("www.example.com", 1);
    let (name, qtype, end) = parse_question(&query).unwrap();
    assert_eq!(name, "www.example.com");
    assert_eq!(qtype, 1);
    assert_eq!(&query[12..end], &query[12..]);
    assert!(parse_question(&[0u8; 4]).is_err());
    assert!(parse_question(&[0u8; 12]).is_err()); // zero questions
}

#[test]
fn parse_question_rejects_compression_and_long_labels() {
    let mut compressed = vec![0u8; 12];
    compressed[4..6].copy_from_slice(&1u16.to_be_bytes());
    compressed.push(0xc0);
    compressed.push(0x0c);
    assert!(parse_question(&compressed).is_err());

    let mut long = vec![0u8; 12];
    long[4..6].copy_from_slice(&1u16.to_be_bytes());
    long.push(64); // label length 64 > 63
    assert!(parse_question(&long).is_err());
}

#[test]
fn build_query_round_trips_through_parse_question() {
    let query = build_query(7, "example.com", 28).unwrap();
    assert_eq!(&query[..2], &7u16.to_be_bytes());
    let (name, qtype, _) = parse_question(&query).unwrap();
    assert_eq!(name, "example.com");
    assert_eq!(qtype, 28);
}

#[test]
fn build_query_with_subnet_appends_edns_option() {
    let query = build_query_with_subnet(1, "example.com", 1, Some("192.0.2.0/24")).unwrap();
    assert_eq!(&query[10..12], &1u16.to_be_bytes()); // ARCOUNT
    assert!(query.ends_with(&[
        0, 0, 41, 4, 208, // EDNS root
        0, 0, 0, 0, // extended rcode, version, DO, Z
        0, 11, // option length
        0, 8, // option code client subnet
        0, 7, // option data length
        0, 1, 24, 0, 192, 0, 2,
    ]));
    assert!(build_query(1, "bad..name", 1).is_err());
}

#[test]
fn query_encodes_edns_client_subnet() {
    let query = build_query_with_subnet(7, "example.com", 1, Some("192.0.2.129/24")).unwrap();
    assert_eq!(&query[10..12], &1u16.to_be_bytes());
    assert!(query.ends_with(&[
        0, 0, 41, 4, 208, 0, 0, 0, 0, 0, 11, 0, 8, 0, 7, 0, 1, 24, 0, 192, 0, 2,
    ]));
}

#[test]
fn add_client_subnet_validates_empty_additional_records() {
    let query = build_query(1, "example.com", 1).unwrap();
    let modified = add_client_subnet(&query, "2001:db8::/32").unwrap();
    assert_eq!(&modified[10..12], &1u16.to_be_bytes());
    let mut with_additional = query.clone();
    with_additional[10..12].copy_from_slice(&1u16.to_be_bytes());
    assert!(add_client_subnet(&with_additional, "192.0.2.0/24").is_err());
}

#[test]
fn parse_client_subnet_accepts_network_and_single_address() {
    assert!(parse_client_subnet("192.0.2.0/24").is_ok());
    assert!(parse_client_subnet("2001:db8::/32").is_ok());
    let single = parse_client_subnet("10.0.0.1").unwrap();
    assert_eq!(single.prefix, 32);
    assert!(parse_client_subnet("not-an-ip").is_err());
}

#[test]
fn refused_response_preserves_question_and_sets_rcode() {
    let query = question("example.com", 1);
    let (_, _, question_end) = parse_question(&query).unwrap();
    let response = refused_response(&query, question_end).unwrap();
    assert_eq!(&response[..2], &query[..2]);
    assert_ne!(response[2] & 0x80, 0);
    assert_eq!(response[3] & 0x0f, 5);
    assert_eq!(&response[6..12], &[0, 0, 0, 0, 0, 0]);
    assert_eq!(&response[12..], &query[12..question_end]);
}

#[test]
fn refused_response_preserves_question() {
    let query = build_query(7, "example.com", 1).unwrap();
    let (_, _, question_end) = parse_question(&query).unwrap();
    let response = refused_response(&query, question_end).unwrap();
    assert_eq!(&response[..2], &7u16.to_be_bytes());
    assert_ne!(response[2] & 0x80, 0);
    assert_eq!(response[3] & 0x0f, 5);
    assert_eq!(&response[12..], &query[12..question_end]);
}

#[test]
fn dns_id_and_canonical_query_round_trip() {
    let query = build_query(42, "example.com", 1).unwrap();
    assert_eq!(dns_id(&query).unwrap(), 42);
    let canonical = canonical_query(&query);
    assert_eq!(&canonical[..2], &[0, 0]);
    assert_eq!(&canonical[2..], &query[2..]);
}

#[test]
fn validate_response_checks_id_and_flags() {
    let mut response = build_query(7, "example.com", 1).unwrap();
    response[2] = 0x81; // response flag
    assert!(validate_response(7, &response).is_ok());
    assert!(validate_response(8, &response).is_err()); // id mismatch
    response[2] = 0x01; // not a response
    assert!(validate_response(7, &response).is_err());
    assert!(validate_response(7, &[0u8; 4]).is_err()); // truncated
}

#[test]
fn ttl_offsets_and_rewrite_visit_only_records() {
    let mut response = build_query(1, "example.com", 1).unwrap();
    response[2] = 0x81;
    response[3] = 0x80;
    response[6..8].copy_from_slice(&1u16.to_be_bytes()); // ANCOUNT
    response.extend([0xc0, 0x0c]);
    response.extend(1u16.to_be_bytes()); // A
    response.extend(1u16.to_be_bytes()); // class
    response.extend(300u32.to_be_bytes()); // ttl
    response.extend(4u16.to_be_bytes()); // rdlength
    response.extend([1, 2, 3, 4]);

    let offsets = ttl_offsets(&response).unwrap();
    assert_eq!(offsets.len(), 1);
    assert_eq!(offsets[0].1, 1); // record type A
    assert_eq!(offsets[0].2, 300); // ttl
    assert_eq!(response_ttl(&response), 300);

    rewrite_response_ttls(&mut response, 60);
    assert_eq!(response_ttl(&response), 60);
    age_response_ttls(&mut response, 10);
    assert_eq!(response_ttl(&response), 50);
}

#[test]
fn parse_response_extracts_matching_addresses_and_ttl() {
    let mut response = build_query(1, "example.com", 1).unwrap();
    response[2] = 0x81;
    response[3] = 0x80;
    response[6..8].copy_from_slice(&2u16.to_be_bytes()); // ANCOUNT
    response.extend([0xc0, 0x0c]);
    response.extend(1u16.to_be_bytes());
    response.extend(1u16.to_be_bytes());
    response.extend(60u32.to_be_bytes());
    response.extend(4u16.to_be_bytes());
    response.extend([10, 0, 0, 1]);
    response.extend([0xc0, 0x0c]);
    response.extend(28u16.to_be_bytes()); // AAAA, does not match qtype
    response.extend(1u16.to_be_bytes());
    response.extend(120u32.to_be_bytes());
    response.extend(16u16.to_be_bytes());
    response.extend([0u8; 16]);

    let (addresses, ttl) = parse_response(1, 1, &response).unwrap();
    assert_eq!(addresses, vec![parse_ip("10.0.0.1").unwrap()]);
    assert_eq!(ttl, 60);
}

#[test]
fn skip_name_handles_labels_pointers_and_errors() {
    // name occupies bytes 0..13: \x07example \x03com \x00
    let data = b"\x07example\x03com\x00\xc0\x0c";
    let mut position = 0;
    assert!(skip_name(data, &mut position).is_ok());
    assert_eq!(position, 13);
    // A compression pointer advances by two bytes.
    let mut pointer_position = 13;
    assert!(skip_name(data, &mut pointer_position).is_ok());
    assert_eq!(pointer_position, 15);
    assert!(skip_name(&[0u8; 0], &mut 0).is_err()); // empty
    let mut pos = 0;
    let long = [0x40u8]; // label length 64 invalid
    assert!(skip_name(&long, &mut pos).is_err());
    // A label whose length runs past the buffer is truncated.
    let mut pos = 0;
    let truncated = [0x05u8, b'a'];
    assert!(skip_name(&truncated, &mut pos).is_err());
}

#[test]
fn parse_query_type_accepts_numbers_and_names() {
    assert_eq!(parse_query_type(&Value::Unsigned(1)).unwrap(), 1);
    assert_eq!(parse_query_type(&text("AAAA")).unwrap(), 28);
    assert_eq!(parse_query_type(&text("HTTPS")).unwrap(), 65);
    assert!(
        parse_query_type(&Value::Unsigned(70000))
            .unwrap_err()
            .message()
            .contains("65535")
    );
    assert!(parse_query_type(&text("BOGUS")).is_err());
}

#[test]
fn validate_strategy_accepts_known_and_rejects_unknown() {
    assert!(validate_strategy(None).is_ok());
    assert!(validate_strategy(Some("prefer_ipv4")).is_ok());
    assert!(validate_strategy(Some("ipv6_only")).is_ok());
    assert!(validate_strategy(Some("random")).is_err());
}

#[test]
fn parse_rcode_accepts_names_and_numbers() {
    assert_eq!(parse_rcode(&None).unwrap(), 0);
    assert_eq!(parse_rcode(&Some(text("NOERROR"))).unwrap(), 0);
    assert_eq!(parse_rcode(&Some(text("NXDOMAIN"))).unwrap(), 3);
    assert_eq!(parse_rcode(&Some(text("REFUSED"))).unwrap(), 5);
    assert_eq!(parse_rcode(&Some(Value::Unsigned(2))).unwrap(), 2);
    assert!(parse_rcode(&Some(text("BOGUS"))).is_err());
    assert!(parse_rcode(&Some(Value::Unsigned(300))).is_err());
}

#[test]
fn parse_dns_record_handles_ttl_class_and_common_types() {
    let record = parse_dns_record(". 2147483647 IN A 0.0.0.0").unwrap();
    assert_eq!(record.owner, "");
    assert_eq!(record.ttl, 2147483647);
    assert_eq!(record.kind, 1);
    assert_eq!(record.rdata, vec![0, 0, 0, 0]);

    let record = parse_dns_record("localhost. IN A 127.0.0.1").unwrap();
    assert_eq!(record.owner, "localhost");
    assert_eq!(record.ttl, 3600);
    assert_eq!(record.kind, 1);
    assert_eq!(record.rdata, vec![127, 0, 0, 1]);

    let record = parse_dns_record("example.com. 60 IN AAAA ::1").unwrap();
    assert_eq!(record.ttl, 60);
    assert_eq!(record.kind, 28);
    let mut expected = [0u8; 16];
    expected[15] = 1;
    assert_eq!(record.rdata, expected);

    let record = parse_dns_record("a.example. IN TXT \"Hello\"").unwrap();
    assert_eq!(record.kind, 16);
    assert_eq!(record.rdata, vec![5, b'H', b'e', b'l', b'l', b'o']);

    let record = parse_dns_record("m.example. IN MX 10 mail.example.").unwrap();
    assert_eq!(record.kind, 15);
    assert_eq!(&record.rdata[..2], &10u16.to_be_bytes());
    assert_eq!(&record.rdata[2..], &encode_name("mail.example").unwrap());

    assert!(parse_dns_record("bogus").is_err());
    assert!(parse_dns_record("a. 60 CH A 1.2.3.4").is_err());
    assert!(parse_dns_record("a. 60 IN BOGUS x").is_err());
    assert!(parse_dns_record("a. 60 IN A 300.1.1.1").is_err());
}

#[test]
fn predefined_response_echoes_question_and_rewrites_wildcard_owners() {
    let query = question("ads.example.com", 1);
    let (_, _, question_end) = parse_question(&query).unwrap();
    let records = vec![
        parse_dns_record(". 60 IN A 0.0.0.0").unwrap(),
        parse_dns_record("*.example.com 60 IN A 0.0.0.0").unwrap(),
        parse_dns_record("*.elsewhere.net 60 IN A 0.0.0.0").unwrap(),
    ];
    let response = predefined_response(&query, question_end, 0, &records).unwrap();
    assert_eq!(&response[..2], &query[..2]);
    assert_ne!(response[2] & 0x80, 0);
    assert_ne!(response[2] & 0x04, 0);
    assert_ne!(response[3] & 0x80, 0);
    assert_eq!(response[3] & 0x0f, 0);
    assert_eq!(u16::from_be_bytes([response[6], response[7]]), 2);
    assert_eq!(&response[12..question_end], &query[12..question_end]);
    let (addresses, _) = parse_response(0, 1, &response).unwrap();
    assert_eq!(addresses.len(), 2);
    let (name, _, _) = parse_question(&response).unwrap();
    assert_eq!(name, "ads.example.com");
}

#[test]
fn predefined_addresses_are_read_back_with_the_shortest_lifetime() {
    let query = question("ads.example.com", 1);
    let (_, _, end) = parse_question(&query).unwrap();
    let records = vec![
        parse_dns_record("ads.example.com. 90 IN A 10.0.0.1").unwrap(),
        parse_dns_record("*.example.com 70 IN A 10.0.0.2").unwrap(),
        parse_dns_record("*.elsewhere.net 5 IN A 10.0.0.3").unwrap(),
        parse_dns_record("ads.example.com 6 IN AAAA ::1").unwrap(),
    ];
    let response = predefined_response(&query, end, 0, &records).unwrap();
    assert_eq!(
        parse_response(0, 1, &response).unwrap(),
        (vec![parse_ip("10.0.0.1").unwrap(), parse_ip("10.0.0.2").unwrap()], 70)
    );
    assert_eq!(
        parse_response(0, 28, &response).unwrap(),
        (vec![parse_ip("::1").unwrap()], 6)
    );
}

#[test]
fn predefined_response_preserves_rcode() {
    let query = question("nope.example.com", 1);
    let (_, _, question_end) = parse_question(&query).unwrap();
    let response = predefined_response(&query, question_end, 3, &[]).unwrap();
    assert_eq!(response[3] & 0x0f, 3);
    assert_eq!(u16::from_be_bytes([response[6], response[7]]), 0);
}

#[test]
fn parses_ech_from_https_record() {
    let query = build_query(7, "example.com", 65).unwrap();
    let mut response = query;
    response[2] = 0x81;
    response[3] = 0x80;
    response[6..8].copy_from_slice(&1u16.to_be_bytes());
    response.extend([0xc0, 0x0c]);
    response.extend(65u16.to_be_bytes());
    response.extend(1u16.to_be_bytes());
    response.extend(60u32.to_be_bytes());
    let ech = [0, 4, 0xfe, 0x0d, 0, 0];
    let mut rdata = Vec::new();
    rdata.extend(1u16.to_be_bytes());
    rdata.push(0);
    rdata.extend(5u16.to_be_bytes());
    rdata.extend((ech.len() as u16).to_be_bytes());
    rdata.extend(ech);
    response.extend((rdata.len() as u16).to_be_bytes());
    response.extend(rdata);
    assert_eq!(parse_https_ech(7, &response).unwrap(), ech);
}

#[test]
fn names_lose_their_case_and_last_dot() {
    assert_eq!(normalize("WWW.Example.COM."), "www.example.com");
    assert_eq!(encode_name("a.bc").unwrap(), b"\x01a\x02bc\0".to_vec());
    assert_eq!(encode_name(&"x".repeat(64)), Err(DnsError::InvalidName));
}

#[test]
fn each_fault_of_a_question_has_its_error() {
    assert_eq!(parse_question(&[0; 4]), Err(DnsError::InvalidQuery));
    let head = |rest: &[u8]| {
        let mut b = vec![0u8; 12];
        b[5] = 1;
        b.extend_from_slice(rest);
        b
    };
    assert_eq!(parse_question(&head(&[])), Err(DnsError::TruncatedQuestion));
    assert_eq!(
        parse_question(&head(&[0xc0, 12])),
        Err(DnsError::CompressedQuestion)
    );
    assert_eq!(
        parse_question(&head(&[5, b'a'])),
        Err(DnsError::TruncatedQuestionLabel)
    );
    assert_eq!(
        parse_question(&head(&[1, 0xff, 0, 0, 1, 0, 1])),
        Err(DnsError::LabelNotUtf8)
    );
    assert_eq!(
        parse_question(&head(&[1, b'a', 0, 0])),
        Err(DnsError::TruncatedQuestionFields)
    );
}

#[test]
fn local_answers_hold_the_addresses_of_the_family() {
    let query = question("host.example", 1);
    let (_, _, end) = parse_question(&query).unwrap();
    let addresses = [parse_ip("10.1.2.3").unwrap(), parse_ip("::1").unwrap()];
    let response = local_response(&query, 1, end, &addresses);
    let (found, ttl) = parse_response(0, 1, &response).unwrap();
    assert_eq!(found, vec![parse_ip("10.1.2.3").unwrap()]);
    assert_eq!(ttl, 30);
}

#[test]
fn ids_are_replaced_in_place() {
    let mut message = build_query(1, "example.com", 1).unwrap();
    let before = message.clone();
    replace_id(&mut message, 0xabcd).unwrap();
    assert_eq!(dns_id(&message).unwrap(), 0xabcd);
    assert_eq!(&message[2..], &before[2..]);
    let mut short = vec![1u8];
    assert!(replace_id(&mut short, 7).is_err());
    assert_eq!(short, vec![1u8]);
}

#[test]
fn optimism_is_read_from_flags_and_objects() {
    assert!(optimistic_enabled(&Value::Bool(true)));
    assert!(!optimistic_enabled(&Value::Bool(false)));
    assert!(optimistic_enabled(&Value::Object { enabled: Some(true) }));
    assert!(!optimistic_enabled(&Value::Object { enabled: Some(false) }));
}

#[test]
fn any_bytes_are_survived() {
    assert_eq!(fuzz_dns_message(&[]), (false, false));
    let mut response = build_query(9, "example.com", 1).unwrap();
    response[2] = 0x81;
    response[3] = 0x80;
    assert_eq!(fuzz_dns_message(&response), (true, true));
}

#[test]
fn reply_codes_become_errors() {
    let mut response = build_query(3, "example.com", 1).unwrap();
    response[2] = 0x81;
    response[3] = 0x83;
    assert_eq!(parse_response(3, 1, &response), Err(DnsError::ErrorCode(3)));
    assert!(parse_response(4, 1, &response).is_err());
}
