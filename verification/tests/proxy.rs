use xhttp::net::{Destination, IpAddr, SocketAddr, parse_destination, parse_ip};
use xhttp::proxy::direct::{
    AttemptAction, AttemptEvent, Attempts, DirectError, MtuDiscovery, SocketOption, bind_address,
    connect_direct, direct_udp_bind, order_addresses, set_linux_socket_options,
    set_linux_udp_socket_options,
};
use xhttp::proxy::first_packet::write_first_packet;
use xhttp::proxy::group::{
    Group, GroupKind, NoDefaultMember, Outbounds, delay_of, delays_fit, run_url_test,
};
use xhttp::proxy::relay::{
    AssociationSession, Command, DialerKind, RelayError, TcpInbound, TcpOpening, UdpAction,
    UdpFlow, UdpInbound, UdpOpening, belongs_to_association, connect_limit,
    destination_socket_addr, find_session, first_bytes_wait, mark_tun_output, open_tcp, open_udp,
    reject, session_refusal, udp_refusal, Rejection,
};
use xhttp::proxy::route::{
    RouteInput, RouteState, RouteStep, override_destination, select_address,
};
use xhttp::proxy::sniff::{
    SniffResult, dns_question_name, is_dns_message, sniff_payload, tls_server_name,
};
use xhttp::proxy::tproxy::{
    TproxyError, TransparentOption, intact, original_destination, set_tproxy_options, take_packet,
    tproxy_settings,
};
use xhttp::proxy::udp::{
    SocksError, decode_address, encode_socks_udp, from_anytls_destination, fuzz_socks_udp, parse_socks_udp,
    socks_reply, to_anytls_destination, udp_response_destination, udp_response_proxy_destination,
};
use xhttp::proxy::udp_nat::{UdpNatBehavior, UdpNatTable};
use xhttp::linux_route::LinuxRouteMetadata;
use xhttp::routing::options::{RouteDecision, RouteOptions};
use xhttp::routing::router::Router;
use xhttp::singbox::{Inbound, RouteConfig, RouteRule};
use xhttp::time::Duration;

fn ip(s: &str) -> IpAddr {
    parse_ip(s).unwrap()
}

fn addr(s: &str, port: u16) -> SocketAddr {
    SocketAddr { ip: ip(s), port }
}

fn at(s: &str, port: u16) -> Destination {
    Destination::Ip(ip(s), port)
}

fn named(s: &str, port: u16) -> Destination {
    Destination::Domain(s.to_string(), port)
}

#[test]
fn order_addresses_filters_and_sorts_by_strategy() {
    let v4a = addr("192.0.2.1", 80);
    let v4b = addr("192.0.2.2", 80);
    let v6a = addr("2001:db8::1", 80);
    let v6b = addr("2001:db8::2", 80);

    let mut addresses = vec![v4a, v6a, v4b, v6b];
    order_addresses(&mut addresses, Some("ipv4_only"));
    assert_eq!(addresses, vec![v4a, v4b]);

    let mut addresses = vec![v4a, v6a];
    order_addresses(&mut addresses, Some("ipv6_only"));
    assert_eq!(addresses, vec![v6a]);

    let mut addresses = vec![v6a, v4a];
    order_addresses(&mut addresses, Some("prefer_ipv4"));
    assert_eq!(addresses, vec![v4a, v6a]);

    let mut addresses = vec![v4a, v6a];
    order_addresses(&mut addresses, Some("prefer_ipv6"));
    assert_eq!(addresses, vec![v6a, v4a]);

    // Unknown and empty strategies keep the order.
    let mut addresses = vec![v6a, v4a, v6b];
    order_addresses(&mut addresses, Some("garbage"));
    assert_eq!(addresses, vec![v6a, v4a, v6b]);
    let mut addresses = vec![v6a, v4a];
    order_addresses(&mut addresses, None);
    assert_eq!(addresses, vec![v6a, v4a]);
}

#[test]
fn order_addresses_empty_input_is_safe() {
    let mut addresses: Vec<SocketAddr> = Vec::new();
    order_addresses(&mut addresses, Some("ipv4_only"));
    order_addresses(&mut addresses, Some("prefer_ipv6"));
    assert!(addresses.is_empty());
}

#[test]
fn selector_group_selects_members_and_defaults_to_first() {
    let mut group = Group::new(
        GroupKind::Selector,
        vec!["a".into(), "b".into()],
        None,
        None,
        None,
        None,
    )
    .unwrap();
    assert_eq!(group.kind(), GroupKind::Selector);
    assert_eq!(group.now(), "a");
    assert_eq!(group.all(), &["a", "b"]);
    assert!(group.select("b"));
    assert_eq!(group.now(), "b");
    assert!(!group.select("missing"));
    assert_eq!(group.now(), "b");
}

#[test]
fn selector_group_honors_default_member() {
    let group = Group::new(
        GroupKind::Selector,
        vec!["a".into(), "b".into()],
        Some("b".into()),
        None,
        None,
        None,
    )
    .unwrap();
    assert_eq!(group.now(), "b");
}

#[test]
fn url_test_group_defaults_and_exposes_probe_params() {
    let mut group = Group::new(
        GroupKind::UrlTest,
        vec!["a".into(), "b".into()],
        None,
        Some("http://gstatic.com/generate_204".into()),
        Some("5m".into()),
        Some(80),
    )
    .unwrap();
    assert_eq!(group.kind(), GroupKind::UrlTest);
    assert_eq!(group.now(), "a");
    assert_eq!(group.url(), Some("http://gstatic.com/generate_204"));
    assert_eq!(group.interval(), Duration::from_secs(300));
    assert_eq!(group.tolerance(), 80);
    assert!(group.select("b"));
    assert_eq!(group.now(), "b");
}

#[test]
fn group_requires_a_default_member() {
    assert!(Group::new(GroupKind::Selector, vec![], None, None, None, None).is_err());
}

#[test]
fn udp_domain_unmapping_can_be_disabled() {
    let requested = named("example.com", 53);
    let source = at("192.0.2.1", 53);
    assert_eq!(
        udp_response_proxy_destination(&requested, &source, &RouteOptions::default()),
        requested
    );
    assert_eq!(
        udp_response_proxy_destination(
            &requested,
            &source,
            &RouteOptions {
                udp_disable_domain_unmapping: true,
                ..Default::default()
            }
        ),
        source
    );
}

#[test]
fn sniff_detects_tls_with_server_name() {
    let mut hello = vec![
        1, 0, 0, 0, // handshake header
        0x03, 0x03, // version
    ];
    hello.extend([0u8; 32]); // random
    hello.push(0); // session id length
    hello.extend(0x00u16.to_be_bytes()); // cipher suites length
    hello.push(0); // compression methods length
    hello.extend(0x00u16.to_be_bytes()); // extensions length
    let len = hello.len() as u32;
    hello[1..4].copy_from_slice(&len.to_be_bytes()[1..]);
    let mut record = vec![0x16, 0x03, 0x01];
    record.extend((hello.len() as u16).to_be_bytes());
    record.extend_from_slice(&hello);
    let sniffed = sniff_payload(&record, false, &vec![]).unwrap();
    assert_eq!(sniffed.protocol, "tls");
}

fn client_hello(name: &[u8]) -> Vec<u8> {
    let mut hello = vec![1, 0, 0, 0, 0x03, 0x03];
    hello.extend([0u8; 32]);
    hello.push(0); // session id
    hello.extend([0, 2, 0x13, 0x01]); // cipher suite TLS_AES_128_GCM_SHA256
    hello.push(1); // compression methods length
    hello.push(0);

    // server_name extension: type(2)=0 len(2) payload[list_len(2) name_type(1) name_len(2) name]
    let payload = [
        0x00,
        name.len() as u8 + 2, // server name list length
        0x00,                 // name type host_name
        0x00,
        name.len() as u8, // name length
    ];
    let mut hello_ext = payload.to_vec();
    hello_ext.extend_from_slice(name);
    let mut extensions = Vec::new();
    extensions.extend(0x0000u16.to_be_bytes()); // extension type server_name
    extensions.extend((hello_ext.len() as u16).to_be_bytes());
    extensions.extend_from_slice(&hello_ext);
    hello.extend((extensions.len() as u16).to_be_bytes()); // total extensions length
    hello.extend_from_slice(&extensions);

    let len = hello.len() as u32;
    hello[1..4].copy_from_slice(&len.to_be_bytes()[1..]);
    let mut record = vec![0x16, 0x03, 0x01];
    record.extend((hello.len() as u16).to_be_bytes());
    record.extend_from_slice(&hello);
    record
}

#[test]
fn tls_server_name_extracts_sni_extension() {
    // Minimal TLS ClientHello carrying a server_name (SNI) extension.
    let record = client_hello(b"example.com");
    assert_eq!(tls_server_name(&record).as_deref(), Some("example.com"));
    assert_eq!(tls_server_name(b"too short"), None);
}

#[test]
fn sniff_detects_http_and_extracts_host_and_client() {
    let data = b"GET /path HTTP/1.1\r\nHost: example.com\r\nUser-Agent: curl/8\r\n\r\n";
    let sniffed = sniff_payload(data, false, &vec![]).unwrap();
    assert_eq!(sniffed.protocol, "http");
    assert_eq!(sniffed.domain.as_deref(), Some("example.com"));
    assert_eq!(sniffed.client.as_deref(), Some("curl/8"));
}

#[test]
fn sniff_respects_sniffer_filters() {
    let data = b"SSH-2.0-OpenSSH_9";
    let sniffed = sniff_payload(data, false, &vec!["ssh".into()]).unwrap();
    assert_eq!(sniffed.protocol, "ssh");
    assert!(sniff_payload(data, false, &vec!["http".into()]).is_none());
}

#[test]
fn sniff_detects_udp_protocols() {
    let stun = [0u8, 0, 0, 0, 0x21, 0x12, 0xa4, 0x42];
    assert_eq!(sniff_payload(&stun, true, &vec![]).unwrap().protocol, "stun");
    let quic = [0xc0u8, 0, 0, 0];
    assert_eq!(sniff_payload(&quic, true, &vec![]).unwrap().protocol, "quic");
    assert!(sniff_payload(&[0u8; 8], true, &vec![]).is_none());
}

#[test]
fn dns_detection_and_question_name() {
    let mut query = vec![0u8; 12];
    query[2] = 1; // RD flag
    query[4..6].copy_from_slice(&1u16.to_be_bytes()); // one question
    query.extend(b"\x07example\x03com\x00");
    query.extend(1u16.to_be_bytes()); // qtype A
    query.extend(1u16.to_be_bytes()); // qclass IN
    assert!(is_dns_message(&query, false));
    assert_eq!(dns_question_name(&query, false).as_deref(), Some("example.com"));

    let mut tcp = vec![0u8; 0];
    tcp.extend((query.len() as u16).to_be_bytes());
    tcp.extend_from_slice(&query);
    assert!(is_dns_message(&tcp, true));
    assert_eq!(dns_question_name(&tcp, true).as_deref(), Some("example.com"));
    assert!(!is_dns_message(&[0u8; 4], false));
}

#[test]
fn select_address_applies_strategies() {
    let v4 = ip("192.0.2.1");
    let v6 = ip("2001:db8::1");
    assert_eq!(select_address(&vec![v4, v6], Some("ipv4_only")), Some(v4));
    assert_eq!(select_address(&vec![v4, v6], Some("ipv6_only")), Some(v6));
    assert_eq!(select_address(&vec![v4, v6], Some("prefer_ipv6")), Some(v6));
    assert_eq!(select_address(&vec![v6, v4], Some("prefer_ipv4")), Some(v4));
    assert_eq!(select_address(&vec![v4, v6], None), Some(v4));
    assert_eq!(select_address(&Vec::new(), None), None);
}

#[test]
fn override_destination_applies_address_and_port() {
    let original = named("example.com", 80);
    let options = RouteOptions {
        override_address: Some("192.0.2.5".into()),
        override_port: Some(443),
        ..Default::default()
    };
    assert_eq!(override_destination(original, &options), at("192.0.2.5", 443));
    let domain_override = RouteOptions {
        override_address: Some("other.test".into()),
        ..Default::default()
    };
    assert_eq!(
        override_destination(at("192.0.2.1", 53), &domain_override),
        named("other.test", 53)
    );
    assert_eq!(
        override_destination(named("example.com", 80), &RouteOptions::default()),
        named("example.com", 80)
    );
}

#[test]
fn parses_ipv4_original_destination_from_oob() {
    let mut oob = Vec::new();
    // cmsghdr: len, level, type; then sockaddr_in: family, port, addr
    let cmsg_len: usize = 28;
    let level: libc::c_int = libc::SOL_IP;
    let ctype: libc::c_int = 20;
    oob.extend_from_slice(&cmsg_len.to_ne_bytes());
    oob.extend_from_slice(&level.to_ne_bytes());
    oob.extend_from_slice(&ctype.to_ne_bytes());
    oob.extend_from_slice(&(libc::AF_INET as u16).to_ne_bytes()); // family
    oob.extend_from_slice(&53u16.to_be_bytes()); // port
    oob.extend_from_slice(&[1, 2, 3, 4]); // addr
    oob.extend_from_slice(&[0u8; 8]); // sockaddr_in pad
    assert!(intact(&oob));
    let destination = original_destination(&oob).unwrap();
    assert_eq!(destination, addr("1.2.3.4", 53));
}

#[test]
fn socks_udp_round_trips_ipv4_and_domain() {
    let v4 = at("192.0.2.7", 53);
    let encoded = encode_socks_udp(&v4, b"query").unwrap();
    assert_eq!(&encoded[..3], &[0, 0, 0]);
    let (decoded, payload) = parse_socks_udp(&encoded).unwrap();
    assert_eq!(decoded, v4);
    assert_eq!(payload, b"query");

    let domain = named("dns.example", 53);
    let encoded = encode_socks_udp(&domain, b"q").unwrap();
    assert_eq!(encoded[3], 3);
    assert_eq!(encoded[4], 11);
    let (decoded, payload) = parse_socks_udp(&encoded).unwrap();
    assert_eq!(decoded, domain);
    assert_eq!(payload, b"q");
}

#[test]
fn socks_udp_round_trips_ipv6() {
    let v6 = at("2001:db8::9", 443);
    let encoded = encode_socks_udp(&v6, b"data").unwrap();
    assert_eq!(encoded[3], 4);
    let (decoded, payload) = parse_socks_udp(&encoded).unwrap();
    assert_eq!(decoded, v6);
    assert_eq!(payload, b"data");
}

#[test]
fn socks_udp_rejects_malformed_packets() {
    assert!(parse_socks_udp(&[0, 0]).is_err()); // too short
    assert!(parse_socks_udp(&[1, 0, 0]).is_err()); // bad reserved field
    assert!(parse_socks_udp(&[0, 0, 1, 0]).is_err()); // fragmented
    assert!(parse_socks_udp(&[0, 0, 0, 9, 1, 2, 3]).is_err()); // truncated address
    assert!(parse_socks_udp(&[0, 0, 0, 9, 3, 20]).is_err()); // bad address type
}

#[test]
fn domain_name_too_long_is_rejected() {
    let domain = "x".repeat(256);
    let destination = Destination::Domain(domain, 1);
    assert!(encode_socks_udp(&destination, b"").is_err());
}

#[test]
fn udp_response_preserves_domain_unless_disabled() {
    let requested = named("example.com", 53);
    let source = at("192.0.2.1", 53);
    assert_eq!(
        udp_response_proxy_destination(&requested, &source, &RouteOptions::default()),
        requested
    );
    assert_eq!(
        udp_response_proxy_destination(
            &requested,
            &source,
            &RouteOptions {
                udp_disable_domain_unmapping: true,
                ..Default::default()
            },
        ),
        source
    );
    let ip_requested = at("192.0.2.9", 53);
    assert_eq!(
        udp_response_proxy_destination(&ip_requested, &source, &RouteOptions::default()),
        source
    );
}

#[test]
fn anytls_destination_conversions_round_trip() {
    let v4 = at("192.0.2.4", 8443);
    assert_eq!(from_anytls_destination(&to_anytls_destination(&v4)), v4);
    let domain = named("svc.example", 443);
    assert_eq!(from_anytls_destination(&to_anytls_destination(&domain)), domain);
}

#[test]
fn each_fault_of_a_datagram_has_its_error() {
    assert_eq!(parse_socks_udp(&[0, 0]), Err(SocksError::ReservedField));
    assert_eq!(parse_socks_udp(&[0, 0, 1, 0]), Err(SocksError::Fragmented));
    assert_eq!(decode_address(&[], 0), Err(SocksError::MissingAddressType));
    assert_eq!(
        parse_socks_udp(&[0, 0, 0, 9]),
        Err(SocksError::InvalidAddressType)
    );
    assert_eq!(
        parse_socks_udp(&[0, 0, 0, 1, 1, 2]),
        Err(SocksError::TruncatedIpv4)
    );
    assert_eq!(
        parse_socks_udp(&[0, 0, 0, 3]),
        Err(SocksError::MissingDomainLength)
    );
    assert_eq!(
        parse_socks_udp(&[0, 0, 0, 3, 4, b'a']),
        Err(SocksError::TruncatedDomain)
    );
    assert_eq!(
        parse_socks_udp(&[0, 0, 0, 3, 1, 0xff, 0, 1]),
        Err(SocksError::InvalidDomain)
    );
    assert_eq!(
        parse_socks_udp(&[0, 0, 0, 4, 1]),
        Err(SocksError::TruncatedIpv6)
    );
    assert_eq!(
        parse_socks_udp(&[0, 0, 0, 1, 1, 2, 3, 4, 0]),
        Err(SocksError::MissingPort)
    );
    assert_eq!(
        encode_socks_udp(&Destination::Domain("x".repeat(256), 1), b""),
        Err(SocksError::DomainTooLong)
    );
    assert!(!fuzz_socks_udp(&[0, 0]));
    assert_eq!(
        socks_reply(addr("1.2.3.4", 0x0102)),
        vec![5, 0, 0, 1, 1, 2, 3, 4, 1, 2]
    );
}

#[test]
fn answers_come_from_where_they_were_asked() {
    let source = addr("192.0.2.1", 53);
    assert_eq!(
        udp_response_destination(&named("example.com", 53), source, &RouteOptions::default()),
        named("example.com", 53)
    );
    assert_eq!(
        udp_response_destination(&at("192.0.2.2", 53), source, &RouteOptions::default()),
        at("192.0.2.1", 53)
    );
    assert_eq!(parse_destination("192.0.2.1", 9), at("192.0.2.1", 9));
    assert_eq!(parse_destination("a.example", 9), named("a.example", 9));
}

#[test]
fn the_fastest_is_chosen_but_for_the_tolerance() {
    assert_eq!(run_url_test(&vec![Some(100), Some(40)], 50), Some((1, 40)));
    assert_eq!(run_url_test(&vec![Some(100), Some(60)], 50), Some((0, 100)));
    assert_eq!(run_url_test(&vec![None, Some(9)], 50), Some((1, 9)));
    assert_eq!(run_url_test(&vec![None, None], 50), None);
    assert!(delays_fit(&vec![Some(100)], 50));
    assert!(!delays_fit(&vec![Some(65530), Some(65531)], 50));
    assert_eq!(delay_of(Duration::from_millis(120)), 120);
    assert_eq!(delay_of(Duration::from_secs(100)), 65535);
}

#[test]
fn groups_lead_to_their_members() {
    let mut o = Outbounds::new();
    o.add_leaf("fast", DialerKind::AnyTls);
    o.add_leaf("slow", DialerKind::Vless { xudp: false });
    let group = Group::new(
        GroupKind::Selector,
        vec!["fast".into(), "slow".into()],
        None,
        None,
        None,
        None,
    );
    assert_eq!(
        Group::new(GroupKind::Selector, vec![], None, None, None, None).unwrap_err(),
        NoDefaultMember
    );
    o.add_group("pick", group.unwrap());
    o.add_direct();
    assert!(o.is_group("pick"));
    assert_eq!(o.resolve("pick"), Some(DialerKind::AnyTls));
    assert!(o.select("pick", "slow"));
    assert_eq!(o.resolve("pick"), Some(DialerKind::Vless { xudp: false }));
    assert!(!o.select("pick", "other"));
    assert!(!o.select("fast", "slow"));
    assert_eq!(o.resolve("direct"), Some(DialerKind::Direct));
    assert_eq!(o.resolve("nowhere"), None);
    let mut circle = Outbounds::new();
    circle.add_group(
        "me",
        Group::new(GroupKind::Selector, vec!["me".into()], None, None, None, None).unwrap(),
    );
    assert_eq!(circle.resolve("me"), None);
}

#[test]
fn packets_without_messages_have_no_destination() {
    assert!(intact(&[]));
    assert_eq!(original_destination(&[]), None);
    assert!(!intact(&[1, 2, 3]) || original_destination(&[1, 2, 3]).is_none());
    assert_eq!(
        set_tproxy_options(false, true),
        vec![
            TransparentOption::ReuseAddress,
            TransparentOption::Transparent { ipv6: false },
            TransparentOption::Destination { ipv6: false },
        ]
    );
}

#[test]
fn translations_are_reused_by_their_mapping() {
    let inbound = Inbound {
        kind: "tproxy".into(),
        listen_port: Some(1080),
        udp_mapping: Some("endpoint_independent".into()),
        udp_filtering: Some("address_dependent".into()),
        ..Default::default()
    };
    let settings = tproxy_settings(&inbound).unwrap();
    assert_eq!(settings.mapping, UdpNatBehavior::EndpointIndependent);
    assert_eq!(settings.filtering, UdpNatBehavior::AddressDependent);
    let mut table = UdpNatTable::new(settings.filtering, 16, Duration::from_secs(60));
    let peer = addr("10.0.0.2", 5000);
    let now = Duration::from_secs(1);
    let open = Vec::new();
    let first = take_packet(&mut table, settings.mapping, peer, addr("1.1.1.1", 53), now, 7, &open);
    assert!(first.opened);
    assert_eq!(first.sender, 7);
    let second = take_packet(&mut table, settings.mapping, peer, addr("8.8.8.8", 53), now, 8, &open);
    assert!(!second.opened);
    assert_eq!(second.sender, 7);
    assert!(table.allow_response(second.key, addr("8.8.8.8", 99), now));
    assert!(!table.allow_response(second.key, addr("9.9.9.9", 53), now));
    table.expire(Duration::from_secs(100));
    assert!(table.is_empty());
    assert!(matches!(
        tproxy_settings(&Inbound {
            kind: "tproxy".into(),
            ..Default::default()
        }),
        Err(TproxyError::NoPort)
    ));
    assert!(matches!(
        tproxy_settings(&Inbound {
            kind: "tproxy".into(),
            listen_port: Some(1),
            udp_mapping: Some("psychic".into()),
            ..Default::default()
        }),
        Err(TproxyError::Behavior(_))
    ));
}

#[test]
fn direct_connections_are_planned() {
    let plan = connect_direct(
        &named("example.com", 443),
        &vec![ip("2001:db8::1"), ip("192.0.2.1")],
        &RouteOptions {
            domain_strategy: Some("prefer_ipv4".into()),
            ..Default::default()
        },
    )
    .unwrap();
    assert_eq!(
        plan.addresses,
        vec![addr("192.0.2.1", 443), addr("2001:db8::1", 443)]
    );
    assert_eq!(
        connect_direct(&named("example.com", 443), &Vec::new(), &RouteOptions::default())
            .unwrap_err(),
        DirectError::NoAddress
    );
    let bound = RouteOptions {
        inet4_bind_address: Some("192.0.2.9".into()),
        ..Default::default()
    };
    assert_eq!(
        bind_address(addr("1.1.1.1", 1), &bound),
        Ok(Some(ip("192.0.2.9")))
    );
    assert_eq!(bind_address(addr("::1", 1), &bound), Ok(None));
    assert_eq!(
        direct_udp_bind(addr("::1", 1), &RouteOptions::default()),
        Ok(ip("::"))
    );
    let wrong = RouteOptions {
        inet4_bind_address: Some("nonsense".into()),
        ..Default::default()
    };
    assert_eq!(
        bind_address(addr("1.1.1.1", 1), &wrong),
        Err(DirectError::InvalidBindAddress)
    );
    let family = RouteOptions {
        inet4_bind_address: Some("::1".into()),
        ..Default::default()
    };
    assert_eq!(
        direct_udp_bind(addr("1.1.1.1", 1), &family),
        Err(DirectError::BindFamily)
    );
}

#[test]
fn attempts_are_made_one_behind_the_other() {
    let mut attempts = Attempts::first(3);
    assert!(attempts.waits_for_delay());
    assert_eq!(attempts.on(AttemptEvent::Waited), AttemptAction::Start(1));
    assert_eq!(attempts.on(AttemptEvent::Failed), AttemptAction::Wait);
    assert_eq!(attempts.on(AttemptEvent::Failed), AttemptAction::Start(2));
    assert!(!attempts.waits_for_delay());
    assert_eq!(attempts.on(AttemptEvent::Failed), AttemptAction::GiveUp);
    let mut attempts = Attempts::first(1);
    assert_eq!(attempts.on(AttemptEvent::Connected), AttemptAction::Done);
}

#[test]
fn sockets_get_their_options() {
    let options = RouteOptions {
        bind_interface: Some("eth0".into()),
        routing_mark: Some(9),
        reuse_addr: true,
        tcp_fast_open: true,
        udp_fragment: Some(true),
        ..Default::default()
    };
    assert_eq!(
        set_linux_socket_options(&options),
        vec![
            SocketOption::BindToDevice("eth0".into()),
            SocketOption::Mark(9),
            SocketOption::FastOpen,
        ]
    );
    assert_eq!(
        set_linux_udp_socket_options(&options),
        vec![
            SocketOption::ReuseAddress,
            SocketOption::BindToDevice("eth0".into()),
            SocketOption::Mark(9),
            SocketOption::Discovery(MtuDiscovery::Want),
        ]
    );
    assert!(set_linux_socket_options(&RouteOptions::default()).is_empty());
}

#[test]
fn first_packets_are_cut_inside_the_name() {
    let packet = client_hello(b"example.com");
    let whole = write_first_packet(&packet, &RouteOptions::default());
    assert_eq!(whole.parts, vec![packet.clone()]);
    let cut = write_first_packet(
        &packet,
        &RouteOptions {
            tls_fragment: true,
            ..Default::default()
        },
    );
    assert!(cut.parts.len() > 1);
    assert_eq!(cut.parts.concat(), packet);
    assert!(cut.pause.is_some());
    let records = write_first_packet(
        &packet,
        &RouteOptions {
            tls_record_fragment: true,
            ..Default::default()
        },
    );
    assert_ne!(records.parts.concat(), packet);
}

#[test]
fn datagrams_are_relayed_as_the_outbound_asks() {
    let proxy = RouteDecision::Outbound("proxy".into());
    let options = RouteOptions::default();
    assert_eq!(
        open_udp(UdpInbound::Socks, &RouteDecision::Reject, None, &options, true),
        Ok(UdpOpening::Closed)
    );
    assert_eq!(
        open_udp(
            UdpInbound::Stream { connect: false },
            &RouteDecision::Reject,
            None,
            &options,
            true
        ),
        Err(RelayError::Rejected)
    );
    assert_eq!(
        open_udp(UdpInbound::Stream { connect: true }, &proxy, None, &options, true),
        Err(RelayError::UnknownOutbound)
    );
    let opening = open_udp(
        UdpInbound::Socks,
        &proxy,
        Some(DialerKind::Vless { xudp: true }),
        &options,
        true,
    )
    .unwrap();
    assert_eq!(opening, UdpOpening::Vless { command: Command::Xudp });
    let mut flow = UdpFlow::new(
        UdpInbound::Socks,
        opening,
        at("1.1.1.1", 53),
        at("1.1.1.1", 53),
        RouteOptions::default(),
        Duration::from_secs(300),
    );
    assert_eq!(flow.idle, Duration::from_secs(300));
    assert!(matches!(
        flow.packet(10, &at("1.1.1.1", 53)),
        Ok(UdpAction::Xudp { first: true, .. })
    ));
    assert!(matches!(
        flow.packet(10, &at("1.1.1.1", 53)),
        Ok(UdpAction::Xudp { first: false, .. })
    ));
}

#[test]
fn connections_are_relayed_as_the_outbound_asks() {
    let proxy = RouteDecision::Outbound("proxy".into());
    assert_eq!(
        open_tcp(TcpInbound::Session, &proxy, Some(DialerKind::Direct), false),
        Ok(TcpOpening::Direct)
    );
    assert_eq!(
        open_tcp(TcpInbound::Session, &proxy, Some(DialerKind::Block), false),
        Err(RelayError::Blocked)
    );
    assert_eq!(
        open_tcp(TcpInbound::Session, &RouteDecision::HijackDns, None, false),
        Err(RelayError::NoResolver)
    );
    assert_eq!(
        open_tcp(TcpInbound::Proxy { request: true }, &RouteDecision::HijackDns, None, true),
        Err(RelayError::HijackOverHttp)
    );
    assert_eq!(
        destination_socket_addr(&named("x.example", 5), Some(&vec![ip("1.2.3.4")])),
        Ok(addr("1.2.3.4", 5))
    );
    assert_eq!(
        destination_socket_addr(&named("x.example", 5), Some(&Vec::new())),
        Err(RelayError::NoAddress)
    );
    let mut options = RouteOptions::default();
    mark_tun_output(&mut options, Some(7));
    assert_eq!(options.routing_mark, Some(7));
    mark_tun_output(&mut options, None);
    assert_eq!(options.routing_mark, Some(7));
    assert_eq!(
        connect_limit(&RouteOptions {
            connect_timeout: Some("2s".into()),
            ..Default::default()
        }),
        Duration::from_secs(2)
    );
    assert!(belongs_to_association(addr("1.1.1.1", 5), addr("1.1.1.1", 5)));
    assert!(!belongs_to_association(addr("1.1.1.2", 5), addr("1.1.1.1", 5)));
    let sessions = vec![AssociationSession {
        tag: "proxy".into(),
        destination: at("1.1.1.1", 53),
        handle: 4,
        closed: false,
    }];
    assert_eq!(find_session(&sessions, "proxy", &at("1.1.1.1", 53)), Some(4));
    assert_eq!(find_session(&sessions, "other", &at("1.1.1.1", 53)), None);
}

#[test]
fn routes_are_found_step_by_step() {
    let config = RouteConfig {
        rules: vec![
            RouteRule {
                action: Some("sniff".into()),
                ..Default::default()
            },
            RouteRule {
                protocol: vec!["tls".into()],
                outbound: Some("proxy".into()),
                ..Default::default()
            },
        ],
        ..Default::default()
    };
    let router = Router::compile(&config, "direct").unwrap();
    let linux = LinuxRouteMetadata::default();
    let input = RouteInput {
        peer: addr("10.0.0.1", 1000),
        inbound: "in",
        linux: &linux,
        auth_user: None,
        clash_mode: None,
    };
    let destination = at("1.1.1.1", 443);
    let mut state = RouteState::new(&destination, router.default_options());
    let lookup = state.look(&router, &input, &destination, "tcp");
    let step = state.step(lookup, router.final_outbound(), None, false);
    assert!(matches!(step, RouteStep::Sniff { .. }));
    state.sniffed(Some(SniffResult {
        protocol: "tls".into(),
        domain: Some("example.com".into()),
        client: None,
    }));
    let lookup = state.look(&router, &input, &destination, "tcp");
    let step = state.step(lookup, router.final_outbound(), None, false);
    assert!(matches!(step, RouteStep::Decided(RouteDecision::Outbound(tag)) if tag == "proxy"));
}

#[test]
fn refusals_are_told_to_the_client() {
    let plain = RouteOptions::default();
    let silent = RouteOptions {
        reject_method: Some("drop".into()),
        ..Default::default()
    };
    let replying = RouteOptions {
        reject_method: Some("reply".into()),
        ..Default::default()
    };
    assert_eq!(
        udp_refusal(RelayError::Rejected, &plain).as_deref(),
        Some("UDP connection rejected by route")
    );
    assert_eq!(udp_refusal(RelayError::Rejected, &silent), None);
    assert_eq!(
        session_refusal(RelayError::Blocked, &plain).as_deref(),
        Some("connection blocked")
    );
    assert_eq!(reject(&plain, None), Rejection::Reset);
    assert_eq!(reject(&silent, None), Rejection::Drop);
    assert_eq!(
        reject(&replying, Some(&vec![5, 0])),
        Rejection::Reply(vec![5, 2, 0, 1, 0, 0, 0, 0, 0, 0])
    );
    assert_eq!(
        reject(&replying, Some(&b"HTTP/1.1 200 OK\r\n\r\n".to_vec())),
        Rejection::Reply(b"HTTP/1.1 403 Forbidden\r\nContent-Length: 0\r\n\r\n".to_vec())
    );
}

#[test]
fn first_bytes_are_waited_for_where_they_are_cut() {
    let plain = RouteOptions::default();
    assert_eq!(first_bytes_wait(&plain, false), None);
    let cut = RouteOptions {
        tls_fragment: true,
        ..Default::default()
    };
    assert_eq!(first_bytes_wait(&cut, true), None);
    assert_eq!(first_bytes_wait(&cut, false), Some(Duration::from_millis(500)));
}

#[test]
fn answers_of_the_resolver_come_from_the_destination() {
    let opening = open_udp(
        UdpInbound::Socks,
        &RouteDecision::HijackDns,
        None,
        &RouteOptions::default(),
        true,
    )
    .unwrap();
    assert_eq!(opening, UdpOpening::Hijack);
    let mut flow = UdpFlow::new(
        UdpInbound::Socks,
        opening,
        at("1.1.1.1", 53),
        at("9.9.9.9", 53),
        RouteOptions::default(),
        Duration::from_secs(120),
    );
    assert_eq!(
        flow.packet(30, &at("8.8.8.8", 53)),
        Ok(UdpAction::Query {
            source: at("1.1.1.1", 53)
        })
    );
    assert_eq!(
        open_udp(
            UdpInbound::Tun { fixed: true },
            &RouteDecision::HijackDns,
            None,
            &RouteOptions::default(),
            false
        ),
        Err(RelayError::NoResolver)
    );
}

#[test]
fn the_first_packet_of_a_stream_goes_where_the_stream_is_routed() {
    let options = RouteOptions {
        override_port: Some(5353),
        ..Default::default()
    };
    let mut flow = UdpFlow::new(
        UdpInbound::Stream { connect: false },
        UdpOpening::Direct { connected: false },
        at("192.0.2.1", 5353),
        at("1.1.1.1", 53),
        options,
        Duration::from_secs(120),
    );
    assert_eq!(
        flow.packet(8, &at("1.1.1.1", 53)),
        Ok(UdpAction::SendTo(at("192.0.2.1", 5353)))
    );
    assert_eq!(
        flow.packet(8, &at("8.8.8.8", 53)),
        Ok(UdpAction::SendTo(at("8.8.8.8", 5353)))
    );
    let mut device = UdpFlow::new(
        UdpInbound::Tun { fixed: false },
        UdpOpening::Vless {
            command: Command::Udp,
        },
        at("192.0.2.1", 53),
        at("1.1.1.1", 53),
        RouteOptions::default(),
        Duration::from_secs(120),
    );
    assert_eq!(
        device.packet(8, &at("1.1.1.1", 53)),
        Ok(UdpAction::Plain { length: 8 })
    );
    assert_eq!(
        device.packet(8, &at("8.8.8.8", 53)),
        Err(RelayError::ClassicDestination)
    );
    assert_eq!(
        device.packet(65536, &at("1.1.1.1", 53)),
        Err(RelayError::PacketTooLarge)
    );
}

#[test]
fn looked_up_addresses_are_taken_in() {
    let mut state = RouteState::new(&named("example.com", 443), RouteOptions::default());
    state.need_resolve(4, Vec::new());
    assert_eq!(state.cursor, 5);
    assert_eq!(state.destination_ip, None);
    state.need_resolve(4, vec![ip("192.0.2.1"), ip("::1")]);
    assert_eq!(state.cursor, 4);
    assert_eq!(state.destination_ip, Some(ip("192.0.2.1")));
    state.resolve_action(vec![ip("192.0.2.1"), ip("::1")], Some("ipv6_only"));
    assert_eq!(state.destination_ip, Some(ip("::1")));
    assert_eq!(state.resolved_addresses(), vec![ip("192.0.2.1"), ip("::1")]);
}

#[test]
fn answers_pass_by_what_was_sent_since_the_mapping_was_made() {
    let mapping = UdpNatBehavior::EndpointIndependent;
    let peer = addr("10.0.0.2", 5000);
    let answers = |filtering: UdpNatBehavior, sent: &[(&str, u16, u64)], now: u64| {
        let mut table = UdpNatTable::new(filtering, 4, Duration::from_secs(60));
        for (host, port, at) in sent {
            table.expire(Duration::from_secs(*at));
            take_packet(
                &mut table,
                mapping,
                peer,
                addr(host, *port),
                Duration::from_secs(*at),
                1,
                &Vec::new(),
            );
        }
        let key = UdpNatTable::key_for(mapping, peer, addr("0.0.0.0", 0));
        let now = Duration::from_secs(now);
        [("1.1.1.1", 53), ("1.1.1.1", 99), ("8.8.8.8", 53)]
            .map(|(host, port)| table.allow_response(key, addr(host, port), now))
    };
    let sent = [("1.1.1.1", 53, 1), ("9.9.9.9", 53, 2)];
    assert_eq!(
        answers(UdpNatBehavior::AddressAndPortDependent, &sent, 3),
        [true, false, false]
    );
    assert_eq!(
        answers(UdpNatBehavior::AddressDependent, &sent, 3),
        [true, true, false]
    );
    assert_eq!(
        answers(UdpNatBehavior::EndpointIndependent, &sent, 3),
        [true, true, true]
    );
    // The mapping ran out in between: what was sent before it counts no longer.
    let late = [("1.1.1.1", 53, 1), ("8.8.8.8", 53, 100)];
    assert_eq!(
        answers(UdpNatBehavior::AddressAndPortDependent, &late, 101),
        [false, false, true]
    );
    assert_eq!(
        answers(UdpNatBehavior::EndpointIndependent, &[], 1),
        [false, false, false]
    );
}

#[test]
fn a_session_whose_sender_is_closed_is_opened_again() {
    let mut table = UdpNatTable::new(
        UdpNatBehavior::AddressAndPortDependent,
        4,
        Duration::from_secs(60),
    );
    let mapping = UdpNatBehavior::EndpointIndependent;
    let mut take = |host: &str, at: u64, fresh: u64, closed: &Vec<u64>| {
        let step = take_packet(
            &mut table,
            mapping,
            addr("10.0.0.2", 5000),
            addr(host, 53),
            Duration::from_secs(at),
            fresh,
            closed,
        );
        (step.opened, step.sender)
    };
    assert_eq!(take("1.1.1.1", 1, 1, &Vec::new()), (true, 1));
    assert_eq!(take("8.8.8.8", 2, 2, &vec![7]), (false, 1));
    assert_eq!(take("8.8.8.8", 3, 3, &vec![7, 1]), (true, 3));
    assert_eq!(take("8.8.8.8", 4, 4, &vec![1]), (false, 3));
    // What was sent before still counts.
    let key = UdpNatTable::key_for(mapping, addr("10.0.0.2", 5000), addr("1.1.1.1", 53));
    assert!(table.allow_response(key, addr("1.1.1.1", 53), Duration::from_secs(5)));
}

#[test]
fn senders_of_translations_can_be_cleared() {
    let mut table = UdpNatTable::new(
        UdpNatBehavior::EndpointIndependent,
        1,
        Duration::from_secs(60),
    );
    let mapping = UdpNatBehavior::AddressAndPortDependent;
    let first = take_packet(
        &mut table,
        mapping,
        addr("10.0.0.2", 5000),
        addr("1.1.1.1", 53),
        Duration::from_secs(1),
        1,
        &Vec::new(),
    );
    assert!(table.contains_key(first.key));
    table.clear_sender(first.key);
    let again = take_packet(
        &mut table,
        mapping,
        addr("10.0.0.2", 5000),
        addr("1.1.1.1", 53),
        Duration::from_secs(2),
        2,
        &Vec::new(),
    );
    assert!(again.opened);
    assert_eq!(again.sender, 2);
    let other = take_packet(
        &mut table,
        mapping,
        addr("10.0.0.3", 5000),
        addr("1.1.1.1", 53),
        Duration::from_secs(3),
        3,
        &Vec::new(),
    );
    assert!(other.opened);
    assert!(!table.contains_key(first.key));
}
