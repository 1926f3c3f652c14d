use base64::Engine;
use sha2::Digest;
use xhttp::anytls::{
    AnyTlsError, ClientCheck, EchKeysError, ServerMaterial, ServerTls, ServerTlsError,
    alpn_wire_contains, asks_for_datagrams, build_client, build_server_tls,
    certificate_matches_pins, chain_certificate_taken, configure_boring_client_auth,
    effective_client_authentication, encode_alpn, inbound_settings, key_matches_pins,
    parse_duration, parse_ech_keys, read_keys, rustls_client_verifier, select_client_alpn,
    stream_user, validate_outbound, verify_client_cert,
};
use xhttp::net::socket;
use xhttp::proxy::udp::Address;
use xhttp::singbox::{EchConfig, Inbound, Outbound, TlsConfig, User};
use xhttp::time::{Duration, InvalidDuration};

fn texts(list: &[&str]) -> Vec<String> {
    list.iter().map(|s| s.to_string()).collect()
}

#[test]
fn formats_ipv4_domain_and_ipv6_sockets() {
    assert_eq!(socket("127.0.0.1", 443), "127.0.0.1:443");
    assert_eq!(socket("example.com", 8443), "example.com:8443");
    assert_eq!(socket("::1", 443), "[::1]:443");
    assert_eq!(socket("[::1]", 443), "[::1]:443");
}

#[test]
fn parses_and_rejects_session_durations() {
    let default = Duration::from_secs(30);
    assert_eq!(parse_duration(None, default).unwrap(), default);
    assert_eq!(
        parse_duration(Some("250ms"), default).unwrap(),
        Duration::from_millis(250)
    );
    assert_eq!(
        parse_duration(Some("2m"), default).unwrap(),
        Duration::from_secs(120)
    );
    for invalid in ["", "30", "1.5s", "-1s", "seconds"] {
        assert!(parse_duration(Some(invalid), default).is_err(), "{invalid}");
    }
}

#[test]
fn parses_sing_box_ech_keys_pem() {
    let mut raw = Vec::new();
    raw.extend(3u16.to_be_bytes());
    raw.extend([1, 2, 3]);
    raw.extend(4u16.to_be_bytes());
    raw.extend([4, 5, 6, 7]);
    let pem = format!(
        "-----BEGIN ECH KEYS-----\n{}\n-----END ECH KEYS-----\n",
        base64::engine::general_purpose::STANDARD.encode(raw)
    );
    assert_eq!(
        parse_ech_keys(pem.as_bytes()).unwrap(),
        vec![(vec![1, 2, 3], vec![4, 5, 6, 7])]
    );
}

#[test]
fn rejects_truncated_ech_keys() {
    let pem = "-----BEGIN ECH KEYS-----\nAAMBAg==\n-----END ECH KEYS-----\n";
    assert!(parse_ech_keys(pem.as_bytes()).is_err());
}

#[test]
fn rejects_empty_and_non_pem_ech_keys() {
    assert!(parse_ech_keys(b"").is_err());
    assert!(parse_ech_keys(b"not pem").is_err());
    let empty = "-----BEGIN ECH KEYS-----\n\n-----END ECH KEYS-----\n";
    assert!(parse_ech_keys(empty.as_bytes()).is_err());
}

#[test]
fn selects_alpn_in_client_order() {
    let server = encode_alpn(&vec!["h2".into(), "http/1.1".into()]).unwrap();
    assert_eq!(
        select_client_alpn(&server, b"\x08http/1.1\x02h2"),
        Some(&b"http/1.1"[..])
    );
    assert_eq!(select_client_alpn(&server, b"\x02h3"), None);
}

#[test]
fn each_fault_of_keys_has_its_error() {
    let armoured =
        |body: &str| format!("-----BEGIN ECH KEYS-----\n{body}\n-----END ECH KEYS-----\n");
    assert_eq!(parse_ech_keys(&[0xff, 0xfe]), Err(EchKeysError::NotText));
    assert_eq!(parse_ech_keys(b"not pem"), Err(EchKeysError::NotPem));
    assert_eq!(
        parse_ech_keys(armoured("***").as_bytes()),
        Err(EchKeysError::NotBase64)
    );
    assert_eq!(
        parse_ech_keys(armoured("AAMBAg==").as_bytes()),
        Err(EchKeysError::Truncated)
    );
    assert_eq!(
        parse_ech_keys(armoured("").as_bytes()),
        Err(EchKeysError::NoKeys)
    );
}

#[test]
fn keys_are_read_back() {
    let der = [0, 1, 9, 0, 0, 0, 2, 7, 8, 0, 1, 6];
    assert_eq!(
        read_keys(&der),
        Some(vec![(vec![9], vec![]), (vec![7, 8], vec![6])])
    );
    assert_eq!(read_keys(&[0, 1, 9, 0]), None);
    assert_eq!(read_keys(&[]), Some(vec![]));
}

#[test]
fn protocols_are_encoded_with_their_length() {
    assert_eq!(
        encode_alpn(&texts(&["h2", "http/1.1"])).unwrap(),
        b"\x02h2\x08http/1.1".to_vec()
    );
    assert!(encode_alpn(&vec!["x".repeat(256)]).is_err());
    assert_eq!(encode_alpn(&vec!["x".repeat(255)]).unwrap().len(), 256);
    assert!(alpn_wire_contains(b"\x02h2\x08http/1.1", b"http/1.1"));
    assert!(!alpn_wire_contains(b"\x02h2\x08http/1.1", b"http"));
    assert!(!alpn_wire_contains(b"\x09h2", b"h2"));
}

#[test]
fn client_certificates_are_asked_for_as_configured() {
    let mut tls = TlsConfig::default();
    assert_eq!(effective_client_authentication(&tls), "no");
    assert_eq!(rustls_client_verifier(&tls, false), Some(ClientCheck::Off));
    tls.client_authentication = Some("require-any".to_string());
    assert_eq!(
        rustls_client_verifier(&tls, false),
        Some(ClientCheck::Direct { mandatory: true, pinned: false })
    );
    tls.client_authentication = Some("verify-if-given".to_string());
    assert_eq!(
        rustls_client_verifier(&tls, false),
        Some(ClientCheck::Authorities { mandatory: false })
    );
    tls.client_authentication = Some("sometimes".to_string());
    assert_eq!(rustls_client_verifier(&tls, false), None);
    assert_eq!(configure_boring_client_auth(&tls, false), None);
    let pinned = TlsConfig {
        client_certificate_public_key_sha256: texts(&["AAAA"]),
        ..Default::default()
    };
    assert_eq!(effective_client_authentication(&pinned), "require-and-verify");
    assert_eq!(
        rustls_client_verifier(&pinned, true),
        Some(ClientCheck::Direct { mandatory: true, pinned: true })
    );
}

#[test]
fn keys_are_compared_by_their_digest() {
    let empty_digest: Vec<u8> = vec![
        0xe3, 0xb0, 0xc4, 0x42, 0x98, 0xfc, 0x1c, 0x14, 0x9a, 0xfb, 0xf4, 0xc8, 0x99, 0x6f, 0xb9,
        0x24, 0x27, 0xae, 0x41, 0xe4, 0x64, 0x9b, 0x93, 0x4c, 0xa4, 0x95, 0x99, 0x1b, 0x78, 0x52,
        0xb8, 0x55,
    ];
    let pins = vec![vec![1, 2, 3], empty_digest];
    assert!(key_matches_pins(b"", &pins));
    assert!(!key_matches_pins(b"x", &pins));
    assert!(!certificate_matches_pins(b"no certificate", &pins));
    assert!(verify_client_cert(b"no certificate", &Vec::new()));
    assert!(!verify_client_cert(b"no certificate", &pins));
}

#[test]
fn the_key_of_a_certificate_is_compared() {
    // The outline of a certificate whose key is the bytes 30 08 30 03 06 01 2a 03 01 00.
    let spki = [0x30u8, 0x08, 0x30, 0x03, 0x06, 0x01, 0x2a, 0x03, 0x01, 0x00];
    let algorithm = [0x30u8, 0x03, 0x06, 0x01, 0x2a];
    let mut fields: Vec<u8> = Vec::new();
    fields.extend([0xa0, 0x03, 0x02, 0x01, 0x02]);
    fields.extend([0x02, 0x01, 0x01]);
    fields.extend(algorithm);
    fields.extend([0x30, 0x00]);
    let mut validity: Vec<u8> = Vec::new();
    validity.extend([0x17, 0x0d]);
    validity.extend(b"240101000000Z");
    validity.extend([0x17, 0x0d]);
    validity.extend(b"340101000000Z");
    fields.extend([0x30, validity.len() as u8]);
    fields.extend(validity);
    fields.extend([0x30, 0x00]);
    fields.extend(spki);
    let mut inner: Vec<u8> = vec![0x30, fields.len() as u8];
    inner.extend(fields);
    inner.extend(algorithm);
    inner.extend([0x03, 0x01, 0x00]);
    let mut certificate: Vec<u8> = vec![0x30, inner.len() as u8];
    certificate.extend(inner);
    let pin = sha2::Sha256::digest(spki).to_vec();
    assert!(certificate_matches_pins(&certificate, &vec![pin.clone()]));
    assert!(!certificate_matches_pins(&certificate, &vec![vec![0; 32]]));
    assert!(chain_certificate_taken(0, Some(&spki.to_vec()), &vec![pin.clone()]));
    assert!(!chain_certificate_taken(0, None, &vec![pin]));
}

#[test]
fn outbounds_need_tls_and_sound_durations() {
    let mut outbound = Outbound {
        kind: "anytls".to_string(),
        ..Default::default()
    };
    assert_eq!(validate_outbound(&outbound), Err(AnyTlsError::NoTls));
    outbound.tls = Some(TlsConfig {
        enabled: true,
        ..Default::default()
    });
    assert_eq!(validate_outbound(&outbound), Ok(()));
    outbound.idle_session_timeout = Some("soon".to_string());
    assert_eq!(
        validate_outbound(&outbound),
        Err(AnyTlsError::Duration(InvalidDuration))
    );
    outbound.idle_session_timeout = None;
    assert_eq!(
        build_client(&outbound, false).unwrap_err(),
        AnyTlsError::NoServer
    );
    outbound.server = Some("proxy.example".to_string());
    outbound.server_port = Some(8443);
    assert_eq!(
        build_client(&outbound, false).unwrap_err(),
        AnyTlsError::NoPassword
    );
    outbound.password = Some("secret".to_string());
    let plan = build_client(&outbound, false).unwrap();
    assert_eq!(plan.server, "proxy.example");
    assert_eq!(plan.port, 8443);
    assert_eq!(plan.server_name, "proxy.example");
    assert_eq!(plan.idle_session_check_interval, Duration::from_secs(30));
    assert_eq!(plan.idle_session_timeout, Duration::from_secs(30));
}

#[test]
fn inbounds_have_their_defaults() {
    let mut inbound = Inbound {
        kind: "anytls".to_string(),
        users: vec![User {
            name: Some("alice".to_string()),
            password: None,
            ..Default::default()
        }],
        ..Default::default()
    };
    assert!(inbound_settings(&inbound).is_err());
    inbound.listen_port = Some(443);
    let settings = inbound_settings(&inbound).unwrap();
    assert_eq!(settings.listen, "[::]:443");
    assert_eq!(settings.tag, "anytls-in");
    assert_eq!(settings.users.len(), 1);
    assert_eq!(settings.users[0].name, "alice");
    assert_eq!(settings.users[0].password, "");
    assert!(!settings.tls);
}

#[test]
fn streams_for_datagrams_are_told_by_their_name() {
    let magic = Address::Domain("datagrams.example".to_string(), 0);
    assert!(asks_for_datagrams(&magic, "datagrams.example"));
    assert!(!asks_for_datagrams(&magic, "other.example"));
    assert_eq!(stream_user(""), None);
    assert_eq!(stream_user("bob"), Some("bob"));
}

#[test]
fn tls_of_the_inbound_follows_what_was_loaded() {
    let mut tls = TlsConfig::default();
    let mut loaded = ServerMaterial {
        certificate: None,
        key: None,
        authorities: None,
        ech_key: None,
        pinned: false,
    };
    assert_eq!(build_server_tls(&tls, &loaded).unwrap_err(), ServerTlsError::NoCertificate);
    loaded.certificate = Some(b"certificate".to_vec());
    assert_eq!(build_server_tls(&tls, &loaded).unwrap_err(), ServerTlsError::NoKey);
    loaded.key = Some(b"key".to_vec());
    assert!(matches!(
        build_server_tls(&tls, &loaded),
        Ok(ServerTls::Plain {
            check: ClientCheck::Off
        })
    ));
    tls.client_authentication = Some("sometimes".into());
    assert_eq!(
        build_server_tls(&tls, &loaded).unwrap_err(),
        ServerTlsError::UnknownAuthentication
    );
    tls.client_authentication = Some("verify-if-given".into());
    assert_eq!(build_server_tls(&tls, &loaded).unwrap_err(), ServerTlsError::NoAuthorities);
    loaded.authorities = Some(b"authorities".to_vec());
    assert!(matches!(
        build_server_tls(&tls, &loaded),
        Ok(ServerTls::Plain {
            check: ClientCheck::Authorities { mandatory: false }
        })
    ));
    tls.ech = Some(EchConfig {
        enabled: true,
        ..Default::default()
    });
    tls.alpn = vec!["x".repeat(256)];
    assert_eq!(build_server_tls(&tls, &loaded).unwrap_err(), ServerTlsError::ProtocolTooLong);
    tls.alpn = vec!["h2".into()];
    assert_eq!(build_server_tls(&tls, &loaded).unwrap_err(), ServerTlsError::NoEchKey);
    loaded.ech_key = Some(b"no keys".to_vec());
    assert_eq!(
        build_server_tls(&tls, &loaded).unwrap_err(),
        ServerTlsError::EchKeys(EchKeysError::NotPem)
    );
    let raw = [0, 1, 9, 0, 2, 7, 8];
    loaded.ech_key = Some(
        format!(
            "-----BEGIN ECH KEYS-----\n{}\n-----END ECH KEYS-----\n",
            base64::engine::general_purpose::STANDARD.encode(raw)
        )
        .into_bytes(),
    );
    match build_server_tls(&tls, &loaded).unwrap() {
        ServerTls::Ech {
            check,
            protocols,
            keys,
        } => {
            assert_eq!(check, ClientCheck::Authorities { mandatory: false });
            assert_eq!(protocols, Some(b"\x02h2".to_vec()));
            assert_eq!(keys, vec![(vec![9], vec![7, 8])]);
        }
        other => panic!("{other:?}"),
    }
}
