use axum::http::HeaderMap;
use xhttp::client::{
    Client, ClientError, HttpClientError, HttpVersion, Material, build_http_client, http_version,
    load_ech_pem, material, offered_protocols,
};
use xhttp::config::{
    ClientConfig, ClientTlsConfig, ConfigError, HeaderField, Mode, Placement, RangeConfig,
    TransportConfig, XmuxConfig,
};
use xhttp::location::{RequestTarget, RequestUrl};
use xhttp::net::{SocketAddr, parse_ip};
use xhttp::protocol::metadata::{
    ProtocolError, apply_metadata, cookie_value, extract_metadata, fuzz_cookie, fuzz_metadata,
};
use xhttp::protocol::padding::{huffman_length, padding_value};
use xhttp::protocol::payload::{extract_payload, extract_payload_bytes, put_payload};
use xhttp::protocol::request::{
    add_common_headers, apply_padding, apply_response_padding, authorized, place_response_padding,
    valid_padding,
};
use xhttp::time::Duration;

fn target(path: &str, query: Option<&str>) -> RequestTarget {
    RequestTarget {
        path: path.to_string(),
        query: query.map(|q| q.to_string()),
    }
}

fn start() -> RequestUrl {
    RequestUrl::parse("https://example.com/xhttp").unwrap()
}

#[test]
fn path_metadata_round_trip() {
    let config = TransportConfig::default();
    let mut url = start();
    let mut headers = HeaderMap::new();
    apply_metadata(&config, &mut url, &mut headers, Some("session-a"), Some(7)).unwrap();
    assert_eq!(
        extract_metadata(&config, &url.target(), &headers),
        (Some("session-a".into()), Some(7))
    );
}

#[test]
fn query_metadata_reads_lazily_and_preserves_duplicate_semantics() {
    let config = TransportConfig {
        session_placement: Placement::Query,
        sequence_placement: Placement::Query,
        ..Default::default()
    };
    let uri = target("/xhttp", Some("x_session=a&x_session=b&x_seq=42"));
    assert_eq!(
        extract_metadata(&config, &uri, &HeaderMap::new()),
        (Some("b".into()), Some(42))
    );
    let encoded = target("/xhttp", Some("x_session=a%20b&x_seq=7"));
    assert_eq!(
        extract_metadata(&config, &encoded, &HeaderMap::new()),
        (Some("a b".into()), Some(7))
    );
    let empty = target("/xhttp", None);
    assert_eq!(
        extract_metadata(&config, &empty, &HeaderMap::new()),
        (None, None)
    );
    let partial = target("/xhttp", Some("x_session=only-session"));
    assert_eq!(
        extract_metadata(&config, &partial, &HeaderMap::new()),
        (Some("only-session".into()), None)
    );
}

#[test]
fn header_payload_round_trip() {
    let config = TransportConfig {
        data_placement: Placement::Header,
        ..Default::default()
    };
    let payload = vec![42; 9_001];
    let mut headers = HeaderMap::new();
    assert!(
        put_payload(&config, &payload, &mut headers)
            .unwrap()
            .is_none()
    );
    assert_eq!(extract_payload(&config, &headers, &[]).unwrap(), payload);
}

#[test]
fn all_metadata_and_payload_placements_round_trip() {
    let metadata = [
        Placement::Path,
        Placement::Query,
        Placement::Header,
        Placement::Cookie,
    ];
    for session_placement in metadata {
        for sequence_placement in metadata {
            let config = TransportConfig {
                session_placement,
                sequence_placement,
                ..Default::default()
            };
            let mut url = start();
            let mut headers = HeaderMap::new();
            apply_metadata(&config, &mut url, &mut headers, Some("session"), Some(42)).unwrap();
            assert_eq!(
                extract_metadata(&config, &url.target(), &headers),
                (Some("session".into()), Some(42))
            );
        }
    }

    for placement in [
        Placement::Body,
        Placement::Header,
        Placement::Cookie,
        Placement::Auto,
    ] {
        let config = TransportConfig {
            data_placement: placement,
            ..Default::default()
        };
        let mut headers = HeaderMap::new();
        let body = put_payload(&config, b"payload", &mut headers)
            .unwrap()
            .unwrap_or_default();
        assert_eq!(
            extract_payload(&config, &headers, &body).unwrap(),
            b"payload"
        );
    }
}

#[test]
fn all_padding_placements_and_methods_validate() {
    for placement in [
        Placement::Query,
        Placement::Header,
        Placement::Cookie,
        Placement::QueryInHeader,
    ] {
        for method in ["repeat-x", "tokenish"] {
            let config = TransportConfig {
                padding_min: 64,
                padding_max: 64,
                padding_obfs: true,
                padding_placement: placement,
                padding_method: method.into(),
                ..Default::default()
            };
            let mut url = start();
            let mut headers = HeaderMap::new();
            apply_padding(&config, &mut url, &mut headers);
            assert!(valid_padding(&config, &url.target(), &headers));
        }
    }
}

fn client_config(transport: TransportConfig, tls: ClientTlsConfig) -> ClientConfig {
    ClientConfig {
        listen: String::new(),
        server: "https://localhost/xhttp".into(),
        connect_addr: None,
        transport,
        tls,
    }
}

#[test]
fn sing_box_ech_pem_is_accepted() {
    let config = client_config(
        TransportConfig::default(),
        ClientTlsConfig {
            ech_config: Some(
                "-----BEGIN ECH CONFIGS-----\nAET+DQBAAAAgACCT/A3lRXEPEOOFzhZ+AQwpE+z8kKlc2pt8L9tngMF3EwAMAAEAAQABAAIAAQADAAlsb2NhbGhvc3QAAA==\n-----END ECH CONFIGS-----".into(),
            ),
            ..Default::default()
        },
    );
    let given = load_ech_pem(&config.tls).unwrap();
    assert!(matches!(given, Material::Given(bytes) if bytes.starts_with(b"-----BEGIN ECH CONFIGS-----")));
    Client::new(config).unwrap();
}

#[test]
fn requests_of_the_client_are_accepted() {
    let transport = TransportConfig {
        token: Some("letmein".into()),
        padding_min: 16,
        padding_max: 32,
        ..Default::default()
    };
    let client = Client::new(client_config(transport, ClientTlsConfig::default())).unwrap();
    let (url, headers) = client.request(Some("abc"), Some(3)).unwrap();
    assert!(authorized(&client.config.transport, &headers));
    assert!(valid_padding(&client.config.transport, &url.target(), &headers));
    assert_eq!(
        extract_metadata(&client.config.transport, &url.target(), &headers),
        (Some("abc".into()), Some(3))
    );
    let (url, headers, body) = client.packet("abc", 4, b"data").unwrap();
    assert_eq!(
        extract_metadata(&client.config.transport, &url.target(), &headers),
        (Some("abc".into()), Some(4))
    );
    assert_eq!(
        extract_payload(&client.config.transport, &headers, &body).unwrap(),
        b"data"
    );
}

#[test]
fn long_paddings_are_sent_where_they_can_be_counted() {
    for placement in [
        Placement::Query,
        Placement::Header,
        Placement::Cookie,
        Placement::QueryInHeader,
    ] {
        let transport = TransportConfig {
            padding_min: 1_000_000,
            padding_max: 1_000_000,
            padding_obfs: true,
            padding_placement: placement,
            ..Default::default()
        };
        let mut config = client_config(transport, ClientTlsConfig::default());
        config.listen = "127.0.0.1:1080".into();
        let client = Client::new(config).unwrap();
        assert_eq!(client.config.listen, "127.0.0.1:1080");
        let (url, headers) = client.request(Some("abc"), Some(3)).unwrap();
        assert!(valid_padding(&client.config.transport, &url.target(), &headers));
        assert_eq!(
            extract_metadata(&client.config.transport, &url.target(), &headers),
            (Some("abc".into()), Some(3))
        );
    }
    let endless = TransportConfig {
        padding_min: usize::MAX,
        padding_max: usize::MAX,
        ..Default::default()
    };
    let client = Client::new(client_config(endless, ClientTlsConfig::default())).unwrap();
    assert!(matches!(client.request(None, None), Err(ClientError::TooLong)));
}

#[test]
fn packets_are_numbered_from_nought() {
    let transport = TransportConfig {
        packet_interval_ms: 25,
        ..Default::default()
    };
    let client = Client::new(client_config(transport, ClientTlsConfig::default())).unwrap();
    let mut upload = client.upload();
    for number in 0..3 {
        assert_eq!(upload.next, number);
        let (url, headers, _) = client.packet("abc", upload.next, b"data").unwrap();
        assert_eq!(
            extract_metadata(&client.config.transport, &url.target(), &headers).1,
            Some(number)
        );
        assert_eq!(upload.sent(), Some(Duration { millis: 25 }));
    }
    let transport = TransportConfig {
        packet_interval_ms: 0,
        ..Default::default()
    };
    let client = Client::new(client_config(transport, ClientTlsConfig::default())).unwrap();
    assert_eq!(client.upload().sent(), None);
}

#[test]
fn plain_addresses_are_read_as_they_stand() {
    for text in ["https://example.com/xhttp", "http://localhost/a-b/c_9//d/", "https://a.b./"] {
        let url = RequestUrl::parse(text).unwrap();
        assert_eq!(url.as_text(), text);
        assert_eq!(url.target().query, None);
        assert!(url.target().pairs().is_empty());
        assert!(text.ends_with(&url.path()));
    }
    assert_eq!(
        RequestUrl::parse("https://a.b./c/").unwrap().path(),
        "/c/"
    );
}

#[test]
fn a_wrong_token_is_refused() {
    let config = TransportConfig {
        token: Some("one".into()),
        ..Default::default()
    };
    let mut headers = HeaderMap::new();
    assert!(!authorized(&config, &headers));
    add_common_headers(
        &TransportConfig {
            token: Some("two".into()),
            ..Default::default()
        },
        &mut headers,
    )
    .unwrap();
    assert!(!authorized(&config, &headers));
    let mut headers = HeaderMap::new();
    add_common_headers(&config, &mut headers).unwrap();
    assert_eq!(headers.get("authorization").unwrap(), "Bearer one");
    assert!(authorized(&config, &headers));
    assert!(authorized(&TransportConfig::default(), &HeaderMap::new()));
}

#[test]
fn faults_of_the_client_are_told_apart() {
    let both = client_config(
        TransportConfig::default(),
        ClientTlsConfig {
            ech_config: Some("a".into()),
            ech_config_path: Some("b".into()),
            ..Default::default()
        },
    );
    assert_eq!(load_ech_pem(&both.tls).unwrap_err(), ClientError::EchExclusive);
    let mut plain = client_config(
        TransportConfig::default(),
        ClientTlsConfig {
            ech_config: Some("a".into()),
            ..Default::default()
        },
    );
    plain.server = "http://localhost/xhttp".into();
    assert_eq!(Client::new(plain).unwrap_err(), ClientError::EchWithoutHttps);
    let insecure = client_config(
        TransportConfig::default(),
        ClientTlsConfig {
            ech_config: Some("a".into()),
            insecure: true,
            ..Default::default()
        },
    );
    assert_eq!(Client::new(insecure).unwrap_err(), ClientError::EchInsecure);
    let mut nowhere = client_config(TransportConfig::default(), ClientTlsConfig::default());
    nowhere.server = "not a url".into();
    assert_eq!(Client::new(nowhere).unwrap_err(), ClientError::Url);
    let padded = TransportConfig {
        padding_min: 9,
        padding_max: 3,
        ..Default::default()
    };
    assert_eq!(
        Client::new(client_config(padded, ClientTlsConfig::default())).unwrap_err(),
        ClientError::Config(ConfigError::PaddingRange)
    );
}

#[test]
fn material_is_given_or_read() {
    assert!(matches!(material(&None, &None), Ok(Material::Nothing)));
    assert!(matches!(
        material(&Some("x".into()), &None),
        Ok(Material::Given(bytes)) if bytes == b"x"
    ));
    assert!(matches!(
        material(&None, &Some("/p".into())),
        Ok(Material::File(path)) if path == "/p"
    ));
    assert_eq!(
        material(&Some("x".into()), &Some("/p".into())).unwrap_err(),
        ClientError::Exclusive
    );
}

#[test]
fn the_client_of_http_is_set_up_from_the_settings() {
    let mut config = client_config(TransportConfig::default(), ClientTlsConfig::default());
    config.server = "https://carrier.example:8443/xhttp".into();
    config.transport.xmux.h_keep_alive_period = 45;
    config.tls.ca_pem = Some("ca".into());
    config.tls.client_key_path = Some("/key.pem".into());
    let plan = build_http_client(&config).unwrap();
    assert_eq!(plan.keep_alive, Some(45));
    assert!(plan.resolved.is_none());
    assert_eq!(plan.version, HttpVersion::Agreed);
    assert!(matches!(plan.ca, Material::Given(bytes) if bytes == b"ca"));
    assert!(matches!(plan.certificate, Material::Nothing));
    assert!(matches!(plan.key, Material::File(path) if path == "/key.pem"));
    assert_eq!(plan.protocols, vec!["h2", "http/1.1"]);
    assert!(matches!(plan.ech, Material::Nothing));
    let address = SocketAddr {
        ip: parse_ip("192.0.2.7").unwrap(),
        port: 443,
    };
    config.connect_addr = Some(address);
    let plan = build_http_client(&config).unwrap();
    assert_eq!(plan.resolved, Some(("carrier.example".to_string(), address)));
    config.server = "data:text/plain,x".into();
    assert_eq!(build_http_client(&config).unwrap_err(), HttpClientError::NoHost);
    config.server = "nowhere".into();
    assert_eq!(build_http_client(&config).unwrap_err(), HttpClientError::Url);
    config.connect_addr = None;
    config.tls.ech_config = Some("a".into());
    config.tls.ech_config_path = Some("/b".into());
    assert_eq!(build_http_client(&config).unwrap_err(), HttpClientError::EchExclusive);
    config.tls.client_key = Some("key".into());
    assert_eq!(build_http_client(&config).unwrap_err(), HttpClientError::KeyExclusive);
    config.tls.client_certificate = Some("a".into());
    config.tls.client_certificate_path = Some("/b".into());
    assert_eq!(
        build_http_client(&config).unwrap_err(),
        HttpClientError::CertificateExclusive
    );
    config.tls.ca_certificate = Some("/ca.pem".into());
    assert_eq!(build_http_client(&config).unwrap_err(), HttpClientError::CaExclusive);
}

#[test]
fn versions_follow_the_settings() {
    let mut config = client_config(TransportConfig::default(), ClientTlsConfig::default());
    config.server = "http://localhost/xhttp".into();
    config.tls.http3 = true;
    assert_eq!(http_version(&config), HttpVersion::Three);
    let both = ClientTlsConfig::default();
    assert_eq!(offered_protocols(&both), vec!["h2", "http/1.1"]);
    let two = ClientTlsConfig {
        http2_only: true,
        ..Default::default()
    };
    assert_eq!(offered_protocols(&two), vec!["h2"]);
}

#[test]
fn settings_are_validated() {
    let mut config = TransportConfig::default();
    assert_eq!(config.validate(), Ok(()));
    assert_eq!(config.session_timeout(), Duration::from_secs(config.session_timeout_secs));
    let faults = [
        (
            TransportConfig {
                padding_min: 2,
                padding_max: 1,
                ..Default::default()
            },
            ConfigError::PaddingRange,
        ),
        (
            TransportConfig {
                max_packet_size: 0,
                ..Default::default()
            },
            ConfigError::PacketLimits,
        ),
        (
            TransportConfig {
                session_placement: Placement::Body,
                ..Default::default()
            },
            ConfigError::MetadataPlacement,
        ),
        (
            TransportConfig {
                data_placement: Placement::Path,
                ..Default::default()
            },
            ConfigError::DataPlacement,
        ),
        (
            TransportConfig {
                padding_obfs: true,
                padding_placement: Placement::Body,
                ..Default::default()
            },
            ConfigError::PaddingPlacement,
        ),
        (
            TransportConfig {
                padding_obfs: true,
                padding_method: "noise".into(),
                ..Default::default()
            },
            ConfigError::PaddingMethod,
        ),
        (
            TransportConfig {
                headers: vec![HeaderField {
                    name: "Host".into(),
                    value: "x".into(),
                }],
                ..Default::default()
            },
            ConfigError::HostHeader,
        ),
        (
            TransportConfig {
                headers: vec![HeaderField {
                    name: "bad name".into(),
                    value: "x".into(),
                }],
                ..Default::default()
            },
            ConfigError::HeaderName,
        ),
        (
            TransportConfig {
                headers: vec![HeaderField {
                    name: "x-name".into(),
                    value: "bad\nvalue".into(),
                }],
                ..Default::default()
            },
            ConfigError::HeaderValue,
        ),
    ];
    for (mut config, error) in faults {
        assert_eq!(config.validate(), Err(error));
    }
}

#[test]
fn ranges_are_validated_and_sampled() {
    let fine = RangeConfig { from: 3, to: 5 };
    assert!(fine.validate("x").is_ok());
    for _ in 0..64 {
        let n = fine.sample();
        assert!((3..=5).contains(&n));
    }
    assert_eq!(RangeConfig { from: 4, to: 4 }.sample(), 4);
    let reversed = RangeConfig { from: 5, to: 3 }.validate("max").unwrap_err();
    assert_eq!(reversed.name, "max");
    assert_eq!(reversed.error, ConfigError::RangeReversed);
    let open = RangeConfig { from: 5, to: 0 }.validate("max").unwrap_err();
    assert_eq!(open.error, ConfigError::RangeWithoutEnd);
    let both = XmuxConfig {
        max_concurrency: RangeConfig { from: 1, to: 1 },
        max_connections: RangeConfig { from: 1, to: 1 },
        ..Default::default()
    };
    assert_eq!(both.validate(), Err(ConfigError::XmuxExclusive));
    assert_eq!(Mode::Auto.resolved(), Mode::PacketUp);
    assert_eq!(Mode::StreamOne.resolved(), Mode::StreamOne);
}

#[test]
fn cookies_are_found_by_their_name() {
    let mut headers = HeaderMap::new();
    headers.append("cookie", "a=1; session=xyz".parse().unwrap());
    assert_eq!(cookie_value(&headers, "session").as_deref(), Some("xyz"));
    assert_eq!(cookie_value(&headers, "sess"), None);
    let _ = fuzz_cookie(b"session=xyz");
    let (session, sequence) = fuzz_metadata(b"abc");
    assert!(session.is_some() || sequence.is_none());
}

#[test]
fn broken_payloads_are_refused() {
    let config = TransportConfig {
        data_placement: Placement::Header,
        ..Default::default()
    };
    let mut headers = HeaderMap::new();
    put_payload(&config, b"payload", &mut headers).unwrap();
    let name = headers.keys().next().unwrap().clone();
    headers.insert(name, "!!!".parse().unwrap());
    assert_eq!(
        extract_payload(&config, &headers, &[]),
        Err(ProtocolError::InvalidPayload)
    );
    let body = TransportConfig {
        data_placement: Placement::Body,
        ..Default::default()
    };
    assert_eq!(
        extract_payload_bytes(&body, &HeaderMap::new(), b"as it is".to_vec()).unwrap(),
        b"as it is"
    );
    let path = TransportConfig {
        data_placement: Placement::Path,
        ..Default::default()
    };
    assert!(put_payload(&path, b"x", &mut HeaderMap::new()).is_err());
}

#[test]
fn names_that_are_no_fields_are_refused() {
    let config = TransportConfig {
        session_placement: Placement::Header,
        session_key: "bad name".into(),
        ..Default::default()
    };
    assert_eq!(
        apply_metadata(&config, &mut start(), &mut HeaderMap::new(), Some("s"), None),
        Err(ProtocolError::HeaderName)
    );
    let config = TransportConfig {
        session_placement: Placement::Header,
        ..Default::default()
    };
    assert_eq!(
        apply_metadata(&config, &mut start(), &mut HeaderMap::new(), Some("a\nb"), None),
        Err(ProtocolError::HeaderValue)
    );
    let config = TransportConfig {
        session_placement: Placement::Body,
        ..Default::default()
    };
    assert_eq!(
        apply_metadata(&config, &mut start(), &mut HeaderMap::new(), Some("a"), None),
        Err(ProtocolError::MetadataPlacement)
    );
}

#[test]
fn padding_has_the_length_that_is_asked_for() {
    assert_eq!(padding_value("repeat-x", 5), "XXXXX");
    assert_eq!(huffman_length(b"XXXXXXXX"), 8);
    assert_eq!(huffman_length(b"00000000"), 5);
    let token = padding_value("tokenish", 40);
    assert!(!token.is_empty());
    let config = TransportConfig {
        padding_min: 10,
        padding_max: 20,
        ..Default::default()
    };
    assert!(!valid_padding(&config, &target("/xhttp", None), &HeaderMap::new()));
    let mut headers = HeaderMap::new();
    place_response_padding(&config, 12, &mut headers);
    assert_eq!(headers.len(), 1);
    let mut headers = HeaderMap::new();
    apply_response_padding(&config, &mut headers);
    assert_eq!(headers.len(), 1);
}

#[test]
fn addresses_are_taken_apart() {
    let url = RequestUrl::parse("https://example.com/a?x=1").unwrap();
    assert_eq!(url.path(), "/a");
    let moved = url.with_path("/b c");
    assert_eq!(moved.path(), "/b%20c");
    let paired = url.with_pair("k", "v w");
    assert_eq!(paired.as_text(), "https://example.com/a?x=1&k=v+w");
    assert_eq!(
        paired.target().pairs(),
        vec![
            ("x".to_string(), "1".to_string()),
            ("k".to_string(), "v w".to_string()),
        ]
    );
    assert!(RequestUrl::parse("nonsense").is_none());
}

#[test]
fn sessions_are_opened_under_names_of_their_own() {
    for placement in [
        Placement::Path,
        Placement::Query,
        Placement::Header,
        Placement::Cookie,
    ] {
        let transport = TransportConfig {
            session_placement: placement,
            ..Default::default()
        };
        let client = Client::new(client_config(transport, ClientTlsConfig::default())).unwrap();
        let (session, opening) = client.open_session();
        assert_eq!(session.len(), 32);
        assert!(session.chars().all(|c| c.is_ascii_digit() || ('a'..='f').contains(&c)));
        let (url, headers) = opening.unwrap();
        assert_eq!(
            extract_metadata(&client.config.transport, &url.target(), &headers),
            (Some(session.clone()), None)
        );
        assert_ne!(client.open_session().0, session);
    }
}

#[test]
fn sessions_of_any_letters_stand_in_a_query() {
    let config = TransportConfig {
        session_placement: Placement::Query,
        ..Default::default()
    };
    let mut url = start();
    let mut headers = HeaderMap::new();
    apply_metadata(&config, &mut url, &mut headers, Some("a&b=c \u{e9}/"), None).unwrap();
    assert_eq!(
        extract_metadata(&config, &url.target(), &headers),
        (Some("a&b=c \u{e9}/".into()), None)
    );
}

#[test]
fn streams_are_marked_unless_told_otherwise() {
    let client =
        Client::new(client_config(TransportConfig::default(), ClientTlsConfig::default())).unwrap();
    let mut headers = HeaderMap::new();
    client.mark_stream(&mut headers);
    assert_eq!(headers.get("content-type").unwrap(), "application/grpc");
    assert_eq!(client.buffer_size(), 1_000_000);
    assert_eq!(client.uplink_method().unwrap(), "POST");
    let quiet = TransportConfig {
        no_grpc_header: true,
        max_packet_size: 10,
        ..Default::default()
    };
    let client = Client::new(client_config(quiet, ClientTlsConfig::default())).unwrap();
    let mut headers = HeaderMap::new();
    client.mark_stream(&mut headers);
    assert!(headers.is_empty());
    assert_eq!(client.buffer_size(), 65_536);
}

#[test]
fn urls_are_kept_in_their_normal_form() {
    let web = RequestUrl::parse("HTTP://Host.example:80/a b?q=1").unwrap();
    assert_eq!(web.as_text(), "http://host.example/a%20b?q=1");
    assert_eq!(web.path(), "/a%20b");
    let moved = web.with_path("/next/step");
    assert_eq!(moved.as_text(), "http://host.example/next/step?q=1");
    let longer = moved.with_pair("k", "v w");
    assert_eq!(longer.as_text(), "http://host.example/next/step?q=1&k=v+w");
    let opaque = RequestUrl::parse("data:a b").unwrap();
    assert_eq!(opaque.as_text(), "data:a b");
    assert_eq!(opaque.path(), "a b");
    assert!(RequestUrl::parse("nowhere").is_none());
}
