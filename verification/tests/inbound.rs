use xhttp::net::{Destination, parse_ip};
use xhttp::proxy::fetch::{
    FetchError, FetchStep, HttpResponse, ResponseError, find_field, follow_response, parse_hex,
    plan_fetch, read_http_response, whole_body,
};
use xhttp::proxy::http_inbound::{HeadProgress, HttpFailure, failure_reply, http_handshake, read_head};
use xhttp::proxy::inbound::{
    Handshake, InboundKind, ProxyInboundError, SocksFailure, SocksProgress, authenticate,
    connection_kind, inbound_kind, proxy_settings, socks_handshake,
};
use xhttp::singbox::{Inbound, User};

fn user(name: &str, password: &str) -> User {
    User {
        name: Some(name.into()),
        password: Some(password.into()),
        ..Default::default()
    }
}

#[test]
fn http_response_parser_handles_content_length() {
    let response =
        read_http_response(b"HTTP/1.1 200 OK\r\nContent-Length: 5\r\n\r\nhello").unwrap();
    assert_eq!(response.status, 200);
    assert!(
        response
            .headers
            .iter()
            .any(|(name, value)| name.eq_ignore_ascii_case("content-length") && value == "5")
    );
    assert_eq!(response.body, b"hello");
}

#[test]
fn http_response_parser_handles_chunked_encoding() {
    let response = read_http_response(
        b"HTTP/1.1 200 OK\r\nTransfer-Encoding: chunked\r\n\r\n5\r\nhello\r\n6\r\n world\r\n0\r\n\r\n",
    )
    .unwrap();
    assert_eq!(response.status, 200);
    assert_eq!(response.body, b"hello world");
}

#[test]
fn http_response_parser_handles_close_delimited_body() {
    let response = read_http_response(b"HTTP/1.1 200 OK\r\n\r\nbody until close").unwrap();
    assert_eq!(response.status, 200);
    assert_eq!(response.body, b"body until close");
}

#[test]
fn fetch_url_etag_returns_body_then_not_modified() {
    let plan = plan_fetch("http://127.0.0.1:8080/rules.json", None, 0).unwrap();
    assert_eq!(plan.host, "127.0.0.1");
    assert_eq!(plan.port, 8080);
    assert!(!plan.tls);
    assert!(plan.request.starts_with("GET /rules.json HTTP/1.1\r\n"));
    let response = read_http_response(
        b"HTTP/1.1 200 OK\r\nContent-Length: 5\r\nETag: \"v1\"\r\n\r\nhello",
    )
    .unwrap();
    match follow_response("http://127.0.0.1:8080/rules.json", response).unwrap() {
        FetchStep::Done { body, etag, not_modified } => {
            assert_eq!(body, b"hello");
            assert_eq!(etag.as_deref(), Some("\"v1\""));
            assert!(!not_modified);
        }
        FetchStep::Redirect(_) => panic!("a body was expected"),
    }
    let plan = plan_fetch("http://127.0.0.1:8080/rules.json", Some("\"v1\""), 0).unwrap();
    assert!(plan.request.contains("If-None-Match: \"v1\"\r\n"));
    let response =
        read_http_response(b"HTTP/1.1 304 Not Modified\r\nETag: \"v1\"\r\n\r\n").unwrap();
    match follow_response("http://127.0.0.1:8080/rules.json", response).unwrap() {
        FetchStep::Done { body, etag, not_modified } => {
            assert!(body.is_empty());
            assert_eq!(etag.as_deref(), Some("\"v1\""));
            assert!(not_modified);
        }
        FetchStep::Redirect(_) => panic!("a body was expected"),
    }
}

#[test]
fn fetch_url_etag_follows_redirects() {
    let response = read_http_response(
        b"HTTP/1.1 302 Found\r\nLocation: http://127.0.0.1:9090/final\r\nContent-Length: 0\r\n\r\n",
    )
    .unwrap();
    match follow_response("http://127.0.0.1:8080/start", response).unwrap() {
        FetchStep::Redirect(url) => assert_eq!(url, "http://127.0.0.1:9090/final"),
        FetchStep::Done { .. } => panic!("a redirect was expected"),
    }
    let response =
        read_http_response(b"HTTP/1.1 302 Found\r\nLocation: /final?x=1\r\nContent-Length: 0\r\n\r\n")
            .unwrap();
    match follow_response("http://127.0.0.1:8080/start", response).unwrap() {
        FetchStep::Redirect(url) => assert_eq!(url, "http://127.0.0.1:8080/final?x=1"),
        FetchStep::Done { .. } => panic!("a redirect was expected"),
    }
}

fn response(status: u16) -> HttpResponse {
    HttpResponse {
        status,
        headers: Vec::new(),
        body: b"x".to_vec(),
    }
}

#[test]
fn faults_of_downloads_are_told_apart() {
    let fault = |url: &str, redirects: u8| plan_fetch(url, None, redirects).unwrap_err();
    assert_eq!(fault("http://x.example/", 6), FetchError::Redirects);
    assert_eq!(fault("nonsense", 0), FetchError::Url);
    assert_eq!(fault("ftp://x.example/", 0), FetchError::Scheme);
    assert_eq!(
        follow_response("http://x.example/", response(302)).unwrap_err(),
        FetchError::NoLocation
    );
    assert_eq!(
        follow_response("http://x.example/", response(404)).unwrap_err(),
        FetchError::Status(404)
    );
    assert_eq!(
        whole_body(Vec::new(), true).unwrap_err(),
        FetchError::NotModified
    );
    assert_eq!(whole_body(b"x".to_vec(), false).unwrap(), b"x");
    let read = |b: &[u8]| read_http_response(b).unwrap_err();
    assert_eq!(read(&[0xff, b'\r', b'\n', b'\r', b'\n']), ResponseError::NotText);
    assert_eq!(read(b"HTTP/1.1\r\n\r\n"), ResponseError::NoStatus);
    assert_eq!(read(b"HTTP/1.1 abc\r\n\r\n"), ResponseError::Status);
    assert_eq!(
        read(b"HTTP/1.1 200 OK\r\nTransfer-Encoding: chunked\r\n\r\nzz\r\n"),
        ResponseError::ChunkSize
    );
    assert_eq!(
        read(b"HTTP/1.1 200 OK\r\nTransfer-Encoding: chunked\r\n\r\n9\r\nx"),
        ResponseError::Truncated
    );
    assert_eq!(parse_hex("1f", 255), Some(31));
    assert_eq!(parse_hex("fff", 255), None);
    assert_eq!(
        find_field(&vec![("ETag".to_string(), "v".to_string())], "etag").as_deref(),
        Some("v")
    );
}

#[test]
fn socks_clients_get_through() {
    let mut received = vec![5, 1, 0];
    let (replies, progress) = socks_handshake(&Vec::new(), &received);
    assert_eq!(replies, vec![5, 0]);
    assert!(matches!(progress, SocksProgress::Need(_)));
    received.extend([5, 1, 0, 3, 11]);
    received.extend(b"example.com");
    received.extend(443u16.to_be_bytes());
    let (_, progress) = socks_handshake(&Vec::new(), &received);
    match progress {
        SocksProgress::Done(Handshake::Tcp { destination, reply, initial, auth_user }) => {
            assert_eq!(destination, Destination::Domain("example.com".into(), 443));
            assert_eq!(reply, Some(vec![5, 0, 0, 1, 0, 0, 0, 0, 0, 0]));
            assert!(initial.is_empty());
            assert_eq!(auth_user, None);
        }
        _ => panic!("a connection was expected"),
    }
}

#[test]
fn socks_users_are_asked_for_their_password() {
    let users = vec![user("alice", "pw")];
    assert!(authenticate(&users, "alice", "pw"));
    assert!(!authenticate(&users, "alice", "no"));
    let (replies, progress) = socks_handshake(&users, &[5, 1, 0]);
    assert_eq!(replies, vec![5, 255]);
    assert!(matches!(progress, SocksProgress::Failed(SocksFailure::NoMethod)));
    let mut received = vec![5, 1, 2, 1, 5];
    received.extend(b"alice");
    received.push(2);
    received.extend(b"no");
    let (replies, progress) = socks_handshake(&users, &received);
    assert_eq!(replies, vec![5, 2, 1, 1]);
    assert!(matches!(progress, SocksProgress::Failed(SocksFailure::Credentials)));
    let length = received.len();
    received[length - 2..].copy_from_slice(b"pw");
    received.extend([5, 3, 0, 1, 0, 0, 0, 0, 0, 0]);
    let (replies, progress) = socks_handshake(&users, &received);
    assert_eq!(replies, vec![5, 2, 1, 0]);
    assert!(matches!(
        progress,
        SocksProgress::Done(Handshake::Udp { auth_user: Some(name) }) if name == "alice"
    ));
    assert!(matches!(
        socks_handshake(&users, &[4, 1]).1,
        SocksProgress::Failed(SocksFailure::Version)
    ));
}

#[test]
fn http_connect_is_answered() {
    let request = b"CONNECT example.com:443 HTTP/1.1\r\nHost: example.com:443\r\n\r\n";
    match http_handshake(&Vec::new(), request).unwrap() {
        Handshake::Tcp { destination, reply, initial, auth_user } => {
            assert_eq!(destination, Destination::Domain("example.com".into(), 443));
            assert_eq!(
                reply.as_deref(),
                Some(&b"HTTP/1.1 200 Connection Established\r\n\r\n"[..])
            );
            assert!(initial.is_empty());
            assert_eq!(auth_user, None);
        }
        Handshake::Udp { .. } => panic!("a connection was expected"),
    }
}

#[test]
fn http_requests_are_rewritten() {
    let request = b"GET http://192.0.2.1:8080/path?q=1 HTTP/1.1\r\nHost: 192.0.2.1:8080\r\nProxy-Connection: keep-alive\r\nAccept: */*\r\n\r\n";
    match http_handshake(&Vec::new(), request).unwrap() {
        Handshake::Tcp { destination, reply, initial, .. } => {
            assert_eq!(
                destination,
                Destination::Ip(parse_ip("192.0.2.1").unwrap(), 8080)
            );
            assert_eq!(reply, None);
            let head = String::from_utf8(initial).unwrap();
            assert!(head.starts_with("GET /path?q=1 HTTP/1.1\r\n"));
            assert!(head.contains("Accept: */*\r\n"));
            assert!(!head.contains("Proxy-Connection"));
            assert!(head.ends_with("\r\n\r\n"));
        }
        Handshake::Udp { .. } => panic!("a connection was expected"),
    }
}

#[test]
fn http_users_are_asked_for_their_password() {
    let users = vec![user("alice", "pw")];
    let refused = http_handshake(&users, b"CONNECT a.example:1 HTTP/1.1\r\n\r\n").unwrap_err();
    assert_eq!(refused, HttpFailure::Unauthenticated);
    let reply = String::from_utf8(failure_reply(refused).unwrap()).unwrap();
    assert!(reply.starts_with("HTTP/1.1 407 "));
    assert_eq!(failure_reply(HttpFailure::NoLine), None);
    let request =
        b"CONNECT a.example:1 HTTP/1.1\r\nProxy-Authorization: Basic YWxpY2U6cHc=\r\n\r\n";
    match http_handshake(&users, request).unwrap() {
        Handshake::Tcp { auth_user, .. } => assert_eq!(auth_user.as_deref(), Some("alice")),
        Handshake::Udp { .. } => panic!("a connection was expected"),
    }
}

#[test]
fn faults_of_http_requests_are_told_apart() {
    let fault = |b: &[u8]| http_handshake(&Vec::new(), b).unwrap_err();
    assert_eq!(fault(&[0xff]), HttpFailure::NotText);
    assert_eq!(fault(b"GET\r\n\r\n"), HttpFailure::NoTarget);
    assert_eq!(fault(b"GET /\r\n\r\n"), HttpFailure::NoVersion);
    assert_eq!(fault(b"GET / HTTP/1.1\r\n\r\n"), HttpFailure::NotAbsolute);
    assert_eq!(
        fault(b"CONNECT a[b HTTP/1.1\r\n\r\n"),
        HttpFailure::Authority
    );
    assert_eq!(read_head(b"GET / HTTP/1.1\r\n"), HeadProgress::More);
    assert_eq!(read_head(b"GET / HTTP/1.1\r\n\r\n"), HeadProgress::Complete);
    assert_eq!(read_head(&vec![b'a'; 70_000]), HeadProgress::TooLarge);
}

#[test]
fn inbounds_are_told_by_their_kind() {
    assert_eq!(inbound_kind("mixed"), Some(InboundKind::Mixed));
    assert_eq!(inbound_kind("tun"), None);
    assert_eq!(connection_kind(InboundKind::Mixed, 5), InboundKind::Socks);
    assert_eq!(connection_kind(InboundKind::Mixed, b'G'), InboundKind::Http);
    let mut inbound = Inbound {
        kind: "tun".into(),
        ..Default::default()
    };
    assert_eq!(
        proxy_settings(&inbound).unwrap_err(),
        ProxyInboundError::UnsupportedKind
    );
    inbound.kind = "socks".into();
    assert_eq!(proxy_settings(&inbound).unwrap_err(), ProxyInboundError::NoPort);
    inbound.listen_port = Some(1080);
    let settings = proxy_settings(&inbound).unwrap();
    assert_eq!(settings.kind, InboundKind::Socks);
    assert!(settings.listen.ends_with(":1080"));
}
