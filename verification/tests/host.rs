use axum::http::HeaderMap;
use std::io::Write;
use xhttp::clash::{
    ArchiveError, EntryPlace, ProxyEntry, Unpacked, Update, answered_without_fields, archive_path,
    authenticated, dashboard_url, effective_secret, entry_place, get_proxies, get_proxy,
    patch_configs, patched_mode, put_proxy, shown_mode, unpack, update_proxy,
};
use xhttp::config::TransportConfig;
use xhttp::linux_route::{
    HostFacts, LinuxMetadataScope, ProcessEntry, all_interface_addresses, arp_value, collect_tcp,
    default_interface, find_inode_process, find_socket_owner, hosts_name, interface_type, is_fresh,
    user_name, wifi_station,
};
use xhttp::net::parse_ip;
use xhttp::program::{
    InboundTask, ServerError, inbound_task, log_level, log_timestamp, pem, runs_anything, server_config,
    server_tls,
};
use xhttp::proxy::group::Outbounds;
use xhttp::proxy::relay::DialerKind;
use xhttp::proxy::runtime::{
    DetourError, OutboundError, build_runtime, clash_type, client_tls, default_outbound,
    detect_interface, detour_dialer, outbound_tag, plan_probe, prefetch_detour, prefetch_url,
    update_interval, vless_plan, vless_user,
};
use xhttp::routing::router::Router;
use xhttp::singbox::{
    ClashApiConfig, EchConfig, HttpClientConfig, Inbound, LogConfig, Outbound, RouteConfig, RuleSetConfig,
    TlsConfig, User,
};
use xhttp::time::Duration;

fn texts(list: &[&str]) -> Vec<String> {
    list.iter().map(|s| s.to_string()).collect()
}

fn selector_runtime() -> Outbounds {
    let outbounds = vec![
        Outbound {
            kind: "direct".into(),
            tag: Some("direct".into()),
            ..Default::default()
        },
        Outbound {
            kind: "selector".into(),
            tag: Some("proxy".into()),
            outbounds: texts(&["direct"]),
            default: Some("direct".into()),
            ..Default::default()
        },
    ];
    build_runtime(&outbounds, &vec![None, None]).unwrap()
}

#[test]
fn clash_api_exposes_groups_and_switches_nodes() {
    let mut runtime = selector_runtime();
    let entries = get_proxies(&runtime);
    match &entries[0] {
        ProxyEntry::Group { kind, name, now, all } => {
            assert_eq!(*kind, "Selector");
            assert_eq!(name, "GLOBAL");
            assert_eq!(now, "proxy");
            assert!(all.iter().any(|t| t == "proxy"));
        }
        ProxyEntry::Leaf { .. } => panic!("a group was expected"),
    }
    match get_proxy(&runtime, "proxy").unwrap() {
        ProxyEntry::Group { kind, now, all, .. } => {
            assert_eq!(kind, "Selector");
            assert_eq!(now, "direct");
            assert!(all.contains(&"direct".to_string()));
        }
        ProxyEntry::Leaf { .. } => panic!("a group was expected"),
    }
    assert!(matches!(
        get_proxy(&runtime, "direct"),
        Some(ProxyEntry::Leaf { kind: "Direct", .. })
    ));
    assert!(get_proxy(&runtime, "nowhere").is_none());
    let mut router = Router::compile(&RouteConfig::default(), "direct").unwrap();
    assert_eq!(
        put_proxy(&mut runtime, &mut router, "GLOBAL", br#"{"name":"proxy"}"#),
        Update::Default
    );
    assert_eq!(router.final_outbound(), "proxy");
    assert_eq!(
        put_proxy(&mut runtime, &mut router, "proxy", br#"{"name":"direct"}"#),
        Update::Selected
    );
    assert_eq!(router.final_outbound(), "proxy");
    for body in ["", "name", "{}", r#"{"name":7}"#, r#"["name"]"#, r#"{"name":"other"}"#] {
        for name in ["GLOBAL", "proxy"] {
            assert_eq!(
                put_proxy(&mut runtime, &mut router, name, body.as_bytes()),
                Update::Refused
            );
        }
    }
    assert_eq!(router.final_outbound(), "proxy");
    assert_eq!(update_proxy(&mut runtime, "GLOBAL", "proxy"), Update::Default);
    assert_eq!(update_proxy(&mut runtime, "proxy", "direct"), Update::Selected);
    assert_eq!(update_proxy(&mut runtime, "proxy", "other"), Update::Refused);
    assert_eq!(update_proxy(&mut runtime, "GLOBAL", "other"), Update::Refused);
}

#[test]
fn clash_api_configs_read_and_write_mode() {
    assert_eq!(shown_mode(&None), "rule");
    let mode = patch_configs(br#"{"mode":"global"}"#).unwrap();
    assert_eq!(shown_mode(&mode), "global");
    assert_eq!(patch_configs(b"mode=global"), None);
    assert_eq!(patch_configs(br#"{"mode":"global""#), None);
    assert_eq!(patch_configs(br#"{"mode":"sideways"}"#), Some(None));
    assert_eq!(patch_configs(br#"{"mode":1,"other":"global"}"#), Some(None));
    assert_eq!(patch_configs(b"[]"), Some(None));
    assert_eq!(patched_mode(Some("global")).as_deref(), Some("global"));
    assert_eq!(patched_mode(Some("sideways")), None);
    assert_eq!(patched_mode(None), None);
}

#[test]
fn the_secret_is_asked_for() {
    let mut config = ClashApiConfig {
        secret: Some(String::new()),
        ..Default::default()
    };
    assert_eq!(effective_secret(&config), None);
    config.secret = Some("s3".into());
    let secret = effective_secret(&config);
    assert_eq!(secret, Some("s3"));
    let mut headers = HeaderMap::new();
    assert!(authenticated(&headers, None));
    assert!(!authenticated(&headers, secret));
    headers.insert("authorization", "Bearer s3".parse().unwrap());
    assert!(authenticated(&headers, secret));
    headers.insert("authorization", "Bearer s4".parse().unwrap());
    assert!(!authenticated(&headers, secret));
    assert!(answered_without_fields(None));
    assert!(!answered_without_fields(secret));
    assert!(dashboard_url(&config).starts_with("https://github.com/"));
    assert_eq!(archive_path("ui-main/").as_deref(), None);
    assert_eq!(
        archive_path("ui-main/assets/app.js").as_deref(),
        Some("assets/app.js")
    );
}

#[test]
fn the_dashboard_is_unpacked_without_the_directory_that_holds_it() {
    let mut writer = zip::ZipWriter::new(std::io::Cursor::new(Vec::new()));
    let options = zip::write::SimpleFileOptions::default();
    writer.add_directory("ui-main/", options).unwrap();
    writer.add_directory("ui-main/assets/", options).unwrap();
    writer.start_file("ui-main/assets/app.js", options).unwrap();
    writer.write_all(b"let a = 1;").unwrap();
    writer.start_file("beside.txt", options).unwrap();
    writer.write_all(b"nothing").unwrap();
    let bytes = writer.finish().unwrap().into_inner();
    let (items, fault) = unpack(&bytes);
    assert_eq!(fault, None);
    assert_eq!(
        items,
        vec![
            Unpacked { path: "assets/".into(), contents: None },
            Unpacked { path: "assets/app.js".into(), contents: Some(b"let a = 1;".to_vec()) },
        ]
    );
    let (items, fault) = unpack(b"no archive");
    assert!(items.is_empty());
    assert_eq!(fault, Some(ArchiveError::Archive));
    assert_eq!(entry_place("ui-main/"), EntryPlace::Nowhere);
    assert_eq!(entry_place("beside.txt"), EntryPlace::Nowhere);
    assert_eq!(entry_place("ui-main/assets/"), EntryPlace::Directory("assets/".into()));
    assert_eq!(entry_place("ui-main/a/b.js"), EntryPlace::File("a/b.js".into()));
}

#[test]
fn broken_entries_of_an_archive_end_the_unpacking() {
    let mut writer = zip::ZipWriter::new(std::io::Cursor::new(Vec::new()));
    let options = zip::write::SimpleFileOptions::default()
        .compression_method(zip::CompressionMethod::Stored);
    writer.start_file("ui/one", options).unwrap();
    writer.write_all(b"first of them").unwrap();
    writer.start_file("ui/two", options).unwrap();
    writer.write_all(b"second of them").unwrap();
    let bytes = writer.finish().unwrap().into_inner();
    let place = |part: &[u8]| {
        bytes
            .windows(part.len())
            .position(|window| window == part)
            .unwrap()
    };
    let mut spoiled = bytes.clone();
    spoiled[place(b"second of them")] = b'S';
    let (items, fault) = unpack(&spoiled);
    assert_eq!(items.len(), 1);
    assert_eq!(items[0].contents.as_deref(), Some(b"first of them".as_slice()));
    assert_eq!(fault, Some(ArchiveError::Contents));
    // The local head of the second entry stands in front of its name.
    let mut headless = bytes.clone();
    headless[place(b"ui/two") - 30] = 0;
    let (items, fault) = unpack(&headless);
    assert_eq!(items.len(), 1);
    assert_eq!(fault, Some(ArchiveError::Entry));
}

#[test]
fn each_tag_is_listed_once() {
    let outbound = |kind: &str, tag: &str| Outbound {
        kind: kind.into(),
        tag: Some(tag.into()),
        outbounds: texts(&["direct"]),
        ..Default::default()
    };
    let outbounds = vec![
        outbound("direct", "a"),
        outbound("selector", "g"),
        outbound("block", "a"),
        outbound("urltest", "g"),
        outbound("selector", "a"),
    ];
    let built = build_runtime(&outbounds, &vec![None; 5]).unwrap();
    assert_eq!(built.outbound_tags(), texts(&["g", "a", "direct"]));
    assert_eq!(get_proxies(&built).len(), 4);
}

#[test]
fn outbounds_are_built_or_refused() {
    let fault = |outbound: Outbound| build_runtime(&vec![outbound], &vec![None]).unwrap_err();
    assert_eq!(
        fault(Outbound { kind: "carrier".into(), ..Default::default() }),
        OutboundError::UnsupportedKind
    );
    assert_eq!(
        fault(Outbound { kind: "selector".into(), ..Default::default() }),
        OutboundError::NoDefaultMember
    );
    assert_eq!(
        fault(Outbound { kind: "vless".into(), ..Default::default() }),
        OutboundError::NoTransport
    );
    let vless = Outbound {
        kind: "vless".into(),
        server: Some("proxy.example".into()),
        server_port: Some(8443),
        uuid: Some("id".into()),
        tls: Some(TlsConfig { enabled: true, ..Default::default() }),
        ..Default::default()
    };
    assert_eq!(outbound_tag(&vless), "vless");
    assert_eq!(default_outbound(&vec![vless]), "vless");
    assert_eq!(default_outbound(&Vec::new()), "direct");
    let vless = Outbound {
        kind: "vless".into(),
        server: Some("proxy.example".into()),
        server_port: Some(8443),
        uuid: Some("id".into()),
        tls: Some(TlsConfig { enabled: true, ..Default::default() }),
        ..Default::default()
    };
    let plan = vless_plan(&vless, Some("/xhttp")).unwrap();
    assert_eq!(plan.url, "https://proxy.example:8443/xhttp");
    assert_eq!(plan.port, 8443);
    assert!(!plan.resolve);
    assert_eq!(vless_user(&vless), Ok(("id".into(), true)));
    let mut hidden = Outbound {
        kind: "vless".into(),
        server: Some("proxy.example".into()),
        tls: Some(TlsConfig {
            enabled: true,
            ech: Some(EchConfig {
                enabled: true,
                ..Default::default()
            }),
            ..Default::default()
        }),
        ..Default::default()
    };
    assert_eq!(
        vless_plan(&hidden, Some("/xhttp")).unwrap_err(),
        OutboundError::EchLookup
    );
    hidden.tls.as_mut().unwrap().ech.as_mut().unwrap().config_path = Some("/ech.pem".into());
    assert!(vless_plan(&hidden, Some("/xhttp")).is_ok());
    assert_eq!(clash_type(DialerKind::AnyTls), "AnyTLS");
    let runtime = selector_runtime();
    assert_eq!(detour_dialer(&runtime, "proxy"), Ok(DialerKind::Direct));
    assert_eq!(detour_dialer(&runtime, "nowhere"), Err(DetourError::Unknown));
}

#[test]
fn settings_of_tls_are_handed_on() {
    let tls = TlsConfig {
        enabled: true,
        insecure: true,
        alpn: texts(&["h3"]),
        certificate: texts(&["a", "b"]),
        ..Default::default()
    };
    let client = client_tls(&tls);
    assert!(client.insecure);
    assert!(client.http3);
    assert_eq!(client.ech_config_bytes, None);
    assert_eq!(client.ca_pem.as_deref(), Some("a\nb"));
    let server = server_tls(&Some(tls)).unwrap();
    assert!(server.http3);
    assert_eq!(server.certificate, "a\nb\n");
    assert_eq!(server_tls(&None), None);
    assert_eq!(pem(&texts(&["x\n"])), "x\n");
    assert_eq!(pem(&Vec::new()), "\n");
}

#[test]
fn probes_and_updates_are_planned() {
    let probe = plan_probe("http://www.gstatic.com/generate_204").unwrap();
    assert_eq!(probe.host, "www.gstatic.com");
    assert_eq!(probe.port, 80);
    assert!(probe.request.contains("/generate_204 HTTP/1.1\r\n"));
    assert!(plan_probe("nonsense").is_none());
    let remote = |interval: Option<&str>| RuleSetConfig {
        kind: "remote".into(),
        tag: "a".into(),
        url: Some("https://x.example/a.srs".into()),
        update_interval: interval.map(|s| s.to_string()),
        ..Default::default()
    };
    assert_eq!(
        update_interval(&vec![remote(Some("2h")), remote(Some("1h"))]),
        Some(Duration::from_secs(3600))
    );
    assert_eq!(update_interval(&Vec::new()), None);
    assert_eq!(
        prefetch_url(&remote(None)).as_deref(),
        Some("https://x.example/a.srs")
    );
    let mut route = RouteConfig {
        default_http_client: Some("dl".into()),
        auto_detect_interface: Some(true),
        ..Default::default()
    };
    let clients = vec![HttpClientConfig {
        tag: "dl".into(),
        detour: Some("proxy".into()),
    }];
    assert_eq!(prefetch_detour(&route, &clients).as_deref(), Some("proxy"));
    detect_interface(&mut route, Some("eth0".into()));
    assert_eq!(route.default_interface.as_deref(), Some("eth0"));
}

#[test]
fn inbounds_are_dispatched() {
    let inbound = |kind: &str, transport: Option<&str>| Inbound {
        kind: kind.into(),
        transport: transport.map(|s| s.to_string()),
        ..Default::default()
    };
    for (kind, transport, task) in [
        ("tun", None, InboundTask::Tun),
        ("socks", None, InboundTask::Proxy),
        ("http", None, InboundTask::Proxy),
        ("mixed", None, InboundTask::Proxy),
        ("anytls", None, InboundTask::AnyTls),
        ("vless", Some("xhttp"), InboundTask::Xhttp),
        ("vless", None, InboundTask::Nothing),
        ("other", Some("xhttp"), InboundTask::Nothing),
    ] {
        assert_eq!(inbound_task(&inbound(kind, transport)), task);
    }
    assert!(!runs_anything(&vec![inbound("other", None)], false));
    assert!(runs_anything(&vec![inbound("tun", None)], false));
    assert!(runs_anything(&Vec::new(), true));
    let mut xhttp = inbound("vless", Some("xhttp"));
    assert_eq!(
        server_config(&xhttp, TransportConfig::default()).unwrap_err(),
        ServerError::NoListenPort
    );
    xhttp.listen_port = Some(443);
    xhttp.users = vec![
        User { uuid: Some("one".into()), ..Default::default() },
        User::default(),
        User { uuid: Some("two".into()), ..Default::default() },
    ];
    let server = server_config(&xhttp, TransportConfig::default()).unwrap();
    assert_eq!(server.listen, "[::]:443");
    assert_eq!(server.users, texts(&["one", "two"]));
    assert!(server.tls.is_none());
    xhttp.tls = Some(TlsConfig {
        enabled: true,
        ech: Some(EchConfig {
            enabled: true,
            ..Default::default()
        }),
        ..Default::default()
    });
    assert_eq!(
        server_config(&xhttp, TransportConfig::default()).unwrap_err(),
        ServerError::Ech
    );
}

#[test]
fn logs_follow_the_settings() {
    assert_eq!(log_level(None), "info");
    let mut log = LogConfig {
        level: Some("debug".into()),
        ..Default::default()
    };
    assert_eq!(log_level(Some(&log)), "debug");
    assert!(log_timestamp(Some(&log)));
    log.disabled = true;
    log.timestamp = Some(false);
    assert_eq!(log_level(Some(&log)), "off");
    assert!(!log_timestamp(Some(&log)));
}

#[test]
fn sockets_are_traced_to_processes() {
    let table = "  sl  local_address rem_address   st tx_queue rx_queue tr tm->when retrnsmt   uid  timeout inode\n   0: 0100007F:C350 0100007F:0438 01 00000000:00000000 00:00000000 00000000  1000        0 4242 1\n";
    assert_eq!(
        find_socket_owner(&vec![table.to_string()], 50000, 1080),
        Some((4242, 1000))
    );
    assert_eq!(find_socket_owner(&vec![table.to_string()], 1, 1080), None);
    let entries = vec![
        ProcessEntry { name: "self".into(), links: Some(texts(&["socket:[4242]"])) },
        ProcessEntry { name: "12".into(), links: None },
        ProcessEntry { name: "99".into(), links: Some(texts(&["/dev/null", "socket:[4242]"])) },
    ];
    assert_eq!(find_inode_process(&entries, 4242), Some(99));
    assert_eq!(find_inode_process(&entries, 1), None);
    assert_eq!(
        user_name("root:x:0:0::/:/bin/sh\nbob:x:1000:1000::/:/bin/sh\n", 1000).as_deref(),
        Some("bob")
    );
}

#[test]
fn tables_of_the_host_are_read() {
    let route = "Iface\tDestination\tGateway\tFlags\tRefCnt\tUse\tMetric\neth0\t00000000\t0101A8C0\t3\t0\t0\t600\nwlan0\t00000000\t0101A8C0\t3\t0\t0\t100\neth0\t0001A8C0\t00000000\t1\t0\t0\t1\n";
    assert_eq!(default_interface(route).as_deref(), Some("wlan0"));
    assert_eq!(interface_type("wlan0", true), "wifi");
    assert_eq!(interface_type("eth0", false), "ethernet");
    let arp = "IP address       HW type     Flags       HW address            Mask     Device\n192.168.1.9      0x1         0x2         aa:bb:cc:dd:ee:ff     *        eth0\n";
    assert_eq!(
        arp_value(arp, parse_ip("192.168.1.9").unwrap(), 3).as_deref(),
        Some("aa:bb:cc:dd:ee:ff")
    );
    assert_eq!(
        hosts_name("127.0.0.1 localhost\n192.168.1.9 printer # attic\n", parse_ip("192.168.1.9").unwrap())
            .as_deref(),
        Some("printer")
    );
    let list = all_interface_addresses("1: lo    inet 127.0.0.1/8 scope host lo\n2: eth0    inet 10.0.0.5/24 brd 10.0.0.255\n");
    assert_eq!(list.len(), 2);
    assert!(wifi_station("Not connected.\n").is_none());
    assert!(is_fresh(Duration::from_millis(1)));
    assert!(!is_fresh(Duration::from_secs(3600)));
    let facts = HostFacts {
        addresses: None,
        wireless: Vec::new(),
        owner: Some((1, 1000)),
        users: Some("bob:x:1000:1000::/:/bin/sh\n".into()),
        process_name: None,
        process_path: None,
        default_interface: None,
        metered: None,
        ssid: None,
        link: None,
        neighbours: Some(arp.into()),
        hosts: None,
    };
    let scope = LinuxMetadataScope {
        user: true,
        mac: true,
        ..Default::default()
    };
    let found = collect_tcp(parse_ip("192.168.1.9").unwrap(), scope, &facts);
    assert_eq!(found.user.as_deref(), Some("bob"));
    assert_eq!(found.user_id, Some(1000));
    assert_eq!(found.source_mac_address.as_deref(), Some("aa:bb:cc:dd:ee:ff"));
    assert_eq!(found.process_name, None);
}
