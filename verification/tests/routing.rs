use xhttp::linux_route::LinuxMetadataScope;
use xhttp::net::{IpNet, parse_ip, parse_net, parse_net_or_ip};
use xhttp::routing::compile::{RouteError, parse_ports};
use xhttp::routing::matching::{CompiledRule, PortRange, RouteContext, is_private};
use xhttp::routing::options::{RouteDecision, RouteOptions, RuleAction};
use xhttp::routing::remote::{
    SetBytes, SetBytesError, choose_set_bytes, kept_tag, refresh_copy,
};
use xhttp::routing::router::{
    LoadedSet, Router, SetFormat, SetOrigin, load_rule_set_ip_cidrs, rule_set_format,
    rule_set_origin,
};
use xhttp::singbox::{NamedTexts, RouteConfig, RouteRule, RuleSetConfig};

fn texts(list: &[&str]) -> Vec<String> {
    list.iter().map(|s| s.to_string()).collect()
}

fn outbound(tag: &str) -> RouteDecision {
    RouteDecision::Outbound(tag.to_string())
}

#[test]
fn first_matching_rule_wins() {
    let c = RouteConfig {
        rules: vec![RouteRule {
            domain_suffix: vec!["example.com".into()],
            outbound: Some("proxy".into()),
            ..Default::default()
        }],
        final_outbound: Some("direct".into()),
        ..Default::default()
    };
    let r = Router::compile(&c, "direct").unwrap();
    assert_eq!(
        r.route(&RouteContext {
            domain: Some("WWW.Example.Com."),
            ..Default::default()
        }),
        RouteDecision::Outbound("proxy".into())
    );
    assert_eq!(
        r.route(&RouteContext {
            domain: Some("example.net"),
            ..Default::default()
        }),
        RouteDecision::Outbound("direct".into())
    );
}

#[test]
fn regex_private_and_invert_rules() {
    let config = RouteConfig {
        rules: vec![RouteRule {
            domain_regex: vec![r"^api\d+\.example$".into()],
            source_ip_is_private: true,
            invert: false,
            outbound: Some("proxy".into()),
            ..Default::default()
        }],
        final_outbound: Some("direct".into()),
        ..Default::default()
    };
    let router = Router::compile(&config, "direct").unwrap();
    assert_eq!(
        router.route(&RouteContext {
            domain: Some("api12.example"),
            source_ip: Some(parse_ip("192.168.1.2").unwrap()),
            ..Default::default()
        }),
        RouteDecision::Outbound("proxy".into())
    );
    assert_eq!(
        router.route(&RouteContext {
            domain: Some("www.example"),
            source_ip: Some(parse_ip("192.168.1.2").unwrap()),
            ..Default::default()
        }),
        RouteDecision::Outbound("direct".into())
    );
}

#[test]
fn inline_rule_set_is_used_by_route_rule() {
    let config = RouteConfig {
        rule_set: vec![RuleSetConfig {
            kind: "inline".into(),
            tag: "ads".into(),
            rules: vec![RouteRule {
                domain_suffix: vec!["ads.example".into()],
                ..Default::default()
            }],
            ..Default::default()
        }],
        rules: vec![RouteRule {
            rule_set: vec!["ads".into()],
            action: Some("reject".into()),
            ..Default::default()
        }],
        final_outbound: Some("direct".into()),
        ..Default::default()
    };
    let router = Router::compile(&config, "direct").unwrap();
    assert_eq!(
        router.route(&RouteContext {
            domain: Some("img.ads.example"),
            ..Default::default()
        }),
        RouteDecision::Reject
    );
    assert_eq!(
        router.route(&RouteContext {
            domain: Some("example.com"),
            ..Default::default()
        }),
        RouteDecision::Outbound("direct".into())
    );
}

#[test]
fn tun_route_rule_set_extracts_only_destination_cidrs() {
    let config = RouteConfig {
        rule_set: vec![RuleSetConfig {
            kind: "inline".into(),
            tag: "router".into(),
            rules: vec![RouteRule {
                ip_cidr: vec!["192.0.2.0/24".into()],
                source_ip_cidr: vec!["10.0.0.0/8".into()],
                ..Default::default()
            }],
            ..Default::default()
        }],
        ..Default::default()
    };
    let cidrs = load_rule_set_ip_cidrs(&config, &vec!["router".into()], &Vec::new()).unwrap();
    assert_eq!(cidrs, [parse_net("192.0.2.0/24").unwrap()]);
    assert!(load_rule_set_ip_cidrs(&config, &vec!["missing".into()], &Vec::new()).is_err());
}

#[test]
fn logical_and_or_and_linux_metadata_match() {
    let config = RouteConfig {
        rules: vec![RouteRule {
            kind: "logical".into(),
            mode: Some("and".into()),
            rules: vec![
                RouteRule {
                    process_name: vec!["curl".into()],
                    ..Default::default()
                },
                RouteRule {
                    kind: "logical".into(),
                    mode: Some("or".into()),
                    rules: vec![
                        RouteRule {
                            user_id: vec![1000],
                            ..Default::default()
                        },
                        RouteRule {
                            network_type: vec!["ethernet".into()],
                            ..Default::default()
                        },
                    ],
                    ..Default::default()
                },
            ],
            outbound: Some("proxy".into()),
            ..Default::default()
        }],
        final_outbound: Some("direct".into()),
        ..Default::default()
    };
    let router = Router::compile(&config, "direct").unwrap();
    assert_eq!(
        router.route(&RouteContext {
            process_name: Some("curl"),
            user_id: Some(1001),
            network_type: Some("ethernet"),
            ..Default::default()
        }),
        RouteDecision::Outbound("proxy".into())
    );
    assert_eq!(
        router.route(&RouteContext {
            process_name: Some("wget"),
            user_id: Some(1000),
            network_type: Some("ethernet"),
            ..Default::default()
        }),
        RouteDecision::Outbound("direct".into())
    );
}

#[test]
fn non_terminal_actions_continue_to_later_rules() {
    let config = RouteConfig {
        rules: vec![
            RouteRule {
                inbound: vec!["mixed-in".into()],
                action: Some("sniff".into()),
                sniffer: vec!["tls".into(), "http".into()],
                ..Default::default()
            },
            RouteRule {
                protocol: vec!["tls".into()],
                action: Some("route-options".into()),
                override_port: Some(8443),
                ..Default::default()
            },
            RouteRule {
                protocol: vec!["tls".into()],
                outbound: Some("proxy".into()),
                ..Default::default()
            },
        ],
        final_outbound: Some("direct".into()),
        ..Default::default()
    };
    let router = Router::compile(&config, "direct").unwrap();
    let context = RouteContext {
        inbound: Some("mixed-in"),
        protocol: Some("tls"),
        ..Default::default()
    };
    assert!(matches!(
        router.next_action(&context, 0),
        Some((0, RuleAction::Sniff { .. }))
    ));
    assert!(matches!(
        router.next_action(&context, 1),
        Some((1, RuleAction::RouteOptions(_)))
    ));
    assert_eq!(
        router.route(&context),
        RouteDecision::Outbound("proxy".into())
    );
}

#[test]
fn package_rules_do_not_match_process_names() {
    let config = RouteConfig {
        rules: vec![RouteRule {
            package_name: vec!["curl".into()],
            outbound: Some("proxy".into()),
            ..Default::default()
        }],
        final_outbound: Some("direct".into()),
        ..Default::default()
    };
    let router = Router::compile(&config, "direct").unwrap();
    assert_eq!(
        router.route(&RouteContext {
            process_name: Some("curl"),
            ..Default::default()
        }),
        RouteDecision::Outbound("direct".into())
    );
    assert_eq!(
        router.route(&RouteContext {
            package_name: Some("curl"),
            ..Default::default()
        }),
        RouteDecision::Outbound("proxy".into())
    );
}

#[test]
fn resolve_carries_cache_ttl_and_client_subnet_options() {
    let config = RouteConfig {
        rules: vec![RouteRule {
            action: Some("resolve".into()),
            rewrite_ttl: Some(60),
            client_subnet: Some("192.0.2.0/24".into()),
            ..Default::default()
        }],
        ..Default::default()
    };
    let router = Router::compile(&config, "direct").unwrap();
    assert!(matches!(
        router.next_action(&RouteContext::default(), 0),
        Some((
            0,
            RuleAction::Resolve {
                rewrite_ttl: Some(60),
                client_subnet: Some(subnet),
                ..
            }
        )) if subnet == "192.0.2.0/24"
    ));
}

#[test]
fn route_defaults_become_direct_dial_options() {
    let config = RouteConfig {
        default_interface: Some("eth0".into()),
        default_mark: Some(123),
        default_network_strategy: Some("prefer_ipv6".into()),
        default_fallback_delay: Some("150ms".into()),
        ..Default::default()
    };
    let router = Router::compile(&config, "direct").unwrap();
    let options = router.default_options();
    assert_eq!(options.bind_interface.as_deref(), Some("eth0"));
    assert_eq!(options.routing_mark, Some(123));
    assert_eq!(options.network_strategy.as_deref(), Some("prefer_ipv6"));
    assert_eq!(options.fallback_delay.as_deref(), Some("150ms"));
}

#[test]
fn linux_metadata_scope_tracks_rule_fields() {
    let empty = Router::compile(&RouteConfig::default(), "direct").unwrap();
    assert!(empty.linux_metadata_scope().is_empty());

    let process = Router::compile(
        &RouteConfig {
            rules: vec![RouteRule {
                process_name: vec!["curl".into()],
                outbound: Some("proxy".into()),
                ..Default::default()
            }],
            ..Default::default()
        },
        "direct",
    )
    .unwrap();
    let scope = process.linux_metadata_scope();
    assert!(scope.process);
    assert!(!scope.user);
    assert!(!scope.interface);
    assert!(!scope.network);

    let user = Router::compile(
        &RouteConfig {
            rules: vec![RouteRule {
                user_id: vec![1000],
                outbound: Some("proxy".into()),
                ..Default::default()
            }],
            ..Default::default()
        },
        "direct",
    )
    .unwrap();
    let scope = user.linux_metadata_scope();
    assert!(scope.user);
    assert!(!scope.process);

    let network = Router::compile(
        &RouteConfig {
            rules: vec![RouteRule {
                network_type: vec!["wifi".into()],
                outbound: Some("proxy".into()),
                ..Default::default()
            }],
            ..Default::default()
        },
        "direct",
    )
    .unwrap();
    let scope = network.linux_metadata_scope();
    assert!(scope.network);
    assert!(!scope.process);
    assert!(!scope.interface);

    let interface = Router::compile(
        &RouteConfig {
            rules: vec![RouteRule {
                interface_address: vec![NamedTexts {
                    name: "eth0".into(),
                    values: vec!["10.0.0.0/24".into()],
                }],
                outbound: Some("proxy".into()),
                ..Default::default()
            }],
            ..Default::default()
        },
        "direct",
    )
    .unwrap();
    let scope = interface.linux_metadata_scope();
    assert!(scope.interface);
    assert!(!scope.process);
    assert!(!scope.network);

    let logical = Router::compile(
        &RouteConfig {
            rules: vec![RouteRule {
                kind: "logical".into(),
                mode: Some("and".into()),
                rules: vec![RouteRule {
                    source_mac_address: vec!["aa:bb".into()],
                    ..Default::default()
                }],
                outbound: Some("proxy".into()),
                ..Default::default()
            }],
            ..Default::default()
        },
        "direct",
    )
    .unwrap();
    let scope = logical.linux_metadata_scope();
    assert!(scope.mac);
    assert!(!scope.process);
    assert!(!scope.network);
}

#[test]
fn scope_is_empty_only_when_all_flags_are_clear() {
    assert!(LinuxMetadataScope::default().is_empty());
    assert!(
        !LinuxMetadataScope {
            process: true,
            ..Default::default()
        }
        .is_empty()
    );
    assert!(
        !LinuxMetadataScope {
            hostname: true,
            ..Default::default()
        }
        .is_empty()
    );
}

#[test]
fn scope_union_or_combines_flags() {
    let process = LinuxMetadataScope {
        process: true,
        ..Default::default()
    };
    let network = LinuxMetadataScope {
        network: true,
        ..Default::default()
    };
    let combined = process.union(network);
    assert!(combined.process);
    assert!(combined.network);
    assert!(!combined.user);
    assert!(!combined.interface);
    assert!(!combined.mac);
    assert!(!combined.hostname);

    let mac_hostname = LinuxMetadataScope {
        mac: true,
        hostname: true,
        ..Default::default()
    };
    let merged = combined.union(mac_hostname);
    assert!(merged.process && merged.network && merged.mac && merged.hostname);
    assert!(!merged.user);

    let empty = LinuxMetadataScope::default();
    assert_eq!(combined.union(empty), combined);
    assert_eq!(empty.union(mac_hostname), mac_hostname);
}

#[test]
fn scope_union_is_idempotent() {
    let scope = LinuxMetadataScope {
        process: true,
        user: true,
        interface: true,
        network: true,
        mac: true,
        hostname: true,
    };
    assert_eq!(scope.union(scope), scope);
}

fn failure(rule: RouteRule) -> RouteError {
    CompiledRule::compile(&rule, &Vec::new(), true).unwrap_err()
}

#[test]
fn each_fault_of_a_rule_has_its_error() {
    let base = || RouteRule {
        outbound: Some("proxy".into()),
        ..Default::default()
    };
    assert_eq!(
        failure(RouteRule { geosite: texts(&["cn"]), ..base() }),
        RouteError::LegacyDatabase
    );
    assert_eq!(
        failure(RouteRule { preferred_by: texts(&["x"]), ..base() }),
        RouteError::PreferredBy
    );
    assert_eq!(
        failure(RouteRule { network_is_constrained: true, ..base() }),
        RouteError::Constrained
    );
    assert_eq!(
        failure(RouteRule {
            kind: "logical".into(),
            mode: Some("xor".into()),
            rules: vec![RouteRule::default()],
            ..base()
        }),
        RouteError::LogicalMode
    );
    assert_eq!(
        failure(RouteRule { kind: "other".into(), ..base() }),
        RouteError::RuleType
    );
    assert_eq!(
        failure(RouteRule {
            kind: "logical".into(),
            mode: Some("and".into()),
            ..base()
        }),
        RouteError::LogicalEmpty
    );
    assert_eq!(
        failure(RouteRule { domain_regex: texts(&["("]), ..base() }),
        RouteError::InvalidRegex
    );
    assert_eq!(
        failure(RouteRule { ip_cidr: texts(&["10.0.0.0/99"]), ..base() }),
        RouteError::InvalidCidr
    );
    assert_eq!(
        failure(RouteRule { port_range: texts(&["a:b"]), ..base() }),
        RouteError::InvalidPort
    );
    assert_eq!(
        failure(RouteRule { rule_set: texts(&["missing"]), ..base() }),
        RouteError::UnknownRuleSet
    );
    assert_eq!(failure(RouteRule::default()), RouteError::MissingOutbound);
    assert_eq!(
        failure(RouteRule { action: Some("teleport".into()), ..base() }),
        RouteError::UnsupportedAction
    );
}

#[test]
fn inverted_rules_match_what_they_did_not() {
    let mut config = RouteConfig {
        rules: vec![RouteRule {
            domain: texts(&["one.example"]),
            invert: true,
            outbound: Some("proxy".into()),
            ..Default::default()
        }],
        final_outbound: Some("direct".into()),
        ..Default::default()
    };
    let router = Router::compile(&config, "direct").unwrap();
    let at = |name: &'static str| RouteContext {
        domain: Some(name),
        ..Default::default()
    };
    assert_eq!(router.route(&at("one.example")), outbound("direct"));
    assert_eq!(router.route(&at("two.example")), outbound("proxy"));
    config.rules[0].invert = false;
    let router = Router::compile(&config, "direct").unwrap();
    assert_eq!(router.route(&at("one.example")), outbound("proxy"));
    assert_eq!(router.route(&at("two.example")), outbound("direct"));
}

#[test]
fn port_ranges_have_both_ends() {
    let ranges = parse_ports(&vec![80], &texts(&["1000:2000", "53"])).unwrap();
    assert_eq!(
        ranges,
        vec![
            PortRange { first: 80, last: 80 },
            PortRange { first: 1000, last: 2000 },
            PortRange { first: 53, last: 53 },
        ]
    );
    let router = Router::compile(
        &RouteConfig {
            rules: vec![RouteRule {
                port_range: texts(&["1000:2000"]),
                outbound: Some("proxy".into()),
                ..Default::default()
            }],
            ..Default::default()
        },
        "direct",
    )
    .unwrap();
    for (port, tag) in [(999, "direct"), (1000, "proxy"), (2000, "proxy"), (2001, "direct")] {
        assert_eq!(
            router.route(&RouteContext {
                destination_port: Some(port),
                ..Default::default()
            }),
            outbound(tag)
        );
    }
}

#[test]
fn private_addresses_are_known() {
    for private in ["10.0.0.1", "172.16.0.1", "192.168.0.1", "127.0.0.1", "169.254.1.1", "0.0.0.0", "::1", "::", "fc00::1", "fe80::1"] {
        assert!(is_private(parse_ip(private).unwrap()), "{private}");
    }
    for public in ["172.32.0.1", "1.1.1.1", "2001:db8::1", "fec0::1"] {
        assert!(!is_private(parse_ip(public).unwrap()), "{public}");
    }
}

#[test]
fn networks_are_read_and_tested() {
    let net = parse_net("192.0.2.128/25").unwrap();
    assert!(net.contains(&parse_ip("192.0.2.200").unwrap()));
    assert!(!net.contains(&parse_ip("192.0.2.127").unwrap()));
    assert!(!net.contains(&parse_ip("::1").unwrap()));
    assert_eq!(
        parse_net_or_ip("192.0.2.7"),
        Some(IpNet { address: parse_ip("192.0.2.7").unwrap(), prefix: 32 })
    );
    assert_eq!(parse_net_or_ip("2001:db8::1").unwrap().prefix, 128);
    assert_eq!(parse_net("192.0.2.0"), None);
    assert_eq!(parse_ip("192.0.2.300"), None);
    assert_eq!(parse_net("192.0.2.77/24").unwrap().network(), parse_ip("192.0.2.0").unwrap());
}

#[test]
fn newer_options_win() {
    let mut options = RouteOptions {
        override_port: Some(1),
        connect_timeout: Some("3s".into()),
        ..Default::default()
    };
    options.merge(&RouteOptions {
        override_port: Some(2),
        udp_connect: true,
        ..Default::default()
    });
    assert_eq!(options.override_port, Some(2));
    assert_eq!(options.connect_timeout.as_deref(), Some("3s"));
    assert!(options.udp_connect);
    let before = options.clone();
    options.merge(&RouteOptions::default());
    assert_eq!(options, before);
}

#[test]
fn rule_sets_come_from_where_they_say() {
    let local = RuleSetConfig {
        kind: "local".into(),
        tag: "a".into(),
        path: Some("/etc/a.srs".into()),
        ..Default::default()
    };
    assert_eq!(rule_set_format(&local, "/etc/a.srs"), Ok(SetFormat::Binary));
    assert_eq!(rule_set_format(&local, "/etc/a.json"), Ok(SetFormat::Source));
    assert_eq!(
        rule_set_format(&local, "https://x/a.srs?token=1"),
        Ok(SetFormat::Binary)
    );
    assert_eq!(
        rule_set_origin(&local, true),
        Ok(SetOrigin::File(SetFormat::Binary))
    );
    let remote = RuleSetConfig {
        kind: "remote".into(),
        tag: "b".into(),
        url: Some("https://x.example/b.json".into()),
        ..Default::default()
    };
    assert_eq!(
        rule_set_origin(&remote, true),
        Ok(SetOrigin::Remote(SetFormat::Source))
    );
    let unknown = RuleSetConfig {
        kind: "magic".into(),
        tag: "c".into(),
        ..Default::default()
    };
    assert_eq!(
        rule_set_origin(&unknown, true),
        Err(RouteError::UnsupportedSetType)
    );
    let nowhere = RuleSetConfig {
        kind: "local".into(),
        tag: "d".into(),
        ..Default::default()
    };
    assert_eq!(rule_set_origin(&nowhere, true), Err(RouteError::MissingPath));
}

#[test]
fn loaded_sets_are_used_and_missed() {
    let config = RouteConfig {
        rule_set: vec![RuleSetConfig {
            kind: "local".into(),
            tag: "ads".into(),
            path: Some("/etc/ads.json".into()),
            ..Default::default()
        }],
        rules: vec![RouteRule {
            rule_set: texts(&["ads"]),
            outbound: Some("block".into()),
            ..Default::default()
        }],
        ..Default::default()
    };
    let loaded = vec![LoadedSet {
        tag: "ads".into(),
        rules: vec![RouteRule {
            domain_keyword: texts(&["advert"]),
            ..Default::default()
        }],
    }];
    let router = Router::compile_runtime(&config, "direct", &loaded).unwrap();
    assert_eq!(
        router.route(&RouteContext {
            domain: Some("my-adverts.example"),
            ..Default::default()
        }),
        outbound("block")
    );
    assert_eq!(
        Router::compile_runtime(&config, "direct", &Vec::new()).unwrap_err(),
        RouteError::NotLoaded
    );
}

#[test]
fn the_default_outbound_can_be_changed() {
    let mut router = Router::compile(&RouteConfig::default(), "direct").unwrap();
    assert_eq!(router.final_outbound(), "direct");
    router.set_final_outbound("proxy");
    assert_eq!(router.final_outbound(), "proxy");
    assert_eq!(router.route(&RouteContext::default()), outbound("proxy"));
}

#[test]
fn kept_copies_stand_in_for_downloads() {
    assert_eq!(
        choose_set_bytes(Some(vec![1]), Some(vec![2])),
        Ok(SetBytes::Fresh(vec![1]))
    );
    assert_eq!(
        choose_set_bytes(None, Some(vec![2])),
        Ok(SetBytes::Stale(vec![2]))
    );
    assert_eq!(
        choose_set_bytes(None, None),
        Err(SetBytesError::Unavailable)
    );
    assert_eq!(
        choose_set_bytes(Some(vec![0; 64 * 1024 * 1024 + 1]), Some(vec![2])),
        Err(SetBytesError::TooLarge)
    );
    assert_eq!(kept_tag(b" \"v1\"\n").as_deref(), Some("\"v1\""));
    assert_eq!(kept_tag(b" \n"), None);
    assert_eq!(kept_tag(b"v\xff").as_deref(), Some("v\u{fffd}"));
    let same = refresh_copy(Vec::new(), Some("v1".into()), true, Some(vec![7]));
    assert_eq!(same.data, Some(vec![7]));
    assert!(!same.write_copy);
    assert_eq!(same.write_tag, None);
    let newer = refresh_copy(vec![8], Some("v2".into()), false, Some(vec![7]));
    assert_eq!(newer.data, Some(vec![8]));
    assert!(newer.write_copy);
    assert_eq!(newer.write_tag.as_deref(), Some("v2"));
}

#[test]
fn updated_rules_keep_the_default_outbound() {
    let mut router = Router::compile(&RouteConfig::default(), "direct").unwrap();
    router.set_final_outbound("chosen");
    let updated = Router::compile(
        &RouteConfig {
            rules: vec![RouteRule {
                domain: texts(&["one.example"]),
                outbound: Some("proxy".into()),
                ..Default::default()
            }],
            ..Default::default()
        },
        "direct",
    )
    .unwrap();
    router.replace_from(updated);
    assert_eq!(router.final_outbound(), "chosen");
    assert_eq!(
        router.route(&RouteContext {
            domain: Some("one.example"),
            ..Default::default()
        }),
        outbound("proxy")
    );
}

#[test]
fn networks_of_sets_are_ordered_as_texts() {
    let config = RouteConfig {
        rule_set: vec![RuleSetConfig {
            kind: "inline".into(),
            tag: "nets".into(),
            rules: vec![
                RouteRule {
                    ip_cidr: texts(&["9.0.0.0/8", "10.0.0.0/8", "2001:db8::/32"]),
                    ..Default::default()
                },
                RouteRule {
                    ip_cidr: texts(&["10.0.0.0/8"]),
                    ..Default::default()
                },
                RouteRule {
                    ip_cidr: texts(&["11.0.0.0/8"]),
                    invert: true,
                    ..Default::default()
                },
            ],
            ..Default::default()
        }],
        ..Default::default()
    };
    let router = Router::compile(&config, "direct").unwrap();
    let nets = router.rule_set_ip_cidrs(&texts(&["nets"])).unwrap();
    let expected: Vec<IpNet> = ["10.0.0.0/8", "2001:db8::/32", "9.0.0.0/8"]
        .iter()
        .map(|s| parse_net(s).unwrap())
        .collect();
    assert_eq!(nets, expected);
}
