use std::sync::Arc;
use xhttp::dns::answer::{age_response_ttls, parse_response, ttl_offsets};
use xhttp::dns::cache::{CacheKey, CacheValue, DnsCache, Flights};
use xhttp::dns::message::{
    DnsError, build_query, build_query_with_subnet, parse_question,
};
use xhttp::dns::resolver::{
    DnsResolver, ExchangePlan, Families, LookupOptions, LookupPlan, ResolverError, SetupError,
    answer_exchange, clamp_ttl, combine_lookups, finish_exchange, finish_local, finish_lookup,
    select_family, start_lookup,
};
use xhttp::dns::rules::{dns_rule_address_limit_matches, dns_rule_matches, validate_dns_rule};
use xhttp::dns::transport::{
    IdlePool, PendingIds, StreamAction, StreamEvent, StreamTries, Transport, Upstream,
    UpstreamError, frame, https_url, is_cut_short, renumber, unframe,
};
use xhttp::json::Value;
use xhttp::net::{IpAddr, parse_ip};
use xhttp::routing::compile::RuleSet;
use xhttp::routing::matching::CompiledRule;
use xhttp::singbox::{DnsConfig, DnsRule, DnsServer, RouteRule};
use xhttp::time::{Duration, InvalidDuration};

fn ip(s: &str) -> IpAddr {
    parse_ip(s).unwrap()
}

fn server(kind: &str, tag: &str) -> DnsServer {
    DnsServer {
        kind: kind.into(),
        tag: tag.into(),
        server: Some("127.0.0.1".into()),
        server_port: Some(1),
        ..Default::default()
    }
}

fn set(tag: &str, suffix: &str) -> RuleSet {
    let rule = CompiledRule::compile(
        &RouteRule {
            domain_suffix: vec![suffix.into()],
            ..Default::default()
        },
        &Vec::new(),
        false,
    )
    .unwrap();
    RuleSet {
        tag: tag.into(),
        rules: Arc::new(vec![rule]),
    }
}

fn answered(query: &[u8], qtype: u16) -> Vec<u8> {
    let mut response = query.to_vec();
    response[2] = 0x81;
    response[3] = 0x80;
    response[7] = 1;
    response.extend([0xc0, 0x0c]);
    response.extend(qtype.to_be_bytes());
    response.extend(1u16.to_be_bytes());
    response.extend(60u32.to_be_bytes());
    if qtype == 1 {
        response.extend(4u16.to_be_bytes());
        response.extend([1, 2, 3, 4])
    } else {
        response.extend(16u16.to_be_bytes());
        response.extend([0, 0, 0, 0, 0, 0, 0, 0, 0, 0, 0, 0, 0, 0, 0, 1])
    }
    response
}

fn key(name: &str) -> CacheKey {
    CacheKey::Lookup {
        name: name.into(),
        qtype: 1,
        server: None,
        client_subnet: None,
    }
}

#[test]
fn dns_rule_suffix() {
    let r = DnsRule {
        domain_suffix: vec!["example.com".into()],
        ..Default::default()
    };
    assert!(dns_rule_matches(&r, "www.example.com", 1, None));
    assert!(!dns_rule_matches(&r, "badexample.com", 1, None));
}

#[test]
fn mod_rule_suffix() {
    let r = DnsRule {
        domain_suffix: vec!["example.com".into()],
        ..Default::default()
    };
    assert!(dns_rule_matches(&r, "www.example.com", 1, None));
    assert!(!dns_rule_matches(&r, "badexample.com", 1, None));
}

#[test]
fn dns_rules_match_query_type_regex_and_invert() {
    let mut rule = DnsRule {
        query_type: vec![Value::Text("HTTPS".into())],
        domain_regex: vec![r"^api\d+\.example$".into()],
        ..Default::default()
    };
    assert!(dns_rule_matches(&rule, "api12.example", 65, None));
    assert!(!dns_rule_matches(&rule, "api12.example", 1, None));
    assert!(!dns_rule_matches(&rule, "www.example", 65, None));
    rule.invert = true;
    assert!(dns_rule_matches(&rule, "www.example", 65, None));
}

#[test]
fn lookup_cache_key_separates_server_and_subnet() {
    let first = CacheKey::Lookup {
        name: "example.com".into(),
        qtype: 1,
        server: Some("a".into()),
        client_subnet: Some("192.0.2.0/24".into()),
    };
    let second = CacheKey::Lookup {
        name: "example.com".into(),
        qtype: 1,
        server: Some("b".into()),
        client_subnet: Some("192.0.2.0/24".into()),
    };
    assert_ne!(first, second);
    assert!(!first.same(&second));
}

#[test]
fn dns_rules_match_rule_set_tags() {
    let sets = vec![set("geosite-cn", "example.com")];
    let rule = DnsRule {
        rule_set: vec!["geosite-cn".into()],
        server: Some("dns_local".into()),
        ..Default::default()
    };
    assert!(dns_rule_matches(&rule, "www.example.com", 1, Some(&sets)));
    assert!(!dns_rule_matches(&rule, "www.elsewhere.net", 1, Some(&sets)));
    assert!(!dns_rule_matches(&rule, "www.example.com", 1, None));
}

fn predefined(rule: DnsRule) -> DnsResolver {
    DnsResolver::new(DnsConfig {
        servers: vec![server("udp", "unused")],
        final_server: Some("unused".into()),
        disable_cache: Some(true),
        rules: vec![rule],
        ..Default::default()
    })
    .unwrap()
}

fn exchange(resolver: &DnsResolver, query: &[u8], sets: Option<&Vec<RuleSet>>) -> Vec<u8> {
    let (name, qtype, end) = parse_question(query).unwrap();
    match resolver.plan_exchange(query, &name, qtype, end, sets).unwrap() {
        ExchangePlan::Answer(response) => response,
        ExchangePlan::Ask(_) => panic!("an answer was expected"),
    }
}

#[test]
fn exchange_serves_predefined_answers_via_rule_set() {
    let sets = vec![set("geosite-ads", "ads.example")];
    let resolver = predefined(DnsRule {
        rule_set: vec!["geosite-ads".into()],
        action: Some("predefined".into()),
        answer: vec![". 2147483647 IN A 0.0.0.0".into()],
        ..Default::default()
    });
    let response = exchange(
        &resolver,
        &build_query(9, "banner.ads.example", 1).unwrap(),
        Some(&sets),
    );
    assert_eq!(response[3] & 0x0f, 0);
    let (addresses, _) = parse_response(9, 1, &response).unwrap();
    assert_eq!(addresses, vec![ip("0.0.0.0")]);
}

#[test]
fn exchange_serves_predefined_answers() {
    let resolver = predefined(DnsRule {
        domain_suffix: vec!["ads.example".into()],
        action: Some("predefined".into()),
        rcode: Some(Value::Text("NOERROR".into())),
        answer: vec![". 2147483647 IN A 0.0.0.0".into()],
        ..Default::default()
    });
    let query = build_query(9, "banner.ads.example", 1).unwrap();
    let response = exchange(&resolver, &query, None);
    assert_eq!(&response[..2], &9u16.to_be_bytes());
    assert_eq!(response[3] & 0x0f, 0);
    let (addresses, _) = parse_response(9, 1, &response).unwrap();
    assert_eq!(addresses, vec![ip("0.0.0.0")]);

    let resolver = predefined(DnsRule {
        domain_suffix: vec!["nx.example".into()],
        action: Some("predefined".into()),
        rcode: Some(Value::Text("NXDOMAIN".into())),
        ..Default::default()
    });
    let query = build_query(9, "missing.nx.example", 1).unwrap();
    let response = exchange(&resolver, &query, None);
    assert_eq!(response[3] & 0x0f, 3);
    assert!(matches!(
        resolver.plan_lookup("missing.nx.example", 1, &LookupOptions::default(), None),
        Err(ResolverError::Rcode(3))
    ));
}

#[test]
fn setup_faults_are_told_apart() {
    let base = || DnsConfig {
        servers: vec![server("udp", "a")],
        ..Default::default()
    };
    let fault = |config: DnsConfig| DnsResolver::new(config).unwrap_err();
    assert!(DnsResolver::new(base()).is_ok());
    assert!(matches!(
        fault(DnsConfig { strategy: Some("random".into()), ..base() }),
        SetupError::Dns(_)
    ));
    assert_eq!(
        fault(DnsConfig { client_subnet: Some("x".into()), ..base() }),
        SetupError::Dns(DnsError::InvalidClientSubnet)
    );
    assert_eq!(
        fault(DnsConfig { reverse_mapping: true, ..base() }),
        SetupError::ReverseMapping
    );
    assert_eq!(
        fault(DnsConfig { optimistic: Some(Value::Bool(true)), ..base() }),
        SetupError::Optimistic
    );
    assert_eq!(
        fault(DnsConfig { timeout: Some("soon".into()), ..base() }),
        SetupError::Timeout(InvalidDuration)
    );
    assert_eq!(
        fault(DnsConfig { servers: vec![server("carrier-pigeon", "a")], ..Default::default() }),
        SetupError::Upstream(UpstreamError::UnsupportedKind)
    );
    assert_eq!(fault(DnsConfig::default()), SetupError::NoServer);
    assert_eq!(
        fault(DnsConfig { final_server: Some("b".into()), ..base() }),
        SetupError::UnknownFinal
    );
}

#[test]
fn queries_are_put_to_the_server_of_their_rule() {
    let resolver = DnsResolver::new(DnsConfig {
        servers: vec![server("udp", "a"), server("tcp", "b")],
        rules: vec![
            DnsRule {
                domain_suffix: vec!["b.example".into()],
                server: Some("b".into()),
                ..Default::default()
            },
            DnsRule {
                domain_suffix: vec!["bad.example".into()],
                action: Some("reject".into()),
                ..Default::default()
            },
        ],
        ..Default::default()
    })
    .unwrap();
    let query = build_query(5, "www.b.example", 1).unwrap();
    let (name, qtype, end) = parse_question(&query).unwrap();
    match resolver.plan_exchange(&query, &name, qtype, end, None).unwrap() {
        ExchangePlan::Ask(ask) => {
            assert_eq!(ask.server, "b");
            assert_eq!(ask.request_id, 5);
            assert!(ask.use_cache);
        }
        ExchangePlan::Answer(_) => panic!("a question was expected"),
    }
    let query = build_query(5, "www.bad.example", 1).unwrap();
    let response = exchange(&resolver, &query, None);
    assert_eq!(response[3] & 0x0f, 5);
    assert!(matches!(
        resolver.plan_lookup("www.bad.example", 1, &LookupOptions::default(), None),
        Err(ResolverError::Rejected)
    ));
    assert_eq!(resolver.select_server(None).unwrap().tag, "a");
    assert_eq!(
        resolver.select_server(Some("zzz")).unwrap_err(),
        ResolverError::UnknownServer
    );
    match resolver
        .plan_lookup("other.example", 1, &LookupOptions::default(), None)
        .unwrap()
    {
        LookupPlan::Ask { server, .. } => assert_eq!(server, None),
        LookupPlan::Addresses(_) => panic!("a question was expected"),
    }
}

#[test]
fn families_follow_the_strategy() {
    let resolver = DnsResolver::new(DnsConfig {
        servers: vec![server("udp", "a")],
        strategy: Some("ipv4_only".into()),
        ..Default::default()
    })
    .unwrap();
    let (_, families) = resolver
        .lookup_strategy("x.example", &LookupOptions::default(), None)
        .unwrap();
    assert_eq!(families, Families::OnlyV4);
    let options = LookupOptions {
        strategy: Some("ipv6_only"),
        ..Default::default()
    };
    let (_, families) = resolver.lookup_strategy("x.example", &options, None).unwrap();
    assert_eq!(families, Families::OnlyV6);
    assert_eq!(
        combine_lookups(
            Some(vec![ip("1.1.1.1")]),
            Some(vec![ip("::1")]),
            Some("prefer_ipv6")
        ),
        Ok(vec![ip("::1"), ip("1.1.1.1")])
    );
    assert_eq!(
        combine_lookups(None, None, None),
        Err(ResolverError::NoAddresses)
    );
    assert_eq!(
        select_family(&vec![ip("1.1.1.1"), ip("::1")], true),
        vec![ip("::1")]
    );
}

#[test]
fn answers_are_finished_and_kept() {
    let query = build_query(5, "www.example", 1).unwrap();
    let response = answered(&query, 1);
    let (value, ttl) = finish_lookup(5, 1, &response, None).unwrap();
    assert_eq!(ttl, Duration::from_secs(60));
    assert!(matches!(&value, CacheValue::Addresses(list) if *list == vec![ip("1.2.3.4")]));
    let (value, ttl) = finish_exchange(5, response, Some(10)).unwrap();
    assert_eq!(ttl, Duration::from_secs(10));
    let reply = answer_exchange(value, 0x0909).unwrap();
    assert_eq!(&reply[..2], &[9, 9]);
    assert_eq!(parse_response(0x0909, 1, &reply).unwrap().1, 10);
    assert_eq!(
        answer_exchange(CacheValue::Addresses(Vec::new()), 1),
        Err(ResolverError::CacheEntry)
    );
    let (id, query) = start_lookup("www.example", 1, Some("192.0.2.129/24")).unwrap();
    assert_eq!(
        query,
        build_query_with_subnet(id, "www.example", 1, Some("192.0.2.129/24")).unwrap()
    );
    assert!(start_lookup("www.example", 1, Some("nowhere")).is_err());
    assert!(PendingIds::anywhere().take().is_some());
    let (_, ttl) = finish_local(&vec![ip("::1")], 28, None);
    assert_eq!(ttl, Duration::from_secs(30));
    assert_eq!(clamp_ttl(0), Duration::from_secs(1));
    assert_eq!(clamp_ttl(1_000_000), Duration::from_secs(86_400));

    let mut resolver = DnsResolver::new(DnsConfig {
        servers: vec![server("udp", "a")],
        ..Default::default()
    })
    .unwrap();
    let now = Duration::from_secs(100);
    resolver.keep(
        key("a"),
        &CacheValue::Addresses(vec![ip("1.1.1.1")]),
        Duration::from_secs(60),
        now,
    );
    assert!(resolver.kept(&key("a"), Duration::from_secs(159)).is_some());
    assert!(resolver.kept(&key("a"), Duration::from_secs(160)).is_none());
}

#[test]
fn the_cache_forgets_the_least_used() {
    let mut cache = DnsCache::new(2, false);
    let now = Duration::from_secs(1);
    let ttl = Duration::from_secs(60);
    let value = |s: &str| CacheValue::Addresses(vec![ip(s)]);
    cache.insert(key("a"), value("1.0.0.1"), ttl, now);
    cache.insert(key("b"), value("1.0.0.2"), ttl, now);
    assert!(cache.get(&key("a"), now).is_some());
    cache.insert(key("c"), value("1.0.0.3"), ttl, now);
    assert!(cache.get(&key("b"), now).is_none());
    assert!(matches!(
        cache.get(&key("a"), now),
        Some(CacheValue::Addresses(list)) if list == vec![ip("1.0.0.1")]
    ));
    assert!(cache.get(&key("c"), now).is_some());
    cache.purge_expired(Duration::from_secs(61));
    assert!(cache.get(&key("a"), Duration::from_secs(61)).is_none());
    let mut forever = DnsCache::new(2, true);
    forever.insert(key("a"), value("1.0.0.1"), ttl, now);
    assert!(forever.get(&key("a"), Duration::from_secs(10_000)).is_some());
}

#[test]
fn kept_answers_age() {
    let mut cache = DnsCache::new(4, false);
    let response = answered(&build_query(5, "www.example", 1).unwrap(), 1);
    cache.insert(
        key("wire"),
        CacheValue::Wire(response),
        Duration::from_secs(60),
        Duration::from_secs(0),
    );
    match cache.get(&key("wire"), Duration::from_secs(25)) {
        Some(CacheValue::Wire(b)) => assert_eq!(parse_response(5, 1, &b).unwrap().1, 35),
        _ => panic!("a response was expected"),
    }
}

#[test]
fn a_question_under_another_number_is_answered_out_of_the_cache() {
    let mut resolver = DnsResolver::new(DnsConfig {
        servers: vec![server("udp", "a")],
        ..Default::default()
    })
    .unwrap();
    let asked = |resolver: &DnsResolver, id: u16| {
        let query = build_query(id, "www.example", 1).unwrap();
        let (name, qtype, end) = parse_question(&query).unwrap();
        match resolver.plan_exchange(&query, &name, qtype, end, None).unwrap() {
            ExchangePlan::Ask(ask) => (query, ask),
            ExchangePlan::Answer(_) => panic!("a question was expected"),
        }
    };
    let (query, ask) = asked(&resolver, 0x0506);
    assert!(resolver.kept(&ask.key, Duration::from_secs(100)).is_none());
    let (value, ttl) =
        finish_exchange(ask.request_id, answered(&query, 1), ask.rewrite_ttl).unwrap();
    resolver.keep(ask.key, &value, ttl, Duration::from_secs(100));
    let first = answer_exchange(value, ask.request_id).unwrap();
    assert_eq!(parse_response(0x0506, 1, &first).unwrap(), (vec![ip("1.2.3.4")], 60));

    let (_, ask) = asked(&resolver, 0x0708);
    assert_eq!(ask.request_id, 0x0708);
    let value = resolver.kept(&ask.key, Duration::from_secs(125)).unwrap();
    let second = answer_exchange(value, ask.request_id).unwrap();
    assert_eq!(&second[..2], &[7, 8]);
    assert_eq!(parse_response(0x0708, 1, &second).unwrap(), (vec![ip("1.2.3.4")], 35));
    assert_eq!(second.len(), first.len());
    assert_eq!(
        (2..first.len()).filter(|&i| first[i] != second[i]).count(),
        1
    );
}

#[test]
fn the_second_exchange_asks_no_server() {
    let mut resolver = DnsResolver::new(DnsConfig {
        servers: vec![server("udp", "a")],
        ..Default::default()
    })
    .unwrap();
    let one = build_query(0x0506, "www.example", 1).unwrap();
    let two = build_query(0x0708, "www.example", 1).unwrap();
    let ask = match resolver.exchange(&one, Duration::from_secs(100), None).unwrap().unwrap() {
        ExchangePlan::Ask(ask) => ask,
        ExchangePlan::Answer(_) => panic!("a question was expected"),
    };
    assert_eq!(
        resolver
            .exchanged(&ask, answered(&two, 1), Duration::from_secs(100))
            .unwrap_err(),
        ResolverError::Dns(DnsError::IdMismatch)
    );
    let value = resolver
        .exchanged(&ask, answered(&one, 1), Duration::from_secs(100))
        .unwrap();
    let first = answer_exchange(value, ask.request_id).unwrap();
    assert_eq!(first, answered(&one, 1));
    match resolver.exchange(&two, Duration::from_secs(125), None).unwrap().unwrap() {
        ExchangePlan::Answer(second) => {
            let mut expected = answered(&two, 1);
            age_response_ttls(&mut expected, 25);
            assert_eq!(second, expected);
        }
        ExchangePlan::Ask(_) => panic!("an answer was expected"),
    }
    assert!(matches!(
        resolver.exchange(&two, Duration::from_secs(160), None),
        Some(Ok(ExchangePlan::Ask(_)))
    ));
    assert!(matches!(
        resolver.exchange(&two[..5], Duration::from_secs(160), None),
        Some(Err(ResolverError::Dns(DnsError::InvalidQuery)))
    ));
    // What is kept under the key of a message has to be a message.
    resolver.keep(
        ask.key,
        &CacheValue::Addresses(Vec::new()),
        Duration::from_secs(60),
        Duration::from_secs(200),
    );
    assert!(matches!(
        resolver.exchange(&two, Duration::from_secs(201), None),
        Some(Err(ResolverError::CacheEntry))
    ));
}

#[test]
fn messages_age_by_the_sum_and_in_their_lifetimes_alone() {
    let message = answered(&build_query(5, "www.example", 1).unwrap(), 1);
    let aged = |seconds: &[u32]| {
        let mut bytes = message.clone();
        for n in seconds {
            age_response_ttls(&mut bytes, *n);
        }
        bytes
    };
    assert_eq!(aged(&[0]), message);
    assert_eq!(aged(&[20, 5]), aged(&[25]));
    assert_eq!(aged(&[u32::MAX, u32::MAX]), aged(&[u32::MAX]));
    let offsets = ttl_offsets(&message).unwrap();
    assert_eq!(offsets.len(), 1);
    let (at, kind, ttl) = offsets[0];
    assert_eq!((kind, ttl), (1, 60));
    let mut expected = message.clone();
    expected[at..at + 4].copy_from_slice(&35u32.to_be_bytes());
    assert_eq!(aged(&[25]), expected);
    let mut cut = message[..message.len() - 1].to_vec();
    age_response_ttls(&mut cut, 25);
    assert_eq!(cut, message[..message.len() - 1]);
}

#[test]
fn only_the_records_that_are_written_are_counted() {
    let query = build_query(5, "ads.example.com", 1).unwrap();
    let (name, qtype, end) = parse_question(&query).unwrap();
    let answer = |record: &str, count: usize| {
        let resolver = predefined(DnsRule {
            action: Some("predefined".into()),
            answer: vec![record.to_string(); count],
            ..Default::default()
        });
        match resolver.try_plan_exchange(&query, &name, qtype, end, None)?.unwrap() {
            ExchangePlan::Answer(bytes) => Some(u16::from_be_bytes([bytes[6], bytes[7]])),
            ExchangePlan::Ask(_) => panic!("an answer was expected"),
        }
    };
    assert_eq!(answer("*.elsewhere.net 60 IN A 0.0.0.0", 66_000), Some(0));
    assert_eq!(answer(". 60 IN A 0.0.0.0", 65_535), Some(65_535));
    assert_eq!(answer(". 60 IN A 0.0.0.0", 65_536), None);
}

#[test]
fn a_broken_stream_is_got_over_once() {
    let mut tries = StreamTries::new();
    assert_eq!(tries.on(StreamEvent::Broken), StreamAction::Again);
    assert_eq!(tries.on(StreamEvent::Answered), StreamAction::Done);
    let mut tries = StreamTries::new();
    assert_eq!(tries.on(StreamEvent::Broken), StreamAction::Again);
    assert_eq!(tries.on(StreamEvent::Broken), StreamAction::GiveUp);
    assert_eq!(StreamTries::new().on(StreamEvent::Unconnected), StreamAction::GiveUp);
}

#[test]
fn a_question_is_put_once_at_a_time() {
    let mut flights = Flights::new();
    assert_eq!(flights.join(key("a"), 1), (1, true));
    assert_eq!(flights.join(key("a"), 2), (1, false));
    assert_eq!(flights.join(key("b"), 3), (3, true));
    flights.finish(&key("a"));
    assert_eq!(flights.join(key("a"), 4), (4, true));
}

#[test]
fn upstreams_are_told_by_their_kind() {
    let plain = Upstream::new(&server("", "a")).unwrap();
    assert_eq!(plain.transport, Transport::Udp);
    assert_eq!(plain.endpoint, Some(("127.0.0.1".into(), 1)));
    let mut tls = server("tls", "a");
    tls.server_port = None;
    assert_eq!(
        Upstream::new(&tls).unwrap().endpoint,
        Some(("127.0.0.1".into(), 853))
    );
    let nowhere = DnsServer {
        kind: "udp".into(),
        ..Default::default()
    };
    assert_eq!(Upstream::new(&nowhere).unwrap_err(), UpstreamError::NoAddress);
    let mut https = server("https", "a");
    https.server = Some("dns.example".into());
    https.server_port = None;
    assert_eq!(
        https_url(&https).as_deref(),
        Some("https://dns.example:443/dns-query")
    );
    https.server = Some("http://dns.example/".into());
    https.path = Some("/q".into());
    assert_eq!(https_url(&https).as_deref(), Some("http://dns.example/q"));
    assert!(is_cut_short(&[0, 0, 2]));
    assert!(!is_cut_short(&[0, 0]));
}

#[test]
fn frames_are_read_back() {
    let framed = frame(b"message").unwrap();
    assert_eq!(&framed[..2], &[0, 7]);
    assert_eq!(unframe(&framed), Some(b"message".to_vec()));
    assert_eq!(frame(&vec![0; 65_536]), None);
    assert_eq!(unframe(&[0, 3, 1]), None);
    assert_eq!(renumber(&[9, 9, 1], 0x0102), Ok(vec![1, 2, 1]));
    assert!(renumber(&[9], 1).is_err());
}

#[test]
fn ids_and_streams_are_handed_out_and_back() {
    let mut ids = PendingIds::new(0xffff);
    assert_eq!(ids.take(), Some(0xffff));
    assert_eq!(ids.take(), Some(0));
    assert!(ids.release(0));
    assert!(!ids.release(0));
    let mut pool = IdlePool::new();
    pool.put_back(4, Duration::from_secs(1));
    pool.put_back(5, Duration::from_secs(20));
    assert_eq!(pool.take_idle(Duration::from_secs(21)), Some(5));
    assert_eq!(pool.take_idle(Duration::from_secs(1000)), None);
}

#[test]
fn rules_are_validated() {
    assert!(validate_dns_rule(&DnsRule { server: Some("a".into()), ..Default::default() }, true).is_ok());
    assert!(
        validate_dns_rule(
            &DnsRule {
                domain_regex: vec!["(".into()],
                server: Some("a".into()),
                ..Default::default()
            },
            true
        )
        .is_err()
    );
    assert!(
        validate_dns_rule(
            &DnsRule {
                action: Some("teleport".into()),
                ..Default::default()
            },
            true
        )
        .is_err()
    );
    let plain = DnsRule::default();
    assert!(dns_rule_address_limit_matches(&plain, "x.example", &vec![ip("1.1.1.1")], None));
}

#[test]
fn addresses_outside_the_limit_of_a_rule_are_refused() {
    let nets = CompiledRule::compile(
        &RouteRule {
            ip_cidr: vec!["10.0.0.0/8".into()],
            ..Default::default()
        },
        &Vec::new(),
        false,
    )
    .unwrap();
    let sets = vec![RuleSet {
        tag: "lan".into(),
        rules: Arc::new(vec![nets]),
    }];
    let resolver = DnsResolver::new(DnsConfig {
        servers: vec![server("udp", "a")],
        rules: vec![DnsRule {
            rule_set: vec!["lan".into()],
            server: Some("a".into()),
            ..Default::default()
        }],
        ..Default::default()
    })
    .unwrap();
    let options = LookupOptions::default();
    assert_eq!(
        resolver.accept_addresses("x.example", 1, &options, vec![ip("10.1.2.3")], Some(&sets)),
        Ok(vec![ip("10.1.2.3")])
    );
    assert_eq!(
        resolver.accept_addresses("x.example", 1, &options, vec![ip("1.1.1.1")], Some(&sets)),
        Err(ResolverError::AddressLimit)
    );
    assert_eq!(
        resolver.accept_addresses(
            "x.example",
            1,
            &options,
            vec![ip("10.1.2.3"), ip("1.1.1.1")],
            Some(&sets)
        ),
        Err(ResolverError::AddressLimit)
    );
}
