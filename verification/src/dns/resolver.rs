//! How names are looked up: what is asked of whom, and what comes of the answer.
use crate::config;
use crate::dns::answer::{self, Retime};
use crate::dns::cache::{
    self, CacheKey, CacheValue, DnsCache, EntryView, Flights, KeyView, ValueView,
};
use crate::dns::message::{self, DnsError};
use crate::dns::record;
use crate::dns::rules;
use crate::dns::transport::{self, Upstream, UpstreamError};
use crate::net::{self, IpAddr};
use crate::routing::compile::RuleSet;
use crate::singbox::{DnsConfig, DnsRule, DnsServer};
use crate::text;
use crate::time::{self, Duration, InvalidDuration};
use crate::wire;
use vstd::prelude::*;

verus! {

// ---- options and errors ----

/// What a lookup asks for beyond the name.
#[derive(Debug, Clone)]
pub struct LookupOptions<'a> {
    pub server: Option<&'a str>,
    pub disable_cache: bool,
    pub rewrite_ttl: Option<u32>,
    pub timeout: Option<Duration>,
    pub strategy: Option<&'a str>,
    pub client_subnet: Option<&'a str>,
}

impl<'a> LookupOptions<'a> {
    /// Nothing is asked for.
    pub open spec fn blank(self) -> bool {
        &&& self.server is None
        &&& !self.disable_cache
        &&& self.rewrite_ttl is None
        &&& self.timeout is None
        &&& self.strategy is None
        &&& self.client_subnet is None
    }
}

impl<'a> Default for LookupOptions<'a> {
    fn default() -> (r: LookupOptions<'a>)
        ensures
            r.blank(),
    {
        LookupOptions {
            server: None,
            disable_cache: false,
            rewrite_ttl: None,
            timeout: None,
            strategy: None,
            client_subnet: None,
        }
    }
}

/// Why the section on names cannot be set up.
#[derive(Clone, Copy, Debug, PartialEq, Eq, Structural)]
pub enum SetupError {
    Dns(DnsError),
    ReverseMapping,
    Optimistic,
    Timeout(InvalidDuration),
    Upstream(UpstreamError),
    NoServer,
    UnknownFinal,
}

/// Why a lookup fails.
#[derive(Clone, Copy, Debug, PartialEq, Eq, Structural)]
pub enum ResolverError {
    Dns(DnsError),
    /// A rule drops the question.
    Dropped,
    /// A rule rejects the question.
    Rejected,
    /// A rule answers with an error.
    Rcode(u8),
    UnknownServer,
    Timeout(InvalidDuration),
    InvalidAaaa,
    NoAddresses,
    /// A rule does not take the addresses.
    AddressLimit,
    /// What was kept is not what was asked for.
    CacheEntry,
}

// ---- setting up ----

/// What is wrong with the first `n` rules.
pub open spec fn rules_fault(list: Seq<DnsRule>, n: nat) -> Option<DnsError>
    decreases n,
{
    if n == 0 {
        None
    } else {
        match rules_fault(list, (n - 1) as nat) {
            Some(e) => Some(e),
            None => rules::dns_rule_error(list[n - 1], true),
        }
    }
}

/// What is wrong with the first `n` servers.
pub open spec fn servers_fault(list: Seq<DnsServer>, n: nat) -> Option<UpstreamError>
    decreases n,
{
    if n == 0 {
        None
    } else {
        match servers_fault(list, (n - 1) as nat) {
            Some(e) => Some(e),
            None => transport::upstream_fault(list[n - 1]),
        }
    }
}

proof fn lemma_rules_fault(list: Seq<DnsRule>, m: nat, n: nat)
    requires
        m <= n,
        rules_fault(list, m) is Some,
    ensures
        rules_fault(list, n) == rules_fault(list, m),
    decreases n,
{
    if m < n {
        lemma_rules_fault(list, m, (n - 1) as nat);
    }
}

proof fn lemma_servers_fault(list: Seq<DnsServer>, m: nat, n: nat)
    requires
        m <= n,
        servers_fault(list, m) is Some,
    ensures
        servers_fault(list, n) == servers_fault(list, m),
    decreases n,
{
    if m < n {
        lemma_servers_fault(list, m, (n - 1) as nat);
    }
}

/// The place of the server with a tag: the last one.
pub open spec fn server_place(list: Seq<DnsServer>, tag: Seq<char>) -> Option<int>
    decreases list.len(),
{
    if list.len() == 0 {
        None
    } else if list.last().tag@ == tag {
        Some(list.len() - 1)
    } else {
        server_place(list.drop_last(), tag)
    }
}

fn find_server(list: &Vec<DnsServer>, tag: &str) -> (r: Option<usize>)
    ensures
        match r {
            Some(i) => server_place(list@, tag@) == Some(i as int) && i < list@.len(),
            None => server_place(list@, tag@) is None,
        },
{
    let mut n: usize = list.len();
    proof {
        assert(list@.take(n as int) =~= list@);
    }
    while n > 0
        invariant
            n <= list@.len(),
            server_place(list@, tag@) == server_place(list@.take(n as int), tag@),
        decreases n,
    {
        proof {
            assert(list@.take(n as int).last() == list@[n - 1]);
            assert(list@.take(n as int).drop_last() =~= list@.take(n - 1));
        }
        n = n - 1;
        if text::same_text(list[n].tag.as_str(), tag) {
            return Some(n);
        }
    }
    None
}

/// The tag of the server that is asked by default.
pub open spec fn final_server(config: DnsConfig) -> Option<Seq<char>> {
    match config.final_server {
        Some(tag) => Some(tag@),
        None => if config.servers@.len() == 0 {
            None
        } else {
            Some(config.servers@[0].tag@)
        },
    }
}

/// Why the section cannot be set up, if it cannot.
pub open spec fn setup_fault(config: DnsConfig) -> Option<SetupError> {
    if !record::known_strategy(text::opt_text(config.strategy)) {
        Some(SetupError::Dns(DnsError::UnsupportedStrategy))
    } else if config.client_subnet is Some && net::net_or_ip_text(config.client_subnet->0@) is None {
        Some(SetupError::Dns(DnsError::InvalidClientSubnet))
    } else if config.reverse_mapping {
        Some(SetupError::ReverseMapping)
    } else if config.optimistic is Some && record::optimistic(config.optimistic->0) {
        Some(SetupError::Optimistic)
    } else if rules_fault(config.rules@, config.rules@.len()) is Some {
        Some(SetupError::Dns(rules_fault(config.rules@, config.rules@.len())->0))
    } else if config.timeout is Some && time::duration_millis(config.timeout->0@) is None {
        Some(SetupError::Timeout(InvalidDuration))
    } else if servers_fault(config.servers@, config.servers@.len()) is Some {
        Some(SetupError::Upstream(servers_fault(config.servers@, config.servers@.len())->0))
    } else {
        match final_server(config) {
            None => Some(SetupError::NoServer),
            Some(tag) => if server_place(config.servers@, tag) is None {
                Some(SetupError::UnknownFinal)
            } else {
                None
            },
        }
    }
}

/// What looks up names.
#[derive(Debug)]
pub struct DnsResolver {
    pub servers: Vec<DnsServer>,
    pub rules: Vec<DnsRule>,
    pub final_tag: String,
    pub strategy: Option<String>,
    pub client_subnet: Option<String>,
    pub timeout: Duration,
    pub http_timeout: Duration,
    pub cache_enabled: bool,
    pub cache: DnsCache,
    pub flights: Flights,
}

fn check_rules(list: &Vec<DnsRule>) -> (r: Option<DnsError>)
    ensures
        r == rules_fault(list@, list@.len()),
{
    let mut i: usize = 0;
    while i < list.len()
        invariant
            i <= list@.len(),
            rules_fault(list@, i as nat) is None,
        decreases list@.len() - i,
    {
        match rules::validate_dns_rule(&list[i], true) {
            Ok(()) => {},
            Err(e) => {
                proof {
                    lemma_rules_fault(list@, (i + 1) as nat, list@.len());
                }
                return Some(e);
            },
        }
        i = i + 1;
    }
    None
}

fn check_servers(list: &Vec<DnsServer>) -> (r: Option<UpstreamError>)
    ensures
        r == servers_fault(list@, list@.len()),
{
    let mut i: usize = 0;
    while i < list.len()
        invariant
            i <= list@.len(),
            servers_fault(list@, i as nat) is None,
        decreases list@.len() - i,
    {
        match Upstream::new(&list[i]) {
            Ok(_) => {},
            Err(e) => {
                proof {
                    lemma_servers_fault(list@, (i + 1) as nat, list@.len());
                }
                return Some(e);
            },
        }
        i = i + 1;
    }
    None
}

impl DnsResolver {
    /// The default server is known, and what is kept is in order.
    pub open spec fn wf(&self) -> bool {
        &&& server_place(self.servers@, self.final_tag@) is Some
        &&& self.cache.wf()
    }

    /// All but what is kept is the same.
    pub open spec fn same_but_kept(&self, other: &DnsResolver) -> bool {
        &&& self.servers == other.servers
        &&& self.rules == other.rules
        &&& self.final_tag == other.final_tag
        &&& self.strategy == other.strategy
        &&& self.client_subnet == other.client_subnet
        &&& self.timeout == other.timeout
        &&& self.http_timeout == other.http_timeout
        &&& self.cache_enabled == other.cache_enabled
        &&& self.flights == other.flights
        &&& self.cache.capacity == other.cache.capacity
        &&& self.cache.disable_expire == other.cache.disable_expire
    }

    /// Sets up what looks up names. A question waits for five seconds where
    /// nothing else is said, over HTTPS for eight; 4096 answers are kept.
    pub fn new(config: DnsConfig) -> (r: Result<DnsResolver, SetupError>)
        ensures
            match r {
                Ok(s) => {
                    &&& setup_fault(config) is None
                    &&& s.wf()
                    &&& s.servers == config.servers
                    &&& s.rules == config.rules
                    &&& Some(s.final_tag@) == final_server(config)
                    &&& s.strategy == config.strategy
                    &&& s.client_subnet == config.client_subnet
                    &&& s.timeout.millis == (match config.timeout {
                        Some(t) => time::duration_millis(t@)->0,
                        None => 5000,
                    })
                    &&& s.http_timeout.millis == (match config.timeout {
                        Some(t) => time::duration_millis(t@)->0,
                        None => 8000,
                    })
                    &&& s.cache_enabled == (config.disable_cache != Some(true))
                    &&& s.cache.entries@.len() == 0
                    &&& s.cache.capacity == (match config.cache_capacity {
                        Some(n) => if n >= 1 {
                            n as int
                        } else {
                            1
                        },
                        None => 4096,
                    })
                    &&& s.cache.disable_expire == (config.disable_expire == Some(true))
                    &&& s.flights.list@.len() == 0
                },
                Err(e) => setup_fault(config) == Some(e),
            },
    {
        match record::validate_strategy(text::as_opt_str(&config.strategy)) {
            Ok(()) => {},
            Err(e) => {
                return Err(SetupError::Dns(e));
            },
        }
        match &config.client_subnet {
            Some(subnet) => match message::parse_client_subnet(subnet.as_str()) {
                Ok(_) => {},
                Err(e) => {
                    return Err(SetupError::Dns(e));
                },
            },
            None => {},
        }
        if config.reverse_mapping {
            return Err(SetupError::ReverseMapping);
        }
        match &config.optimistic {
            Some(value) => {
                if record::optimistic_enabled(value) {
                    return Err(SetupError::Optimistic);
                }
            },
            None => {},
        }
        match check_rules(&config.rules) {
            Some(e) => {
                return Err(SetupError::Dns(e));
            },
            None => {},
        }
        let timeout = match time::parse_duration_or(
            text::as_opt_str(&config.timeout),
            Duration::from_secs(5),
        ) {
            Ok(t) => t,
            Err(e) => {
                return Err(SetupError::Timeout(e));
            },
        };
        let http_timeout = if config.timeout.is_some() {
            timeout
        } else {
            Duration::from_secs(8)
        };
        match check_servers(&config.servers) {
            Some(e) => {
                return Err(SetupError::Upstream(e));
            },
            None => {},
        }
        let final_tag = match &config.final_server {
            Some(tag) => text::copy_text(tag.as_str()),
            None => {
                if config.servers.len() == 0 {
                    return Err(SetupError::NoServer);
                }
                text::copy_text(config.servers[0].tag.as_str())
            },
        };
        if find_server(&config.servers, final_tag.as_str()).is_none() {
            return Err(SetupError::UnknownFinal);
        }
        let capacity: usize = match config.cache_capacity {
            Some(n) => if n >= 1 {
                n
            } else {
                1
            },
            None => 4096,
        };
        let disable_expire = match config.disable_expire {
            Some(b) => b,
            None => false,
        };
        let disable_cache = match config.disable_cache {
            Some(b) => b,
            None => false,
        };
        Ok(
            DnsResolver {
                servers: config.servers,
                rules: config.rules,
                final_tag,
                strategy: config.strategy,
                client_subnet: config.client_subnet,
                timeout,
                http_timeout,
                cache_enabled: !disable_cache,
                cache: DnsCache::new(capacity, disable_expire),
                flights: Flights::new(),
            },
        )
    }
}

// ---- rules ----

/// The first rule that matches a question.
pub open spec fn rule_for(
    list: Seq<DnsRule>,
    name: &str,
    qtype: u16,
    sets: Option<Seq<RuleSet>>,
) -> Option<DnsRule>
    decreases list.len(),
{
    if list.len() == 0 {
        None
    } else if rules::rule_matches(list[0], name, qtype, sets) {
        Some(list[0])
    } else {
        rule_for(list.skip(1), name, qtype, sets)
    }
}

/// An action of a rule.
pub open spec fn acts(rule: Option<DnsRule>, action: Seq<char>) -> bool {
    rule matches Some(r) && text::opt_text(r.action) == Some(action)
}

impl DnsResolver {
    /// The first rule that matches a question.
    pub fn select_rule(&self, name: &str, qtype: u16, sets: Option<&Vec<RuleSet>>) -> (r: Option<
        &DnsRule,
    >)
        ensures
            match r {
                Some(rule) => rule_for(self.rules@, name, qtype, rules::opt_sets(sets)) == Some(
                    *rule,
                ) && self.rules@.contains(*rule),
                None => rule_for(self.rules@, name, qtype, rules::opt_sets(sets)) is None,
            },
    {
        let mut i: usize = 0;
        proof {
            assert(self.rules@.skip(0) =~= self.rules@);
        }
        while i < self.rules.len()
            invariant
                i <= self.rules@.len(),
                rule_for(self.rules@, name, qtype, rules::opt_sets(sets)) == rule_for(
                    self.rules@.skip(i as int),
                    name,
                    qtype,
                    rules::opt_sets(sets),
                ),
            decreases self.rules@.len() - i,
        {
            proof {
                assert(self.rules@.skip(i as int)[0] == self.rules@[i as int]);
                assert(self.rules@.skip(i as int).skip(1) =~= self.rules@.skip(i + 1));
            }
            if rules::dns_rule_matches(&self.rules[i], name, qtype, sets) {
                return Some(&self.rules[i]);
            }
            i = i + 1;
        }
        None
    }

    /// The server with a tag, or the default one.
    pub fn select_server(&self, tag: Option<&str>) -> (r: Result<&DnsServer, ResolverError>)
        ensures
            ({
                let place = server_place(
                    self.servers@,
                    match tag {
                        Some(t) => t@,
                        None => self.final_tag@,
                    },
                );
                match r {
                    Ok(s) => place is Some && *s == self.servers@[place->0],
                    Err(e) => place is None && e == ResolverError::UnknownServer,
                }
            }),
    {
        let name = match tag {
            Some(t) => t,
            None => self.final_tag.as_str(),
        };
        match find_server(&self.servers, name) {
            Some(i) => Ok(&self.servers[i]),
            None => Err(ResolverError::UnknownServer),
        }
    }
}

// ---- addresses in order ----

/// An address comes before another: those of the older family first, and by number.
pub open spec fn ip_before(a: IpAddr, b: IpAddr) -> bool {
    match (a, b) {
        (IpAddr::V4(x), IpAddr::V4(y)) => x < y,
        (IpAddr::V4(_), IpAddr::V6(_)) => true,
        (IpAddr::V6(_), IpAddr::V4(_)) => false,
        (IpAddr::V6(x), IpAddr::V6(y)) => x < y,
    }
}

fn comes_before(a: IpAddr, b: IpAddr) -> (r: bool)
    ensures
        r == ip_before(a, b),
{
    match a {
        IpAddr::V4(x) => match b {
            IpAddr::V4(y) => x < y,
            IpAddr::V6(_) => true,
        },
        IpAddr::V6(x) => match b {
            IpAddr::V4(_) => false,
            IpAddr::V6(y) => x < y,
        },
    }
}

/// Addresses in order with one more, which is not put in twice.
pub open spec fn put_in(s: Seq<IpAddr>, a: IpAddr) -> Seq<IpAddr>
    decreases s.len(),
{
    if s.len() == 0 {
        seq![a]
    } else if s[0] == a {
        s
    } else if ip_before(a, s[0]) {
        seq![a] + s
    } else {
        seq![s[0]] + put_in(s.skip(1), a)
    }
}

/// Addresses in order, each once.
pub open spec fn ordered(s: Seq<IpAddr>) -> Seq<IpAddr>
    decreases s.len(),
{
    if s.len() == 0 {
        Seq::empty()
    } else {
        put_in(ordered(s.drop_last()), s.last())
    }
}

/// Every address comes before those behind it.
pub open spec fn is_ascending(s: Seq<IpAddr>) -> bool {
    forall|i: int, j: int|
        0 <= i < j < s.len() ==> ip_before(#[trigger] s[i], #[trigger] s[j])
}

proof fn lemma_put_in(s: Seq<IpAddr>, a: IpAddr)
    requires
        is_ascending(s),
    ensures
        is_ascending(put_in(s, a)),
        forall|x: IpAddr| #[trigger] put_in(s, a).contains(x) <==> s.contains(x) || x == a,
    decreases s.len(),
{
    let p = put_in(s, a);
    if s.len() == 0 {
        assert(p[0] == a);
        assert forall|x: IpAddr| #[trigger] p.contains(x) <==> s.contains(x) || x == a by {
            if x == a {
                assert(p[0] == x);
            }
        }
    } else if s[0] == a {
        assert(s.contains(a));
    } else if ip_before(a, s[0]) {
        assert forall|i: int, j: int| 0 <= i < j < p.len() implies ip_before(
            #[trigger] p[i],
            #[trigger] p[j],
        ) by {
            assert(p[j] == s[j - 1]);
            if i > 0 {
                assert(p[i] == s[i - 1]);
            } else if j > 1 {
                assert(ip_before(s[0], s[j - 1]));
            }
        }
        assert forall|x: IpAddr| #[trigger] p.contains(x) <==> s.contains(x) || x == a by {
            if s.contains(x) {
                let i = choose|i: int| 0 <= i < s.len() && s[i] == x;
                assert(p[i + 1] == x);
            }
            if x == a {
                assert(p[0] == x);
            }
            if p.contains(x) {
                let i = choose|i: int| 0 <= i < p.len() && p[i] == x;
                if i > 0 {
                    assert(s[i - 1] == x);
                }
            }
        }
    } else {
        let t = s.skip(1);
        assert forall|i: int, j: int| 0 <= i < j < t.len() implies ip_before(
            #[trigger] t[i],
            #[trigger] t[j],
        ) by {
            assert(ip_before(s[i + 1], s[j + 1]));
        }
        lemma_put_in(t, a);
        let q = put_in(t, a);
        assert(p =~= seq![s[0]] + q);
        assert forall|i: int, j: int| 0 <= i < j < p.len() implies ip_before(
            #[trigger] p[i],
            #[trigger] p[j],
        ) by {
            assert(p[j] == q[j - 1]);
            if i > 0 {
                assert(p[i] == q[i - 1]);
            } else {
                assert(q.contains(q[j - 1]));
                if q[j - 1] != a {
                    let k = choose|k: int| 0 <= k < t.len() && t[k] == q[j - 1];
                    assert(ip_before(s[0], s[k + 1]));
                }
            }
        }
        assert forall|x: IpAddr| #[trigger] p.contains(x) <==> s.contains(x) || x == a by {
            if p.contains(x) {
                let i = choose|i: int| 0 <= i < p.len() && p[i] == x;
                if i > 0 {
                    assert(q[i - 1] == x);
                    assert(q.contains(x));
                    if t.contains(x) {
                        let k = choose|k: int| 0 <= k < t.len() && t[k] == x;
                        assert(s[k + 1] == x);
                    }
                } else {
                    assert(s[0] == x);
                }
            }
            if s.contains(x) {
                let k = choose|k: int| 0 <= k < s.len() && s[k] == x;
                if k > 0 {
                    assert(t[k - 1] == x);
                    assert(q.contains(x));
                    let i = choose|i: int| 0 <= i < q.len() && q[i] == x;
                    assert(p[i + 1] == x);
                } else {
                    assert(p[0] == x);
                }
            }
            if x == a {
                assert(q.contains(x));
                let i = choose|i: int| 0 <= i < q.len() && q[i] == x;
                assert(p[i + 1] == x);
            }
        }
    }
}

/// Addresses put in order are the addresses, each before those behind it, so that
/// none is there twice.
pub proof fn ordering_keeps_the_addresses(s: Seq<IpAddr>)
    ensures
        is_ascending(ordered(s)),
        forall|x: IpAddr| #[trigger] ordered(s).contains(x) <==> s.contains(x),
    decreases s.len(),
{
    if s.len() > 0 {
        let front = s.drop_last();
        ordering_keeps_the_addresses(front);
        lemma_put_in(ordered(front), s.last());
        assert forall|x: IpAddr| #[trigger] ordered(s).contains(x) <==> s.contains(x) by {
            if s.contains(x) {
                let i = choose|i: int| 0 <= i < s.len() && s[i] == x;
                if i < front.len() {
                    assert(front[i] == x);
                    assert(front.contains(x));
                }
                assert(ordered(front).contains(x) || x == s.last());
            }
            if ordered(s).contains(x) {
                if ordered(front).contains(x) {
                    assert(front.contains(x));
                    let i = choose|i: int| 0 <= i < front.len() && front[i] == x;
                    assert(s[i] == x);
                } else {
                    assert(s[s.len() - 1] == x);
                }
            }
        }
    }
}

fn insert_address(list: &mut Vec<IpAddr>, a: IpAddr)
    ensures
        final(list)@ == put_in(old(list)@, a),
{
    let ghost s = list@;
    let mut i: usize = 0;
    proof {
        assert(s.take(0) + put_in(s.skip(0), a) =~= put_in(s, a)) by {
            assert(s.skip(0) =~= s);
        }
    }
    while i < list.len()
        invariant
            i <= list@.len(),
            list@ == s,
            put_in(s, a) == s.take(i as int) + put_in(s.skip(i as int), a),
            s == old(list)@,
        decreases list@.len() - i,
    {
        let ghost t = s.skip(i as int);
        proof {
            assert(t[0] == s[i as int]);
            assert(t.skip(1) =~= s.skip(i + 1));
        }
        if list[i] == a {
            proof {
                assert(s.take(i as int) + t =~= s);
            }
            return;
        }
        if comes_before(a, list[i]) {
            list.insert(i, a);
            proof {
                assert(list@ =~= s.take(i as int) + (seq![a] + t));
            }
            return;
        }
        proof {
            assert(s.take(i as int) + (seq![t[0]] + put_in(s.skip(i + 1), a)) =~= s.take(i + 1)
                + put_in(s.skip(i + 1), a));
        }
        i = i + 1;
    }
    proof {
        assert(s.skip(i as int).len() == 0);
        assert(s.take(i as int) + seq![a] =~= s.push(a));
    }
    list.push(a);
}

/// Addresses in order, each once.
pub fn order_addresses(list: &Vec<IpAddr>) -> (r: Vec<IpAddr>)
    ensures
        r@ == ordered(list@),
{
    let mut r: Vec<IpAddr> = Vec::new();
    let mut i: usize = 0;
    proof {
        assert(list@.take(0) =~= Seq::<IpAddr>::empty());
    }
    while i < list.len()
        invariant
            i <= list@.len(),
            r@ == ordered(list@.take(i as int)),
        decreases list@.len() - i,
    {
        proof {
            assert(list@.take(i + 1).drop_last() =~= list@.take(i as int));
            assert(list@.take(i + 1).last() == list@[i as int]);
        }
        insert_address(&mut r, list[i]);
        i = i + 1;
    }
    proof {
        assert(list@.take(i as int) =~= list@);
    }
    r
}

/// The addresses of one family.
pub open spec fn of_family(s: Seq<IpAddr>, six: bool) -> Seq<IpAddr>
    decreases s.len(),
{
    if s.len() == 0 {
        Seq::empty()
    } else if (s.last() is V6) == six {
        of_family(s.drop_last(), six).push(s.last())
    } else {
        of_family(s.drop_last(), six)
    }
}

/// The addresses of one family.
pub fn select_family(list: &Vec<IpAddr>, six: bool) -> (r: Vec<IpAddr>)
    ensures
        r@ == of_family(list@, six),
{
    let mut r: Vec<IpAddr> = Vec::new();
    let mut i: usize = 0;
    proof {
        assert(list@.take(0) =~= Seq::<IpAddr>::empty());
    }
    while i < list.len()
        invariant
            i <= list@.len(),
            r@ == of_family(list@.take(i as int), six),
        decreases list@.len() - i,
    {
        proof {
            assert(list@.take(i + 1).drop_last() =~= list@.take(i as int));
            assert(list@.take(i + 1).last() == list@[i as int]);
        }
        if list[i].is_ipv6() == six {
            r.push(list[i]);
        }
        i = i + 1;
    }
    proof {
        assert(list@.take(i as int) =~= list@);
    }
    r
}

// ---- lookups of both families ----

/// Which addresses are asked for.
#[derive(Clone, Copy, Debug, PartialEq, Eq, Structural)]
pub enum Families {
    Both,
    OnlyV4,
    OnlyV6,
}

/// Which addresses a strategy asks for.
pub open spec fn families(strategy: Option<Seq<char>>) -> Families {
    if strategy == Some("ipv4_only"@) {
        Families::OnlyV4
    } else if strategy == Some("ipv6_only"@) {
        Families::OnlyV6
    } else {
        Families::Both
    }
}

/// The strategy of a lookup: its own, that of the rule for the name, or that of the
/// section.
pub open spec fn chosen_strategy(
    s: DnsResolver,
    name: &str,
    own: Option<Seq<char>>,
    sets: Option<Seq<RuleSet>>,
) -> Option<Seq<char>> {
    let rule = match rule_for(s.rules@, name, 1, sets) {
        Some(r) => Some(r),
        None => rule_for(s.rules@, name, 28, sets),
    };
    match own {
        Some(t) => Some(t),
        None => match rule {
            Some(r) if r.strategy is Some => text::opt_text(r.strategy),
            _ => text::opt_text(s.strategy),
        },
    }
}

/// What two lookups come to: the addresses of both, in order, those of the newer
/// family first where it is preferred; nothing where there is none.
pub open spec fn combined(
    a: Option<Seq<IpAddr>>,
    b: Option<Seq<IpAddr>>,
    strategy: Option<Seq<char>>,
) -> Option<Seq<IpAddr>> {
    let all = ordered(
        (match a {
            Some(s) => s,
            None => Seq::empty(),
        }) + (match b {
            Some(s) => s,
            None => Seq::empty(),
        }),
    );
    if all.len() == 0 {
        None
    } else if strategy == Some("prefer_ipv6"@) {
        Some(of_family(all, true) + of_family(all, false))
    } else if strategy == Some("prefer_ipv4"@) {
        Some(of_family(all, false) + of_family(all, true))
    } else {
        Some(all)
    }
}

impl DnsResolver {
    /// The strategy of a lookup and which addresses it asks for.
    pub fn lookup_strategy(
        &self,
        name: &str,
        options: &LookupOptions,
        sets: Option<&Vec<RuleSet>>,
    ) -> (r: Result<(Option<String>, Families), ResolverError>)
        ensures
            ({
                let strategy = chosen_strategy(
                    *self,
                    name,
                    text::opt_str(options.strategy),
                    rules::opt_sets(sets),
                );
                match r {
                    Ok((s, f)) => record::known_strategy(strategy) && text::opt_text(s) == strategy
                        && f == families(strategy),
                    Err(e) => !record::known_strategy(strategy) && e == ResolverError::Dns(
                        DnsError::UnsupportedStrategy,
                    ),
                }
            }),
    {
        let strategy = match options.strategy {
            Some(s) => Some(text::copy_text(s)),
            None => {
                let rule = match self.select_rule(name, 1, sets) {
                    Some(rule) => Some(rule),
                    None => self.select_rule(name, 28, sets),
                };
                let own = match rule {
                    Some(rule) => text::copy_opt(&rule.strategy),
                    None => None,
                };
                match own {
                    Some(s) => Some(s),
                    None => text::copy_opt(&self.strategy),
                }
            },
        };
        match record::validate_strategy(text::as_opt_str(&strategy)) {
            Ok(()) => {},
            Err(e) => {
                return Err(ResolverError::Dns(e));
            },
        }
        let f = if text::opt_is(&strategy, "ipv4_only") {
            Families::OnlyV4
        } else if text::opt_is(&strategy, "ipv6_only") {
            Families::OnlyV6
        } else {
            Families::Both
        };
        Ok((strategy, f))
    }
}

/// What the lookups of both families come to; one that failed, or was not made,
/// has no addresses.
pub fn combine_lookups(a: Option<Vec<IpAddr>>, b: Option<Vec<IpAddr>>, strategy: Option<&str>) -> (r:
    Result<Vec<IpAddr>, ResolverError>)
    ensures
        ({
            let whole = combined(
                match a {
                    Some(v) => Some(v@),
                    None => None,
                },
                match b {
                    Some(v) => Some(v@),
                    None => None,
                },
                text::opt_str(strategy),
            );
            match r {
                Ok(list) => whole == Some(list@),
                Err(e) => whole is None && e == ResolverError::NoAddresses,
            }
        }),
{
    let mut all: Vec<IpAddr> = match a {
        Some(v) => v,
        None => Vec::new(),
    };
    let mut more: Vec<IpAddr> = match b {
        Some(v) => v,
        None => Vec::new(),
    };
    all.append(&mut more);
    let list = order_addresses(&all);
    if list.len() == 0 {
        return Err(ResolverError::NoAddresses);
    }
    let (prefer6, prefer4) = match strategy {
        Some(s) => (text::same_text(s, "prefer_ipv6"), text::same_text(s, "prefer_ipv4")),
        None => (false, false),
    };
    if prefer6 {
        let mut first = select_family(&list, true);
        let mut rest = select_family(&list, false);
        first.append(&mut rest);
        return Ok(first);
    }
    if prefer4 {
        let mut first = select_family(&list, false);
        let mut rest = select_family(&list, true);
        first.append(&mut rest);
        return Ok(first);
    }
    Ok(list)
}

// ---- whole messages ----

/// A lifetime that answers are kept for: a second at least and a day at most.
pub open spec fn kept_seconds(ttl: u32) -> u32 {
    if ttl < 1 {
        1
    } else if ttl > 86400 {
        86400
    } else {
        ttl
    }
}

/// A lifetime that answers are kept for.
pub fn clamp_ttl(ttl: u32) -> (r: Duration)
    ensures
        r.millis == kept_seconds(ttl) * 1000,
{
    let seconds: u32 = if ttl < 1 {
        1
    } else if ttl > 86400 {
        86400
    } else {
        ttl
    };
    Duration::from_secs(seconds as u64)
}

/// What is put to a server, and what becomes of its answer.
#[derive(Debug)]
pub struct Ask {
    pub request_id: u16,
    pub server: String,
    /// The system looks the name up.
    pub local: bool,
    pub wire: Vec<u8>,
    pub key: CacheKey,
    pub timeout: Result<Duration, InvalidDuration>,
    pub rewrite_ttl: Option<u32>,
    pub use_cache: bool,
}

/// What is put to a server, with plain values.
#[verifier::ext_equal]
pub struct AskView {
    pub request_id: u16,
    pub server: Seq<char>,
    pub local: bool,
    pub wire: Seq<u8>,
    pub key: KeyView,
    pub timeout: Option<nat>,
    pub rewrite_ttl: Option<u32>,
    pub use_cache: bool,
}

impl View for Ask {
    type V = AskView;

    open spec fn view(&self) -> AskView {
        AskView {
            request_id: self.request_id,
            server: self.server@,
            local: self.local,
            wire: self.wire@,
            key: self.key@,
            timeout: match self.timeout {
                Ok(t) => Some(t.millis as nat),
                Err(_) => None,
            },
            rewrite_ttl: self.rewrite_ttl,
            use_cache: self.use_cache,
        }
    }
}

/// What a whole message leads to.
#[derive(Debug)]
pub enum ExchangePlan {
    /// The answer is known.
    Answer(Vec<u8>),
    /// A server is asked, where nothing is kept.
    Ask(Ask),
}

/// What a whole message leads to, with plain values.
#[verifier::ext_equal]
pub enum PlanView {
    Answer(Seq<u8>),
    Ask(AskView),
}

impl View for ExchangePlan {
    type V = PlanView;

    open spec fn view(&self) -> PlanView {
        match *self {
            ExchangePlan::Answer(b) => PlanView::Answer(b@),
            ExchangePlan::Ask(a) => PlanView::Ask(a@),
        }
    }
}

/// A fallible plan with plain values.
pub open spec fn plan_view(r: Result<ExchangePlan, ResolverError>) -> Result<
    PlanView,
    ResolverError,
> {
    match r {
        Ok(p) => Ok(p@),
        Err(e) => Err(e),
    }
}

/// The records that texts stand for.
pub open spec fn read_records(list: Seq<Seq<char>>) -> Seq<record::PredefinedView> {
    Seq::new(list.len(), |i: int| record::record_text(list[i])->Ok_0)
}

/// The answer of a rule with records of its own.
pub open spec fn predefined_answer(rule: DnsRule, request: Seq<u8>, end: int) -> Result<
    Seq<u8>,
    DnsError,
> {
    let texts = rules::rule_records(rule);
    match record::rcode(rule.rcode) {
        Err(e) => Err(e),
        Ok(code) => match rules::texts_error(texts, texts.len()) {
            Some(e) => Err(e),
            None => record::predefined(request, end, code, read_records(texts)),
        },
    }
}

/// The records of a rule that answer a request can be counted.
pub open spec fn rule_countable(rule: DnsRule, request: Seq<u8>, end: int) -> bool {
    let texts = rules::rule_records(rule);
    record::rcode(rule.rcode) is Ok && rules::texts_error(texts, texts.len()) is None
        ==> record::answer_countable(request, end, read_records(texts))
}

/// How long a question waits, by the rule for it; nothing where that is no length
/// of time.
pub open spec fn question_timeout(s: DnsResolver, rule: Option<DnsRule>) -> Option<nat> {
    match rule {
        Some(r) if r.timeout is Some => time::duration_millis(r.timeout->0@),
        _ => Some(s.timeout.millis as nat),
    }
}

/// What is put to a server for a whole message, by the rule for it.
pub open spec fn asked_plan(s: DnsResolver, request: Seq<u8>, rule: Option<DnsRule>) -> Result<
    PlanView,
    ResolverError,
> {
    let tag = match rule {
        Some(r) => text::text_or(text::opt_text(r.server), s.final_tag@),
        None => s.final_tag@,
    };
    let subnet = match rule {
        Some(r) if r.client_subnet is Some => text::opt_text(r.client_subnet),
        _ => text::opt_text(s.client_subnet),
    };
    let asked = match subnet {
        Some(n) => message::with_subnet(request, n),
        None => Ok(request),
    };
    match server_place(s.servers@, tag) {
        None => Err(ResolverError::UnknownServer),
        Some(i) => match asked {
            Err(e) => Err(ResolverError::Dns(e)),
            Ok(wire) => Ok(
                PlanView::Ask(
                    AskView {
                        request_id: wire::be16(request, 0) as u16,
                        server: tag,
                        local: s.servers@[i].kind@ == "local"@,
                        wire,
                        key: KeyView::Wire { query: message::canonical(wire), server: tag },
                        timeout: question_timeout(s, rule),
                        rewrite_ttl: match rule {
                            Some(r) => r.rewrite_ttl,
                            None => None,
                        },
                        use_cache: !(rule matches Some(r) && r.disable_cache),
                    },
                ),
            ),
        },
    }
}

/// What a whole message with a question leads to.
pub open spec fn exchange_plan(
    s: DnsResolver,
    request: Seq<u8>,
    name: &str,
    qtype: u16,
    end: int,
    sets: Option<Seq<RuleSet>>,
) -> Result<PlanView, ResolverError> {
    let rule = rule_for(s.rules@, name, qtype, sets);
    if acts(rule, "reject"@) {
        if text::opt_text(rule->0.method) == Some("drop"@) {
            Err(ResolverError::Dropped)
        } else {
            Ok(
                PlanView::Answer(
                    message::reply_header(
                        request,
                        end,
                        (request[2] | 0x80, (request[3] & 0xf0) | 5),
                        0,
                    ),
                ),
            )
        }
    } else if acts(rule, "predefined"@) {
        match predefined_answer(rule->0, request, end) {
            Ok(b) => Ok(PlanView::Answer(b)),
            Err(e) => Err(ResolverError::Dns(e)),
        }
    } else {
        asked_plan(s, request, rule)
    }
}

/// The records of the rule for a question can be counted, where they answer it.
pub open spec fn plan_countable(
    s: DnsResolver,
    request: Seq<u8>,
    name: &str,
    qtype: u16,
    end: int,
    sets: Option<Seq<RuleSet>>,
) -> bool {
    let rule = rule_for(s.rules@, name, qtype, sets);
    !acts(rule, "reject"@) && acts(rule, "predefined"@) ==> rule_countable(rule->0, request, end)
}

/// How long a question waits, by the rule for it.
fn rule_timeout(rule: Option<&DnsRule>, default: Duration) -> (r: Result<Duration, InvalidDuration>)
    ensures
        match rule {
            Some(x) if x.timeout is Some => match r {
                Ok(t) => time::duration_millis(x.timeout->0@) == Some(t.millis as nat),
                Err(_) => time::duration_millis(x.timeout->0@) is None,
            },
            _ => r == Ok::<Duration, InvalidDuration>(default),
        },
{
    match rule {
        Some(x) => match &x.timeout {
            Some(t) => time::parse_duration(t.as_str()),
            None => Ok(default),
        },
        None => Ok(default),
    }
}

/// Reads the records of a rule, where its code can be read too.
fn rule_answer(rule: &DnsRule) -> (r: Result<(u8, Vec<record::PredefinedRecord>), DnsError>)
    ensures
        ({
            let texts = rules::rule_records(*rule);
            match r {
                Ok((code, records)) => {
                    &&& record::rcode(rule.rcode) == Ok::<u8, DnsError>(code)
                    &&& rules::texts_error(texts, texts.len()) is None
                    &&& record::predefined_views(records@) == read_records(texts)
                },
                Err(e) => match record::rcode(rule.rcode) {
                    Err(f) => e == f,
                    Ok(_) => rules::texts_error(texts, texts.len()) == Some(e),
                },
            }
        }),
{
    let code: u8 = match record::parse_rcode(&rule.rcode) {
        Ok(code) => code,
        Err(e) => {
            return Err(e);
        },
    };
    let list = rules::all_records(rule);
    proof {
        assert(rules::rule_records(*rule).len() == list@.len());
        rules::texts_and_records(list@, list@.len());
    }
    match rules::parse_records(&list) {
        Err(e) => Err(e),
        Ok(records) => {
            proof {
                assert(rules::records_read(list@) =~= read_records(rules::rule_records(*rule))) by {
                    assert forall|i: int| 0 <= i < list@.len() implies rules::records_read(
                        list@,
                    )[i] == read_records(rules::rule_records(*rule))[i] by {
                        assert(text::texts(list@)[i] == list@[i]@);
                    }
                }
            }
            Ok((code, records))
        },
    }
}

fn answer_predefined(rule: &DnsRule, request: &[u8], end: usize) -> (r: Result<Vec<u8>, DnsError>)
    requires
        end >= 12 || end > request@.len(),
        rule_countable(*rule, request@, end as int),
    ensures
        record::bytes_of(r) == predefined_answer(*rule, request@, end as int),
{
    match rule_answer(rule) {
        Err(e) => Err(e),
        Ok((code, records)) => record::predefined_response(request, end, code, records.as_slice()),
    }
}

impl DnsResolver {
    /// Plans the answer to a whole message with a question, where the records of the
    /// rule for it can be counted in an answer.
    pub fn try_plan_exchange(
        &self,
        request: &[u8],
        name: &str,
        qtype: u16,
        end: usize,
        sets: Option<&Vec<RuleSet>>,
    ) -> (r: Option<Result<ExchangePlan, ResolverError>>)
        requires
            self.wf(),
            12 <= end <= request@.len(),
        ensures
            r is Some == plan_countable(
                *self,
                request@,
                name,
                qtype,
                end as int,
                rules::opt_sets(sets),
            ),
            r matches Some(plan) ==> plan_view(plan) == exchange_plan(
                *self,
                request@,
                name,
                qtype,
                end as int,
                rules::opt_sets(sets),
            ),
    {
        match self.select_rule(name, qtype, sets) {
            Some(x) => {
                if !text::opt_is(&x.action, "reject") && text::opt_is(&x.action, "predefined") {
                    match rule_answer(x) {
                        Ok((_, records)) => {
                            if !record::can_count(request, end, records.as_slice()) {
                                return None;
                            }
                        },
                        Err(_) => {},
                    }
                }
            },
            None => {},
        }
        Some(self.plan_exchange(request, name, qtype, end, sets))
    }

    /// Plans the answer to a whole message with a question.
    pub fn plan_exchange(
        &self,
        request: &[u8],
        name: &str,
        qtype: u16,
        end: usize,
        sets: Option<&Vec<RuleSet>>,
    ) -> (r: Result<ExchangePlan, ResolverError>)
        requires
            self.wf(),
            12 <= end <= request@.len(),
            plan_countable(*self, request@, name, qtype, end as int, rules::opt_sets(sets)),
        ensures
            plan_view(r) == exchange_plan(
                *self,
                request@,
                name,
                qtype,
                end as int,
                rules::opt_sets(sets),
            ),
    {
        let rule = self.select_rule(name, qtype, sets);
        match rule {
            Some(x) => {
                if text::opt_is(&x.action, "reject") {
                    if text::opt_is(&x.method, "drop") {
                        return Err(ResolverError::Dropped);
                    }
                    return match message::refused_response(request, end) {
                        Ok(b) => Ok(ExchangePlan::Answer(b)),
                        Err(e) => Err(ResolverError::Dns(e)),
                    };
                }
                if text::opt_is(&x.action, "predefined") {
                    return match answer_predefined(x, request, end) {
                        Ok(b) => Ok(ExchangePlan::Answer(b)),
                        Err(e) => Err(ResolverError::Dns(e)),
                    };
                }
            },
            None => {},
        }
        let tag = match rule {
            Some(x) => text::or_text(&x.server, self.final_tag.as_str()),
            None => text::copy_text(self.final_tag.as_str()),
        };
        let local = match find_server(&self.servers, tag.as_str()) {
            Some(i) => text::same_text(self.servers[i].kind.as_str(), "local"),
            None => {
                return Err(ResolverError::UnknownServer);
            },
        };
        let own = match rule {
            Some(x) => text::copy_opt(&x.client_subnet),
            None => None,
        };
        let subnet = match own {
            Some(n) => Some(n),
            None => text::copy_opt(&self.client_subnet),
        };
        let wire = match &subnet {
            Some(n) => match message::add_client_subnet(request, n.as_str()) {
                Ok(wire) => wire,
                Err(e) => {
                    return Err(ResolverError::Dns(e));
                },
            },
            None => text::copy_bytes(request),
        };
        let key = CacheKey::Wire {
            query: message::canonical_query(wire.as_slice()),
            server: text::copy_text(tag.as_str()),
        };
        let timeout = rule_timeout(rule, self.timeout);
        let (rewrite_ttl, use_cache) = match rule {
            Some(x) => (x.rewrite_ttl, !x.disable_cache),
            None => (None, true),
        };
        Ok(
            ExchangePlan::Ask(
                Ask {
                    request_id: wire::read_u16(request, 0),
                    server: tag,
                    local,
                    wire,
                    key,
                    timeout,
                    rewrite_ttl,
                    use_cache,
                },
            ),
        )
    }
}

/// How long an answer is kept: for its lifetime, where it answers the question or
/// says that the name is not there.
pub open spec fn answer_millis(b: Seq<u8>) -> nat {
    if b[3] & 0x0f == 0 || b[3] & 0x0f == 3 {
        (kept_seconds(answer::message_ttl(b)) * 1000) as nat
    } else {
        0
    }
}

/// The answer of a server with the lifetimes that a rule gives it.
pub open spec fn rewritten(b: Seq<u8>, ttl: Option<u32>) -> Seq<u8> {
    match ttl {
        Some(t) => answer::message_retimed(b, Retime::Replace(t)),
        None => b,
    }
}

/// What is kept of the answer of a server to a whole message, and for how long: it
/// has to answer the question with that number.
pub fn finish_exchange(request_id: u16, response: Vec<u8>, rewrite_ttl: Option<u32>) -> (r: Result<
    (CacheValue, Duration),
    ResolverError,
>)
    ensures
        match r {
            Ok((value, ttl)) => {
                &&& response@.len() >= 12
                &&& wire::be16(response@, 0) == request_id
                &&& response@[2] >= 0x80
                &&& value@ == ValueView::Wire(
                    message::canonical(rewritten(response@, rewrite_ttl)),
                )
                &&& ttl.millis == answer_millis(rewritten(response@, rewrite_ttl))
            },
            Err(e) => e == ResolverError::Dns(
                if response@.len() < 12 {
                    DnsError::TruncatedResponse
                } else if wire::be16(response@, 0) != request_id {
                    DnsError::IdMismatch
                } else {
                    DnsError::NotAResponse
                },
            ) && !(response@.len() >= 12 && wire::be16(response@, 0) == request_id && response@[2]
                >= 0x80),
        },
{
    match message::validate_response(request_id, response.as_slice()) {
        Ok(()) => {},
        Err(e) => {
            return Err(ResolverError::Dns(e));
        },
    }
    let mut message_bytes = response;
    proof {
        if rewrite_ttl is Some && answer::message_records(message_bytes@) is Ok {
            answer::retiming_keeps_records(message_bytes@, Retime::Replace(rewrite_ttl->0));
        }
    }
    match rewrite_ttl {
        Some(t) => {
            answer::rewrite_response_ttls(&mut message_bytes, t);
        },
        None => {},
    }
    let code: u8 = message_bytes[3] & 0x0f;
    let ttl = if code == 0 || code == 3 {
        clamp_ttl(answer::response_ttl(message_bytes.as_slice()))
    } else {
        Duration::from_secs(0)
    };
    let kept = message::canonical_query(message_bytes.as_slice());
    Ok((CacheValue::Wire(kept), ttl))
}

/// The answer to a whole message out of what is kept: with the number of the
/// question.
pub fn answer_exchange(value: CacheValue, request_id: u16) -> (r: Result<Vec<u8>, ResolverError>)
    requires
        value@ matches ValueView::Wire(b) ==> b.len() >= 2,
    ensures
        match r {
            Ok(b) => value@ is Wire && b@ == message::with_id(value@->Wire_0, request_id),
            Err(e) => value@ is Addresses && e == ResolverError::CacheEntry,
        },
{
    match value {
        CacheValue::Wire(mut b) => match message::replace_id(&mut b, request_id) {
            Ok(()) => Ok(b),
            Err(_) => Err(ResolverError::CacheEntry),
        },
        CacheValue::Addresses(_) => Err(ResolverError::CacheEntry),
    }
}

/// A request with a client subnet added keeps it under another number.
proof fn lemma_subnet_id(request: Seq<u8>, subnet: Seq<char>, id: u16)
    requires
        request.len() >= 12,
    ensures
        message::with_subnet(message::with_id(request, id), subnet) == (match message::with_subnet(
            request,
            subnet,
        ) {
            Ok(wire) => Ok::<Seq<u8>, DnsError>(message::with_id(wire, id)),
            Err(e) => Err(e),
        }),
{
    if let Ok(wire) = message::with_subnet(request, subnet) {
        let other = message::with_subnet(message::with_id(request, id), subnet)->Ok_0;
        assert(other =~= message::with_id(wire, id));
    }
}

proof fn lemma_asked_id(s: DnsResolver, request: Seq<u8>, rule: Option<DnsRule>, id: u16)
    requires
        request.len() >= 12,
    ensures
        asked_plan(s, request, rule) matches Ok(PlanView::Ask(a)) ==> asked_plan(
            s,
            message::with_id(request, id),
            rule,
        ) == Ok::<PlanView, ResolverError>(
            PlanView::Ask(AskView { request_id: id, wire: message::with_id(a.wire, id), ..a }),
        ),
{
    message::replaced_id_reads_back(request, id);
    let subnet = match rule {
        Some(r) if r.client_subnet is Some => text::opt_text(r.client_subnet),
        _ => text::opt_text(s.client_subnet),
    };
    if let Some(n) = subnet {
        lemma_subnet_id(request, n, id);
    }
    if let Ok(PlanView::Ask(a)) = asked_plan(s, request, rule) {
        assert(a.wire.len() >= 12);
        message::canonical_ignores_id(a.wire, id);
    }
}

proof fn lemma_question_id(request: Seq<u8>, id: u16)
    requires
        message::question(request) is Ok,
    ensures
        message::question(message::with_id(request, id)) == message::question(request),
{
    let again = message::with_id(request, id);
    let end = message::question(request)->Ok_0.2;
    message::reply_keeps_id_and_question(request, (0, 0), 0, seq![]);
    assert(again.subrange(12, end) =~= request.subrange(12, end));
    message::lemma_same_question_same_labels(request, again, end);
    message::lemma_question_ends(request);
}

/// A message that asks the same under another number is put to the same server, and its
/// answer is kept under the same key.
pub proof fn the_number_does_not_matter(
    s: DnsResolver,
    request: Seq<u8>,
    id: u16,
    name: &str,
    sets: Option<Seq<RuleSet>>,
)
    requires
        message::question(request) is Ok,
    ensures
        message::question(message::with_id(request, id)) == message::question(request),
        exchange_plan(
            s,
            request,
            name,
            message::question(request)->Ok_0.1,
            message::question(request)->Ok_0.2,
            sets,
        ) matches Ok(PlanView::Ask(a)) ==> exchange_plan(
            s,
            message::with_id(request, id),
            name,
            message::question(request)->Ok_0.1,
            message::question(request)->Ok_0.2,
            sets,
        ) == Ok::<PlanView, ResolverError>(
            PlanView::Ask(AskView { request_id: id, wire: message::with_id(a.wire, id), ..a }),
        ),
{
    lemma_question_id(request, id);
    lemma_asked_id(
        s,
        request,
        rule_for(s.rules@, name, message::question(request)->Ok_0.1, sets),
        id,
    );
}

/// Once a message was answered by a server, the same question under another number is
/// answered out of what is kept, as long as that is there and its time is not over: both
/// answers have the number of their question, and the second is the first but for the
/// lifetimes in it, which have grown shorter by the seconds gone by.
pub proof fn the_second_answer_is_the_first_grown_older(
    ask: AskView,
    response: Seq<u8>,
    entries: Seq<EntryView>,
    id: u16,
    first: nat,
    second: nat,
    kept: bool,
)
    requires
        response.len() >= 12,
        ({
            let b = rewritten(response, ask.rewrite_ttl);
            &&& b[3] & 0x0f == 0 || b[3] & 0x0f == 3
            &&& first <= second
            &&& kept || second < first + answer_millis(b)
            &&& cache::keys_unique(entries)
            &&& entries.contains(kept_answer(ask, response, first))
        }),
    ensures
        ({
            let entry = kept_answer(ask, response, first);
            let one = message::with_id(entry.value->Wire_0, ask.request_id);
            let two = cache::found(cache::live(entries, second, kept), ask.key, second);
            let seconds = (second - first) / 1000;
            &&& answer_millis(rewritten(response, ask.rewrite_ttl)) > 0
            &&& wire::be16(one, 0) == ask.request_id
            &&& two matches Some(ValueView::Wire(w)) && wire::be16(message::with_id(w, id), 0) == id
                && message::with_id(w, id) == message::with_id(
                answer::message_retimed(
                    one,
                    Retime::Age(
                        if seconds <= u32::MAX {
                            seconds as u32
                        } else {
                            u32::MAX
                        },
                    ),
                ),
                id,
            )
        }),
{
    let entry = kept_answer(ask, response, first);
    let v = entry.value->Wire_0;
    let seconds = ((second - first) / 1000) as nat;
    let change = Retime::Age(
        if seconds <= u32::MAX {
            seconds as u32
        } else {
            u32::MAX
        },
    );
    let b = rewritten(response, ask.rewrite_ttl);
    assert(b.len() == response.len()) by {
        if let Some(t) = ask.rewrite_ttl {
            answer::retiming_leaves_the_number(response, Retime::Replace(t), 0);
        }
    }
    cache::what_is_there_is_found(entries, entry, second, kept);
    answer::retiming_leaves_the_number(v, change, ask.request_id);
    let w = answer::message_retimed(v, change);
    message::replaced_id_reads_back(v, ask.request_id);
    message::replaced_id_reads_back(w, id);
    assert(message::with_id(message::with_id(w, ask.request_id), id) =~= message::with_id(w, id));
}

/// Two messages that differ only in their number: the first was put to a server, whose
/// answer is kept and not over. The second is planned like the first and answered out of
/// what is kept, each with its own number, and the two answers differ in nothing else but
/// lifetimes, which are lower by the seconds gone by.
pub proof fn the_same_question_is_put_once(
    s: DnsResolver,
    request: Seq<u8>,
    id: u16,
    name: &str,
    sets: Option<Seq<RuleSet>>,
    response: Seq<u8>,
    entries: Seq<EntryView>,
    first: nat,
    second: nat,
)
    requires
        message::question(request) is Ok,
        response.len() >= 12,
        first <= second,
        cache::keys_unique(entries),
        plan_for(s, request, name, sets) matches Ok(PlanView::Ask(a)) && a.use_cache && ({
            let b = rewritten(response, a.rewrite_ttl);
            &&& b[3] & 0x0f == 0 || b[3] & 0x0f == 3
            &&& s.cache.disable_expire || second < first + answer_millis(b)
            &&& entries.contains(kept_answer(a, response, first))
        }),
    ensures
        ({
            let again = message::with_id(request, id);
            let a = plan_for(s, request, name, sets)->Ok_0->Ask_0;
            let one = message::with_id(
                kept_answer(a, response, first).value->Wire_0,
                a.request_id,
            );
            let seconds = (second - first) / 1000;
            &&& plan_for(s, again, name, sets) matches Ok(PlanView::Ask(c)) && c.use_cache
                && c.request_id == id && (cache::found(
                cache::live(entries, second, s.cache.disable_expire),
                c.key,
                second,
            ) matches Some(ValueView::Wire(w)) && message::with_id(w, id) == message::with_id(
                answer::message_retimed(
                    one,
                    Retime::Age(
                        if seconds <= u32::MAX {
                            seconds as u32
                        } else {
                            u32::MAX
                        },
                    ),
                ),
                id,
            ) && wire::be16(message::with_id(w, id), 0) == wire::be16(again, 0))
            &&& wire::be16(one, 0) == wire::be16(request, 0)
        }),
{
    let a = plan_for(s, request, name, sets)->Ok_0->Ask_0;
    the_number_does_not_matter(s, request, id, name, sets);
    message::replaced_id_reads_back(request, id);
    the_second_answer_is_the_first_grown_older(
        a,
        response,
        entries,
        id,
        first,
        second,
        s.cache.disable_expire,
    );
}

/// What a whole message leads to, by its own question.
pub open spec fn plan_for(
    s: DnsResolver,
    request: Seq<u8>,
    name: &str,
    sets: Option<Seq<RuleSet>>,
) -> Result<PlanView, ResolverError> {
    let (_, qtype, end) = message::question(request)->Ok_0;
    exchange_plan(s, request, name, qtype, end, sets)
}

/// What is kept of the answer of a server to a whole message at a time.
pub open spec fn kept_answer(ask: AskView, response: Seq<u8>, now: nat) -> EntryView {
    let b = rewritten(response, ask.rewrite_ttl);
    EntryView {
        key: ask.key,
        value: ValueView::Wire(message::canonical(b)),
        expires: now + answer_millis(b),
        inserted: now,
    }
}

proof fn lemma_rule_for_text(
    list: Seq<DnsRule>,
    one: &str,
    two: &str,
    qtype: u16,
    sets: Option<Seq<RuleSet>>,
)
    requires
        one@ == two@,
    ensures
        rule_for(list, one, qtype, sets) == rule_for(list, two, qtype, sets),
    decreases list.len(),
{
    if list.len() > 0 {
        rules::matching_depends_on_the_text_of_a_name(list[0], one, two, qtype, sets);
        lemma_rule_for_text(list.skip(1), one, two, qtype, sets);
    }
}

/// What is kept answers a question with a number, if it is a whole message.
pub open spec fn kept_reply(value: ValueView, id: u16) -> Result<PlanView, ResolverError> {
    match value {
        ValueView::Wire(b) if b.len() >= 2 => Ok(PlanView::Answer(message::with_id(b, id))),
        _ => Err(ResolverError::CacheEntry),
    }
}

/// Whether what is kept is looked through for a whole message.
pub open spec fn looks_up(
    s: DnsResolver,
    request: Seq<u8>,
    name: &str,
    sets: Option<Seq<RuleSet>>,
) -> bool {
    s.cache_enabled && (plan_for(s, request, name, sets) matches Ok(PlanView::Ask(a))
        && a.use_cache)
}

/// What a whole message leads to at a time: as it is planned, or to an answer out of
/// what is kept.
pub open spec fn exchange_step(
    s: DnsResolver,
    request: Seq<u8>,
    name: &str,
    sets: Option<Seq<RuleSet>>,
    now: nat,
) -> Result<PlanView, ResolverError> {
    let plan = plan_for(s, request, name, sets);
    if looks_up(s, request, name, sets) {
        let a = plan->Ok_0->Ask_0;
        let entries = cache::live(
            cache::entry_views(s.cache.entries@),
            now,
            s.cache.disable_expire,
        );
        match cache::found(entries, a.key, now) {
            Some(value) => kept_reply(value, a.request_id),
            None => plan,
        }
    } else {
        plan
    }
}

impl DnsResolver {
    /// Takes a whole message at a time: it is answered, by a rule or out of what is
    /// kept, or a server is to be asked. Nothing comes of it where the records of the
    /// rule for it cannot be counted in an answer.
    pub fn exchange(&mut self, request: &[u8], now: Duration, sets: Option<&Vec<RuleSet>>) -> (r:
        Option<Result<ExchangePlan, ResolverError>>)
        requires
            old(self).wf(),
        ensures
            final(self).wf(),
            final(self).same_but_kept(old(self)),
            message::question(request@) matches Err(e) ==> *final(self) == *old(self) && r == Some(
                Err::<ExchangePlan, ResolverError>(ResolverError::Dns(e)),
            ),
            message::question(request@) matches Ok((n, qtype, end)) ==> forall|name: &str|
                #![trigger plan_for(*old(self), request@, name, rules::opt_sets(sets))]
                name@ == n ==> {
                    &&& r is Some == plan_countable(
                        *old(self),
                        request@,
                        name,
                        qtype,
                        end,
                        rules::opt_sets(sets),
                    )
                    &&& r matches Some(plan) ==> plan_view(plan) == exchange_step(
                        *old(self),
                        request@,
                        name,
                        rules::opt_sets(sets),
                        now.millis as nat,
                    )
                    &&& cache::entry_views(final(self).cache.entries@) == (if r is Some && looks_up(
                        *old(self),
                        request@,
                        name,
                        rules::opt_sets(sets),
                    ) {
                        cache::used(
                            cache::live(
                                cache::entry_views(old(self).cache.entries@),
                                now.millis as nat,
                                old(self).cache.disable_expire,
                            ),
                            plan_for(
                                *old(self),
                                request@,
                                name,
                                rules::opt_sets(sets),
                            )->Ok_0->Ask_0.key,
                        )
                    } else {
                        cache::entry_views(old(self).cache.entries@)
                    })
                },
    {
        let (own, qtype, end) = match message::parse_question(request) {
            Err(e) => {
                return Some(Err(ResolverError::Dns(e)));
            },
            Ok(parsed) => parsed,
        };
        let text = own.as_str();
        let ghost all = rules::opt_sets(sets);
        proof {
            assert forall|name: &str|
                #![trigger plan_for(*old(self), request@, name, all)]
                name@ == own@ implies rule_for(old(self).rules@, name, qtype, all) == rule_for(
                old(self).rules@,
                text,
                qtype,
                all,
            ) by {
                lemma_rule_for_text(old(self).rules@, name, text, qtype, all);
            }
        }
        let plan = match self.try_plan_exchange(request, text, qtype, end, sets) {
            None => {
                return None;
            },
            Some(plan) => plan,
        };
        match plan {
            Ok(ExchangePlan::Ask(ask)) => {
                if !ask.use_cache {
                    return Some(Ok(ExchangePlan::Ask(ask)));
                }
                match self.kept(&ask.key, now) {
                    None => Some(Ok(ExchangePlan::Ask(ask))),
                    Some(value) => {
                        let whole = match &value {
                            CacheValue::Wire(b) => b.len() >= 2,
                            CacheValue::Addresses(_) => true,
                        };
                        if !whole {
                            return Some(Err(ResolverError::CacheEntry));
                        }
                        match answer_exchange(value, ask.request_id) {
                            Ok(b) => Some(Ok(ExchangePlan::Answer(b))),
                            Err(e) => Some(Err(e)),
                        }
                    },
                }
            },
            other => Some(other),
        }
    }

    /// Takes the answer of a server to a whole message at a time: what it is, once it
    /// answers the question, to be given the number of a question. It is kept where it
    /// is to be.
    pub fn exchanged(&mut self, ask: &Ask, response: Vec<u8>, now: Duration) -> (r: Result<
        CacheValue,
        ResolverError,
    >)
        requires
            old(self).wf(),
            now.millis + 86_400_000 <= u128::MAX,
        ensures
            final(self).wf(),
            final(self).same_but_kept(old(self)),
            match r {
                Ok(value) => {
                    let b = rewritten(response@, ask.rewrite_ttl);
                    &&& response@.len() >= 12
                    &&& wire::be16(response@, 0) == ask.request_id
                    &&& response@[2] >= 0x80
                    &&& value@ == kept_answer(ask@, response@, now.millis as nat).value
                    &&& cache::entry_views(final(self).cache.entries@) == (if ask.use_cache
                        && old(self).cache_enabled && answer_millis(b) > 0 {
                        cache::with_entry(
                            cache::live(
                                cache::entry_views(old(self).cache.entries@),
                                now.millis as nat,
                                old(self).cache.disable_expire,
                            ),
                            kept_answer(ask@, response@, now.millis as nat),
                            old(self).cache.capacity as nat,
                        )
                    } else {
                        cache::entry_views(old(self).cache.entries@)
                    })
                },
                Err(e) => *final(self) == *old(self) && e == ResolverError::Dns(
                    if response@.len() < 12 {
                        DnsError::TruncatedResponse
                    } else if wire::be16(response@, 0) != ask.request_id {
                        DnsError::IdMismatch
                    } else {
                        DnsError::NotAResponse
                    },
                ) && !(response@.len() >= 12 && wire::be16(response@, 0) == ask.request_id
                    && response@[2] >= 0x80),
            },
    {
        match finish_exchange(ask.request_id, response, ask.rewrite_ttl) {
            Err(e) => Err(e),
            Ok((value, ttl)) => {
                if ask.use_cache {
                    self.keep(ask.key.copy(), &value, ttl, now);
                }
                Ok(value)
            },
        }
    }
}

/// Two messages that differ only in their number: the first was put to a server, whose
/// answer is kept and not over. The second is answered at once, with its own number,
/// and the two answers differ in nothing else but lifetimes, which are lower by the
/// seconds gone by.
#[verifier::rlimit(40)]
pub proof fn the_same_question_is_answered_at_once(
    s: DnsResolver,
    request: Seq<u8>,
    id: u16,
    name: &str,
    sets: Option<Seq<RuleSet>>,
    response: Seq<u8>,
    first: nat,
    second: nat,
)
    requires
        s.wf(),
        s.cache_enabled,
        message::question(request) is Ok,
        response.len() >= 12,
        first <= second,
        plan_for(s, request, name, sets) matches Ok(PlanView::Ask(a)) && a.use_cache && ({
            let b = rewritten(response, a.rewrite_ttl);
            &&& b[3] & 0x0f == 0 || b[3] & 0x0f == 3
            &&& s.cache.disable_expire || second < first + answer_millis(b)
            &&& cache::entry_views(s.cache.entries@).contains(kept_answer(a, response, first))
        }),
    ensures
        ({
            let a = plan_for(s, request, name, sets)->Ok_0->Ask_0;
            let one = message::with_id(
                kept_answer(a, response, first).value->Wire_0,
                a.request_id,
            );
            let seconds = (second - first) / 1000;
            &&& wire::be16(one, 0) == wire::be16(request, 0)
            &&& exchange_step(s, message::with_id(request, id), name, sets, second) == Ok::<
                PlanView,
                ResolverError,
            >(
                PlanView::Answer(
                    message::with_id(
                        answer::message_retimed(
                            one,
                            Retime::Age(
                                if seconds <= u32::MAX {
                                    seconds as u32
                                } else {
                                    u32::MAX
                                },
                            ),
                        ),
                        id,
                    ),
                ),
            )
        }),
{
    let entries = cache::entry_views(s.cache.entries@);
    the_same_question_is_put_once(s, request, id, name, sets, response, entries, first, second);
    let a = plan_for(s, request, name, sets)->Ok_0->Ask_0;
    let again = message::with_id(request, id);
    let c = plan_for(s, again, name, sets)->Ok_0->Ask_0;
    let w = cache::found(
        cache::live(entries, second, s.cache.disable_expire),
        c.key,
        second,
    )->0->Wire_0;
    assert(w.len() >= 2) by {
        the_number_does_not_matter(s, request, id, name, sets);
        cache::what_is_there_is_found(
            entries,
            kept_answer(a, response, first),
            second,
            s.cache.disable_expire,
        );
        lemma_kept_length(a, response, first, ((second - first) / 1000) as nat);
    }
    lemma_step_answers(s, again, name, sets, second, w);
}

/// What is kept of an answer is as long as the answer, however old it is.
proof fn lemma_kept_length(a: AskView, response: Seq<u8>, first: nat, seconds: nat)
    requires
        response.len() >= 12,
    ensures
        cache::aged(kept_answer(a, response, first).value, seconds)->Wire_0.len()
            == response.len(),
        cache::aged(kept_answer(a, response, first).value, seconds) is Wire,
{
    let b = rewritten(response, a.rewrite_ttl);
    if let Some(t) = a.rewrite_ttl {
        answer::retiming_leaves_the_number(response, Retime::Replace(t), 0);
    }
    let v = message::canonical(b);
    answer::retiming_leaves_the_number(
        v,
        Retime::Age(
            if seconds <= u32::MAX {
                seconds as u32
            } else {
                u32::MAX
            },
        ),
        0,
    );
}

proof fn lemma_step_answers(
    s: DnsResolver,
    request: Seq<u8>,
    name: &str,
    sets: Option<Seq<RuleSet>>,
    now: nat,
    w: Seq<u8>,
)
    requires
        s.cache_enabled,
        w.len() >= 2,
        plan_for(s, request, name, sets) matches Ok(PlanView::Ask(c)) && c.use_cache
            && cache::found(
            cache::live(cache::entry_views(s.cache.entries@), now, s.cache.disable_expire),
            c.key,
            now,
        ) == Some(ValueView::Wire(w)),
    ensures
        exchange_step(s, request, name, sets, now) == Ok::<PlanView, ResolverError>(
            PlanView::Answer(
                message::with_id(w, plan_for(s, request, name, sets)->Ok_0->Ask_0.request_id),
            ),
        ),
{
}

// ---- addresses of a name ----

/// What a lookup of addresses leads to.
#[derive(Debug)]
pub enum LookupPlan {
    /// The addresses are known.
    Addresses(Vec<IpAddr>),
    /// A server is asked, where nothing is kept: the one with a tag, or the
    /// default one.
    Ask {
        server: Option<String>,
        client_subnet: Option<String>,
        key: CacheKey,
        timeout: Duration,
        rewrite_ttl: Option<u32>,
        use_cache: bool,
    },
}

/// What a lookup of addresses leads to, with plain values.
#[verifier::ext_equal]
pub enum LookupView {
    Addresses(Seq<IpAddr>),
    Ask {
        server: Option<Seq<char>>,
        client_subnet: Option<Seq<char>>,
        key: KeyView,
        timeout: nat,
        rewrite_ttl: Option<u32>,
        use_cache: bool,
    },
}

impl View for LookupPlan {
    type V = LookupView;

    open spec fn view(&self) -> LookupView {
        match *self {
            LookupPlan::Addresses(list) => LookupView::Addresses(list@),
            LookupPlan::Ask { server, client_subnet, key, timeout, rewrite_ttl, use_cache } =>
            LookupView::Ask {
                server: text::opt_text(server),
                client_subnet: text::opt_text(client_subnet),
                key: key@,
                timeout: timeout.millis as nat,
                rewrite_ttl,
                use_cache,
            },
        }
    }
}

/// A fallible plan of a lookup with plain values.
pub open spec fn lookup_view(r: Result<LookupPlan, ResolverError>) -> Result<
    LookupView,
    ResolverError,
> {
    match r {
        Ok(p) => Ok(p@),
        Err(e) => Err(e),
    }
}

/// The addresses of a type among records; a record of the newer family that is not
/// as long as an address is an error.
pub open spec fn addresses_among(list: Seq<record::PredefinedView>, qtype: u16) -> Option<
    Seq<IpAddr>,
>
    decreases list.len(),
{
    if list.len() == 0 {
        Some(Seq::empty())
    } else {
        let last = list.last();
        match addresses_among(list.drop_last(), qtype) {
            None => None,
            Some(before) => if qtype == 1 && last.kind == 1 && last.rdata.len() == 4 {
                Some(before.push(IpAddr::V4(wire::be32(last.rdata, 0) as u32)))
            } else if qtype == 28 && last.kind == 28 {
                if last.rdata.len() == 16 {
                    Some(before.push(IpAddr::V6(wire::be128(last.rdata, 0) as u128)))
                } else {
                    None
                }
            } else {
                Some(before)
            },
        }
    }
}

proof fn lemma_addresses_stop(list: Seq<record::PredefinedView>, qtype: u16, n: int)
    requires
        0 <= n <= list.len(),
        addresses_among(list.take(n), qtype) is None,
    ensures
        addresses_among(list, qtype) is None,
    decreases list.len() - n,
{
    if n < list.len() {
        let next = list.take(n + 1);
        assert(next.drop_last() =~= list.take(n));
        lemma_addresses_stop(list, qtype, n + 1);
    } else {
        assert(list.take(n) =~= list);
    }
}

fn read_addresses(list: &Vec<record::PredefinedRecord>, qtype: u16) -> (r: Option<Vec<IpAddr>>)
    ensures
        match r {
            Some(v) => addresses_among(record::predefined_views(list@), qtype) == Some(v@),
            None => addresses_among(record::predefined_views(list@), qtype) is None,
        },
{
    let ghost all = record::predefined_views(list@);
    let mut r: Vec<IpAddr> = Vec::new();
    let mut i: usize = 0;
    proof {
        assert(all.take(0) =~= Seq::<record::PredefinedView>::empty());
    }
    while i < list.len()
        invariant
            i <= list@.len(),
            all == record::predefined_views(list@),
            addresses_among(all.take(i as int), qtype) == Some(r@),
        decreases list@.len() - i,
    {
        let item = &list[i];
        proof {
            assert(all.take(i + 1).drop_last() =~= all.take(i as int));
            assert(all.take(i + 1).last() == item@);
        }
        if qtype == 1 && item.kind == 1 && item.rdata.len() == 4 {
            r.push(IpAddr::V4(wire::read_u32(item.rdata.as_slice(), 0)));
        } else if qtype == 28 && item.kind == 28 {
            if item.rdata.len() != 16 {
                proof {
                    lemma_addresses_stop(all, qtype, i + 1);
                }
                return None;
            }
            r.push(IpAddr::V6(wire::read_u128(item.rdata.as_slice(), 0)));
        }
        i = i + 1;
    }
    proof {
        assert(all.take(i as int) =~= all);
    }
    Some(r)
}

/// The addresses that a rule with records of its own gives.
pub open spec fn predefined_addresses(rule: DnsRule, qtype: u16) -> Result<
    Seq<IpAddr>,
    ResolverError,
> {
    let texts = rules::rule_records(rule);
    match record::rcode(rule.rcode) {
        Err(e) => Err(ResolverError::Dns(e)),
        Ok(code) => if code != 0 {
            Err(ResolverError::Rcode(code))
        } else {
            match rules::texts_error(texts, texts.len()) {
                Some(e) => Err(ResolverError::Dns(e)),
                None => match addresses_among(read_records(texts), qtype) {
                    None => Err(ResolverError::InvalidAaaa),
                    Some(list) => Ok(ordered(list)),
                },
            }
        },
    }
}

/// Addresses or why there are none, with plain values.
pub open spec fn addresses_view(r: Result<Vec<IpAddr>, ResolverError>) -> Result<
    Seq<IpAddr>,
    ResolverError,
> {
    match r {
        Ok(v) => Ok(v@),
        Err(e) => Err(e),
    }
}

fn lookup_predefined(rule: &DnsRule, qtype: u16) -> (r: Result<Vec<IpAddr>, ResolverError>)
    ensures
        addresses_view(r) == predefined_addresses(*rule, qtype),
{
    let code: u8 = match record::parse_rcode(&rule.rcode) {
        Ok(code) => code,
        Err(e) => {
            return Err(ResolverError::Dns(e));
        },
    };
    if code != 0 {
        return Err(ResolverError::Rcode(code));
    }
    let list = rules::all_records(rule);
    proof {
        assert(rules::rule_records(*rule).len() == list@.len());
        rules::texts_and_records(list@, list@.len());
    }
    let records = match rules::parse_records(&list) {
        Err(e) => {
            return Err(ResolverError::Dns(e));
        },
        Ok(records) => records,
    };
    proof {
        assert(rules::records_read(list@) =~= read_records(rules::rule_records(*rule))) by {
            assert forall|i: int| 0 <= i < list@.len() implies rules::records_read(list@)[i]
                == read_records(rules::rule_records(*rule))[i] by {
                assert(text::texts(list@)[i] == list@[i]@);
            }
        }
    }
    match read_addresses(&records, qtype) {
        None => Err(ResolverError::InvalidAaaa),
        Some(addresses) => Ok(order_addresses(&addresses)),
    }
}

/// What a lookup of addresses of a type leads to. A lookup at a server of its own
/// is not subject to rules.
pub open spec fn lookup_plan(
    s: DnsResolver,
    name: &str,
    qtype: u16,
    options: LookupOptions,
    sets: Option<Seq<RuleSet>>,
) -> Result<LookupView, ResolverError> {
    let rule = if options.server is None {
        rule_for(s.rules@, name, qtype, sets)
    } else {
        None
    };
    if acts(rule, "reject"@) {
        Err(ResolverError::Rejected)
    } else if acts(rule, "predefined"@) {
        match predefined_addresses(rule->0, qtype) {
            Ok(list) => Ok(LookupView::Addresses(list)),
            Err(e) => Err(e),
        }
    } else {
        let server = match (options.server, rule) {
            (Some(t), _) => Some(t@),
            (None, Some(r)) => text::opt_text(r.server),
            (None, None) => None,
        };
        let subnet = match (options.client_subnet, rule) {
            (Some(n), _) => Some(n@),
            (None, Some(r)) if r.client_subnet is Some => text::opt_text(r.client_subnet),
            _ => text::opt_text(s.client_subnet),
        };
        if subnet is Some && net::net_or_ip_text(subnet->0) is None {
            Err(ResolverError::Dns(DnsError::InvalidClientSubnet))
        } else if question_timeout(s, rule) is None {
            Err(ResolverError::Timeout(InvalidDuration))
        } else {
            Ok(
                LookupView::Ask {
                    server,
                    client_subnet: subnet,
                    key: KeyView::Lookup { name: name@, qtype, server, client_subnet: subnet },
                    timeout: match options.timeout {
                        Some(t) => t.millis as nat,
                        None => question_timeout(s, rule)->0,
                    },
                    rewrite_ttl: match (options.rewrite_ttl, rule) {
                        (Some(t), _) => Some(t),
                        (None, Some(r)) => r.rewrite_ttl,
                        (None, None) => None,
                    },
                    use_cache: !options.disable_cache && !(rule matches Some(r) && r.disable_cache),
                },
            )
        }
    }
}

/// Whether the addresses of a lookup are refused by the limits of the rule for it.
pub open spec fn limited(
    s: DnsResolver,
    name: &str,
    qtype: u16,
    options: LookupOptions,
    addresses: Seq<IpAddr>,
    sets: Option<Seq<RuleSet>>,
) -> bool {
    options.server is None && (rule_for(s.rules@, name, qtype, sets) matches Some(x)
        && rules::has_limit(x, sets) && !rules::limit_matches(x, name, addresses, sets))
}

impl DnsResolver {
    /// Plans a lookup of addresses of a type.
    pub fn plan_lookup(
        &self,
        name: &str,
        qtype: u16,
        options: &LookupOptions,
        sets: Option<&Vec<RuleSet>>,
    ) -> (r: Result<LookupPlan, ResolverError>)
        ensures
            lookup_view(r) == lookup_plan(*self, name, qtype, *options, rules::opt_sets(sets)),
    {
        let rule = match options.server {
            None => self.select_rule(name, qtype, sets),
            Some(_) => None,
        };
        match rule {
            Some(x) => {
                if text::opt_is(&x.action, "reject") {
                    return Err(ResolverError::Rejected);
                }
                if text::opt_is(&x.action, "predefined") {
                    return match lookup_predefined(x, qtype) {
                        Ok(list) => Ok(LookupPlan::Addresses(list)),
                        Err(e) => Err(e),
                    };
                }
            },
            None => {},
        }
        let server = match options.server {
            Some(t) => Some(text::copy_text(t)),
            None => match rule {
                Some(x) => text::copy_opt(&x.server),
                None => None,
            },
        };
        let own = match options.client_subnet {
            Some(n) => Some(text::copy_text(n)),
            None => match rule {
                Some(x) => text::copy_opt(&x.client_subnet),
                None => None,
            },
        };
        let client_subnet = match own {
            Some(n) => Some(n),
            None => text::copy_opt(&self.client_subnet),
        };
        match &client_subnet {
            Some(n) => match message::parse_client_subnet(n.as_str()) {
                Ok(_) => {},
                Err(e) => {
                    return Err(ResolverError::Dns(e));
                },
            },
            None => {},
        }
        let by_rule = match rule_timeout(rule, self.timeout) {
            Ok(t) => t,
            Err(e) => {
                return Err(ResolverError::Timeout(e));
            },
        };
        let timeout = match options.timeout {
            Some(t) => t,
            None => by_rule,
        };
        let rewrite_ttl = match options.rewrite_ttl {
            Some(t) => Some(t),
            None => match rule {
                Some(x) => x.rewrite_ttl,
                None => None,
            },
        };
        let disabled = match rule {
            Some(x) => x.disable_cache,
            None => false,
        };
        let key = CacheKey::Lookup {
            name: text::copy_text(name),
            qtype,
            server: text::copy_opt(&server),
            client_subnet: text::copy_opt(&client_subnet),
        };
        Ok(
            LookupPlan::Ask {
                server,
                client_subnet,
                key,
                timeout,
                rewrite_ttl,
                use_cache: !options.disable_cache && !disabled,
            },
        )
    }

    /// Takes the addresses of a lookup, unless the rule for it limits them to
    /// others.
    pub fn accept_addresses(
        &self,
        name: &str,
        qtype: u16,
        options: &LookupOptions,
        addresses: Vec<IpAddr>,
        sets: Option<&Vec<RuleSet>>,
    ) -> (r: Result<Vec<IpAddr>, ResolverError>)
        ensures
            ({
                let rule = if options.server is None {
                    rule_for(self.rules@, name, qtype, rules::opt_sets(sets))
                } else {
                    None
                };
                let refused = rule matches Some(x) && rules::has_limit(x, rules::opt_sets(sets))
                    && !rules::limit_matches(x, name, addresses@, rules::opt_sets(sets));
                match r {
                    Ok(v) => !refused && v@ == addresses@,
                    Err(e) => refused && e == ResolverError::AddressLimit,
                }
            }),
            r is Err <==> limited(
                *self,
                name,
                qtype,
                *options,
                addresses@,
                rules::opt_sets(sets),
            ),
    {
        let rule = match options.server {
            None => self.select_rule(name, qtype, sets),
            Some(_) => None,
        };
        match rule {
            Some(x) => {
                if rules::dns_rule_has_address_limit(x, sets)
                    && !rules::dns_rule_address_limit_matches(x, name, &addresses, sets) {
                    return Err(ResolverError::AddressLimit);
                }
            },
            None => {},
        }
        Ok(addresses)
    }
}

/// The question for the addresses of a name, under a number by chance.
pub fn start_lookup(name: &str, qtype: u16, client_subnet: Option<&str>) -> (r: Result<
    (u16, Vec<u8>),
    DnsError,
>)
    ensures
        match r {
            Ok((id, query)) => message::query_wire(id, name@, qtype, text::opt_str(client_subnet))
                == Ok::<Seq<u8>, DnsError>(query@),
            Err(e) => exists|id: u16|
                #[trigger] message::query_wire(id, name@, qtype, text::opt_str(client_subnet))
                    == Err::<Seq<u8>, DnsError>(e),
        },
{
    let id: u16 = config::random_between(0, 0xffff) as u16;
    match message::build_query_with_subnet(id, name, qtype, client_subnet) {
        Ok(query) => Ok((id, query)),
        Err(e) => Err(e),
    }
}

/// What is kept of the answer of a server to a lookup, and for how long.
pub fn finish_lookup(id: u16, qtype: u16, response: &[u8], rewrite_ttl: Option<u32>) -> (r: Result<
    (CacheValue, Duration),
    ResolverError,
>)
    ensures
        match answer::response_addresses(id, qtype, response@) {
            Ok((list, ttl)) => r matches Ok((value, t)) && value@ == ValueView::Addresses(list)
                && t.millis == kept_seconds(
                match rewrite_ttl {
                    Some(n) => n,
                    None => ttl,
                },
            ) * 1000,
            Err(e) => r == Err::<(CacheValue, Duration), ResolverError>(ResolverError::Dns(e)),
        },
{
    match answer::parse_response(id, qtype, response) {
        Ok((list, ttl)) => {
            let seconds: u32 = match rewrite_ttl {
                Some(n) => n,
                None => ttl,
            };
            Ok((CacheValue::Addresses(list), clamp_ttl(seconds)))
        },
        Err(e) => Err(ResolverError::Dns(e)),
    }
}

/// What is kept of the addresses that the system gives, and for how long: those of
/// the type, for 30 seconds where nothing else is said.
pub fn finish_local(addresses: &Vec<IpAddr>, qtype: u16, rewrite_ttl: Option<u32>) -> (r: (
    CacheValue,
    Duration,
))
    ensures
        r.0@ == ValueView::Addresses(
            if qtype == 1 {
                of_family(addresses@, false)
            } else if qtype == 28 {
                of_family(addresses@, true)
            } else {
                Seq::empty()
            },
        ),
        r.1.millis == kept_seconds(
            match rewrite_ttl {
                Some(n) => n,
                None => 30,
            },
        ) * 1000,
{
    let list = if qtype == 1 {
        select_family(addresses, false)
    } else if qtype == 28 {
        select_family(addresses, true)
    } else {
        Vec::new()
    };
    let seconds: u32 = match rewrite_ttl {
        Some(n) => n,
        None => 30,
    };
    (CacheValue::Addresses(list), clamp_ttl(seconds))
}

// ---- what is kept ----

impl DnsResolver {
    /// What is kept for a key, where anything is kept at all.
    pub fn kept(&mut self, key: &CacheKey, now: Duration) -> (r: Option<CacheValue>)
        requires
            old(self).cache.wf(),
        ensures
            final(self).cache.wf(),
            final(self).same_but_kept(old(self)),
            old(self).wf() ==> final(self).wf(),
            !old(self).cache_enabled ==> r is None && *final(self) == *old(self),
            old(self).cache_enabled ==> ({
                let s = cache::live(
                    cache::entry_views(old(self).cache.entries@),
                    now.millis as nat,
                    old(self).cache.disable_expire,
                );
                &&& match r {
                    Some(v) => cache::found(s, key@, now.millis as nat) == Some(v@),
                    None => cache::found(s, key@, now.millis as nat) is None,
                }
                &&& cache::entry_views(final(self).cache.entries@)
                    == cache::used(s, key@)
            }),
    {
        if !self.cache_enabled {
            return None;
        }
        self.cache.get(key, now)
    }

    /// Keeps an answer, where anything is kept and the answer is to be.
    pub fn keep(&mut self, key: CacheKey, value: &CacheValue, ttl: Duration, now: Duration)
        requires
            old(self).cache.wf(),
            now.millis + ttl.millis <= u128::MAX,
        ensures
            final(self).cache.wf(),
            final(self).same_but_kept(old(self)),
            old(self).wf() ==> final(self).wf(),
            !old(self).cache_enabled || ttl.millis == 0 ==> *final(self) == *old(self),
            old(self).cache_enabled && ttl.millis > 0 ==> cache::entry_views(
                final(self).cache.entries@,
            ) == cache::with_entry(
                cache::live(
                    cache::entry_views(old(self).cache.entries@),
                    now.millis as nat,
                    old(self).cache.disable_expire,
                ),
                cache::EntryView {
                    key: key@,
                    value: value@,
                    expires: (now.millis + ttl.millis) as nat,
                    inserted: now.millis as nat,
                },
                old(self).cache.capacity as nat,
            ),
    {
        if self.cache_enabled && ttl.millis > 0 {
            self.cache.insert(key, value.copy(), ttl, now);
        }
    }
}

} // verus!
