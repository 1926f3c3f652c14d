//! What a compiled route rule matches.
use crate::dns::message;
use crate::net::{IpAddr, IpNet};
use crate::pattern;
use crate::routing::options::RuleAction;
use crate::text;
use std::sync::Arc;
use vstd::prelude::*;

verus! {

/// Addresses under a name.
#[derive(Debug)]
pub struct NamedAddresses {
    pub name: String,
    pub addresses: Vec<IpAddr>,
}

/// Networks under a name.
#[derive(Debug)]
pub struct NamedNets {
    pub name: String,
    pub nets: Vec<IpNet>,
}

/// A range of ports, both ends included.
#[derive(Clone, Copy, Debug, PartialEq, Eq, Structural)]
pub struct PortRange {
    pub first: u16,
    pub last: u16,
}

/// What is known of a connection.
#[derive(Clone, Copy, Debug)]
pub struct RouteContext<'a> {
    pub domain: Option<&'a str>,
    pub destination_ip: Option<IpAddr>,
    pub destination_port: Option<u16>,
    pub source_ip: Option<IpAddr>,
    pub source_port: Option<u16>,
    pub network: Option<&'a str>,
    pub protocol: Option<&'a str>,
    pub client: Option<&'a str>,
    pub inbound: Option<&'a str>,
    pub auth_user: Option<&'a str>,
    pub process_name: Option<&'a str>,
    pub process_path: Option<&'a str>,
    pub package_name: Option<&'a str>,
    pub user: Option<&'a str>,
    pub user_id: Option<u32>,
    pub clash_mode: Option<&'a str>,
    pub network_type: Option<&'a str>,
    pub network_is_expensive: bool,
    pub network_is_constrained: bool,
    pub wifi_ssid: Option<&'a str>,
    pub wifi_bssid: Option<&'a str>,
    pub interface_addresses: Option<&'a Vec<NamedAddresses>>,
    pub network_interface_addresses: Option<&'a Vec<NamedAddresses>>,
    pub source_mac_address: Option<&'a str>,
    pub source_hostname: Option<&'a str>,
    pub default_interface_addresses: Option<&'a Vec<IpAddr>>,
    pub preferred_by: Option<&'a Vec<String>>,
}

impl<'a> RouteContext<'a> {
    /// Nothing is known.
    pub open spec fn unknown(self) -> bool {
        &&& self.domain is None
        &&& self.destination_ip is None
        &&& self.destination_port is None
        &&& self.source_ip is None
        &&& self.source_port is None
        &&& self.network is None
        &&& self.protocol is None
        &&& self.client is None
        &&& self.inbound is None
        &&& self.auth_user is None
        &&& self.process_name is None
        &&& self.process_path is None
        &&& self.package_name is None
        &&& self.user is None
        &&& self.user_id is None
        &&& self.clash_mode is None
        &&& self.network_type is None
        &&& !self.network_is_expensive
        &&& !self.network_is_constrained
        &&& self.wifi_ssid is None
        &&& self.wifi_bssid is None
        &&& self.interface_addresses is None
        &&& self.network_interface_addresses is None
        &&& self.source_mac_address is None
        &&& self.source_hostname is None
        &&& self.default_interface_addresses is None
        &&& self.preferred_by is None
    }

    /// The context in which the source stands for the destination.
    pub open spec fn by_source(self) -> RouteContext<'a> {
        RouteContext { destination_ip: self.source_ip, ..self }
    }
}

impl<'a> Default for RouteContext<'a> {
    fn default() -> (r: RouteContext<'a>)
        ensures
            r.unknown(),
    {
        RouteContext {
            domain: None,
            destination_ip: None,
            destination_port: None,
            source_ip: None,
            source_port: None,
            network: None,
            protocol: None,
            client: None,
            inbound: None,
            auth_user: None,
            process_name: None,
            process_path: None,
            package_name: None,
            user: None,
            user_id: None,
            clash_mode: None,
            network_type: None,
            network_is_expensive: false,
            network_is_constrained: false,
            wifi_ssid: None,
            wifi_bssid: None,
            interface_addresses: None,
            network_interface_addresses: None,
            source_mac_address: None,
            source_hostname: None,
            default_interface_addresses: None,
            preferred_by: None,
        }
    }
}

/// How a logical rule joins its parts.
#[derive(Clone, Copy, Debug, PartialEq, Eq, Structural)]
pub enum LogicalMode {
    And,
    Or,
}

/// A rule ready for matching: names in normal form, networks and ports read.
#[derive(Debug)]
pub struct CompiledRule {
    pub logical_mode: Option<LogicalMode>,
    pub logical_rules: Vec<CompiledRule>,
    pub domains: Vec<String>,
    pub suffixes: Vec<String>,
    pub keywords: Vec<String>,
    pub regexes: Vec<String>,
    pub cidrs: Vec<IpNet>,
    pub source_cidrs: Vec<IpNet>,
    pub ip_versions: Vec<u8>,
    pub ip_private: bool,
    pub source_private: bool,
    pub source_ports: Vec<PortRange>,
    pub ports: Vec<PortRange>,
    pub networks: Vec<String>,
    pub protocols: Vec<String>,
    pub clients: Vec<String>,
    pub inbounds: Vec<String>,
    pub auth_users: Vec<String>,
    pub process_names: Vec<String>,
    pub process_paths: Vec<String>,
    pub process_path_regexes: Vec<String>,
    pub package_names: Vec<String>,
    pub package_name_regexes: Vec<String>,
    pub users: Vec<String>,
    pub user_ids: Vec<u32>,
    pub clash_mode: Option<String>,
    pub network_types: Vec<String>,
    pub network_is_expensive: bool,
    pub network_is_constrained: bool,
    pub wifi_ssids: Vec<String>,
    pub wifi_bssids: Vec<String>,
    pub interface_addresses: Vec<NamedNets>,
    pub network_interface_addresses: Vec<NamedNets>,
    pub source_mac_addresses: Vec<String>,
    pub source_hostnames: Vec<String>,
    pub default_interface_addresses: Vec<IpNet>,
    pub preferred_by: Vec<String>,
    pub rule_sets: Vec<Arc<Vec<CompiledRule>>>,
    pub rule_set_ip_cidr_match_source: bool,
    pub action: RuleAction,
    pub invert: bool,
}

// ---- single conditions ----

/// One of the texts is `v`.
pub open spec fn any_same(list: Seq<String>, v: Seq<char>) -> bool {
    exists|i: int| 0 <= i < list.len() && (#[trigger] list[i])@ == v
}

/// One of the texts is `v` but for ASCII case.
pub open spec fn any_folded(list: Seq<String>, v: Seq<char>) -> bool {
    exists|i: int| 0 <= i < list.len() && text::lower((#[trigger] list[i])@) == text::lower(v)
}

/// A name is a suffix's own name or a name below it.
pub open spec fn name_under(name: Seq<char>, suffix: Seq<char>) -> bool {
    name == suffix || text::ends_with(name, seq!['.'] + suffix)
}

pub open spec fn any_under(list: Seq<String>, name: Seq<char>) -> bool {
    exists|i: int| 0 <= i < list.len() && name_under(name, (#[trigger] list[i])@)
}

pub open spec fn any_part(list: Seq<String>, name: Seq<char>) -> bool {
    exists|i: int| 0 <= i < list.len() && text::has_part(name, (#[trigger] list[i])@)
}

/// A pattern that compiles and finds a match.
pub open spec fn found(p: Seq<char>, v: Seq<char>) -> bool {
    pattern::pattern_valid(p) && pattern::pattern_finds(p, v)
}

pub open spec fn any_found(list: Seq<String>, v: Seq<char>) -> bool {
    exists|i: int| 0 <= i < list.len() && found((#[trigger] list[i])@, v)
}

pub open spec fn any_holds(list: Seq<IpNet>, ip: IpAddr) -> bool {
    exists|i: int| 0 <= i < list.len() && (#[trigger] list[i]).holds(ip)
}

pub open spec fn in_range(r: PortRange, port: u16) -> bool {
    r.first <= port <= r.last
}

pub open spec fn any_range(list: Seq<PortRange>, port: u16) -> bool {
    exists|i: int| 0 <= i < list.len() && in_range(#[trigger] list[i], port)
}

pub open spec fn is_version(version: u8, ip: IpAddr) -> bool {
    version == 4 && ip is V4 || version == 6 && ip is V6
}

pub open spec fn any_version(list: Seq<u8>, ip: IpAddr) -> bool {
    exists|i: int| 0 <= i < list.len() && is_version(#[trigger] list[i], ip)
}

/// One of the addresses is in one of the networks.
pub open spec fn any_address(nets: Seq<IpNet>, addresses: Seq<IpAddr>) -> bool {
    exists|i: int| 0 <= i < addresses.len() && any_holds(nets, #[trigger] addresses[i])
}

/// Under the name of `nets` stands an address in one of its networks.
pub open spec fn named_match(nets: NamedNets, actual: Seq<NamedAddresses>) -> bool {
    exists|j: int|
        0 <= j < actual.len() && (#[trigger] actual[j]).name@ == nets.name@ && any_address(
            nets.nets@,
            actual[j].addresses@,
        )
}

pub open spec fn any_named(expected: Seq<NamedNets>, actual: Seq<NamedAddresses>) -> bool {
    exists|i: int| 0 <= i < expected.len() && named_match(#[trigger] expected[i], actual)
}

/// No text is asked for, or the actual one is among them but for case.
pub open spec fn field_ok(expected: Seq<String>, actual: Option<Seq<char>>) -> bool {
    expected.len() == 0 || (actual matches Some(v) && any_folded(expected, v))
}

/// No text is asked for, or the actual one is among them.
pub open spec fn exact_ok(expected: Seq<String>, actual: Option<Seq<char>>) -> bool {
    expected.len() == 0 || (actual matches Some(v) && any_same(expected, v))
}

/// No pattern is asked for, or one finds a match in the actual text.
pub open spec fn regex_ok(expected: Seq<String>, actual: Option<Seq<char>>) -> bool {
    expected.len() == 0 || (actual matches Some(v) && any_found(expected, v))
}

pub open spec fn nets_ok(expected: Seq<IpNet>, actual: Option<IpAddr>) -> bool {
    expected.len() == 0 || (actual matches Some(ip) && any_holds(expected, ip))
}

pub open spec fn ports_ok(expected: Seq<PortRange>, actual: Option<u16>) -> bool {
    expected.len() == 0 || (actual matches Some(port) && any_range(expected, port))
}

pub open spec fn named_ok(expected: Seq<NamedNets>, actual: Option<&Vec<NamedAddresses>>) -> bool {
    expected.len() == 0 || (actual matches Some(a) && any_named(expected, a@))
}

/// Addresses that are not routed on the public internet.
pub open spec fn private_ip(ip: IpAddr) -> bool {
    match ip {
        IpAddr::V4(n) => n / 0x100_0000 == 10 || n / 0x10_0000 == 0xac1 || n / 0x1_0000 == 0xc0a8
            || n / 0x100_0000 == 127 || n / 0x1_0000 == 0xa9fe || n == 0,
        IpAddr::V6(n) => n <= 1 || n / 0x200_0000_0000_0000_0000_0000_0000_0000 == 0x7e || n
            / 0x40_0000_0000_0000_0000_0000_0000_0000 == 0x3fa,
    }
}

impl CompiledRule {
    /// The conditions on the name.
    pub open spec fn domain_ok(&self, domain: Option<Seq<char>>) -> bool {
        let name = match domain {
            Some(s) => Some(message::normalized(s)),
            None => None,
        };
        &&& exact_ok(self.domains@, name)
        &&& self.suffixes@.len() == 0 || (name matches Some(n) && any_under(self.suffixes@, n))
        &&& self.keywords@.len() == 0 || (name matches Some(n) && any_part(self.keywords@, n))
        &&& regex_ok(self.regexes@, name)
    }

    /// The conditions on addresses and ports.
    pub open spec fn address_ok(&self, c: RouteContext) -> bool {
        &&& nets_ok(self.cidrs@, c.destination_ip)
        &&& nets_ok(self.source_cidrs@, c.source_ip)
        &&& self.ip_versions@.len() == 0 || (c.destination_ip matches Some(ip) && any_version(
            self.ip_versions@,
            ip,
        ))
        &&& self.ip_private ==> (c.destination_ip matches Some(ip) && private_ip(ip))
        &&& self.source_private ==> (c.source_ip matches Some(ip) && private_ip(ip))
        &&& ports_ok(self.source_ports@, c.source_port)
        &&& ports_ok(self.ports@, c.destination_port)
    }

    /// The conditions on the kind of connection and who makes it.
    pub open spec fn client_ok(&self, c: RouteContext) -> bool {
        &&& field_ok(self.networks@, text::opt_str(c.network))
        &&& field_ok(self.protocols@, text::opt_str(c.protocol))
        &&& field_ok(self.clients@, text::opt_str(c.client))
        &&& exact_ok(self.inbounds@, text::opt_str(c.inbound))
        &&& field_ok(self.auth_users@, text::opt_str(c.auth_user))
        &&& field_ok(self.process_names@, text::opt_str(c.process_name))
        &&& exact_ok(self.process_paths@, text::opt_str(c.process_path))
        &&& regex_ok(self.process_path_regexes@, text::opt_str(c.process_path))
        &&& field_ok(self.package_names@, text::opt_str(c.package_name))
        &&& regex_ok(self.package_name_regexes@, text::opt_str(c.package_name))
        &&& field_ok(self.users@, text::opt_str(c.user))
        &&& self.user_ids@.len() == 0 || (c.user_id matches Some(id) && self.user_ids@.contains(id))
    }

    /// The conditions on the host and its network.
    pub open spec fn host_ok(&self, c: RouteContext) -> bool {
        &&& self.clash_mode is None || (c.clash_mode matches Some(mode) && text::lower(
            self.clash_mode->0@,
        ) == text::lower(mode@))
        &&& field_ok(self.network_types@, text::opt_str(c.network_type))
        &&& self.network_is_expensive ==> c.network_is_expensive
        &&& self.network_is_constrained ==> c.network_is_constrained
        &&& field_ok(self.wifi_ssids@, text::opt_str(c.wifi_ssid))
        &&& field_ok(self.wifi_bssids@, text::opt_str(c.wifi_bssid))
        &&& named_ok(self.interface_addresses@, c.interface_addresses)
        &&& named_ok(self.network_interface_addresses@, c.network_interface_addresses)
        &&& field_ok(self.source_mac_addresses@, text::opt_str(c.source_mac_address))
        &&& field_ok(self.source_hostnames@, text::opt_str(c.source_hostname))
        &&& self.default_interface_addresses@.len() == 0 || (c.default_interface_addresses
            matches Some(a) && any_address(self.default_interface_addresses@, a@))
        &&& self.preferred_by@.len() == 0 || (c.preferred_by matches Some(tags)
            && any_preferred(self.preferred_by@, tags@))
    }

    /// Whether the rule matches: all conditions that it sets hold, or for a
    /// logical rule all or any of its parts match; the other way round where it
    /// is inverted.
    pub open spec fn matched(&self, c: RouteContext) -> bool
        decreases self,
    {
        let plain = match self.logical_mode {
            Some(LogicalMode::And) => forall|i: int|
                0 <= i < self.logical_rules@.len() ==> (#[trigger] self.logical_rules@[i]).matched(
                    c,
                ),
            Some(LogicalMode::Or) => exists|i: int|
                0 <= i < self.logical_rules@.len() && (#[trigger] self.logical_rules@[i]).matched(
                    c,
                ),
            None => {
                &&& self.domain_ok(text::opt_str(c.domain))
                &&& self.address_ok(c)
                &&& self.client_ok(c)
                &&& self.host_ok(c)
                &&& self.rule_sets@.len() == 0 || exists|i: int, j: int|
                    0 <= i < self.rule_sets@.len() && 0 <= j < self.rule_sets@[i]@.len()
                        && (#[trigger] self.rule_sets@[i]@[j]).matched(
                        if self.rule_set_ip_cidr_match_source {
                            c.by_source()
                        } else {
                            c
                        },
                    )
            },
        };
        plain != self.invert
    }
}

/// One of the tags is asked for.
pub open spec fn any_preferred(expected: Seq<String>, tags: Seq<String>) -> bool {
    exists|i: int| 0 <= i < tags.len() && any_same(expected, (#[trigger] tags[i])@)
}

// ---- executable conditions ----

pub(crate) fn has_same(list: &Vec<String>, v: &str) -> (r: bool)
    ensures
        r == any_same(list@, v@),
{
    let mut i: usize = 0;
    while i < list.len()
        invariant
            i <= list@.len(),
            forall|j: int| 0 <= j < i ==> (#[trigger] list@[j])@ != v@,
        decreases list@.len() - i,
    {
        if text::same_text(list[i].as_str(), v) {
            proof {
                assert(list@[i as int]@ == v@);
            }
            return true;
        }
        i = i + 1;
    }
    false
}

fn has_folded(list: &Vec<String>, v: &str) -> (r: bool)
    ensures
        r == any_folded(list@, v@),
{
    let mut i: usize = 0;
    while i < list.len()
        invariant
            i <= list@.len(),
            forall|j: int| 0 <= j < i ==> text::lower((#[trigger] list@[j])@) != text::lower(v@),
        decreases list@.len() - i,
    {
        if text::same_ignoring_case(list[i].as_str(), v) {
            proof {
                assert(text::lower(list@[i as int]@) == text::lower(v@));
            }
            return true;
        }
        i = i + 1;
    }
    false
}

pub(crate) fn is_under(name: &str, suffix: &str) -> (r: bool)
    ensures
        r == name_under(name@, suffix@),
{
    let mut dotted: String = text::copy_text(".");
    dotted.append(suffix);
    proof {
        reveal_strlit(".");
        assert(dotted@ =~= seq!['.'] + suffix@);
    }
    text::same_text(name, suffix) || text::text_ends_with(name, dotted.as_str())
}

fn has_under(list: &Vec<String>, name: &str) -> (r: bool)
    ensures
        r == any_under(list@, name@),
{
    let mut i: usize = 0;
    while i < list.len()
        invariant
            i <= list@.len(),
            forall|j: int| 0 <= j < i ==> !name_under(name@, (#[trigger] list@[j])@),
        decreases list@.len() - i,
    {
        if is_under(name, list[i].as_str()) {
            proof {
                assert(name_under(name@, list@[i as int]@));
            }
            return true;
        }
        i = i + 1;
    }
    false
}

fn has_keyword(list: &Vec<String>, name: &str) -> (r: bool)
    ensures
        r == any_part(list@, name@),
{
    let mut i: usize = 0;
    while i < list.len()
        invariant
            i <= list@.len(),
            forall|j: int| 0 <= j < i ==> !text::has_part(name@, (#[trigger] list@[j])@),
        decreases list@.len() - i,
    {
        if text::text_contains(name, list[i].as_str()) {
            proof {
                assert(text::has_part(name@, list@[i as int]@));
            }
            return true;
        }
        i = i + 1;
    }
    false
}

pub(crate) fn has_found(list: &Vec<String>, v: &str) -> (r: bool)
    ensures
        r == any_found(list@, v@),
{
    let mut i: usize = 0;
    while i < list.len()
        invariant
            i <= list@.len(),
            forall|j: int| 0 <= j < i ==> !found((#[trigger] list@[j])@, v@),
        decreases list@.len() - i,
    {
        if pattern::finds(list[i].as_str(), v) {
            proof {
                assert(found(list@[i as int]@, v@));
            }
            return true;
        }
        i = i + 1;
    }
    false
}

pub(crate) fn has_net(list: &Vec<IpNet>, ip: &IpAddr) -> (r: bool)
    ensures
        r == any_holds(list@, *ip),
{
    let mut i: usize = 0;
    while i < list.len()
        invariant
            i <= list@.len(),
            forall|j: int| 0 <= j < i ==> !(#[trigger] list@[j]).holds(*ip),
        decreases list@.len() - i,
    {
        if list[i].contains(ip) {
            proof {
                assert(list@[i as int].holds(*ip));
            }
            return true;
        }
        i = i + 1;
    }
    false
}

fn has_port(list: &Vec<PortRange>, port: u16) -> (r: bool)
    ensures
        r == any_range(list@, port),
{
    let mut i: usize = 0;
    while i < list.len()
        invariant
            i <= list@.len(),
            forall|j: int| 0 <= j < i ==> !in_range(#[trigger] list@[j], port),
        decreases list@.len() - i,
    {
        let range = list[i];
        if range.first <= port && port <= range.last {
            proof {
                assert(in_range(list@[i as int], port));
            }
            return true;
        }
        i = i + 1;
    }
    false
}

fn has_version(list: &Vec<u8>, ip: &IpAddr) -> (r: bool)
    ensures
        r == any_version(list@, *ip),
{
    let mut i: usize = 0;
    while i < list.len()
        invariant
            i <= list@.len(),
            forall|j: int| 0 <= j < i ==> !is_version(#[trigger] list@[j], *ip),
        decreases list@.len() - i,
    {
        if (list[i] == 4 && ip.is_ipv4()) || (list[i] == 6 && ip.is_ipv6()) {
            proof {
                assert(is_version(list@[i as int], *ip));
            }
            return true;
        }
        i = i + 1;
    }
    false
}

fn has_id(list: &Vec<u32>, id: u32) -> (r: bool)
    ensures
        r == list@.contains(id),
{
    let mut i: usize = 0;
    while i < list.len()
        invariant
            i <= list@.len(),
            forall|j: int| 0 <= j < i ==> list@[j] != id,
        decreases list@.len() - i,
    {
        if list[i] == id {
            return true;
        }
        i = i + 1;
    }
    false
}

fn has_address(nets: &Vec<IpNet>, addresses: &Vec<IpAddr>) -> (r: bool)
    ensures
        r == any_address(nets@, addresses@),
{
    let mut i: usize = 0;
    while i < addresses.len()
        invariant
            i <= addresses@.len(),
            forall|j: int| 0 <= j < i ==> !any_holds(nets@, #[trigger] addresses@[j]),
        decreases addresses@.len() - i,
    {
        if has_net(nets, &addresses[i]) {
            proof {
                assert(any_holds(nets@, addresses@[i as int]));
            }
            return true;
        }
        i = i + 1;
    }
    false
}

fn matches_name(nets: &NamedNets, actual: &Vec<NamedAddresses>) -> (r: bool)
    ensures
        r == named_match(*nets, actual@),
{
    let mut i: usize = 0;
    while i < actual.len()
        invariant
            i <= actual@.len(),
            forall|j: int|
                0 <= j < i ==> !((#[trigger] actual@[j]).name@ == nets.name@ && any_address(
                    nets.nets@,
                    actual@[j].addresses@,
                )),
        decreases actual@.len() - i,
    {
        if text::same_text(actual[i].name.as_str(), nets.name.as_str()) && has_address(
            &nets.nets,
            &actual[i].addresses,
        ) {
            proof {
                assert(actual@[i as int].name@ == nets.name@);
            }
            return true;
        }
        i = i + 1;
    }
    false
}

fn has_named(expected: &Vec<NamedNets>, actual: &Vec<NamedAddresses>) -> (r: bool)
    ensures
        r == any_named(expected@, actual@),
{
    let mut i: usize = 0;
    while i < expected.len()
        invariant
            i <= expected@.len(),
            forall|j: int| 0 <= j < i ==> !named_match(#[trigger] expected@[j], actual@),
        decreases expected@.len() - i,
    {
        if matches_name(&expected[i], actual) {
            proof {
                assert(named_match(expected@[i as int], actual@));
            }
            return true;
        }
        i = i + 1;
    }
    false
}

/// Whether an address stands under an expected name and in its networks.
fn address_map_matches(
    expected: &Vec<NamedNets>,
    actual: Option<&Vec<NamedAddresses>>,
) -> (r: bool)
    ensures
        r == named_ok(expected@, actual),
{
    if expected.len() == 0 {
        return true;
    }
    match actual {
        None => false,
        Some(actual) => has_named(expected, actual),
    }
}

/// Whether a text is among the expected ones but for case, or none is expected.
pub fn match_field(expected: &Vec<String>, actual: Option<&str>) -> (r: bool)
    ensures
        r == field_ok(expected@, text::opt_str(actual)),
{
    if expected.len() == 0 {
        return true;
    }
    match actual {
        Some(v) => has_folded(expected, v),
        None => false,
    }
}

fn match_exact(expected: &Vec<String>, actual: Option<&str>) -> (r: bool)
    ensures
        r == exact_ok(expected@, text::opt_str(actual)),
{
    if expected.len() == 0 {
        return true;
    }
    match actual {
        Some(v) => has_same(expected, v),
        None => false,
    }
}

fn match_regex(expected: &Vec<String>, actual: Option<&str>) -> (r: bool)
    ensures
        r == regex_ok(expected@, text::opt_str(actual)),
{
    if expected.len() == 0 {
        return true;
    }
    match actual {
        Some(v) => has_found(expected, v),
        None => false,
    }
}

fn match_nets(expected: &Vec<IpNet>, actual: Option<IpAddr>) -> (r: bool)
    ensures
        r == nets_ok(expected@, actual),
{
    if expected.len() == 0 {
        return true;
    }
    match actual {
        Some(ip) => has_net(expected, &ip),
        None => false,
    }
}

fn match_ports(expected: &Vec<PortRange>, actual: Option<u16>) -> (r: bool)
    ensures
        r == ports_ok(expected@, actual),
{
    if expected.len() == 0 {
        return true;
    }
    match actual {
        Some(port) => has_port(expected, port),
        None => false,
    }
}

/// Whether an address is private, link-local, loopback or unspecified.
pub fn is_private(ip: IpAddr) -> (r: bool)
    ensures
        r == private_ip(ip),
{
    match ip {
        IpAddr::V4(n) => n / 0x100_0000 == 10 || n / 0x10_0000 == 0xac1 || n / 0x1_0000 == 0xc0a8
            || n / 0x100_0000 == 127 || n / 0x1_0000 == 0xa9fe || n == 0,
        IpAddr::V6(n) => n <= 1 || n / 0x200_0000_0000_0000_0000_0000_0000_0000 == 0x7e || n
            / 0x40_0000_0000_0000_0000_0000_0000_0000 == 0x3fa,
    }
}

fn private(ip: Option<IpAddr>) -> (r: bool)
    ensures
        r == (ip matches Some(a) && private_ip(a)),
{
    match ip {
        Some(a) => is_private(a),
        None => false,
    }
}

fn has_preferred(expected: &Vec<String>, tags: &Vec<String>) -> (r: bool)
    ensures
        r == any_preferred(expected@, tags@),
{
    let mut i: usize = 0;
    while i < tags.len()
        invariant
            i <= tags@.len(),
            forall|j: int| 0 <= j < i ==> !any_same(expected@, (#[trigger] tags@[j])@),
        decreases tags@.len() - i,
    {
        if has_same(expected, tags[i].as_str()) {
            proof {
                assert(any_same(expected@, tags@[i as int]@));
            }
            return true;
        }
        i = i + 1;
    }
    false
}

impl CompiledRule {
    fn matches_domain(&self, domain: Option<&str>) -> (r: bool)
        ensures
            r == self.domain_ok(text::opt_str(domain)),
    {
        match domain {
            None => self.domains.len() == 0 && self.suffixes.len() == 0 && self.keywords.len() == 0
                && self.regexes.len() == 0,
            Some(s) => {
                let name = message::normalize(s);
                let name = name.as_str();
                (self.domains.len() == 0 || has_same(&self.domains, name)) && (self.suffixes.len()
                    == 0 || has_under(&self.suffixes, name)) && (self.keywords.len() == 0
                    || has_keyword(&self.keywords, name)) && (self.regexes.len() == 0 || has_found(
                    &self.regexes,
                    name,
                ))
            },
        }
    }

    fn matches_address(&self, c: &RouteContext) -> (r: bool)
        ensures
            r == self.address_ok(*c),
    {
        match_nets(&self.cidrs, c.destination_ip) && match_nets(&self.source_cidrs, c.source_ip)
            && (self.ip_versions.len() == 0 || match c.destination_ip {
            Some(ip) => has_version(&self.ip_versions, &ip),
            None => false,
        }) && (!self.ip_private || private(c.destination_ip)) && (!self.source_private || private(
            c.source_ip,
        )) && match_ports(&self.source_ports, c.source_port) && match_ports(
            &self.ports,
            c.destination_port,
        )
    }

    fn matches_client(&self, c: &RouteContext) -> (r: bool)
        ensures
            r == self.client_ok(*c),
    {
        match_field(&self.networks, c.network) && match_field(&self.protocols, c.protocol)
            && match_field(&self.clients, c.client) && match_exact(&self.inbounds, c.inbound)
            && match_field(&self.auth_users, c.auth_user) && match_field(
            &self.process_names,
            c.process_name,
        ) && match_exact(&self.process_paths, c.process_path) && match_regex(
            &self.process_path_regexes,
            c.process_path,
        ) && match_field(&self.package_names, c.package_name) && match_regex(
            &self.package_name_regexes,
            c.package_name,
        ) && match_field(&self.users, c.user) && (self.user_ids.len() == 0 || match c.user_id {
            Some(id) => has_id(&self.user_ids, id),
            None => false,
        })
    }

    fn matches_host(&self, c: &RouteContext) -> (r: bool)
        ensures
            r == self.host_ok(*c),
    {
        let mode_ok = match &self.clash_mode {
            None => true,
            Some(expected) => match c.clash_mode {
                Some(actual) => text::same_ignoring_case(expected.as_str(), actual),
                None => false,
            },
        };
        mode_ok && match_field(&self.network_types, c.network_type) && (!self.network_is_expensive
            || c.network_is_expensive) && (!self.network_is_constrained || c.network_is_constrained)
            && match_field(&self.wifi_ssids, c.wifi_ssid) && match_field(
            &self.wifi_bssids,
            c.wifi_bssid,
        ) && address_map_matches(&self.interface_addresses, c.interface_addresses)
            && address_map_matches(
            &self.network_interface_addresses,
            c.network_interface_addresses,
        ) && match_field(&self.source_mac_addresses, c.source_mac_address) && match_field(
            &self.source_hostnames,
            c.source_hostname,
        ) && (self.default_interface_addresses.len() == 0 || match c.default_interface_addresses {
            Some(a) => has_address(&self.default_interface_addresses, a),
            None => false,
        }) && (self.preferred_by.len() == 0 || match c.preferred_by {
            Some(tags) => has_preferred(&self.preferred_by, tags),
            None => false,
        })
    }

    /// Whether the rule matches a connection.
    pub fn matches(&self, c: &RouteContext) -> (r: bool)
        ensures
            r == self.matched(*c),
        decreases self, 1nat,
    {
        match self.logical_mode {
            Some(LogicalMode::And) => {
                let mut i: usize = 0;
                while i < self.logical_rules.len()
                    invariant
                        i <= self.logical_rules@.len(),
                        self.logical_mode == Some(LogicalMode::And),
                        forall|j: int|
                            0 <= j < i ==> (#[trigger] self.logical_rules@[j]).matched(*c),
                    decreases self.logical_rules@.len() - i,
                {
                    if !self.logical_rules[i].matches(c) {
                        return self.invert;
                    }
                    i = i + 1;
                }
                !self.invert
            },
            Some(LogicalMode::Or) => {
                let mut i: usize = 0;
                while i < self.logical_rules.len()
                    invariant
                        i <= self.logical_rules@.len(),
                        self.logical_mode == Some(LogicalMode::Or),
                        forall|j: int|
                            0 <= j < i ==> !(#[trigger] self.logical_rules@[j]).matched(*c),
                    decreases self.logical_rules@.len() - i,
                {
                    if self.logical_rules[i].matches(c) {
                        return !self.invert;
                    }
                    i = i + 1;
                }
                self.invert
            },
            None => {
                let plain = self.matches_domain(c.domain) && self.matches_address(c)
                    && self.matches_client(c) && self.matches_host(c) && (self.rule_sets.len() == 0
                    || self.matches_sets(c));
                plain != self.invert
            },
        }
    }

    fn matches_sets(&self, c: &RouteContext) -> (r: bool)
        ensures
            r == exists|i: int, j: int|
                0 <= i < self.rule_sets@.len() && 0 <= j < self.rule_sets@[i]@.len()
                    && (#[trigger] self.rule_sets@[i]@[j]).matched(
                    if self.rule_set_ip_cidr_match_source {
                        c.by_source()
                    } else {
                        *c
                    },
                ),
        decreases self, 0nat,
    {
        let mut context = *c;
        if self.rule_set_ip_cidr_match_source {
            context.destination_ip = c.source_ip;
        }
        let mut i: usize = 0;
        while i < self.rule_sets.len()
            invariant
                i <= self.rule_sets@.len(),
                context == (if self.rule_set_ip_cidr_match_source {
                    c.by_source()
                } else {
                    *c
                }),
                forall|k: int, j: int|
                    0 <= k < i && 0 <= j < self.rule_sets@[k]@.len()
                        ==> !(#[trigger] self.rule_sets@[k]@[j]).matched(context),
            decreases self.rule_sets@.len() - i,
        {
            let set = &self.rule_sets[i];
            let mut j: usize = 0;
            while j < set.len()
                invariant
                    i < self.rule_sets@.len(),
                    *set == self.rule_sets@[i as int],
                    context == (if self.rule_set_ip_cidr_match_source {
                        c.by_source()
                    } else {
                        *c
                    }),
                    j <= set@.len(),
                    forall|m: int|
                        0 <= m < j ==> !(#[trigger] self.rule_sets@[i as int]@[m]).matched(context),
                decreases set@.len() - j,
            {
                if set[j].matches(&context) {
                    proof {
                        assert(self.rule_sets@[i as int]@[j as int].matched(context));
                    }
                    return true;
                }
                j = j + 1;
            }
            i = i + 1;
        }
        false
    }
}

/// Two contexts tell the same of a connection.
pub open spec fn same_facts(a: RouteContext, b: RouteContext) -> bool {
    &&& text::opt_str(a.domain) == text::opt_str(b.domain)
    &&& a.destination_ip == b.destination_ip
    &&& a.destination_port == b.destination_port
    &&& a.source_ip == b.source_ip
    &&& a.source_port == b.source_port
    &&& text::opt_str(a.network) == text::opt_str(b.network)
    &&& text::opt_str(a.protocol) == text::opt_str(b.protocol)
    &&& text::opt_str(a.client) == text::opt_str(b.client)
    &&& text::opt_str(a.inbound) == text::opt_str(b.inbound)
    &&& text::opt_str(a.auth_user) == text::opt_str(b.auth_user)
    &&& text::opt_str(a.process_name) == text::opt_str(b.process_name)
    &&& text::opt_str(a.process_path) == text::opt_str(b.process_path)
    &&& text::opt_str(a.package_name) == text::opt_str(b.package_name)
    &&& text::opt_str(a.user) == text::opt_str(b.user)
    &&& a.user_id == b.user_id
    &&& text::opt_str(a.clash_mode) == text::opt_str(b.clash_mode)
    &&& text::opt_str(a.network_type) == text::opt_str(b.network_type)
    &&& a.network_is_expensive == b.network_is_expensive
    &&& a.network_is_constrained == b.network_is_constrained
    &&& text::opt_str(a.wifi_ssid) == text::opt_str(b.wifi_ssid)
    &&& text::opt_str(a.wifi_bssid) == text::opt_str(b.wifi_bssid)
    &&& a.interface_addresses == b.interface_addresses
    &&& a.network_interface_addresses == b.network_interface_addresses
    &&& text::opt_str(a.source_mac_address) == text::opt_str(b.source_mac_address)
    &&& text::opt_str(a.source_hostname) == text::opt_str(b.source_hostname)
    &&& a.default_interface_addresses == b.default_interface_addresses
    &&& a.preferred_by == b.preferred_by
}

/// Whether a rule matches depends on nothing but what is known of a connection.
pub proof fn matching_depends_on_facts_alone(rule: CompiledRule, a: RouteContext, b: RouteContext)
    requires
        same_facts(a, b),
    ensures
        rule.matched(a) == rule.matched(b),
    decreases rule,
{
    let (x, y) = if rule.rule_set_ip_cidr_match_source {
        (a.by_source(), b.by_source())
    } else {
        (a, b)
    };
    assert forall|i: int| 0 <= i < rule.logical_rules@.len() implies (
    #[trigger] rule.logical_rules@[i]).matched(a) == rule.logical_rules@[i].matched(b) by {
        matching_depends_on_facts_alone(rule.logical_rules@[i], a, b);
    }
    assert forall|i: int, j: int|
        0 <= i < rule.rule_sets@.len() && 0 <= j < rule.rule_sets@[i]@.len() implies (
    #[trigger] rule.rule_sets@[i]@[j]).matched(x) == rule.rule_sets@[i]@[j].matched(y) by {
        matching_depends_on_facts_alone(rule.rule_sets@[i]@[j], x, y);
    }
    assert(rule.domain_ok(text::opt_str(a.domain)) == rule.domain_ok(text::opt_str(b.domain)));
    assert(rule.address_ok(a) == rule.address_ok(b));
    assert(rule.client_ok(a) == rule.client_ok(b));
    assert(rule.host_ok(a) == rule.host_ok(b)) by {
        if a.clash_mode is Some {
            assert(a.clash_mode->0@ == b.clash_mode->0@);
        }
    }
}

} // verus!
