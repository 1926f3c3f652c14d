//! From configured route rules to rules that can be matched.
use crate::dns::message;
use crate::net;
use crate::net::IpNet;
use crate::pattern;
use crate::routing::matching::{CompiledRule, LogicalMode, NamedNets, PortRange};
use crate::routing::options::{
    ActionView, DecisionView, RouteDecision, RouteOptions, RouteOptionsView, RuleAction,
};
use crate::singbox::{NamedTexts, RouteRule};
use crate::text;
use std::sync::Arc;
use vstd::prelude::*;

verus! {

/// Why a route configuration is refused.
#[derive(Clone, Copy, Debug, PartialEq, Eq, Structural)]
pub enum RouteError {
    LegacyDatabase,
    PreferredBy,
    /// Linux does not say that a network is constrained.
    Constrained,
    LogicalMode,
    RuleType,
    LogicalEmpty,
    FragmentConflict,
    TlsSpoof,
    MultiPath,
    RejectMethod,
    MissingOutbound,
    UnsupportedAction,
    UnknownRuleSet,
    InvalidRegex,
    InvalidCidr,
    InvalidPort,
    EmptyTag,
    DuplicateTag,
    MissingPath,
    MissingUrl,
    DownloadDetour,
    UnsupportedSetType,
    UnsupportedFormat,
    NotLoaded,
}

/// A rule set that rules can refer to by its tag.
#[derive(Debug)]
pub struct RuleSet {
    pub tag: String,
    pub rules: Arc<Vec<CompiledRule>>,
}

/// Another handle on the same rules: `Arc::clone`, which hands out a pointer to
/// the same value.
#[verifier::external_body]
fn share(rules: &Arc<Vec<CompiledRule>>) -> (r: Arc<Vec<CompiledRule>>)
    ensures
        r == *rules,
{
    rules.clone()
}

// ---- lists of texts ----

/// Each text with its ASCII letters in lower case.
pub open spec fn all_lower(s: Seq<Seq<char>>) -> Seq<Seq<char>> {
    Seq::new(s.len(), |i: int| text::lower(s[i]))
}

/// Each name in normal form.
pub open spec fn all_normalized(s: Seq<Seq<char>>) -> Seq<Seq<char>> {
    Seq::new(s.len(), |i: int| message::normalized(s[i]))
}

/// Each text with its ASCII letters in lower case.
pub fn lower(values: &Vec<String>) -> (r: Vec<String>)
    ensures
        text::texts(r@) == all_lower(text::texts(values@)),
{
    let mut out: Vec<String> = Vec::new();
    let mut i: usize = 0;
    while i < values.len()
        invariant
            i <= values@.len(),
            out@.len() == i,
            forall|j: int| 0 <= j < i ==> (#[trigger] out@[j])@ == text::lower(values@[j]@),
        decreases values@.len() - i,
    {
        out.push(text::to_lower(values[i].as_str()));
        i = i + 1;
    }
    proof {
        assert(text::texts(out@) =~= all_lower(text::texts(values@)));
    }
    out
}

/// A domain in the form in which domains are compared.
pub fn normalize_domain(value: &str) -> (r: String)
    ensures
        r@ == message::normalized(value@),
{
    message::normalize(value)
}

fn normalize_all(values: &Vec<String>) -> (r: Vec<String>)
    ensures
        text::texts(r@) == all_normalized(text::texts(values@)),
{
    let mut out: Vec<String> = Vec::new();
    let mut i: usize = 0;
    while i < values.len()
        invariant
            i <= values@.len(),
            out@.len() == i,
            forall|j: int| 0 <= j < i ==> (#[trigger] out@[j])@ == message::normalized(values@[j]@),
        decreases values@.len() - i,
    {
        out.push(normalize_domain(values[i].as_str()));
        i = i + 1;
    }
    proof {
        assert(text::texts(out@) =~= all_normalized(text::texts(values@)));
    }
    out
}

// ---- networks, patterns and ports ----

/// Every text reads as a network.
pub open spec fn all_nets(s: Seq<String>) -> bool {
    forall|i: int| 0 <= i < s.len() ==> net::net_text((#[trigger] s[i])@) is Some
}

/// The networks that the texts stand for.
pub open spec fn nets_of(s: Seq<String>) -> Seq<IpNet> {
    Seq::new(s.len(), |i: int| net::net_text(s[i]@)->0)
}

/// Reads networks.
pub fn parse_nets(values: &Vec<String>) -> (r: Result<Vec<IpNet>, RouteError>)
    ensures
        match r {
            Ok(nets) => all_nets(values@) && nets@ == nets_of(values@),
            Err(e) => !all_nets(values@) && e == RouteError::InvalidCidr,
        },
{
    let mut out: Vec<IpNet> = Vec::new();
    let mut i: usize = 0;
    while i < values.len()
        invariant
            i <= values@.len(),
            out@.len() == i,
            forall|j: int|
                0 <= j < i ==> net::net_text((#[trigger] values@[j])@) == Some(out@[j]),
        decreases values@.len() - i,
    {
        match net::parse_net(values[i].as_str()) {
            Some(n) => out.push(n),
            None => {
                proof {
                    assert(net::net_text(values@[i as int]@) is None);
                }
                return Err(RouteError::InvalidCidr);
            },
        }
        i = i + 1;
    }
    proof {
        assert(out@ =~= nets_of(values@));
    }
    Ok(out)
}

/// Every text is a regular expression.
pub open spec fn all_patterns(s: Seq<String>) -> bool {
    forall|i: int| 0 <= i < s.len() ==> pattern::pattern_valid((#[trigger] s[i])@)
}

/// Checks that every text is a regular expression.
pub fn compile_regexes(values: &Vec<String>) -> (r: Result<Vec<String>, RouteError>)
    ensures
        match r {
            Ok(list) => all_patterns(values@) && text::texts(list@) == text::texts(values@),
            Err(e) => !all_patterns(values@) && e == RouteError::InvalidRegex,
        },
{
    let mut i: usize = 0;
    while i < values.len()
        invariant
            i <= values@.len(),
            forall|j: int| 0 <= j < i ==> pattern::pattern_valid((#[trigger] values@[j])@),
        decreases values@.len() - i,
    {
        if !pattern::is_pattern(values[i].as_str()) {
            proof {
                assert(!pattern::pattern_valid(values@[i as int]@));
            }
            return Err(RouteError::InvalidRegex);
        }
        i = i + 1;
    }
    Ok(text::copy_texts(values))
}

/// A range of ports written `first:last`, or a single port.
pub open spec fn port_range(s: Seq<char>) -> Option<PortRange> {
    let n = text::span(s, ':') as int;
    let (a, b) = if n < s.len() {
        (s.take(n), s.skip(n + 1))
    } else {
        (s, s)
    };
    match (text::number(a, 0xffff), text::number(b, 0xffff)) {
        (Some(first), Some(last)) => Some(PortRange { first: first as u16, last: last as u16 }),
        _ => None,
    }
}

fn parse_port_range(s: &str) -> (r: Option<PortRange>)
    ensures
        r == port_range(s@),
{
    let v = text::to_chars(s);
    let n = text::span_of(v.as_slice(), ':');
    let (a, b) = if n < v.len() {
        proof {
            assert(v@.subrange(0, n as int) =~= v@.take(n as int));
            assert(v@.subrange(n + 1, v@.len() as int) =~= v@.skip(n + 1));
        }
        (text::to_text(&v[0..n]), text::to_text(&v[n + 1..v.len()]))
    } else {
        (text::copy_text(s), text::copy_text(s))
    };
    match text::parse_number(a.as_str(), 0xffff) {
        None => None,
        Some(first) => match text::parse_number(b.as_str(), 0xffff) {
            None => None,
            Some(last) => Some(PortRange { first: first as u16, last: last as u16 }),
        },
    }
}

/// Every text is a range of ports.
pub open spec fn all_ranges(s: Seq<String>) -> bool {
    forall|i: int| 0 <= i < s.len() ==> port_range((#[trigger] s[i])@) is Some
}

/// The single ports, then the ranges that the texts stand for.
pub open spec fn ranges_of(ports: Seq<u16>, ranges: Seq<String>) -> Seq<PortRange> {
    Seq::new(
        ports.len() + ranges.len(),
        |i: int|
            if i < ports.len() {
                PortRange { first: ports[i], last: ports[i] }
            } else {
                port_range(ranges[i - ports.len()]@)->0
            },
    )
}

/// Single ports and ranges of ports together.
pub fn parse_ports(ports: &Vec<u16>, ranges: &Vec<String>) -> (r: Result<Vec<PortRange>, RouteError>)
    ensures
        match r {
            Ok(list) => all_ranges(ranges@) && list@ == ranges_of(ports@, ranges@),
            Err(e) => !all_ranges(ranges@) && e == RouteError::InvalidPort,
        },
{
    let mut out: Vec<PortRange> = Vec::new();
    let mut i: usize = 0;
    while i < ports.len()
        invariant
            i <= ports@.len(),
            out@.len() == i,
            forall|j: int|
                0 <= j < i ==> #[trigger] out@[j] == (PortRange { first: ports@[j], last: ports@[j] }),
        decreases ports@.len() - i,
    {
        let port = ports[i];
        out.push(PortRange { first: port, last: port });
        i = i + 1;
    }
    let mut k: usize = 0;
    while k < ranges.len()
        invariant
            k <= ranges@.len(),
            out@.len() == ports@.len() + k,
            forall|j: int|
                0 <= j < ports@.len() ==> #[trigger] out@[j] == (PortRange {
                    first: ports@[j],
                    last: ports@[j],
                }),
            forall|j: int|
                0 <= j < k ==> port_range((#[trigger] ranges@[j])@) == Some(
                    out@[ports@.len() + j],
                ),
        decreases ranges@.len() - k,
    {
        match parse_port_range(ranges[k].as_str()) {
            Some(range) => out.push(range),
            None => {
                proof {
                    assert(port_range(ranges@[k as int]@) is None);
                }
                return Err(RouteError::InvalidPort);
            },
        }
        k = k + 1;
    }
    proof {
        assert forall|j: int| 0 <= j < out@.len() implies out@[j] == ranges_of(ports@, ranges@)[j] by {
            if j >= ports@.len() {
                let m = j - ports@.len();
                assert(port_range(ranges@[m]@) == Some(out@[ports@.len() + m]));
            }
        }
        assert(out@ =~= ranges_of(ports@, ranges@));
    }
    Ok(out)
}

/// Every network text under every name reads as a network.
pub open spec fn all_named_nets(s: Seq<NamedTexts>) -> bool {
    forall|i: int| 0 <= i < s.len() ==> all_nets((#[trigger] s[i]).values@)
}

/// The same names in lower case, with their networks read.
pub open spec fn named_as(s: Seq<NamedTexts>, out: Seq<NamedNets>) -> bool {
    &&& out.len() == s.len()
    &&& forall|i: int|
        0 <= i < s.len() ==> (#[trigger] out[i]).name@ == text::lower(s[i].name@) && out[i].nets@
            == nets_of(s[i].values@)
}

/// Reads the networks under each name.
pub fn compile_address_map(values: &Vec<NamedTexts>) -> (r: Result<Vec<NamedNets>, RouteError>)
    ensures
        match r {
            Ok(list) => all_named_nets(values@) && named_as(values@, list@),
            Err(e) => !all_named_nets(values@) && e == RouteError::InvalidCidr,
        },
{
    let mut out: Vec<NamedNets> = Vec::new();
    let mut i: usize = 0;
    while i < values.len()
        invariant
            i <= values@.len(),
            out@.len() == i,
            forall|j: int| 0 <= j < i ==> all_nets((#[trigger] values@[j]).values@),
            forall|j: int|
                0 <= j < i ==> (#[trigger] out@[j]).name@ == text::lower(values@[j].name@)
                    && out@[j].nets@ == nets_of(values@[j].values@),
        decreases values@.len() - i,
    {
        match parse_nets(&values[i].values) {
            Ok(nets) => out.push(NamedNets { name: text::to_lower(values[i].name.as_str()), nets }),
            Err(e) => {
                proof {
                    assert(!all_nets(values@[i as int].values@));
                }
                return Err(e);
            },
        }
        i = i + 1;
    }
    Ok(out)
}

// ---- options and actions ----

/// The options that a rule sets.
pub open spec fn options_of(rule: RouteRule) -> RouteOptionsView {
    RouteOptionsView {
        override_address: text::opt_text(rule.override_address),
        override_port: rule.override_port,
        network_strategy: text::opt_text(rule.network_strategy),
        fallback_delay: text::opt_text(rule.fallback_delay),
        udp_disable_domain_unmapping: rule.udp_disable_domain_unmapping,
        udp_connect: rule.udp_connect,
        udp_timeout: text::opt_text(rule.udp_timeout),
        tls_fragment: rule.tls_fragment,
        tls_fragment_fallback_delay: text::opt_text(rule.tls_fragment_fallback_delay),
        tls_record_fragment: rule.tls_record_fragment,
        tls_spoof: text::opt_text(rule.tls_spoof),
        tls_spoof_method: text::opt_text(rule.tls_spoof_method),
        bind_interface: text::opt_text(rule.bind_interface),
        inet4_bind_address: text::opt_text(rule.inet4_bind_address),
        inet6_bind_address: text::opt_text(rule.inet6_bind_address),
        routing_mark: rule.routing_mark,
        reuse_addr: rule.reuse_addr,
        connect_timeout: text::opt_text(rule.connect_timeout),
        tcp_fast_open: rule.tcp_fast_open,
        tcp_multi_path: rule.tcp_multi_path,
        udp_fragment: rule.udp_fragment,
        domain_strategy: text::opt_text(rule.domain_strategy),
        reject_method: text::opt_text(rule.method),
        reject_no_drop: rule.no_drop,
    }
}

/// Whether a reject method is known.
pub open spec fn known_reject_method(method: Option<Seq<char>>) -> bool {
    method is None || method == Some(""@) || method == Some("drop"@) || method == Some("reply"@)
}

/// What is wrong with the options of a rule.
pub open spec fn options_error(rule: RouteRule) -> Option<RouteError> {
    if rule.tls_fragment && rule.tls_record_fragment {
        Some(RouteError::FragmentConflict)
    } else if rule.tls_spoof is Some {
        Some(RouteError::TlsSpoof)
    } else if rule.tcp_multi_path {
        Some(RouteError::MultiPath)
    } else if text::opt_text(rule.action) == Some("reject"@) && !known_reject_method(
        text::opt_text(rule.method),
    ) {
        Some(RouteError::RejectMethod)
    } else {
        None
    }
}

/// The options of a rule. Spoofed handshakes and multipath connections are not
/// available on Linux.
pub fn route_options(rule: &RouteRule) -> (r: Result<RouteOptions, RouteError>)
    ensures
        match r {
            Ok(options) => options_error(*rule) is None && options@ == options_of(*rule),
            Err(e) => options_error(*rule) == Some(e),
        },
{
    if rule.tls_fragment && rule.tls_record_fragment {
        return Err(RouteError::FragmentConflict);
    }
    if rule.tls_spoof.is_some() {
        return Err(RouteError::TlsSpoof);
    }
    if rule.tcp_multi_path {
        return Err(RouteError::MultiPath);
    }
    if text::opt_is(&rule.action, "reject") && !(rule.method.is_none() || text::opt_is(
        &rule.method,
        "",
    ) || text::opt_is(&rule.method, "drop") || text::opt_is(&rule.method, "reply")) {
        return Err(RouteError::RejectMethod);
    }
    Ok(
        RouteOptions {
            override_address: text::copy_opt(&rule.override_address),
            override_port: rule.override_port,
            network_strategy: text::copy_opt(&rule.network_strategy),
            fallback_delay: text::copy_opt(&rule.fallback_delay),
            udp_disable_domain_unmapping: rule.udp_disable_domain_unmapping,
            udp_connect: rule.udp_connect,
            udp_timeout: text::copy_opt(&rule.udp_timeout),
            tls_fragment: rule.tls_fragment,
            tls_fragment_fallback_delay: text::copy_opt(&rule.tls_fragment_fallback_delay),
            tls_record_fragment: rule.tls_record_fragment,
            tls_spoof: text::copy_opt(&rule.tls_spoof),
            tls_spoof_method: text::copy_opt(&rule.tls_spoof_method),
            bind_interface: text::copy_opt(&rule.bind_interface),
            inet4_bind_address: text::copy_opt(&rule.inet4_bind_address),
            inet6_bind_address: text::copy_opt(&rule.inet6_bind_address),
            routing_mark: rule.routing_mark,
            reuse_addr: rule.reuse_addr,
            connect_timeout: text::copy_opt(&rule.connect_timeout),
            tcp_fast_open: rule.tcp_fast_open,
            tcp_multi_path: rule.tcp_multi_path,
            udp_fragment: rule.udp_fragment,
            domain_strategy: text::copy_opt(&rule.domain_strategy),
            reject_method: text::copy_opt(&rule.method),
            reject_no_drop: rule.no_drop,
        },
    )
}

/// A decision with the options of the rule, where those are in order.
pub open spec fn routed_to(rule: RouteRule, decision: DecisionView) -> Result<
    ActionView,
    RouteError,
> {
    match options_error(rule) {
        Some(e) => Err(e),
        None => Ok(ActionView::Route { decision, options: options_of(rule) }),
    }
}

/// What a rule does: the rules inside a logical rule or a rule set do nothing,
/// and stand as rejections without options.
pub open spec fn action_of(rule: RouteRule, require_decision: bool) -> Result<
    ActionView,
    RouteError,
> {
    let action = text::opt_text(rule.action);
    if !require_decision {
        Ok(
            ActionView::Route {
                decision: DecisionView::Reject,
                options: RouteOptionsView::unset(),
            },
        )
    } else if action == Some("reject"@) {
        routed_to(rule, DecisionView::Reject)
    } else if action == Some("hijack-dns"@) {
        Ok(
            ActionView::Route {
                decision: DecisionView::HijackDns,
                options: RouteOptionsView::unset(),
            },
        )
    } else if action == Some("direct"@) {
        routed_to(rule, DecisionView::Outbound("direct"@))
    } else if action == Some("bypass"@) {
        routed_to(
            rule,
            DecisionView::Outbound(
                match rule.outbound {
                    Some(tag) => tag@,
                    None => "direct"@,
                },
            ),
        )
    } else if action is None || action == Some("route"@) {
        match rule.outbound {
            None => Err(RouteError::MissingOutbound),
            Some(tag) => routed_to(rule, DecisionView::Outbound(tag@)),
        }
    } else if action == Some("route-options"@) {
        match options_error(rule) {
            Some(e) => Err(e),
            None => Ok(ActionView::RouteOptions(options_of(rule))),
        }
    } else if action == Some("sniff"@) {
        Ok(
            ActionView::Sniff {
                sniffers: all_lower(text::texts(rule.sniffer@)),
                timeout: text::opt_text(rule.timeout),
            },
        )
    } else if action == Some("resolve"@) {
        Ok(
            ActionView::Resolve {
                server: text::opt_text(rule.server),
                timeout: text::opt_text(rule.timeout),
                strategy: text::opt_text(rule.strategy),
                disable_cache: rule.disable_cache,
                rewrite_ttl: rule.rewrite_ttl,
                client_subnet: text::opt_text(rule.client_subnet),
            },
        )
    } else {
        Err(RouteError::UnsupportedAction)
    }
}

fn route_to(rule: &RouteRule, decision: RouteDecision) -> (r: Result<RuleAction, RouteError>)
    ensures
        match r {
            Ok(action) => routed_to(*rule, decision@) == Ok::<ActionView, RouteError>(action@),
            Err(e) => routed_to(*rule, decision@) == Err::<ActionView, RouteError>(e),
        },
{
    match route_options(rule) {
        Ok(options) => Ok(RuleAction::Route { decision, options }),
        Err(e) => Err(e),
    }
}

fn compile_action(rule: &RouteRule, require_decision: bool) -> (r: Result<RuleAction, RouteError>)
    ensures
        match r {
            Ok(action) => action_of(*rule, require_decision) == Ok::<ActionView, RouteError>(
                action@,
            ),
            Err(e) => action_of(*rule, require_decision) == Err::<ActionView, RouteError>(e),
        },
{
    if !require_decision {
        return Ok(
            RuleAction::Route { decision: RouteDecision::Reject, options: RouteOptions::default() },
        );
    }
    if text::opt_is(&rule.action, "reject") {
        route_to(rule, RouteDecision::Reject)
    } else if text::opt_is(&rule.action, "hijack-dns") {
        Ok(
            RuleAction::Route {
                decision: RouteDecision::HijackDns,
                options: RouteOptions::default(),
            },
        )
    } else if text::opt_is(&rule.action, "direct") {
        route_to(rule, RouteDecision::Outbound(text::copy_text("direct")))
    } else if text::opt_is(&rule.action, "bypass") {
        let tag = match &rule.outbound {
            Some(tag) => text::copy_text(tag.as_str()),
            None => text::copy_text("direct"),
        };
        route_to(rule, RouteDecision::Outbound(tag))
    } else if rule.action.is_none() || text::opt_is(&rule.action, "route") {
        match &rule.outbound {
            None => Err(RouteError::MissingOutbound),
            Some(tag) => route_to(rule, RouteDecision::Outbound(text::copy_text(tag.as_str()))),
        }
    } else if text::opt_is(&rule.action, "route-options") {
        match route_options(rule) {
            Ok(options) => Ok(RuleAction::RouteOptions(options)),
            Err(e) => Err(e),
        }
    } else if text::opt_is(&rule.action, "sniff") {
        Ok(
            RuleAction::Sniff {
                sniffers: lower(&rule.sniffer),
                timeout: text::copy_opt(&rule.timeout),
            },
        )
    } else if text::opt_is(&rule.action, "resolve") {
        Ok(
            RuleAction::Resolve {
                server: text::copy_opt(&rule.server),
                timeout: text::copy_opt(&rule.timeout),
                strategy: text::copy_opt(&rule.strategy),
                disable_cache: rule.disable_cache,
                rewrite_ttl: rule.rewrite_ttl,
                client_subnet: text::copy_opt(&rule.client_subnet),
            },
        )
    } else {
        Err(RouteError::UnsupportedAction)
    }
}

// ---- whole rules ----

/// How the parts of a logical rule are joined; `None` for a plain rule.
pub open spec fn mode_of(rule: RouteRule) -> Result<Option<LogicalMode>, RouteError> {
    if rule.kind@ == "logical"@ {
        if rule.mode is None || rule.mode->0@ == "and"@ {
            Ok(Some(LogicalMode::And))
        } else if rule.mode->0@ == "or"@ {
            Ok(Some(LogicalMode::Or))
        } else {
            Err(RouteError::LogicalMode)
        }
    } else if rule.kind@ == ""@ || rule.kind@ == "default"@ {
        Ok(None)
    } else {
        Err(RouteError::RuleType)
    }
}

fn compile_mode(rule: &RouteRule) -> (r: Result<Option<LogicalMode>, RouteError>)
    ensures
        r == mode_of(*rule),
{
    if text::same_text(rule.kind.as_str(), "logical") {
        if rule.mode.is_none() || text::opt_is(&rule.mode, "and") {
            Ok(Some(LogicalMode::And))
        } else if text::opt_is(&rule.mode, "or") {
            Ok(Some(LogicalMode::Or))
        } else {
            Err(RouteError::LogicalMode)
        }
    } else if text::same_text(rule.kind.as_str(), "") || text::same_text(
        rule.kind.as_str(),
        "default",
    ) {
        Ok(None)
    } else {
        Err(RouteError::RuleType)
    }
}

/// A rule set with the given tag is there.
pub open spec fn has_set(sets: Seq<RuleSet>, tag: Seq<char>) -> bool {
    exists|i: int| 0 <= i < sets.len() && (#[trigger] sets[i]).tag@ == tag
}

/// The first rule set with the given tag.
pub open spec fn set_named(sets: Seq<RuleSet>, tag: Seq<char>) -> Arc<Vec<CompiledRule>>
    decreases sets.len(),
{
    if sets.len() == 0 || sets[0].tag@ == tag {
        sets[0].rules
    } else {
        set_named(sets.skip(1), tag)
    }
}

/// Every tag names a rule set.
pub open spec fn all_sets(sets: Seq<RuleSet>, tags: Seq<String>) -> bool {
    forall|i: int| 0 <= i < tags.len() ==> has_set(sets, (#[trigger] tags[i])@)
}

/// The rule sets that the tags name.
pub open spec fn sets_named(sets: Seq<RuleSet>, tags: Seq<String>) -> Seq<
    Arc<Vec<CompiledRule>>,
> {
    Seq::new(tags.len(), |i: int| set_named(sets, tags[i]@))
}

proof fn lemma_set_named(sets: Seq<RuleSet>, tag: Seq<char>, i: int)
    requires
        0 <= i < sets.len(),
        sets[i].tag@ == tag,
        forall|j: int| 0 <= j < i ==> (#[trigger] sets[j]).tag@ != tag,
    ensures
        set_named(sets, tag) == sets[i].rules,
    decreases i,
{
    if i > 0 {
        assert(sets[0].tag@ != tag);
        assert forall|j: int| 0 <= j < i - 1 implies (#[trigger] sets.skip(1)[j]).tag@ != tag by {
            assert(sets.skip(1)[j] == sets[j + 1]);
        }
        lemma_set_named(sets.skip(1), tag, i - 1);
    }
}

/// The rule set with the given tag.
pub fn find_set(sets: &Vec<RuleSet>, tag: &str) -> (r: Option<Arc<Vec<CompiledRule>>>)
    ensures
        match r {
            Some(rules) => has_set(sets@, tag@) && rules == set_named(sets@, tag@),
            None => !has_set(sets@, tag@),
        },
{
    let mut i: usize = 0;
    while i < sets.len()
        invariant
            i <= sets@.len(),
            forall|j: int| 0 <= j < i ==> (#[trigger] sets@[j]).tag@ != tag@,
        decreases sets@.len() - i,
    {
        if text::same_text(sets[i].tag.as_str(), tag) {
            proof {
                lemma_set_named(sets@, tag@, i as int);
            }
            return Some(share(&sets[i].rules));
        }
        i = i + 1;
    }
    None
}

fn find_sets(sets: &Vec<RuleSet>, tags: &Vec<String>) -> (r: Result<
    Vec<Arc<Vec<CompiledRule>>>,
    RouteError,
>)
    ensures
        match r {
            Ok(list) => all_sets(sets@, tags@) && list@ == sets_named(sets@, tags@),
            Err(e) => !all_sets(sets@, tags@) && e == RouteError::UnknownRuleSet,
        },
{
    let mut out: Vec<Arc<Vec<CompiledRule>>> = Vec::new();
    let mut i: usize = 0;
    while i < tags.len()
        invariant
            i <= tags@.len(),
            out@.len() == i,
            forall|j: int| 0 <= j < i ==> has_set(sets@, (#[trigger] tags@[j])@),
            forall|j: int| 0 <= j < i ==> #[trigger] out@[j] == set_named(sets@, tags@[j]@),
        decreases tags@.len() - i,
    {
        match find_set(sets, tags[i].as_str()) {
            Some(rules) => out.push(rules),
            None => {
                proof {
                    assert(!has_set(sets@, tags@[i as int]@));
                }
                return Err(RouteError::UnknownRuleSet);
            },
        }
        i = i + 1;
    }
    proof {
        assert(out@ =~= sets_named(sets@, tags@));
    }
    Ok(out)
}

/// What is wrong with the conditions of a rule, apart from its nested rules.
pub open spec fn conditions_error(rule: RouteRule) -> Option<RouteError> {
    if !all_patterns(rule.domain_regex@) {
        Some(RouteError::InvalidRegex)
    } else if !all_nets(rule.ip_cidr@) || !all_nets(rule.source_ip_cidr@) {
        Some(RouteError::InvalidCidr)
    } else if !all_ranges(rule.source_port_range@) || !all_ranges(rule.port_range@) {
        Some(RouteError::InvalidPort)
    } else if !all_patterns(rule.process_path_regex@) || !all_patterns(rule.package_name_regex@) {
        Some(RouteError::InvalidRegex)
    } else if !all_named_nets(rule.interface_address@) || !all_named_nets(
        rule.network_interface_address@,
    ) || !all_nets(rule.default_interface_address@) {
        Some(RouteError::InvalidCidr)
    } else {
        None
    }
}

/// What is wrong with the head of a rule: its kind, its action and its sets.
pub open spec fn head_error(
    rule: RouteRule,
    sets: Seq<RuleSet>,
    require_decision: bool,
) -> Option<RouteError> {
    if rule.geosite@.len() > 0 || rule.geoip@.len() > 0 || rule.source_geoip@.len() > 0 {
        Some(RouteError::LegacyDatabase)
    } else if rule.preferred_by@.len() > 0 {
        Some(RouteError::PreferredBy)
    } else if rule.network_is_constrained {
        Some(RouteError::Constrained)
    } else if mode_of(rule) is Err {
        Some(mode_of(rule)->Err_0)
    } else if mode_of(rule)->Ok_0 is Some && rule.rules@.len() == 0 {
        Some(RouteError::LogicalEmpty)
    } else if action_of(rule, require_decision) is Err {
        Some(action_of(rule, require_decision)->Err_0)
    } else if !all_sets(sets, rule.rule_set@) {
        Some(RouteError::UnknownRuleSet)
    } else {
        None
    }
}

/// What is wrong with a rule: its head first, then the first of its nested
/// rules that is wrong, then its conditions.
pub open spec fn rule_error(
    rule: RouteRule,
    sets: Seq<RuleSet>,
    require_decision: bool,
) -> Option<RouteError>
    decreases rule, rule.rules@.len() + 1,
{
    match head_error(rule, sets, require_decision) {
        Some(e) => Some(e),
        None => match nested_error(rule, sets, rule.rules@.len()) {
            Some(e) => Some(e),
            None => conditions_error(rule),
        },
    }
}

/// What is wrong with the first `n` nested rules.
pub open spec fn nested_error(rule: RouteRule, sets: Seq<RuleSet>, n: nat) -> Option<RouteError>
    decreases rule, n,
{
    if n == 0 || n > rule.rules@.len() {
        None
    } else {
        match nested_error(rule, sets, (n - 1) as nat) {
            Some(e) => Some(e),
            None => rule_error(rule.rules@[n - 1], sets, false),
        }
    }
}

proof fn lemma_nested_error(rule: RouteRule, sets: Seq<RuleSet>, m: nat, n: nat)
    requires
        m <= n <= rule.rules@.len(),
        nested_error(rule, sets, m) is Some,
    ensures
        nested_error(rule, sets, n) == nested_error(rule, sets, m),
    decreases n,
{
    if m < n {
        lemma_nested_error(rule, sets, m, (n - 1) as nat);
    }
}

/// The conditions of a rule, ready for matching.
pub open spec fn conditions_as(rule: RouteRule, c: CompiledRule) -> bool {
    &&& text::texts(c.domains@) == all_normalized(text::texts(rule.domain@))
    &&& text::texts(c.suffixes@) == all_normalized(text::texts(rule.domain_suffix@))
    &&& text::texts(c.keywords@) == all_lower(text::texts(rule.domain_keyword@))
    &&& text::texts(c.networks@) == all_lower(text::texts(rule.network@))
    &&& text::texts(c.protocols@) == all_lower(text::texts(rule.protocol@))
    &&& text::texts(c.clients@) == all_lower(text::texts(rule.client@))
    &&& text::texts(c.process_names@) == all_lower(text::texts(rule.process_name@))
    &&& text::texts(c.package_names@) == all_lower(text::texts(rule.package_name@))
    &&& text::texts(c.network_types@) == all_lower(text::texts(rule.network_type@))
    &&& text::texts(c.wifi_bssids@) == all_lower(text::texts(rule.wifi_bssid@))
    &&& text::texts(c.source_mac_addresses@) == all_lower(text::texts(rule.source_mac_address@))
    &&& text::texts(c.source_hostnames@) == all_lower(text::texts(rule.source_hostname@))
    &&& text::texts(c.regexes@) == text::texts(rule.domain_regex@)
    &&& text::texts(c.inbounds@) == text::texts(rule.inbound@)
    &&& text::texts(c.auth_users@) == text::texts(rule.auth_user@)
    &&& text::texts(c.process_paths@) == text::texts(rule.process_path@)
    &&& text::texts(c.process_path_regexes@) == text::texts(rule.process_path_regex@)
    &&& text::texts(c.package_name_regexes@) == text::texts(rule.package_name_regex@)
    &&& text::texts(c.users@) == text::texts(rule.user@)
    &&& text::texts(c.wifi_ssids@) == text::texts(rule.wifi_ssid@)
    &&& text::texts(c.preferred_by@) == text::texts(rule.preferred_by@)
    &&& c.cidrs@ == nets_of(rule.ip_cidr@)
    &&& c.source_cidrs@ == nets_of(rule.source_ip_cidr@)
    &&& c.default_interface_addresses@ == nets_of(rule.default_interface_address@)
    &&& c.ip_versions@ == rule.ip_version@
    &&& c.user_ids@ == rule.user_id@
    &&& c.ip_private == rule.ip_is_private
    &&& c.source_private == rule.source_ip_is_private
    &&& c.network_is_expensive == rule.network_is_expensive
    &&& c.network_is_constrained == rule.network_is_constrained
    &&& c.rule_set_ip_cidr_match_source == rule.rule_set_ip_cidr_match_source
    &&& c.invert == rule.invert
    &&& named_as(rule.interface_address@, c.interface_addresses@)
    &&& named_as(rule.network_interface_address@, c.network_interface_addresses@)
    &&& c.source_ports@ == ranges_of(rule.source_port@, rule.source_port_range@)
    &&& c.ports@ == ranges_of(rule.port@, rule.port_range@)
    &&& text::opt_text(c.clash_mode) == (match rule.clash_mode {
        Some(mode) => Some(text::lower(mode@)),
        None => None,
    })
}

/// `c` is the rule ready for matching.
pub open spec fn compiled_as(
    rule: RouteRule,
    sets: Seq<RuleSet>,
    require_decision: bool,
    c: CompiledRule,
) -> bool
    decreases rule,
{
    &&& mode_of(rule) == Ok::<Option<LogicalMode>, RouteError>(c.logical_mode)
    &&& action_of(rule, require_decision) == Ok::<ActionView, RouteError>(c.action@)
    &&& conditions_as(rule, c)
    &&& c.rule_sets@ == sets_named(sets, rule.rule_set@)
    &&& c.logical_rules@.len() == rule.rules@.len()
    &&& forall|i: int|
        0 <= i < rule.rules@.len() ==> compiled_as(
            #[trigger] rule.rules@[i],
            sets,
            false,
            c.logical_rules@[i],
        )
}

fn copy_u8s(v: &Vec<u8>) -> (r: Vec<u8>)
    ensures
        r@ == v@,
{
    text::copy_bytes(v.as_slice())
}

fn copy_u32s(v: &Vec<u32>) -> (r: Vec<u32>)
    ensures
        r@ == v@,
{
    let mut out: Vec<u32> = Vec::new();
    out.extend_from_slice(v.as_slice());
    proof {
        assert(out@ =~= v@);
    }
    out
}

/// Compiles the conditions of a rule around what has been compiled already.
fn compile_conditions(
    rule: &RouteRule,
    logical_mode: Option<LogicalMode>,
    logical_rules: Vec<CompiledRule>,
    rule_sets: Vec<Arc<Vec<CompiledRule>>>,
    action: RuleAction,
) -> (r: Result<CompiledRule, RouteError>)
    ensures
        match r {
            Ok(c) => conditions_error(*rule) is None && conditions_as(*rule, c) && c.logical_mode
                == logical_mode && c.logical_rules == logical_rules && c.rule_sets == rule_sets
                && c.action == action,
            Err(e) => conditions_error(*rule) == Some(e),
        },
{
    let regexes = match compile_regexes(&rule.domain_regex) {
        Ok(list) => list,
        Err(e) => {
            return Err(e);
        },
    };
    let cidrs = match parse_nets(&rule.ip_cidr) {
        Ok(list) => list,
        Err(e) => {
            return Err(e);
        },
    };
    let source_cidrs = match parse_nets(&rule.source_ip_cidr) {
        Ok(list) => list,
        Err(e) => {
            return Err(e);
        },
    };
    let source_ports = match parse_ports(&rule.source_port, &rule.source_port_range) {
        Ok(list) => list,
        Err(e) => {
            return Err(e);
        },
    };
    let ports = match parse_ports(&rule.port, &rule.port_range) {
        Ok(list) => list,
        Err(e) => {
            return Err(e);
        },
    };
    let process_path_regexes = match compile_regexes(&rule.process_path_regex) {
        Ok(list) => list,
        Err(e) => {
            return Err(e);
        },
    };
    let package_name_regexes = match compile_regexes(&rule.package_name_regex) {
        Ok(list) => list,
        Err(e) => {
            return Err(e);
        },
    };
    let interface_addresses = match compile_address_map(&rule.interface_address) {
        Ok(list) => list,
        Err(e) => {
            return Err(e);
        },
    };
    let network_interface_addresses = match compile_address_map(&rule.network_interface_address) {
        Ok(list) => list,
        Err(e) => {
            return Err(e);
        },
    };
    let default_interface_addresses = match parse_nets(&rule.default_interface_address) {
        Ok(list) => list,
        Err(e) => {
            return Err(e);
        },
    };
    let clash_mode = match &rule.clash_mode {
        Some(mode) => Some(text::to_lower(mode.as_str())),
        None => None,
    };
    Ok(
        CompiledRule {
            logical_mode,
            logical_rules,
            domains: normalize_all(&rule.domain),
            suffixes: normalize_all(&rule.domain_suffix),
            keywords: lower(&rule.domain_keyword),
            networks: lower(&rule.network),
            protocols: lower(&rule.protocol),
            clients: lower(&rule.client),
            process_names: lower(&rule.process_name),
            package_names: lower(&rule.package_name),
            network_types: lower(&rule.network_type),
            wifi_bssids: lower(&rule.wifi_bssid),
            source_mac_addresses: lower(&rule.source_mac_address),
            source_hostnames: lower(&rule.source_hostname),
            inbounds: text::copy_texts(&rule.inbound),
            auth_users: text::copy_texts(&rule.auth_user),
            process_paths: text::copy_texts(&rule.process_path),
            users: text::copy_texts(&rule.user),
            wifi_ssids: text::copy_texts(&rule.wifi_ssid),
            preferred_by: text::copy_texts(&rule.preferred_by),
            ip_versions: copy_u8s(&rule.ip_version),
            user_ids: copy_u32s(&rule.user_id),
            ip_private: rule.ip_is_private,
            source_private: rule.source_ip_is_private,
            network_is_expensive: rule.network_is_expensive,
            network_is_constrained: rule.network_is_constrained,
            rule_set_ip_cidr_match_source: rule.rule_set_ip_cidr_match_source,
            invert: rule.invert,
            regexes,
            cidrs,
            source_cidrs,
            source_ports,
            ports,
            process_path_regexes,
            package_name_regexes,
            interface_addresses,
            network_interface_addresses,
            default_interface_addresses,
            clash_mode,
            rule_sets,
            action,
        },
    )
}

impl CompiledRule {
    /// Compiles a rule. The tags of its rule sets are looked up among those that
    /// are there, and a rule at the top level must say what it does.
    pub fn compile(rule: &RouteRule, available_sets: &Vec<RuleSet>, require_decision: bool) -> (r:
        Result<CompiledRule, RouteError>)
        ensures
            match r {
                Ok(c) => rule_error(*rule, available_sets@, require_decision) is None
                    && compiled_as(*rule, available_sets@, require_decision, c),
                Err(e) => rule_error(*rule, available_sets@, require_decision) == Some(e),
            },
        decreases rule,
    {
        if rule.geosite.len() > 0 || rule.geoip.len() > 0 || rule.source_geoip.len() > 0 {
            return Err(RouteError::LegacyDatabase);
        }
        if rule.preferred_by.len() > 0 {
            return Err(RouteError::PreferredBy);
        }
        if rule.network_is_constrained {
            return Err(RouteError::Constrained);
        }
        let logical_mode = match compile_mode(rule) {
            Ok(mode) => mode,
            Err(e) => {
                return Err(e);
            },
        };
        if logical_mode.is_some() && rule.rules.len() == 0 {
            return Err(RouteError::LogicalEmpty);
        }
        let action = match compile_action(rule, require_decision) {
            Ok(action) => action,
            Err(e) => {
                return Err(e);
            },
        };
        let rule_sets = match find_sets(available_sets, &rule.rule_set) {
            Ok(list) => list,
            Err(e) => {
                return Err(e);
            },
        };
        let mut nested: Vec<CompiledRule> = Vec::new();
        let mut i: usize = 0;
        while i < rule.rules.len()
            invariant
                i <= rule.rules@.len(),
                nested@.len() == i,
                head_error(*rule, available_sets@, require_decision) is None,
                nested_error(*rule, available_sets@, i as nat) is None,
                forall|j: int|
                    0 <= j < i ==> compiled_as(
                        #[trigger] rule.rules@[j],
                        available_sets@,
                        false,
                        nested@[j],
                    ),
            decreases rule.rules@.len() - i,
        {
            match CompiledRule::compile(&rule.rules[i], available_sets, false) {
                Ok(c) => nested.push(c),
                Err(e) => {
                    proof {
                        lemma_nested_error(
                            *rule,
                            available_sets@,
                            (i + 1) as nat,
                            rule.rules@.len(),
                        );
                    }
                    return Err(e);
                },
            }
            i = i + 1;
        }
        compile_conditions(rule, logical_mode, nested, rule_sets, action)
    }
}

} // verus!
