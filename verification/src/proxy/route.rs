//! Route evaluation: walking the rules for one connection, with the work that
//! rules ask for (looking names up, reading first bytes) done by the caller
//! between the steps.
use crate::linux_route::LinuxRouteMetadata;
use crate::net::{self, Destination, DestinationView, IpAddr, SocketAddr};
use crate::proxy::sniff::{self, SniffResult, SniffView};
use crate::routing::matching::RouteContext;
use crate::routing::options::{ActionView, DecisionView, RouteOptionsView};
use crate::routing::router;
use crate::routing::{RouteDecision, RouteOptions, Router, RuleAction};
use crate::text;
use crate::time::{self, Duration};
use vstd::prelude::*;

verus! {

// ---- addresses ----

/// The first address of one family.
pub open spec fn first_of_family(addresses: Seq<IpAddr>, v4: bool) -> Option<IpAddr>
    decreases addresses.len(),
{
    if addresses.len() == 0 {
        None
    } else if (addresses[0] is V4) == v4 {
        Some(addresses[0])
    } else {
        first_of_family(addresses.skip(1), v4)
    }
}

/// The first address, if there is one.
pub open spec fn first_address(addresses: Seq<IpAddr>) -> Option<IpAddr> {
    if addresses.len() > 0 {
        Some(addresses[0])
    } else {
        None
    }
}

/// The address that a strategy takes: one of a family only, one of a family where
/// there is one, or else the first.
pub open spec fn selected(addresses: Seq<IpAddr>, strategy: Option<Seq<char>>) -> Option<IpAddr> {
    if strategy == Some("ipv4_only"@) {
        first_of_family(addresses, true)
    } else if strategy == Some("ipv6_only"@) {
        first_of_family(addresses, false)
    } else if strategy == Some("prefer_ipv4"@) && first_of_family(addresses, true) is Some {
        first_of_family(addresses, true)
    } else if strategy == Some("prefer_ipv6"@) && first_of_family(addresses, false) is Some {
        first_of_family(addresses, false)
    } else {
        first_address(addresses)
    }
}

fn find_family(addresses: &Vec<IpAddr>, v4: bool) -> (r: Option<IpAddr>)
    ensures
        r == first_of_family(addresses@, v4),
{
    let mut i: usize = 0;
    proof {
        assert(addresses@.skip(0) =~= addresses@);
    }
    while i < addresses.len()
        invariant
            i <= addresses@.len(),
            first_of_family(addresses@, v4) == first_of_family(addresses@.skip(i as int), v4),
        decreases addresses@.len() - i,
    {
        proof {
            assert(addresses@.skip(i as int)[0] == addresses@[i as int]);
            assert(addresses@.skip(i as int).skip(1) =~= addresses@.skip(i + 1));
        }
        if addresses[i].is_ipv4() == v4 {
            return Some(addresses[i]);
        }
        i = i + 1;
    }
    None
}

/// Takes one of several addresses by a strategy.
pub fn select_address(addresses: &Vec<IpAddr>, strategy: Option<&str>) -> (r: Option<IpAddr>)
    ensures
        r == selected(addresses@, text::opt_str(strategy)),
{
    let first = if addresses.len() > 0 {
        Some(addresses[0])
    } else {
        None
    };
    proof {
        reveal_strlit("ipv4_only");
        reveal_strlit("ipv6_only");
        reveal_strlit("prefer_ipv4");
        reveal_strlit("prefer_ipv6");
        assert("ipv4_only"@[3] == '4' && "ipv6_only"@[3] == '6');
        assert("prefer_ipv4"@[10] == '4' && "prefer_ipv6"@[10] == '6');
    }
    match strategy {
        None => first,
        Some(s) => {
            if text::same_text(s, "ipv4_only") {
                find_family(addresses, true)
            } else if text::same_text(s, "ipv6_only") {
                find_family(addresses, false)
            } else if text::same_text(s, "prefer_ipv4") {
                match find_family(addresses, true) {
                    Some(ip) => Some(ip),
                    None => first,
                }
            } else if text::same_text(s, "prefer_ipv6") {
                match find_family(addresses, false) {
                    Some(ip) => Some(ip),
                    None => first,
                }
            } else {
                first
            }
        },
    }
}

/// A destination with another host or port laid over it.
pub open spec fn overridden(d: DestinationView, options: RouteOptionsView) -> DestinationView {
    let port = match options.override_port {
        Some(port) => port,
        None => d.port(),
    };
    match options.override_address {
        Some(host) => net::host_destination(host, port),
        None => match d {
            DestinationView::Ip(ip, _) => DestinationView::Ip(ip, port),
            DestinationView::Domain(host, _) => DestinationView::Domain(host, port),
        },
    }
}

/// Applies the host and the port that options put in place of a destination's.
pub fn override_destination(original: Destination, options: &RouteOptions) -> (r: Destination)
    ensures
        r@ == overridden(original@, options@),
{
    let port: u16 = match options.override_port {
        Some(port) => port,
        None => original.port(),
    };
    match &options.override_address {
        Some(host) => net::parse_destination(host.as_str(), port),
        None => match original {
            Destination::Ip(ip, _) => Destination::Ip(ip, port),
            Destination::Domain(host, _) => Destination::Domain(host, port),
        },
    }
}

/// Without a host or a port of their own, options leave a destination as it is,
/// and overriding twice is overriding once.
pub proof fn overriding_laws(d: DestinationView, options: RouteOptionsView)
    ensures
        options.override_address is None && options.override_port is None ==> overridden(d, options)
            == d,
        overridden(overridden(d, options), options) == overridden(d, options),
{
}

// ---- the state of an evaluation ----

/// What the rules see of a connection besides its destination.
pub struct RouteInput<'a> {
    pub peer: SocketAddr,
    pub inbound: &'a str,
    pub linux: &'a LinuxRouteMetadata,
    pub auth_user: Option<&'a str>,
    pub clash_mode: Option<&'a str>,
}

/// What the steps of an evaluation have gathered so far.
#[derive(Debug)]
pub struct RouteState {
    pub domain: Option<String>,
    pub destination_ip: Option<IpAddr>,
    pub destination_ips: Vec<IpAddr>,
    pub cursor: usize,
    pub resolved: bool,
    pub protocol: Option<String>,
    pub client: Option<String>,
    pub options: RouteOptions,
}

/// The state with its texts and lists as plain sequences.
#[verifier::ext_equal]
pub struct StateView {
    pub domain: Option<Seq<char>>,
    pub destination_ip: Option<IpAddr>,
    pub destination_ips: Seq<IpAddr>,
    pub cursor: nat,
    pub resolved: bool,
    pub protocol: Option<Seq<char>>,
    pub client: Option<Seq<char>>,
    pub options: RouteOptionsView,
}

impl View for RouteState {
    type V = StateView;

    open spec fn view(&self) -> StateView {
        StateView {
            domain: text::opt_text(self.domain),
            destination_ip: self.destination_ip,
            destination_ips: self.destination_ips@,
            cursor: self.cursor as nat,
            resolved: self.resolved,
            protocol: text::opt_text(self.protocol),
            client: text::opt_text(self.client),
            options: self.options@,
        }
    }
}

/// The state before any rule was looked at.
pub open spec fn start(d: DestinationView, defaults: RouteOptionsView) -> StateView {
    StateView {
        domain: match d {
            DestinationView::Domain(name, _) => Some(name),
            DestinationView::Ip(_, _) => None,
        },
        destination_ip: match d {
            DestinationView::Ip(ip, _) => Some(ip),
            DestinationView::Domain(_, _) => None,
        },
        destination_ips: Seq::empty(),
        cursor: 0,
        resolved: false,
        protocol: None,
        client: None,
        options: defaults,
    }
}

/// The facts that the rules are held against.
pub open spec fn context_of(
    c: RouteContext,
    s: StateView,
    input: RouteInput,
    d: DestinationView,
    network: Seq<char>,
) -> bool {
    &&& text::opt_str(c.domain) == s.domain
    &&& c.destination_ip == s.destination_ip
    &&& c.destination_port == Some(d.port())
    &&& c.source_ip == Some(input.peer.ip)
    &&& c.source_port == Some(input.peer.port)
    &&& text::opt_str(c.network) == Some(network)
    &&& text::opt_str(c.protocol) == s.protocol
    &&& text::opt_str(c.client) == s.client
    &&& text::opt_str(c.inbound) == Some(input.inbound@)
    &&& c.auth_user == input.auth_user
    &&& text::opt_str(c.process_name) == text::opt_text(input.linux.process_name)
    &&& text::opt_str(c.process_path) == text::opt_text(input.linux.process_path)
    &&& c.package_name is None
    &&& text::opt_str(c.user) == text::opt_text(input.linux.user)
    &&& c.user_id == input.linux.user_id
    &&& c.clash_mode == input.clash_mode
    &&& text::opt_str(c.network_type) == text::opt_text(input.linux.network_type)
    &&& c.network_is_expensive == input.linux.network_is_expensive
    &&& c.network_is_constrained == input.linux.network_is_constrained
    &&& text::opt_str(c.wifi_ssid) == text::opt_text(input.linux.wifi_ssid)
    &&& text::opt_str(c.wifi_bssid) == text::opt_text(input.linux.wifi_bssid)
    &&& c.interface_addresses == Some(&input.linux.interface_addresses)
    &&& c.network_interface_addresses == Some(&input.linux.network_interface_addresses)
    &&& text::opt_str(c.source_mac_address) == text::opt_text(input.linux.source_mac_address)
    &&& text::opt_str(c.source_hostname) == text::opt_text(input.linux.source_hostname)
    &&& c.default_interface_addresses == Some(&input.linux.default_interface_addresses)
    &&& c.preferred_by is None
}

/// What a look at the rules gave.
#[derive(Debug)]
pub enum ActionLookup {
    /// The rule at the index matches and does this.
    Action { index: usize, action: RuleAction },
    /// Whether the rule at the index matches depends on the addresses of a name.
    NeedResolve { index: usize },
    /// No further rule matches.
    Nothing,
}

/// A look with its action as a plain value.
pub enum LookupView {
    Action { index: nat, action: ActionView },
    NeedResolve { index: nat },
    Nothing,
}

impl View for ActionLookup {
    type V = LookupView;

    open spec fn view(&self) -> LookupView {
        match *self {
            ActionLookup::Action { index, action } => LookupView::Action {
                index: index as nat,
                action: action@,
            },
            ActionLookup::NeedResolve { index } => LookupView::NeedResolve { index: index as nat },
            ActionLookup::Nothing => LookupView::Nothing,
        }
    }
}

/// A name to look up for a rule, and how.
#[derive(Debug, Clone, PartialEq, Eq)]
pub struct NameRequest {
    pub name: String,
    pub server: Option<String>,
    pub disable_cache: bool,
    pub rewrite_ttl: Option<u32>,
    pub timeout: Option<Duration>,
    pub strategy: Option<String>,
    pub client_subnet: Option<String>,
}

/// A request with its texts as plain sequences.
pub struct RequestView {
    pub name: Seq<char>,
    pub server: Option<Seq<char>>,
    pub disable_cache: bool,
    pub rewrite_ttl: Option<u32>,
    pub timeout: Option<nat>,
    pub strategy: Option<Seq<char>>,
    pub client_subnet: Option<Seq<char>>,
}

impl View for NameRequest {
    type V = RequestView;

    open spec fn view(&self) -> RequestView {
        RequestView {
            name: self.name@,
            server: text::opt_text(self.server),
            disable_cache: self.disable_cache,
            rewrite_ttl: self.rewrite_ttl,
            timeout: match self.timeout {
                Some(t) => Some(t.millis as nat),
                None => None,
            },
            strategy: text::opt_text(self.strategy),
            client_subnet: text::opt_text(self.client_subnet),
        }
    }
}

impl NameRequest {
    /// How long the whole look-up may take: its own limit, or five seconds.
    pub fn limit(&self) -> (r: Duration)
        ensures
            r.millis == (match self@.timeout {
                Some(millis) => millis,
                None => 5000,
            }),
    {
        match self.timeout {
            Some(t) => t,
            None => Duration::from_secs(5),
        }
    }
}

/// What is to be done after a look at the rules.
#[derive(Debug)]
pub enum RouteStep {
    /// The evaluation is over.
    Decided(RouteDecision),
    /// Look at the rules again.
    Continue,
    /// Look the name up and report the addresses, or give up where that fails.
    Resolve(NameRequest),
    /// Look the name up and report the addresses, none where that fails.
    ResolveForRule { index: usize, request: NameRequest },
    /// Read the first bytes for as long as the time says and report what they tell.
    Sniff { sniffers: Vec<String>, timeout: Duration },
}

/// A step with plain values.
pub enum StepView {
    Decided(DecisionView),
    Continue,
    Resolve(RequestView),
    ResolveForRule { index: nat, request: RequestView },
    Sniff { sniffers: Seq<Seq<char>>, timeout: nat },
}

impl View for RouteStep {
    type V = StepView;

    open spec fn view(&self) -> StepView {
        match *self {
            RouteStep::Decided(d) => StepView::Decided(d@),
            RouteStep::Continue => StepView::Continue,
            RouteStep::Resolve(r) => StepView::Resolve(r@),
            RouteStep::ResolveForRule { index, request } => StepView::ResolveForRule {
                index: index as nat,
                request: request@,
            },
            RouteStep::Sniff { sniffers, timeout } => StepView::Sniff {
                sniffers: text::texts(sniffers@),
                timeout: timeout.millis as nat,
            },
        }
    }
}

/// What is done after a look, and the state then. `fallback` is the outbound that
/// holds where no rule decides, `server` the resolver for names that no rule
/// gives one, and `resolver` says whether names can be looked up at all.
pub open spec fn after(
    s: StateView,
    lookup: LookupView,
    fallback: Seq<char>,
    server: Option<Seq<char>>,
    resolver: bool,
) -> (StateView, StepView) {
    match lookup {
        LookupView::Nothing => (s, StepView::Decided(DecisionView::Outbound(fallback))),
        LookupView::NeedResolve { index } => match s.domain {
            Some(name) if resolver => (
                s,
                StepView::ResolveForRule {
                    index,
                    request: RequestView {
                        name,
                        server,
                        disable_cache: false,
                        rewrite_ttl: None,
                        timeout: None,
                        strategy: None,
                        client_subnet: None,
                    },
                },
            ),
            _ => (StateView { cursor: index + 1, ..s }, StepView::Continue),
        },
        LookupView::Action { index, action } => {
            let moved = StateView { cursor: index + 1, ..s };
            match action {
                ActionView::Route { decision, options } => (
                    StateView { options: s.options.overlaid(options), ..moved },
                    StepView::Decided(decision),
                ),
                ActionView::RouteOptions(options) => (
                    StateView { options: s.options.overlaid(options), ..moved },
                    StepView::Continue,
                ),
                ActionView::Sniff { sniffers, timeout } => (
                    moved,
                    StepView::Sniff { sniffers, timeout: time::lenient_millis(timeout) },
                ),
                ActionView::Resolve {
                    server: own,
                    timeout,
                    strategy,
                    disable_cache,
                    rewrite_ttl,
                    client_subnet,
                } => match s.domain {
                    Some(name) if resolver => (
                        moved,
                        StepView::Resolve(
                            RequestView {
                                name,
                                server: match own {
                                    Some(tag) => Some(tag),
                                    None => server,
                                },
                                disable_cache,
                                rewrite_ttl,
                                timeout: match timeout {
                                    Some(t) => Some(time::lenient_millis(Some(t))),
                                    None => None,
                                },
                                strategy,
                                client_subnet,
                            },
                        ),
                    ),
                    _ => (moved, StepView::Continue),
                },
            }
        },
    }
}

/// The state after the addresses for a resolve action came in.
pub open spec fn with_addresses(
    s: StateView,
    addresses: Seq<IpAddr>,
    strategy: Option<Seq<char>>,
) -> StateView {
    StateView {
        destination_ips: addresses,
        destination_ip: selected(addresses, strategy),
        resolved: true,
        ..s
    }
}

/// The state after the addresses that a rule depends on came in: with addresses
/// the rule is looked at again, without any it is passed over.
pub open spec fn for_rule(s: StateView, index: nat, addresses: Seq<IpAddr>) -> StateView {
    if addresses.len() == 0 {
        StateView { destination_ips: addresses, resolved: true, cursor: index + 1, ..s }
    } else {
        StateView {
            destination_ips: addresses,
            resolved: true,
            destination_ip: Some(addresses[0]),
            cursor: index,
            ..s
        }
    }
}

/// The state after the first bytes were read: what they tell takes the place of
/// what was known, but a name only where they tell one.
pub open spec fn with_sniffed(s: StateView, found: Option<SniffView>) -> StateView {
    match found {
        None => s,
        Some(v) => StateView {
            protocol: Some(v.protocol),
            client: v.client,
            domain: if v.domain is Some {
                v.domain
            } else {
                s.domain
            },
            ..s
        },
    }
}

/// What an evaluation came to.
#[derive(Debug)]
pub struct RouteEvaluation {
    pub decision: RouteDecision,
    pub destination: Destination,
    pub options: RouteOptions,
    pub resolved_addresses: Vec<IpAddr>,
}

impl RouteState {
    /// The state of an evaluation that starts.
    pub fn new(destination: &Destination, defaults: RouteOptions) -> (r: RouteState)
        ensures
            r@ == start(destination@, defaults@),
    {
        let (domain, destination_ip) = match destination {
            Destination::Domain(name, _) => (Some(text::copy_text(name.as_str())), None),
            Destination::Ip(ip, _) => (None, Some(*ip)),
        };
        let none: Vec<IpAddr> = Vec::new();
        proof {
            assert(none@ =~= Seq::<IpAddr>::empty());
        }
        RouteState {
            domain,
            destination_ip,
            destination_ips: none,
            cursor: 0,
            resolved: false,
            protocol: None,
            client: None,
            options: defaults,
        }
    }

    /// The facts that the rules are held against.
    pub fn context<'a>(
        &'a self,
        input: &'a RouteInput<'a>,
        destination: &Destination,
        network: &'a str,
    ) -> (r: RouteContext<'a>)
        ensures
            context_of(r, self@, *input, destination@, network@),
    {
        RouteContext {
            domain: text::as_opt_str(&self.domain),
            destination_ip: self.destination_ip,
            destination_port: Some(destination.port()),
            source_ip: Some(input.peer.ip),
            source_port: Some(input.peer.port),
            network: Some(network),
            protocol: text::as_opt_str(&self.protocol),
            client: text::as_opt_str(&self.client),
            inbound: Some(input.inbound),
            auth_user: input.auth_user,
            process_name: text::as_opt_str(&input.linux.process_name),
            process_path: text::as_opt_str(&input.linux.process_path),
            package_name: None,
            user: text::as_opt_str(&input.linux.user),
            user_id: input.linux.user_id,
            clash_mode: input.clash_mode,
            network_type: text::as_opt_str(&input.linux.network_type),
            network_is_expensive: input.linux.network_is_expensive,
            network_is_constrained: input.linux.network_is_constrained,
            wifi_ssid: text::as_opt_str(&input.linux.wifi_ssid),
            wifi_bssid: text::as_opt_str(&input.linux.wifi_bssid),
            interface_addresses: Some(&input.linux.interface_addresses),
            network_interface_addresses: Some(&input.linux.network_interface_addresses),
            source_mac_address: text::as_opt_str(&input.linux.source_mac_address),
            source_hostname: text::as_opt_str(&input.linux.source_hostname),
            default_interface_addresses: Some(&input.linux.default_interface_addresses),
            preferred_by: None,
        }
    }

    /// Looks for the next rule that matches.
    pub fn look(
        &self,
        router: &Router,
        input: &RouteInput,
        destination: &Destination,
        network: &str,
    ) -> (r: ActionLookup)
        ensures
            forall|c: RouteContext|
                #![trigger router::next_match(router.rules@, c, self.cursor as int)]
                context_of(c, self@, *input, destination@, network@) ==> match router::next_match(
                    router.rules@,
                    c,
                    self.cursor as int,
                ) {
                    Some(i) => self.cursor <= i < router.rules@.len() && r@ == (LookupView::Action {
                        index: i as nat,
                        action: router.rules@[i].action@,
                    }),
                    None => r@ == LookupView::Nothing,
                },
            exists|c: RouteContext| context_of(c, self@, *input, destination@, network@),
            r !is NeedResolve,
    {
        let context = self.context(input, destination, network);
        proof {
            assert forall|c: RouteContext|
                #![trigger router::next_match(router.rules@, c, self.cursor as int)]
                context_of(c, self@, *input, destination@, network@) implies router::next_match(
                router.rules@,
                c,
                self.cursor as int,
            ) == router::next_match(router.rules@, context, self.cursor as int) by {
                router::lookup_depends_on_facts_alone(
                    router.rules@,
                    c,
                    context,
                    self.cursor as int,
                );
            }
        }
        match router.next_action(&context, self.cursor) {
            Some((index, action)) => ActionLookup::Action { index, action },
            None => ActionLookup::Nothing,
        }
    }

    /// Takes the next step after a look at the rules.
    pub fn step(
        &mut self,
        lookup: ActionLookup,
        fallback: &str,
        server: Option<&str>,
        resolver: bool,
    ) -> (r: RouteStep)
        requires
            match lookup {
                ActionLookup::Action { index, .. } => index < usize::MAX,
                ActionLookup::NeedResolve { index } => index < usize::MAX,
                ActionLookup::Nothing => true,
            },
        ensures
            (final(self)@, r@) == after(
                old(self)@,
                lookup@,
                fallback@,
                text::opt_str(server),
                resolver,
            ),
    {
        match lookup {
            ActionLookup::Nothing => RouteStep::Decided(
                RouteDecision::Outbound(text::copy_text(fallback)),
            ),
            ActionLookup::NeedResolve { index } => {
                match &self.domain {
                    Some(name) => {
                        if resolver {
                            return RouteStep::ResolveForRule {
                                index,
                                request: NameRequest {
                                    name: text::copy_text(name.as_str()),
                                    server: owned(server),
                                    disable_cache: false,
                                    rewrite_ttl: None,
                                    timeout: None,
                                    strategy: None,
                                    client_subnet: None,
                                },
                            };
                        }
                    },
                    None => {},
                }
                self.cursor = index + 1;
                RouteStep::Continue
            },
            ActionLookup::Action { index, action } => {
                self.cursor = index + 1;
                match action {
                    RuleAction::Route { decision, options } => {
                        self.options.merge(&options);
                        RouteStep::Decided(decision)
                    },
                    RuleAction::RouteOptions(options) => {
                        self.options.merge(&options);
                        RouteStep::Continue
                    },
                    RuleAction::Sniff { sniffers, timeout } => {
                        let limit = time::parse_duration_lenient(text::as_opt_str(&timeout));
                        RouteStep::Sniff { sniffers, timeout: limit }
                    },
                    RuleAction::Resolve {
                        server: own,
                        timeout,
                        strategy,
                        disable_cache,
                        rewrite_ttl,
                        client_subnet,
                    } => {
                        match &self.domain {
                            Some(name) => {
                                if resolver {
                                    let limit = match &timeout {
                                        Some(t) => Some(
                                            time::parse_duration_lenient(Some(t.as_str())),
                                        ),
                                        None => None,
                                    };
                                    return RouteStep::Resolve(
                                        NameRequest {
                                            name: text::copy_text(name.as_str()),
                                            server: match own {
                                                Some(tag) => Some(tag),
                                                None => owned(server),
                                            },
                                            disable_cache,
                                            rewrite_ttl,
                                            timeout: limit,
                                            strategy,
                                            client_subnet,
                                        },
                                    );
                                }
                            },
                            None => {},
                        }
                        RouteStep::Continue
                    },
                }
            },
        }
    }

    /// Takes in the addresses that a resolve action asked for.
    pub fn resolve_action(&mut self, addresses: Vec<IpAddr>, strategy: Option<&str>)
        ensures
            final(self)@ == with_addresses(old(self)@, addresses@, text::opt_str(strategy)),
    {
        self.destination_ip = select_address(&addresses, strategy);
        self.destination_ips = addresses;
        self.resolved = true;
    }

    /// Takes in the addresses that a rule depends on.
    pub fn need_resolve(&mut self, index: usize, addresses: Vec<IpAddr>)
        requires
            index < usize::MAX,
        ensures
            final(self)@ == for_rule(old(self)@, index as nat, addresses@),
    {
        self.resolved = true;
        if addresses.len() == 0 {
            self.cursor = index + 1;
        } else {
            self.destination_ip = Some(addresses[0]);
            self.cursor = index;
        }
        self.destination_ips = addresses;
    }

    /// Takes in what the first bytes tell.
    pub fn sniffed(&mut self, found: Option<SniffResult>)
        ensures
            final(self)@ == with_sniffed(old(self)@, sniff::opt_sniff(found)),
    {
        match found {
            None => {},
            Some(v) => {
                self.protocol = Some(v.protocol);
                self.client = v.client;
                match v.domain {
                    Some(name) => {
                        self.domain = Some(name);
                    },
                    None => {},
                }
            },
        }
    }

    /// The addresses that were looked up on the way, for the dialer to use.
    pub fn resolved_addresses(&self) -> (r: Vec<IpAddr>)
        ensures
            r@ == (if self@.resolved {
                self@.destination_ips
            } else {
                Seq::empty()
            }),
    {
        let mut r: Vec<IpAddr> = Vec::new();
        if !self.resolved {
            proof {
                assert(r@ =~= Seq::<IpAddr>::empty());
            }
            return r;
        }
        let mut i: usize = 0;
        while i < self.destination_ips.len()
            invariant
                i <= self.destination_ips@.len(),
                r@ =~= self.destination_ips@.take(i as int),
            decreases self.destination_ips@.len() - i,
        {
            r.push(self.destination_ips[i]);
            i = i + 1;
        }
        proof {
            assert(r@ =~= self.destination_ips@);
        }
        r
    }

    /// What the evaluation came to.
    pub fn finish(self, decision: RouteDecision, destination: Destination) -> (r: RouteEvaluation)
        ensures
            r.decision@ == decision@,
            r.destination@ == overridden(destination@, self@.options),
            r.options@ == self@.options,
            r.resolved_addresses@ == (if self@.resolved {
                self@.destination_ips
            } else {
                Seq::empty()
            }),
    {
        let resolved_addresses = self.resolved_addresses();
        let destination = override_destination(destination, &self.options);
        RouteEvaluation { decision, destination, options: self.options, resolved_addresses }
    }
}

fn owned(s: Option<&str>) -> (r: Option<String>)
    ensures
        text::opt_text(r) == text::opt_str(s),
{
    match s {
        Some(v) => Some(text::copy_text(v)),
        None => None,
    }
}

/// Every step but a decision moves the evaluation on: it goes on behind the rule
/// that was found, or with the addresses that the rule asked for.
pub proof fn steps_move_on(
    s: StateView,
    lookup: LookupView,
    fallback: Seq<char>,
    server: Option<Seq<char>>,
    resolver: bool,
)
    ensures
        match lookup {
            LookupView::Action { index, .. } => after(s, lookup, fallback, server, resolver).0.cursor
                == index + 1,
            LookupView::NeedResolve { index } => after(s, lookup, fallback, server, resolver).1
                is Continue ==> after(s, lookup, fallback, server, resolver).0.cursor == index + 1,
            LookupView::Nothing => after(s, lookup, fallback, server, resolver).1 is Decided,
        },
{
}

/// A rule that depends on the addresses of a name is put off once: afterwards
/// either an address is known or the rule is behind.
pub proof fn a_rule_is_put_off_once(s: StateView, index: nat, addresses: Seq<IpAddr>)
    ensures
        for_rule(s, index, addresses).resolved,
        for_rule(s, index, addresses).cursor == index + 1 || (for_rule(
            s,
            index,
            addresses,
        ).destination_ip is Some && for_rule(s, index, addresses).cursor == index),
{
}

proof fn lemma_first_of_family(addresses: Seq<IpAddr>, v4: bool)
    ensures
        match first_of_family(addresses, v4) {
            Some(ip) => (ip is V4) == v4 && exists|i: int|
                0 <= i < addresses.len() && #[trigger] addresses[i] == ip && forall|j: int|
                    0 <= j < i ==> ((#[trigger] addresses[j]) is V4) != v4,
            None => forall|j: int| 0 <= j < addresses.len() ==> ((#[trigger] addresses[j]) is V4)
                != v4,
        },
    decreases addresses.len(),
{
    if addresses.len() > 0 {
        if (addresses[0] is V4) == v4 {
            assert(addresses[0] == addresses[0]);
        } else {
            let rest = addresses.skip(1);
            lemma_first_of_family(rest, v4);
            match first_of_family(rest, v4) {
                Some(ip) => {
                    let i = choose|i: int|
                        0 <= i < rest.len() && #[trigger] rest[i] == ip && forall|j: int|
                            0 <= j < i ==> ((#[trigger] rest[j]) is V4) != v4;
                    assert(addresses[i + 1] == ip);
                    assert forall|j: int| 0 <= j < i + 1 implies ((#[trigger] addresses[j]) is V4)
                        != v4 by {
                        if j > 0 {
                            assert(rest[j - 1] == addresses[j]);
                        }
                    }
                },
                None => {
                    assert forall|j: int| 0 <= j < addresses.len() implies ((
                    #[trigger] addresses[j]) is V4) != v4 by {
                        if j > 0 {
                            assert(rest[j - 1] == addresses[j]);
                        }
                    }
                },
            }
        }
    }
}

/// A strategy for one family takes the first address of that family and none of
/// the other; one that prefers a family takes its first address, and the first of
/// all only where that family has none; any other takes the first of all.
pub proof fn addresses_are_taken_by_strategy(addresses: Seq<IpAddr>, strategy: Option<Seq<char>>)
    ensures
        ({
            let r = selected(addresses, strategy);
            let has4 = exists|i: int| 0 <= i < addresses.len() && #[trigger] addresses[i] is V4;
            let has6 = exists|i: int| 0 <= i < addresses.len() && #[trigger] addresses[i] is V6;
            &&& r matches Some(ip) ==> addresses.contains(ip) && forall|j: int|
                0 <= j < addresses.len() && (#[trigger] addresses[j] is V4) == (ip is V4)
                    && addresses[j] != ip ==> exists|i: int|
                    0 <= i < j && #[trigger] addresses[i] == ip
            &&& strategy == Some("ipv4_only"@) ==> (r is Some <==> has4) && (r is Some ==> r->0 is V4)
            &&& strategy == Some("ipv6_only"@) ==> (r is Some <==> has6) && (r is Some ==> r->0 is V6)
            &&& strategy == Some("prefer_ipv4"@) ==> (r is Some <==> addresses.len() > 0) && (has4
                ==> r->0 is V4) && (!has4 && r is Some ==> r->0 == addresses[0])
            &&& strategy == Some("prefer_ipv6"@) ==> (r is Some <==> addresses.len() > 0) && (has6
                ==> r->0 is V6) && (!has6 && r is Some ==> r->0 == addresses[0])
            &&& strategy is None || (strategy != Some("ipv4_only"@) && strategy != Some(
                "ipv6_only"@,
            ) && strategy != Some("prefer_ipv4"@) && strategy != Some("prefer_ipv6"@)) ==> r == (
            if addresses.len() > 0 {
                Some(addresses[0])
            } else {
                None
            })
        }),
{
    reveal_strlit("ipv4_only");
    reveal_strlit("ipv6_only");
    reveal_strlit("prefer_ipv4");
    reveal_strlit("prefer_ipv6");
    assert("ipv4_only"@[3] != "ipv6_only"@[3]);
    assert("prefer_ipv4"@[10] != "prefer_ipv6"@[10]);
    assert("ipv4_only"@.len() != "prefer_ipv4"@.len());
    assert("ipv6_only"@.len() != "prefer_ipv6"@.len());
    lemma_first_of_family(addresses, true);
    lemma_first_of_family(addresses, false);
    let r = selected(addresses, strategy);
    if r is Some {
        let ip = r->0;
        assert(exists|i: int|
            0 <= i < addresses.len() && #[trigger] addresses[i] == ip && forall|j: int|
                0 <= j < i ==> ((#[trigger] addresses[j]) is V4) != (ip is V4)) by {
            if addresses.len() > 0 && ip == addresses[0] {
                assert(addresses[0] == ip);
            }
        }
        let i = choose|i: int|
            0 <= i < addresses.len() && #[trigger] addresses[i] == ip && forall|j: int|
                0 <= j < i ==> ((#[trigger] addresses[j]) is V4) != (ip is V4);
        assert forall|j: int|
            0 <= j < addresses.len() && (#[trigger] addresses[j] is V4) == (ip is V4)
                && addresses[j] != ip implies exists|k: int|
            0 <= k < j && #[trigger] addresses[k] == ip by {
            assert(i < j);
            assert(addresses[i] == ip);
        }
    }
    if addresses.len() > 0 {
        assert(addresses[0] is V4 || addresses[0] is V6);
    }
}

/// An override takes the place of the port, and of the host where it gives one;
/// what it does not give stays.
pub proof fn overrides_take_the_place(d: DestinationView, options: RouteOptionsView)
    ensures
        options.override_port matches Some(p) ==> overridden(d, options).port() == p,
        options.override_port is None ==> overridden(d, options).port() == d.port(),
        options.override_address is None ==> match (d, overridden(d, options)) {
            (DestinationView::Ip(a, _), DestinationView::Ip(b, _)) => a == b,
            (DestinationView::Domain(a, _), DestinationView::Domain(b, _)) => a == b,
            _ => false,
        },
        options.override_address matches Some(h) ==> (match net::ip_text(h) {
            Some(ip) => overridden(d, options) == DestinationView::Ip(
                ip,
                overridden(d, options).port(),
            ),
            None => overridden(d, options) == DestinationView::Domain(
                h,
                overridden(d, options).port(),
            ),
        }),
{
}

/// An evaluation decides only by a rule that decides, with the decision of that
/// rule, or by the outbound that holds where no rule matches; options, sniffing and
/// lookups decide nothing.
pub proof fn only_rules_that_decide_decide(
    s: StateView,
    lookup: LookupView,
    fallback: Seq<char>,
    server: Option<Seq<char>>,
    resolver: bool,
)
    ensures
        ({
            let (t, step) = after(s, lookup, fallback, server, resolver);
            &&& step matches StepView::Decided(d) ==> match lookup {
                LookupView::Nothing => d == DecisionView::Outbound(fallback),
                LookupView::Action { action, .. } => action matches ActionView::Route {
                    decision,
                    ..
                } && d == decision,
                LookupView::NeedResolve { .. } => false,
            }
            &&& (lookup matches LookupView::Action { action, .. } && action is Route)
                ==> step is Decided
            &&& step is Sniff ==> (lookup matches LookupView::Action { action, .. }
                && action is Sniff)
            &&& step is Resolve ==> (lookup matches LookupView::Action { action, .. }
                && action is Resolve)
            &&& step is ResolveForRule ==> lookup is NeedResolve
            &&& t.domain == s.domain
            &&& t.destination_ip == s.destination_ip
            &&& t.destination_ips == s.destination_ips
            &&& t.protocol == s.protocol
            &&& t.client == s.client
            &&& !(lookup matches LookupView::Action { action, .. } && (action is Route
                || action is RouteOptions)) ==> t.options == s.options
        }),
{
}

/// Names are looked up only where there is a name and something to look it up: the
/// known name, at the server that the rule names or else the given one, and with
/// what the rule asks for.
pub proof fn known_names_are_looked_up(
    s: StateView,
    lookup: LookupView,
    fallback: Seq<char>,
    server: Option<Seq<char>>,
    resolver: bool,
)
    ensures
        match after(s, lookup, fallback, server, resolver).1 {
            StepView::Resolve(q) => {
                &&& resolver
                &&& s.domain == Some(q.name)
                &&& lookup matches LookupView::Action {
                    action: ActionView::Resolve {
                        server: own,
                        strategy,
                        disable_cache,
                        rewrite_ttl,
                        client_subnet,
                        timeout,
                    },
                    ..
                } && {
                    &&& own is Some ==> q.server == own
                    &&& own is None ==> q.server == server
                    &&& q.strategy == strategy
                    &&& q.disable_cache == disable_cache
                    &&& q.rewrite_ttl == rewrite_ttl
                    &&& q.client_subnet == client_subnet
                    &&& q.timeout is Some <==> timeout is Some
                }
            },
            StepView::ResolveForRule { index, request: q } => {
                &&& resolver
                &&& s.domain == Some(q.name)
                &&& q.server == server
                &&& lookup == (LookupView::NeedResolve { index })
                &&& !q.disable_cache && q.rewrite_ttl is None && q.strategy is None
                    && q.client_subnet is None && q.timeout is None
            },
            _ => (lookup is NeedResolve || (lookup matches LookupView::Action { action, .. }
                && action is Resolve)) ==> s.domain is None || !resolver,
        },
{
}

/// The addresses that were looked up are kept whole, and the rules see the one that
/// the strategy takes, or for a rule that depends on them the first; nothing else
/// that is known changes.
pub proof fn looked_up_addresses_are_seen(
    s: StateView,
    addresses: Seq<IpAddr>,
    strategy: Option<Seq<char>>,
    index: nat,
)
    ensures
        with_addresses(s, addresses, strategy).destination_ips == addresses,
        for_rule(s, index, addresses).destination_ips == addresses,
        with_addresses(s, addresses, strategy).resolved,
        for_rule(s, index, addresses).resolved,
        with_addresses(s, addresses, strategy).destination_ip matches Some(ip)
            ==> addresses.contains(ip),
        addresses.len() > 0 ==> for_rule(s, index, addresses).destination_ip == Some(addresses[0]),
        addresses.len() > 0 ==> for_rule(s, index, addresses).cursor == index,
        addresses.len() == 0 ==> for_rule(s, index, addresses).destination_ip == s.destination_ip,
        addresses.len() == 0 ==> for_rule(s, index, addresses).cursor == index + 1,
        with_addresses(s, addresses, strategy).cursor == s.cursor,
        with_addresses(s, addresses, strategy).domain == s.domain,
        with_addresses(s, addresses, strategy).options == s.options,
        with_addresses(s, addresses, strategy).protocol == s.protocol,
        with_addresses(s, addresses, strategy).client == s.client,
        for_rule(s, index, addresses).domain == s.domain,
        for_rule(s, index, addresses).options == s.options,
        for_rule(s, index, addresses).protocol == s.protocol,
        for_rule(s, index, addresses).client == s.client,
{
    addresses_are_taken_by_strategy(addresses, strategy);
}

/// What the first bytes tell is seen by the rules: the protocol and the client, and
/// a name in place of the known one; where they tell no name the known one stays,
/// and where they tell nothing all stays.
pub proof fn what_was_sniffed_is_seen(s: StateView, found: Option<SniffView>)
    ensures
        found is None ==> with_sniffed(s, found) == s,
        found matches Some(v) ==> {
            let t = with_sniffed(s, found);
            &&& t.protocol == Some(v.protocol)
            &&& t.client == v.client
            &&& v.domain is Some ==> t.domain == v.domain
            &&& v.domain is None ==> t.domain == s.domain
            &&& t.destination_ip == s.destination_ip
            &&& t.destination_ips == s.destination_ips
            &&& t.resolved == s.resolved
            &&& t.options == s.options
            &&& t.cursor == s.cursor
        },
{
}

/// An evaluation starts at the first rule with what the destination is, a name or
/// an address, and with the options that hold by default; nothing was looked up or
/// sniffed.
pub proof fn an_evaluation_starts_with_the_destination(
    d: DestinationView,
    defaults: RouteOptionsView,
)
    ensures
        ({
            let s = start(d, defaults);
            &&& s.cursor == 0
            &&& d matches DestinationView::Domain(name, _) ==> s.domain == Some(name)
                && s.destination_ip is None
            &&& d matches DestinationView::Ip(ip, _) ==> s.domain is None && s.destination_ip
                == Some(ip)
            &&& s.options == defaults
            &&& !s.resolved && s.destination_ips.len() == 0
            &&& s.protocol is None && s.client is None
        }),
{
}

/// The rules are held against what is known: the name and the address, the port of
/// the destination, the source of the peer, the network, what was sniffed, the
/// inbound with its user, and what the host tells of the connection.
pub proof fn rules_see_what_is_known(
    c: RouteContext,
    s: StateView,
    input: RouteInput,
    d: DestinationView,
    network: Seq<char>,
)
    requires
        context_of(c, s, input, d, network),
    ensures
        match s.domain {
            Some(name) => c.domain is Some && c.domain->0@ == name,
            None => c.domain is None,
        },
        c.destination_ip == s.destination_ip,
        c.destination_port == Some(d.port()),
        c.source_ip == Some(input.peer.ip) && c.source_port == Some(input.peer.port),
        c.network is Some && c.network->0@ == network,
        match s.protocol {
            Some(p) => c.protocol is Some && c.protocol->0@ == p,
            None => c.protocol is None,
        },
        match s.client {
            Some(p) => c.client is Some && c.client->0@ == p,
            None => c.client is None,
        },
        c.inbound is Some && c.inbound->0@ == input.inbound@,
        c.auth_user == input.auth_user,
        c.clash_mode == input.clash_mode,
        match input.linux.process_name {
            Some(t) => c.process_name is Some && c.process_name->0@ == t@,
            None => c.process_name is None,
        },
        match input.linux.process_path {
            Some(t) => c.process_path is Some && c.process_path->0@ == t@,
            None => c.process_path is None,
        },
        match input.linux.user {
            Some(t) => c.user is Some && c.user->0@ == t@,
            None => c.user is None,
        },
        c.user_id == input.linux.user_id,
        match input.linux.network_type {
            Some(t) => c.network_type is Some && c.network_type->0@ == t@,
            None => c.network_type is None,
        },
        match input.linux.wifi_ssid {
            Some(t) => c.wifi_ssid is Some && c.wifi_ssid->0@ == t@,
            None => c.wifi_ssid is None,
        },
        match input.linux.wifi_bssid {
            Some(t) => c.wifi_bssid is Some && c.wifi_bssid->0@ == t@,
            None => c.wifi_bssid is None,
        },
        match input.linux.source_mac_address {
            Some(t) => c.source_mac_address is Some && c.source_mac_address->0@ == t@,
            None => c.source_mac_address is None,
        },
        match input.linux.source_hostname {
            Some(t) => c.source_hostname is Some && c.source_hostname->0@ == t@,
            None => c.source_hostname is None,
        },
        c.network_is_expensive == input.linux.network_is_expensive,
        c.network_is_constrained == input.linux.network_is_constrained,
        c.interface_addresses is Some && c.interface_addresses->0@
            == input.linux.interface_addresses@,
        c.network_interface_addresses is Some && c.network_interface_addresses->0@
            == input.linux.network_interface_addresses@,
        c.default_interface_addresses is Some && c.default_interface_addresses->0@
            == input.linux.default_interface_addresses@,
{
}

} // verus!
