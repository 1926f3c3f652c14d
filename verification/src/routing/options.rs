//! What a route rule decides, and the options it attaches to a connection.
use crate::text;
use vstd::prelude::*;

verus! {

/// Where a connection goes.
#[derive(Debug, Clone, PartialEq, Eq)]
pub enum RouteDecision {
    Outbound(String),
    Reject,
    HijackDns,
}

/// A decision with the outbound's tag as plain text.
pub enum DecisionView {
    Outbound(Seq<char>),
    Reject,
    HijackDns,
}

impl View for RouteDecision {
    type V = DecisionView;

    open spec fn view(&self) -> DecisionView {
        match *self {
            RouteDecision::Outbound(tag) => DecisionView::Outbound(tag@),
            RouteDecision::Reject => DecisionView::Reject,
            RouteDecision::HijackDns => DecisionView::HijackDns,
        }
    }
}

impl RouteDecision {
    /// A copy with the same contents.
    pub fn copy(&self) -> (r: RouteDecision)
        ensures
            r@ == self@,
    {
        match self {
            RouteDecision::Outbound(tag) => RouteDecision::Outbound(text::copy_text(tag.as_str())),
            RouteDecision::Reject => RouteDecision::Reject,
            RouteDecision::HijackDns => RouteDecision::HijackDns,
        }
    }
}

/// How a routed connection is dialled and treated.
#[derive(Debug, Clone, PartialEq, Eq)]
pub struct RouteOptions {
    pub override_address: Option<String>,
    pub override_port: Option<u16>,
    pub network_strategy: Option<String>,
    pub fallback_delay: Option<String>,
    pub udp_disable_domain_unmapping: bool,
    pub udp_connect: bool,
    pub udp_timeout: Option<String>,
    pub tls_fragment: bool,
    pub tls_fragment_fallback_delay: Option<String>,
    pub tls_record_fragment: bool,
    pub tls_spoof: Option<String>,
    pub tls_spoof_method: Option<String>,
    pub bind_interface: Option<String>,
    pub inet4_bind_address: Option<String>,
    pub inet6_bind_address: Option<String>,
    pub routing_mark: Option<u32>,
    pub reuse_addr: bool,
    pub connect_timeout: Option<String>,
    pub tcp_fast_open: bool,
    pub tcp_multi_path: bool,
    pub udp_fragment: Option<bool>,
    pub domain_strategy: Option<String>,
    pub reject_method: Option<String>,
    pub reject_no_drop: bool,
}

/// Options with their texts as plain sequences.
pub struct RouteOptionsView {
    pub override_address: Option<Seq<char>>,
    pub override_port: Option<u16>,
    pub network_strategy: Option<Seq<char>>,
    pub fallback_delay: Option<Seq<char>>,
    pub udp_disable_domain_unmapping: bool,
    pub udp_connect: bool,
    pub udp_timeout: Option<Seq<char>>,
    pub tls_fragment: bool,
    pub tls_fragment_fallback_delay: Option<Seq<char>>,
    pub tls_record_fragment: bool,
    pub tls_spoof: Option<Seq<char>>,
    pub tls_spoof_method: Option<Seq<char>>,
    pub bind_interface: Option<Seq<char>>,
    pub inet4_bind_address: Option<Seq<char>>,
    pub inet6_bind_address: Option<Seq<char>>,
    pub routing_mark: Option<u32>,
    pub reuse_addr: bool,
    pub connect_timeout: Option<Seq<char>>,
    pub tcp_fast_open: bool,
    pub tcp_multi_path: bool,
    pub udp_fragment: Option<bool>,
    pub domain_strategy: Option<Seq<char>>,
    pub reject_method: Option<Seq<char>>,
    pub reject_no_drop: bool,
}

impl View for RouteOptions {
    type V = RouteOptionsView;

    open spec fn view(&self) -> RouteOptionsView {
        RouteOptionsView {
            override_address: text::opt_text(self.override_address),
            override_port: self.override_port,
            network_strategy: text::opt_text(self.network_strategy),
            fallback_delay: text::opt_text(self.fallback_delay),
            udp_disable_domain_unmapping: self.udp_disable_domain_unmapping,
            udp_connect: self.udp_connect,
            udp_timeout: text::opt_text(self.udp_timeout),
            tls_fragment: self.tls_fragment,
            tls_fragment_fallback_delay: text::opt_text(self.tls_fragment_fallback_delay),
            tls_record_fragment: self.tls_record_fragment,
            tls_spoof: text::opt_text(self.tls_spoof),
            tls_spoof_method: text::opt_text(self.tls_spoof_method),
            bind_interface: text::opt_text(self.bind_interface),
            inet4_bind_address: text::opt_text(self.inet4_bind_address),
            inet6_bind_address: text::opt_text(self.inet6_bind_address),
            routing_mark: self.routing_mark,
            reuse_addr: self.reuse_addr,
            connect_timeout: text::opt_text(self.connect_timeout),
            tcp_fast_open: self.tcp_fast_open,
            tcp_multi_path: self.tcp_multi_path,
            udp_fragment: self.udp_fragment,
            domain_strategy: text::opt_text(self.domain_strategy),
            reject_method: text::opt_text(self.reject_method),
            reject_no_drop: self.reject_no_drop,
        }
    }
}

/// The newer value where there is one.
pub open spec fn newest<T>(older: Option<T>, newer: Option<T>) -> Option<T> {
    match newer {
        Some(v) => Some(v),
        None => older,
    }
}

impl RouteOptionsView {
    /// No option is set.
    pub open spec fn unset() -> RouteOptionsView {
        RouteOptionsView {
            override_address: None,
            override_port: None,
            network_strategy: None,
            fallback_delay: None,
            udp_disable_domain_unmapping: false,
            udp_connect: false,
            udp_timeout: None,
            tls_fragment: false,
            tls_fragment_fallback_delay: None,
            tls_record_fragment: false,
            tls_spoof: None,
            tls_spoof_method: None,
            bind_interface: None,
            inet4_bind_address: None,
            inet6_bind_address: None,
            routing_mark: None,
            reuse_addr: false,
            connect_timeout: None,
            tcp_fast_open: false,
            tcp_multi_path: false,
            udp_fragment: None,
            domain_strategy: None,
            reject_method: None,
            reject_no_drop: false,
        }
    }

    /// These options with newer ones laid over them: a newer value wins, and a
    /// switch that was on stays on.
    pub open spec fn overlaid(self, newer: RouteOptionsView) -> RouteOptionsView {
        RouteOptionsView {
            override_address: newest(self.override_address, newer.override_address),
            override_port: newest(self.override_port, newer.override_port),
            network_strategy: newest(self.network_strategy, newer.network_strategy),
            fallback_delay: newest(self.fallback_delay, newer.fallback_delay),
            udp_disable_domain_unmapping: self.udp_disable_domain_unmapping || newer.udp_disable_domain_unmapping,
            udp_connect: self.udp_connect || newer.udp_connect,
            udp_timeout: newest(self.udp_timeout, newer.udp_timeout),
            tls_fragment: self.tls_fragment || newer.tls_fragment,
            tls_fragment_fallback_delay: newest(self.tls_fragment_fallback_delay, newer.tls_fragment_fallback_delay),
            tls_record_fragment: self.tls_record_fragment || newer.tls_record_fragment,
            tls_spoof: newest(self.tls_spoof, newer.tls_spoof),
            tls_spoof_method: newest(self.tls_spoof_method, newer.tls_spoof_method),
            bind_interface: newest(self.bind_interface, newer.bind_interface),
            inet4_bind_address: newest(self.inet4_bind_address, newer.inet4_bind_address),
            inet6_bind_address: newest(self.inet6_bind_address, newer.inet6_bind_address),
            routing_mark: newest(self.routing_mark, newer.routing_mark),
            reuse_addr: self.reuse_addr || newer.reuse_addr,
            connect_timeout: newest(self.connect_timeout, newer.connect_timeout),
            tcp_fast_open: self.tcp_fast_open || newer.tcp_fast_open,
            tcp_multi_path: self.tcp_multi_path || newer.tcp_multi_path,
            udp_fragment: newest(self.udp_fragment, newer.udp_fragment),
            domain_strategy: newest(self.domain_strategy, newer.domain_strategy),
            reject_method: newest(self.reject_method, newer.reject_method),
            reject_no_drop: self.reject_no_drop || newer.reject_no_drop,
        }
    }
}

impl Default for RouteOptions {
    fn default() -> (r: RouteOptions)
        ensures
            r@ == RouteOptionsView::unset(),
    {
        RouteOptions {
            override_address: None,
            override_port: None,
            network_strategy: None,
            fallback_delay: None,
            udp_disable_domain_unmapping: false,
            udp_connect: false,
            udp_timeout: None,
            tls_fragment: false,
            tls_fragment_fallback_delay: None,
            tls_record_fragment: false,
            tls_spoof: None,
            tls_spoof_method: None,
            bind_interface: None,
            inet4_bind_address: None,
            inet6_bind_address: None,
            routing_mark: None,
            reuse_addr: false,
            connect_timeout: None,
            tcp_fast_open: false,
            tcp_multi_path: false,
            udp_fragment: None,
            domain_strategy: None,
            reject_method: None,
            reject_no_drop: false,
        }
    }
}

/// The newer text where there is one.
fn newest_text(older: &Option<String>, newer: &Option<String>) -> (r: Option<String>)
    ensures
        text::opt_text(r) == newest(text::opt_text(*older), text::opt_text(*newer)),
{
    match newer {
        Some(_) => text::copy_opt(newer),
        None => text::copy_opt(older),
    }
}

impl RouteOptions {
    /// A copy with the same contents.
    pub fn copy(&self) -> (r: RouteOptions)
        ensures
            r@ == self@,
    {
        RouteOptions {
            override_address: text::copy_opt(&self.override_address),
            override_port: self.override_port,
            network_strategy: text::copy_opt(&self.network_strategy),
            fallback_delay: text::copy_opt(&self.fallback_delay),
            udp_disable_domain_unmapping: self.udp_disable_domain_unmapping,
            udp_connect: self.udp_connect,
            udp_timeout: text::copy_opt(&self.udp_timeout),
            tls_fragment: self.tls_fragment,
            tls_fragment_fallback_delay: text::copy_opt(&self.tls_fragment_fallback_delay),
            tls_record_fragment: self.tls_record_fragment,
            tls_spoof: text::copy_opt(&self.tls_spoof),
            tls_spoof_method: text::copy_opt(&self.tls_spoof_method),
            bind_interface: text::copy_opt(&self.bind_interface),
            inet4_bind_address: text::copy_opt(&self.inet4_bind_address),
            inet6_bind_address: text::copy_opt(&self.inet6_bind_address),
            routing_mark: self.routing_mark,
            reuse_addr: self.reuse_addr,
            connect_timeout: text::copy_opt(&self.connect_timeout),
            tcp_fast_open: self.tcp_fast_open,
            tcp_multi_path: self.tcp_multi_path,
            udp_fragment: self.udp_fragment,
            domain_strategy: text::copy_opt(&self.domain_strategy),
            reject_method: text::copy_opt(&self.reject_method),
            reject_no_drop: self.reject_no_drop,
        }
    }

    /// Lays newer options over these.
    pub fn merge(&mut self, newer: &RouteOptions)
        ensures
            final(self)@ == old(self)@.overlaid(newer@),
    {
        let merged = RouteOptions {
            override_address: newest_text(&self.override_address, &newer.override_address),
            override_port: match newer.override_port {
                Some(v) => Some(v),
                None => self.override_port,
            },
            network_strategy: newest_text(&self.network_strategy, &newer.network_strategy),
            fallback_delay: newest_text(&self.fallback_delay, &newer.fallback_delay),
            udp_disable_domain_unmapping: self.udp_disable_domain_unmapping || newer.udp_disable_domain_unmapping,
            udp_connect: self.udp_connect || newer.udp_connect,
            udp_timeout: newest_text(&self.udp_timeout, &newer.udp_timeout),
            tls_fragment: self.tls_fragment || newer.tls_fragment,
            tls_fragment_fallback_delay: newest_text(&self.tls_fragment_fallback_delay, &newer.tls_fragment_fallback_delay),
            tls_record_fragment: self.tls_record_fragment || newer.tls_record_fragment,
            tls_spoof: newest_text(&self.tls_spoof, &newer.tls_spoof),
            tls_spoof_method: newest_text(&self.tls_spoof_method, &newer.tls_spoof_method),
            bind_interface: newest_text(&self.bind_interface, &newer.bind_interface),
            inet4_bind_address: newest_text(&self.inet4_bind_address, &newer.inet4_bind_address),
            inet6_bind_address: newest_text(&self.inet6_bind_address, &newer.inet6_bind_address),
            routing_mark: match newer.routing_mark {
                Some(v) => Some(v),
                None => self.routing_mark,
            },
            reuse_addr: self.reuse_addr || newer.reuse_addr,
            connect_timeout: newest_text(&self.connect_timeout, &newer.connect_timeout),
            tcp_fast_open: self.tcp_fast_open || newer.tcp_fast_open,
            tcp_multi_path: self.tcp_multi_path || newer.tcp_multi_path,
            udp_fragment: match newer.udp_fragment {
                Some(v) => Some(v),
                None => self.udp_fragment,
            },
            domain_strategy: newest_text(&self.domain_strategy, &newer.domain_strategy),
            reject_method: newest_text(&self.reject_method, &newer.reject_method),
            reject_no_drop: self.reject_no_drop || newer.reject_no_drop,
        };
        *self = merged;
    }
}

/// Laying unset options over others changes nothing, laying options over unset
/// ones gives them, laying the same options twice is laying them once, and
/// layers can be put together in any grouping.
pub proof fn merge_laws(a: RouteOptionsView, b: RouteOptionsView, c: RouteOptionsView)
    ensures
        a.overlaid(RouteOptionsView::unset()) == a,
        RouteOptionsView::unset().overlaid(a) == a,
        a.overlaid(b).overlaid(b) == a.overlaid(b),
        a.overlaid(b).overlaid(c) == a.overlaid(b.overlaid(c)),
{
}

/// Laid over others, an option that is set takes the place of the older one, and
/// one that is not set leaves it; what either switches on is on.
pub proof fn the_newer_option_holds(older: RouteOptionsView, newer: RouteOptionsView)
    ensures
        older.overlaid(newer).override_address == (if newer.override_address is Some {
            newer.override_address
        } else {
            older.override_address
        }),
        older.overlaid(newer).override_port == (if newer.override_port is Some {
            newer.override_port
        } else {
            older.override_port
        }),
        older.overlaid(newer).network_strategy == (if newer.network_strategy is Some {
            newer.network_strategy
        } else {
            older.network_strategy
        }),
        older.overlaid(newer).fallback_delay == (if newer.fallback_delay is Some {
            newer.fallback_delay
        } else {
            older.fallback_delay
        }),
        older.overlaid(newer).udp_timeout == (if newer.udp_timeout is Some {
            newer.udp_timeout
        } else {
            older.udp_timeout
        }),
        older.overlaid(newer).tls_fragment_fallback_delay == (if newer.tls_fragment_fallback_delay is Some {
            newer.tls_fragment_fallback_delay
        } else {
            older.tls_fragment_fallback_delay
        }),
        older.overlaid(newer).tls_spoof == (if newer.tls_spoof is Some {
            newer.tls_spoof
        } else {
            older.tls_spoof
        }),
        older.overlaid(newer).tls_spoof_method == (if newer.tls_spoof_method is Some {
            newer.tls_spoof_method
        } else {
            older.tls_spoof_method
        }),
        older.overlaid(newer).bind_interface == (if newer.bind_interface is Some {
            newer.bind_interface
        } else {
            older.bind_interface
        }),
        older.overlaid(newer).inet4_bind_address == (if newer.inet4_bind_address is Some {
            newer.inet4_bind_address
        } else {
            older.inet4_bind_address
        }),
        older.overlaid(newer).inet6_bind_address == (if newer.inet6_bind_address is Some {
            newer.inet6_bind_address
        } else {
            older.inet6_bind_address
        }),
        older.overlaid(newer).routing_mark == (if newer.routing_mark is Some {
            newer.routing_mark
        } else {
            older.routing_mark
        }),
        older.overlaid(newer).connect_timeout == (if newer.connect_timeout is Some {
            newer.connect_timeout
        } else {
            older.connect_timeout
        }),
        older.overlaid(newer).udp_fragment == (if newer.udp_fragment is Some {
            newer.udp_fragment
        } else {
            older.udp_fragment
        }),
        older.overlaid(newer).domain_strategy == (if newer.domain_strategy is Some {
            newer.domain_strategy
        } else {
            older.domain_strategy
        }),
        older.overlaid(newer).reject_method == (if newer.reject_method is Some {
            newer.reject_method
        } else {
            older.reject_method
        }),
        older.overlaid(newer).udp_disable_domain_unmapping <==> older.udp_disable_domain_unmapping || newer.udp_disable_domain_unmapping,
        older.overlaid(newer).udp_connect <==> older.udp_connect || newer.udp_connect,
        older.overlaid(newer).tls_fragment <==> older.tls_fragment || newer.tls_fragment,
        older.overlaid(newer).tls_record_fragment <==> older.tls_record_fragment || newer.tls_record_fragment,
        older.overlaid(newer).reuse_addr <==> older.reuse_addr || newer.reuse_addr,
        older.overlaid(newer).tcp_fast_open <==> older.tcp_fast_open || newer.tcp_fast_open,
        older.overlaid(newer).tcp_multi_path <==> older.tcp_multi_path || newer.tcp_multi_path,
        older.overlaid(newer).reject_no_drop <==> older.reject_no_drop || newer.reject_no_drop,
{
}

/// What a matching rule does.
#[derive(Debug, Clone, PartialEq, Eq)]
pub enum RuleAction {
    Route { decision: RouteDecision, options: RouteOptions },
    RouteOptions(RouteOptions),
    Sniff { sniffers: Vec<String>, timeout: Option<String> },
    Resolve {
        server: Option<String>,
        timeout: Option<String>,
        strategy: Option<String>,
        disable_cache: bool,
        rewrite_ttl: Option<u32>,
        client_subnet: Option<String>,
    },
}

/// An action with its texts as plain sequences.
pub enum ActionView {
    Route { decision: DecisionView, options: RouteOptionsView },
    RouteOptions(RouteOptionsView),
    Sniff { sniffers: Seq<Seq<char>>, timeout: Option<Seq<char>> },
    Resolve {
        server: Option<Seq<char>>,
        timeout: Option<Seq<char>>,
        strategy: Option<Seq<char>>,
        disable_cache: bool,
        rewrite_ttl: Option<u32>,
        client_subnet: Option<Seq<char>>,
    },
}

impl View for RuleAction {
    type V = ActionView;

    open spec fn view(&self) -> ActionView {
        match *self {
            RuleAction::Route { decision, options } => ActionView::Route {
                decision: decision@,
                options: options@,
            },
            RuleAction::RouteOptions(options) => ActionView::RouteOptions(options@),
            RuleAction::Sniff { sniffers, timeout } => ActionView::Sniff {
                sniffers: text::texts(sniffers@),
                timeout: text::opt_text(timeout),
            },
            RuleAction::Resolve {
                server,
                timeout,
                strategy,
                disable_cache,
                rewrite_ttl,
                client_subnet,
            } => ActionView::Resolve {
                server: text::opt_text(server),
                timeout: text::opt_text(timeout),
                strategy: text::opt_text(strategy),
                disable_cache,
                rewrite_ttl,
                client_subnet: text::opt_text(client_subnet),
            },
        }
    }
}

} // verus!
