//! What is done with a connection or a flow of datagrams once it is routed. The
//! caller opens sockets and streams and moves bytes; what is opened, and where
//! each packet and each answer goes, is decided here.
use crate::net::{Destination, DestinationView, IpAddr, SocketAddr};
use crate::proxy::route;
use crate::proxy::udp;
use crate::routing::options::{DecisionView, RouteOptionsView};
use crate::routing::{RouteDecision, RouteOptions};
use crate::text;
use crate::time::{self, Duration};
use vstd::prelude::*;

verus! {

/// What an outbound connects through, groups followed to their member.
#[derive(Clone, Copy, Debug, PartialEq, Eq, Structural)]
pub enum DialerKind {
    Direct,
    Block,
    AnyTls,
    Vless { xudp: bool },
}

/// Why a flow is not relayed, or not any further.
#[derive(Clone, Copy, Debug, PartialEq, Eq, Structural)]
pub enum RelayError {
    NoResolver,
    UnknownOutbound,
    Rejected,
    Blocked,
    HijackOverHttp,
    UnconnectedClassic,
    ClassicDestination,
    PacketTooLarge,
    NoAddress,
}

// ---- datagrams ----

/// Where a flow of datagrams comes in.
#[derive(Clone, Copy, Debug, PartialEq, Eq, Structural)]
pub enum UdpInbound {
    /// From a network device; `fixed` where a session has one destination.
    Tun { fixed: bool },
    /// From an association of SOCKS.
    Socks,
    /// From a stream that carries datagrams, with one destination or several.
    Stream { connect: bool },
}

/// How a proxy is asked to carry datagrams.
#[derive(Clone, Copy, Debug, PartialEq, Eq, Structural)]
pub enum Command {
    Udp,
    Xudp,
}

/// What is opened for a flow of datagrams.
#[derive(Clone, Copy, Debug, PartialEq, Eq, Structural)]
pub enum UdpOpening {
    /// The datagrams are queries for the resolver.
    Hijack,
    /// Nothing: the datagrams are dropped.
    Closed,
    /// A socket, connected or not.
    Direct { connected: bool },
    /// A stream to another proxy.
    Vless { command: Command },
    /// A stream of a session, for one destination or several.
    AnyTls { is_connect: bool },
}

/// What a decision opens for a flow of datagrams; `dialer` is that of the
/// outbound decided on, if there is such an outbound.
pub open spec fn udp_opening(
    inbound: UdpInbound,
    decision: DecisionView,
    dialer: Option<DialerKind>,
    o: RouteOptionsView,
    resolver: bool,
) -> Result<UdpOpening, RelayError> {
    let quiet = inbound is Socks;
    match decision {
        DecisionView::HijackDns => if resolver {
            Ok(UdpOpening::Hijack)
        } else if quiet {
            Ok(UdpOpening::Closed)
        } else {
            Err(RelayError::NoResolver)
        },
        DecisionView::Reject => if inbound is Stream {
            Err(RelayError::Rejected)
        } else {
            Ok(UdpOpening::Closed)
        },
        DecisionView::Outbound(_) => match dialer {
            None => if quiet {
                Ok(UdpOpening::Closed)
            } else {
                Err(RelayError::UnknownOutbound)
            },
            Some(DialerKind::Block) => if inbound is Stream {
                Err(RelayError::Blocked)
            } else {
                Ok(UdpOpening::Closed)
            },
            Some(DialerKind::Direct) => Ok(
                UdpOpening::Direct {
                    connected: match inbound {
                        UdpInbound::Tun { fixed } => o.udp_connect && fixed,
                        UdpInbound::Socks => o.udp_connect,
                        UdpInbound::Stream { connect } => connect || o.udp_connect,
                    },
                },
            ),
            Some(DialerKind::Vless { xudp }) => if !xudp && inbound == (UdpInbound::Stream {
                connect: false,
            }) {
                Err(RelayError::UnconnectedClassic)
            } else {
                Ok(
                    UdpOpening::Vless {
                        command: if xudp {
                            Command::Xudp
                        } else {
                            Command::Udp
                        },
                    },
                )
            },
            Some(DialerKind::AnyTls) => Ok(
                UdpOpening::AnyTls {
                    is_connect: match inbound {
                        UdpInbound::Tun { fixed } => fixed,
                        UdpInbound::Socks => true,
                        UdpInbound::Stream { connect } => connect,
                    },
                },
            ),
        },
    }
}

/// What a packet of a flow is turned into.
#[derive(Clone, Debug, PartialEq, Eq)]
pub enum UdpAction {
    /// Put to the resolver, whose answer is said to come from `source`.
    Query { source: Destination },
    /// Dropped.
    Drop,
    /// Sent on a connected socket.
    Send,
    /// Sent on a socket to a destination.
    SendTo(Destination),
    /// Written with its destination; the first one opens the carrier.
    Xudp { first: bool, destination: Destination },
    /// Written behind its length.
    Plain { length: u16 },
    /// Written to the stream of a session.
    Uot { destination: Destination, connect: bool },
}

/// An action with plain values.
pub enum UdpActionView {
    Query { source: DestinationView },
    Drop,
    Send,
    SendTo(DestinationView),
    Xudp { first: bool, destination: DestinationView },
    Plain { length: nat },
    Uot { destination: DestinationView, connect: bool },
}

impl View for UdpAction {
    type V = UdpActionView;

    open spec fn view(&self) -> UdpActionView {
        match *self {
            UdpAction::Query { source } => UdpActionView::Query { source: source@ },
            UdpAction::Drop => UdpActionView::Drop,
            UdpAction::Send => UdpActionView::Send,
            UdpAction::SendTo(d) => UdpActionView::SendTo(d@),
            UdpAction::Xudp { first, destination } => UdpActionView::Xudp {
                first,
                destination: destination@,
            },
            UdpAction::Plain { length } => UdpActionView::Plain { length: length as nat },
            UdpAction::Uot { destination, connect } => UdpActionView::Uot {
                destination: destination@,
                connect,
            },
        }
    }
}

/// A flow of datagrams: where it comes in, what was opened for it, where it is
/// routed to, where its first packet was meant to go, and whether the packet by
/// which it was routed is still to be handed on.
#[derive(Debug)]
pub struct UdpFlow {
    pub inbound: UdpInbound,
    pub opening: UdpOpening,
    pub destination: Destination,
    pub original: Destination,
    pub options: RouteOptions,
    pub idle: Duration,
    pub first: bool,
}

/// A flow with plain values.
pub struct FlowView {
    pub inbound: UdpInbound,
    pub opening: UdpOpening,
    pub destination: DestinationView,
    pub original: DestinationView,
    pub options: RouteOptionsView,
    pub idle: nat,
    pub first: bool,
}

impl View for UdpFlow {
    type V = FlowView;

    open spec fn view(&self) -> FlowView {
        FlowView {
            inbound: self.inbound,
            opening: self.opening,
            destination: self.destination@,
            original: self.original@,
            options: self.options@,
            idle: self.idle.millis as nat,
            first: self.first,
        }
    }
}

/// Where a packet of a flow goes: to its own destination, or where the whole
/// association goes. The first packet of a stream goes where the stream is routed.
pub open spec fn packet_destination(f: FlowView, to: DestinationView) -> DestinationView {
    match f.inbound {
        UdpInbound::Tun { .. } => to,
        UdpInbound::Socks => f.destination,
        UdpInbound::Stream { .. } => if f.first {
            f.destination
        } else {
            to
        },
    }
}

/// What the resolver's answer to a packet is said to come from: where the first
/// packet of a device was meant to go, or else where the packet goes.
pub open spec fn query_source(f: FlowView, to: DestinationView) -> DestinationView {
    if f.inbound is Tun {
        f.original
    } else {
        packet_destination(f, to)
    }
}

/// What a packet of some length to a destination is turned into.
pub open spec fn packet_action(f: FlowView, length: nat, to: DestinationView) -> Result<
    UdpActionView,
    RelayError,
> {
    match f.opening {
        UdpOpening::Direct { connected } => if connected {
            Ok(UdpActionView::Send)
        } else {
            Ok(
                UdpActionView::SendTo(
                    if f.inbound is Stream && !f.first {
                        route::overridden(to, f.options)
                    } else {
                        packet_destination(f, to)
                    },
                ),
            )
        },
        UdpOpening::Vless { command: Command::Xudp } => Ok(
            UdpActionView::Xudp { first: f.first, destination: packet_destination(f, to) },
        ),
        UdpOpening::Vless { command: Command::Udp } => if f.inbound is Tun && to != f.original {
            Err(RelayError::ClassicDestination)
        } else if length > u16::MAX {
            Err(RelayError::PacketTooLarge)
        } else {
            Ok(UdpActionView::Plain { length })
        },
        UdpOpening::AnyTls { is_connect } => Ok(
            UdpActionView::Uot { destination: packet_destination(f, to), connect: is_connect },
        ),
        UdpOpening::Hijack => Ok(UdpActionView::Query { source: query_source(f, to) }),
        UdpOpening::Closed => Ok(UdpActionView::Drop),
    }
}

/// What an answer is said to come from; `source` is missing where the carrier
/// does not tell.
pub open spec fn answer_source(f: FlowView, source: Option<DestinationView>) -> DestinationView {
    match source {
        None => f.destination,
        Some(s) => if f.inbound is Stream && f.opening is Vless {
            s
        } else {
            udp::response_source(f.destination, s, f.options)
        },
    }
}

fn same_destination(a: &Destination, b: &Destination) -> (r: bool)
    ensures
        r == (a@ == b@),
{
    match (a, b) {
        (Destination::Ip(x, p), Destination::Ip(y, q)) => *x == *y && *p == *q,
        (Destination::Domain(x, p), Destination::Domain(y, q)) => text::same_text(
            x.as_str(),
            y.as_str(),
        ) && *p == *q,
        _ => false,
    }
}

/// Decides what is opened for a flow of datagrams.
pub fn open_udp(
    inbound: UdpInbound,
    decision: &RouteDecision,
    dialer: Option<DialerKind>,
    options: &RouteOptions,
    resolver: bool,
) -> (r: Result<UdpOpening, RelayError>)
    ensures
        r == udp_opening(inbound, decision@, dialer, options@, resolver),
{
    let quiet = match inbound {
        UdpInbound::Socks => true,
        _ => false,
    };
    let stream = match inbound {
        UdpInbound::Stream { .. } => true,
        _ => false,
    };
    match decision {
        RouteDecision::HijackDns => if resolver {
            Ok(UdpOpening::Hijack)
        } else if quiet {
            Ok(UdpOpening::Closed)
        } else {
            Err(RelayError::NoResolver)
        },
        RouteDecision::Reject => if stream {
            Err(RelayError::Rejected)
        } else {
            Ok(UdpOpening::Closed)
        },
        RouteDecision::Outbound(_) => match dialer {
            None => if quiet {
                Ok(UdpOpening::Closed)
            } else {
                Err(RelayError::UnknownOutbound)
            },
            Some(DialerKind::Block) => if stream {
                Err(RelayError::Blocked)
            } else {
                Ok(UdpOpening::Closed)
            },
            Some(DialerKind::Direct) => {
                let connected = match inbound {
                    UdpInbound::Tun { fixed } => options.udp_connect && fixed,
                    UdpInbound::Socks => options.udp_connect,
                    UdpInbound::Stream { connect } => connect || options.udp_connect,
                };
                Ok(UdpOpening::Direct { connected })
            },
            Some(DialerKind::Vless { xudp }) => {
                if !xudp && inbound == (UdpInbound::Stream { connect: false }) {
                    return Err(RelayError::UnconnectedClassic);
                }
                let command = if xudp {
                    Command::Xudp
                } else {
                    Command::Udp
                };
                Ok(UdpOpening::Vless { command })
            },
            Some(DialerKind::AnyTls) => {
                let is_connect = match inbound {
                    UdpInbound::Tun { fixed } => fixed,
                    UdpInbound::Socks => true,
                    UdpInbound::Stream { connect } => connect,
                };
                Ok(UdpOpening::AnyTls { is_connect })
            },
        },
    }
}

/// What the client of a stream is told when its flow is refused; nothing where a
/// rule wants it dropped.
pub open spec fn refusal(error: RelayError, o: RouteOptionsView) -> Option<Seq<char>> {
    match error {
        RelayError::Rejected => if o.reject_method == Some("drop"@) {
            None
        } else {
            Some("UDP connection rejected by route"@)
        },
        RelayError::Blocked => Some("UDP connection blocked"@),
        RelayError::UnconnectedClassic => Some("unconnected UoT requires VLESS XUDP"@),
        _ => None,
    }
}

/// What the client of a stream is told when its flow of datagrams is refused.
pub fn udp_refusal(error: RelayError, options: &RouteOptions) -> (r: Option<String>)
    ensures
        text::opt_text(r) == refusal(error, options@),
{
    match error {
        RelayError::Rejected => if text::opt_is(&options.reject_method, "drop") {
            None
        } else {
            Some(text::copy_text("UDP connection rejected by route"))
        },
        RelayError::Blocked => Some(text::copy_text("UDP connection blocked")),
        RelayError::UnconnectedClassic => Some(
            text::copy_text("unconnected UoT requires VLESS XUDP"),
        ),
        _ => None,
    }
}

impl UdpFlow {
    /// A flow that was opened: it ends after the idle time of the options, or the
    /// default, without a packet either way.
    pub fn new(
        inbound: UdpInbound,
        opening: UdpOpening,
        destination: Destination,
        original: Destination,
        options: RouteOptions,
        default_idle: Duration,
    ) -> (r: UdpFlow)
        ensures
            r@ == (FlowView {
                inbound,
                opening,
                destination: destination@,
                original: original@,
                options: options@,
                idle: time::option_millis(options@.udp_timeout, default_idle.millis as nat),
                first: true,
            }),
    {
        let idle = time::option_duration(&options.udp_timeout, default_idle);
        UdpFlow { inbound, opening, destination, original, options, idle, first: true }
    }

    /// Decides what a packet is turned into. Only the first packet opens a carrier.
    pub fn packet(&mut self, length: usize, to: &Destination) -> (r: Result<UdpAction, RelayError>)
        ensures
            match r {
                Ok(a) => packet_action(old(self)@, length as nat, to@) == Ok::<_, RelayError>(a@),
                Err(e) => packet_action(old(self)@, length as nat, to@) == Err::<UdpActionView, _>(
                    e,
                ),
            },
            final(self)@ == (FlowView {
                first: old(self)@.first && r is Err,
                ..old(self)@
            }),
    {
        let first = self.first;
        let own = match self.inbound {
            UdpInbound::Tun { .. } => to.copy(),
            UdpInbound::Socks => self.destination.copy(),
            UdpInbound::Stream { .. } => if first {
                self.destination.copy()
            } else {
                to.copy()
            },
        };
        let action = match self.opening {
            UdpOpening::Direct { connected } => {
                if connected {
                    UdpAction::Send
                } else {
                    match self.inbound {
                        UdpInbound::Stream { .. } => if first {
                            UdpAction::SendTo(own)
                        } else {
                            UdpAction::SendTo(route::override_destination(own, &self.options))
                        },
                        _ => UdpAction::SendTo(own),
                    }
                }
            },
            UdpOpening::Vless { command: Command::Xudp } => UdpAction::Xudp {
                first,
                destination: own,
            },
            UdpOpening::Vless { command: Command::Udp } => {
                match self.inbound {
                    UdpInbound::Tun { .. } => {
                        if !same_destination(to, &self.original) {
                            return Err(RelayError::ClassicDestination);
                        }
                    },
                    _ => {},
                }
                if length > 0xffff {
                    return Err(RelayError::PacketTooLarge);
                }
                UdpAction::Plain { length: length as u16 }
            },
            UdpOpening::AnyTls { is_connect } => UdpAction::Uot {
                destination: own,
                connect: is_connect,
            },
            UdpOpening::Hijack => match self.inbound {
                UdpInbound::Tun { .. } => UdpAction::Query { source: self.original.copy() },
                _ => UdpAction::Query { source: own },
            },
            UdpOpening::Closed => UdpAction::Drop,
        };
        self.first = false;
        Ok(action)
    }

    /// Decides what an answer is said to come from.
    pub fn answer(&self, source: Option<&Destination>) -> (r: Destination)
        ensures
            r@ == answer_source(
                self@,
                match source {
                    Some(s) => Some(s@),
                    None => None,
                },
            ),
    {
        match source {
            None => self.destination.copy(),
            Some(s) => {
                match (self.inbound, self.opening) {
                    (UdpInbound::Stream { .. }, UdpOpening::Vless { .. }) => s.copy(),
                    _ => udp::udp_response_proxy_destination(&self.destination, s, &self.options),
                }
            },
        }
    }
}

/// The socket address of a destination: its own, or the first that its name was
/// looked up to.
pub fn destination_socket_addr(destination: &Destination, looked_up: Option<&Vec<IpAddr>>) -> (r:
    Result<SocketAddr, RelayError>)
    ensures
        match destination@ {
            DestinationView::Ip(ip, port) => r == Ok::<SocketAddr, RelayError>(
                SocketAddr { ip, port },
            ),
            DestinationView::Domain(_, port) => match looked_up {
                None => r == Err::<SocketAddr, RelayError>(RelayError::NoResolver),
                Some(list) => if list@.len() > 0 {
                    r == Ok::<SocketAddr, RelayError>(SocketAddr { ip: list@[0], port })
                } else {
                    r == Err::<SocketAddr, RelayError>(RelayError::NoAddress)
                },
            },
        },
{
    match destination {
        Destination::Ip(ip, port) => Ok(SocketAddr { ip: *ip, port: *port }),
        Destination::Domain(_, port) => match looked_up {
            None => Err(RelayError::NoResolver),
            Some(list) => if list.len() > 0 {
                Ok(SocketAddr { ip: list[0], port: *port })
            } else {
                Err(RelayError::NoAddress)
            },
        },
    }
}

/// The first packet that is written with its destination opens the carrier, and
/// no later one does.
pub proof fn one_packet_opens_the_carrier(f: FlowView, length: nat, to: DestinationView)
    requires
        f.opening == (UdpOpening::Vless { command: Command::Xudp }),
    ensures
        packet_action(f, length, to) matches Ok(UdpActionView::Xudp { first, .. }) && first
            == f.first,
        packet_action(FlowView { first: false, ..f }, length, to) matches Ok(
            UdpActionView::Xudp { first, .. },
        ) && !first,
{
}

/// The answer to a name asked for is said to come from that name, wherever it
/// came from, unless the options want the true source or the carrier hands the
/// source on.
pub proof fn answers_come_from_the_name(f: FlowView, source: Option<DestinationView>)
    requires
        f.destination is Domain,
        !f.options.udp_disable_domain_unmapping,
        !(f.inbound is Stream && f.opening is Vless),
    ensures
        answer_source(f, source) == f.destination,
{
}

/// What is opened for a flow of datagrams is of the kind of the dialer decided
/// on, and the way in which another proxy is asked to carry them is the dialer's.
/// Nothing is opened for a flow that is rejected, blocked or sent to an outbound
/// that is not there: it is dropped in silence, or its client hears of it.
pub proof fn a_flow_opens_what_its_dialer_is(
    inbound: UdpInbound,
    decision: DecisionView,
    dialer: Option<DialerKind>,
    o: RouteOptionsView,
    resolver: bool,
)
    ensures
        match udp_opening(inbound, decision, dialer, o, resolver) {
            Ok(UdpOpening::Direct { .. }) => decision is Outbound && dialer == Some(
                DialerKind::Direct,
            ),
            Ok(UdpOpening::Vless { command: Command::Xudp }) => decision is Outbound && dialer
                == Some(DialerKind::Vless { xudp: true }),
            Ok(UdpOpening::Vless { command: Command::Udp }) => decision is Outbound && dialer
                == Some(DialerKind::Vless { xudp: false }),
            Ok(UdpOpening::AnyTls { .. }) => decision is Outbound && dialer == Some(
                DialerKind::AnyTls,
            ),
            Ok(UdpOpening::Hijack) => decision is HijackDns && resolver,
            Ok(UdpOpening::Closed) => !(inbound is Stream) && !(decision is HijackDns && resolver)
                && !(decision is Outbound && dialer is Some && dialer != Some(DialerKind::Block)),
            Err(RelayError::UnconnectedClassic) => decision is Outbound && dialer == Some(
                DialerKind::Vless { xudp: false },
            ) && inbound == (UdpInbound::Stream { connect: false }),
            Err(RelayError::Rejected) => decision is Reject && inbound is Stream,
            Err(RelayError::Blocked) => decision is Outbound && dialer == Some(DialerKind::Block)
                && inbound is Stream,
            Err(RelayError::UnknownOutbound) => decision is Outbound && dialer is None && !(
            inbound is Socks),
            Err(RelayError::NoResolver) => decision is HijackDns && !resolver && !(
            inbound is Socks),
            Err(_) => false,
        },
{
}

/// A socket is connected where the options want it and the flow has one
/// destination to connect to; a stream for one destination is always connected,
/// and a flow from a device with several destinations never is.
pub proof fn connected_sockets(inbound: UdpInbound, tag: Seq<char>, o: RouteOptionsView, resolver: bool)
    ensures
        udp_opening(
            inbound,
            DecisionView::Outbound(tag),
            Some(DialerKind::Direct),
            o,
            resolver,
        ) matches Ok(UdpOpening::Direct { connected }) && {
            &&& inbound == (UdpInbound::Tun { fixed: false }) ==> !connected
            &&& inbound == (UdpInbound::Stream { connect: true }) ==> connected
            &&& o.udp_connect && inbound != (UdpInbound::Tun { fixed: false }) ==> connected
            &&& !o.udp_connect && inbound != (UdpInbound::Stream { connect: true }) ==> !connected
        },
{
}

/// A packet leaves by the carrier that was opened for its flow and no other: by
/// the socket, to another proxy, by the session, or to the resolver; and nothing
/// leaves a flow that is closed.
pub proof fn packets_leave_by_what_was_opened(f: FlowView, length: nat, to: DestinationView)
    ensures
        match packet_action(f, length, to) {
            Ok(UdpActionView::Send) => f.opening == (UdpOpening::Direct { connected: true }),
            Ok(UdpActionView::SendTo(_)) => f.opening == (UdpOpening::Direct { connected: false }),
            Ok(UdpActionView::Xudp { .. }) => f.opening == (UdpOpening::Vless {
                command: Command::Xudp,
            }),
            Ok(UdpActionView::Plain { length: n }) => f.opening == (UdpOpening::Vless {
                command: Command::Udp,
            }) && n == length && length < 0x10000,
            Ok(UdpActionView::Uot { connect, .. }) => f.opening == (UdpOpening::AnyTls {
                is_connect: connect,
            }),
            Ok(UdpActionView::Query { .. }) => f.opening is Hijack,
            Ok(UdpActionView::Drop) => f.opening is Closed,
            Err(RelayError::PacketTooLarge) => f.opening == (UdpOpening::Vless {
                command: Command::Udp,
            }) && length >= 0x10000,
            Err(RelayError::ClassicDestination) => f.opening == (UdpOpening::Vless {
                command: Command::Udp,
            }) && f.inbound is Tun && to != f.original,
            Err(_) => false,
        },
{
}

/// A packet from a device goes where it was sent. A packet of an association goes
/// where the association is routed, whatever it says itself. The first packet of a
/// stream goes where the stream is routed, and a later one where it was sent, with
/// the address and the port that the options put in place of its own.
pub proof fn packets_go_where_they_are_routed(f: FlowView, length: nat, to: DestinationView)
    ensures
        match packet_action(f, length, to) {
            Ok(UdpActionView::SendTo(d)) => {
                &&& f.inbound is Tun ==> d == to
                &&& f.inbound is Socks || (f.inbound is Stream && f.first) ==> d == f.destination
                &&& f.inbound is Stream && !f.first ==> {
                    &&& f.options.override_port is None && f.options.override_address is None ==> d
                        == to
                    &&& f.options.override_port matches Some(p) ==> d.port() == p
                    &&& f.options.override_port is None ==> d.port() == to.port()
                }
            },
            Ok(UdpActionView::Xudp { destination, .. }) | Ok(
                UdpActionView::Uot { destination, .. },
            ) => {
                &&& f.inbound is Tun || (f.inbound is Stream && !f.first) ==> destination == to
                &&& f.inbound is Socks || (f.inbound is Stream && f.first) ==> destination
                    == f.destination
            },
            Ok(UdpActionView::Query { source }) => {
                &&& f.inbound is Tun ==> source == f.original
                &&& f.inbound is Socks || (f.inbound is Stream && f.first) ==> source
                    == f.destination
                &&& f.inbound is Stream && !f.first ==> source == to
            },
            _ => true,
        },
{
}

// ---- connections ----

/// Where a connection comes in.
#[derive(Clone, Copy, Debug, PartialEq, Eq, Structural)]
pub enum TcpInbound {
    /// From a client of SOCKS or HTTP; `request` where a request was read that
    /// has to be handed on.
    Proxy { request: bool },
    /// From a stream of a session.
    Session,
    /// From a network device.
    Tun,
}

/// What is opened for a connection.
#[derive(Clone, Copy, Debug, PartialEq, Eq, Structural)]
pub enum TcpOpening {
    Hijack,
    Direct,
    Vless,
    AnyTls,
}

/// What a decision opens for a connection.
pub open spec fn tcp_opening(
    inbound: TcpInbound,
    decision: DecisionView,
    dialer: Option<DialerKind>,
    resolver: bool,
) -> Result<TcpOpening, RelayError> {
    match decision {
        DecisionView::HijackDns => if !resolver {
            Err(RelayError::NoResolver)
        } else if inbound == (TcpInbound::Proxy { request: true }) {
            Err(RelayError::HijackOverHttp)
        } else {
            Ok(TcpOpening::Hijack)
        },
        DecisionView::Reject => Err(RelayError::Rejected),
        DecisionView::Outbound(_) => match dialer {
            None => Err(RelayError::UnknownOutbound),
            Some(DialerKind::Block) => Err(RelayError::Blocked),
            Some(DialerKind::Direct) => Ok(TcpOpening::Direct),
            Some(DialerKind::Vless { .. }) => Ok(TcpOpening::Vless),
            Some(DialerKind::AnyTls) => Ok(TcpOpening::AnyTls),
        },
    }
}

/// Decides what is opened for a connection.
pub fn open_tcp(
    inbound: TcpInbound,
    decision: &RouteDecision,
    dialer: Option<DialerKind>,
    resolver: bool,
) -> (r: Result<TcpOpening, RelayError>)
    ensures
        r == tcp_opening(inbound, decision@, dialer, resolver),
        r == Ok::<_, RelayError>(TcpOpening::Direct) <==> decision@ is Outbound && dialer == Some(
            DialerKind::Direct,
        ),
        r == Ok::<_, RelayError>(TcpOpening::Vless) <==> decision@ is Outbound && dialer is Some
            && dialer->0 is Vless,
        r == Ok::<_, RelayError>(TcpOpening::AnyTls) <==> decision@ is Outbound && dialer == Some(
            DialerKind::AnyTls,
        ),
        r == Ok::<_, RelayError>(TcpOpening::Hijack) <==> decision@ is HijackDns && resolver
            && inbound != (TcpInbound::Proxy { request: true }),
        r == Err::<TcpOpening, _>(RelayError::Rejected) <==> decision@ is Reject,
        r == Err::<TcpOpening, _>(RelayError::Blocked) <==> decision@ is Outbound && dialer == Some(
            DialerKind::Block,
        ),
        r == Err::<TcpOpening, _>(RelayError::UnknownOutbound) <==> decision@ is Outbound
            && dialer is None,
        r == Err::<TcpOpening, _>(RelayError::NoResolver) <==> decision@ is HijackDns && !resolver,
        r == Err::<TcpOpening, _>(RelayError::HijackOverHttp) <==> decision@ is HijackDns
            && resolver && inbound == (TcpInbound::Proxy { request: true }),
{
    match decision {
        RouteDecision::HijackDns => if !resolver {
            Err(RelayError::NoResolver)
        } else if inbound == (TcpInbound::Proxy { request: true }) {
            Err(RelayError::HijackOverHttp)
        } else {
            Ok(TcpOpening::Hijack)
        },
        RouteDecision::Reject => Err(RelayError::Rejected),
        RouteDecision::Outbound(_) => match dialer {
            None => Err(RelayError::UnknownOutbound),
            Some(DialerKind::Block) => Err(RelayError::Blocked),
            Some(DialerKind::Direct) => Ok(TcpOpening::Direct),
            Some(DialerKind::Vless { .. }) => Ok(TcpOpening::Vless),
            Some(DialerKind::AnyTls) => Ok(TcpOpening::AnyTls),
        },
    }
}

/// What is opened for a connection is of the kind of the dialer decided on: a
/// socket only for a direct dialer, a stream to another proxy exactly for a dialer
/// of that proxy, and the resolver only for a connection hijacked for it. A
/// rejected or blocked connection, and one to an outbound that is not there, opens
/// nothing.
pub proof fn a_connection_opens_what_its_dialer_is(
    inbound: TcpInbound,
    decision: DecisionView,
    dialer: Option<DialerKind>,
    resolver: bool,
)
    ensures
        match tcp_opening(inbound, decision, dialer, resolver) {
            Ok(TcpOpening::Direct) => decision is Outbound && dialer == Some(DialerKind::Direct),
            Ok(TcpOpening::Vless) => decision is Outbound && (dialer == Some(
                DialerKind::Vless { xudp: true },
            ) || dialer == Some(DialerKind::Vless { xudp: false })),
            Ok(TcpOpening::AnyTls) => decision is Outbound && dialer == Some(DialerKind::AnyTls),
            Ok(TcpOpening::Hijack) => decision is HijackDns && resolver,
            Err(e) => !(decision is Outbound && dialer is Some && dialer != Some(
                DialerKind::Block,
            )),
        },
        decision is Reject ==> tcp_opening(inbound, decision, dialer, resolver) is Err,
        decision is HijackDns && !resolver ==> tcp_opening(
            inbound,
            decision,
            dialer,
            resolver,
        ) is Err,
{
}

/// Datagrams and connections that are sent to the same outbound go through the
/// same kind of carrier, wherever either comes in.
pub proof fn datagrams_and_connections_share_the_carrier(
    flow: UdpInbound,
    connection: TcpInbound,
    tag: Seq<char>,
    dialer: Option<DialerKind>,
    o: RouteOptionsView,
    resolver: bool,
)
    ensures
        ({
            let d = DecisionView::Outbound(tag);
            let udp = udp_opening(flow, d, dialer, o, resolver);
            let tcp = tcp_opening(connection, d, dialer, resolver);
            &&& (udp is Ok && udp->Ok_0 is Direct) <==> tcp == Ok::<_, RelayError>(
                TcpOpening::Direct,
            )
            &&& (udp is Ok && udp->Ok_0 is AnyTls) <==> tcp == Ok::<_, RelayError>(
                TcpOpening::AnyTls,
            )
            &&& (udp is Ok && udp->Ok_0 is Vless) || udp == Err::<UdpOpening, _>(
                RelayError::UnconnectedClassic,
            ) <==> tcp == Ok::<_, RelayError>(TcpOpening::Vless)
            &&& udp != Ok::<_, RelayError>(UdpOpening::Hijack)
        }),
{
}

/// How a client is told that its connection is rejected.
#[derive(Clone, Debug, PartialEq, Eq)]
pub enum Rejection {
    /// These bytes are written and the connection is closed in order.
    Reply(Vec<u8>),
    /// The connection is reset.
    Reset,
    /// The connection is closed.
    Drop,
}

/// The reply of HTTP to a rejected request.
pub open spec fn http_rejection() -> Seq<char> {
    "HTTP/1.1 403 Forbidden\r\nContent-Length: 0\r\n\r\n"@
}

/// The reply of SOCKS to a rejected request.
pub open spec fn socks_rejection() -> Seq<u8> {
    seq![5u8, 2, 0, 1, 0, 0, 0, 0, 0, 0]
}

/// Whether the reply that a client would have been granted is one of HTTP.
pub open spec fn is_http_reply(reply: Option<Seq<u8>>) -> bool {
    reply matches Some(b) && text::starts_with(b, seq![0x48u8, 0x54, 0x54, 0x50, 0x2f])
}

/// How a client of the proxy is told that its connection is rejected, by the
/// method of the options and by the reply it would have been granted.
pub fn reject(options: &RouteOptions, reply: Option<&Vec<u8>>) -> (r: Rejection)
    ensures
        match r {
            Rejection::Reply(bytes) => options@.reject_method == Some("reply"@) && bytes@ == (
            if is_http_reply(
                match reply {
                    Some(b) => Some(b@),
                    None => None,
                },
            ) {
                vstd::utf8::encode_utf8(http_rejection())
            } else {
                socks_rejection()
            }),
            Rejection::Drop => options@.reject_method == Some("drop"@),
            Rejection::Reset => options@.reject_method != Some("reply"@) && options@.reject_method
                != Some("drop"@),
        },
{
    if text::opt_is(&options.reject_method, "reply") {
        let http = match reply {
            Some(b) => {
                let word: [u8; 5] = [0x48, 0x54, 0x54, 0x50, 0x2f];
                proof {
                    assert(word@ =~= seq![0x48u8, 0x54, 0x54, 0x50, 0x2f]);
                }
                if b.len() >= 5 {
                    proof {
                        assert(b@.subrange(0, 5) =~= b@.take(5));
                    }
                    text::same_bytes(&b.as_slice()[0..5], &word)
                } else {
                    false
                }
            },
            None => false,
        };
        if http {
            Rejection::Reply(
                text::text_bytes("HTTP/1.1 403 Forbidden\r\nContent-Length: 0\r\n\r\n"),
            )
        } else {
            let bytes: [u8; 10] = [5, 2, 0, 1, 0, 0, 0, 0, 0, 0];
            proof {
                assert(bytes@ =~= socks_rejection());
            }
            Rejection::Reply(text::copy_bytes(&bytes))
        }
    } else if text::opt_is(&options.reject_method, "drop") {
        proof {
            reveal_strlit("reply");
            reveal_strlit("drop");
            assert("reply"@.len() != "drop"@.len());
        }
        Rejection::Drop
    } else {
        Rejection::Reset
    }
}

/// What the client of a session is told when its connection is refused.
pub fn session_refusal(error: RelayError, options: &RouteOptions) -> (r: Option<String>)
    ensures
        text::opt_text(r) == (match error {
            RelayError::Rejected => if options@.reject_method == Some("drop"@) {
                None
            } else {
                Some("connection rejected by route"@)
            },
            RelayError::Blocked => Some("connection blocked"@),
            _ => None,
        }),
{
    match error {
        RelayError::Rejected => if text::opt_is(&options.reject_method, "drop") {
            None
        } else {
            Some(text::copy_text("connection rejected by route"))
        },
        RelayError::Blocked => Some(text::copy_text("connection blocked")),
        _ => None,
    }
}

/// How long a direct connection may take in all: the options' limit, or five
/// seconds.
pub fn connect_limit(options: &RouteOptions) -> (r: Duration)
    ensures
        r.millis == time::option_millis(options@.connect_timeout, 5000),
{
    time::option_duration(&options.connect_timeout, Duration::from_secs(5))
}

/// How long the first bytes of a client are waited for before a direct connection
/// starts: only where a hello may have to be cut and no bytes are there yet; 500
/// milliseconds where the options do not say.
pub fn first_bytes_wait(options: &RouteOptions, request: bool) -> (r: Option<Duration>)
    ensures
        match r {
            Some(t) => !request && (options@.tls_fragment || options@.tls_record_fragment)
                && t.millis == time::lenient_millis(
                match options@.tls_fragment_fallback_delay {
                    Some(s) => Some(s),
                    None => Some("500ms"@),
                },
            ),
            None => request || !(options@.tls_fragment || options@.tls_record_fragment),
        },
{
    if request || !(options.tls_fragment || options.tls_record_fragment) {
        return None;
    }
    Some(
        match &options.tls_fragment_fallback_delay {
            Some(s) => time::parse_duration_lenient(Some(s.as_str())),
            None => time::parse_duration_lenient(Some("500ms")),
        },
    )
}

/// Traffic from a network device carries the mark of the device, so that it does
/// not come back to it.
pub fn mark_tun_output(options: &mut RouteOptions, mark: Option<u32>)
    ensures
        final(options)@ == (RouteOptionsView {
            routing_mark: match mark {
                Some(m) => Some(m),
                None => old(options)@.routing_mark,
            },
            ..old(options)@
        }),
{
    match mark {
        Some(m) => {
            options.routing_mark = Some(m);
        },
        None => {},
    }
}

// ---- associations ----

/// Whether a datagram belongs to an association: it comes from the address of the
/// client that opened it.
pub fn belongs_to_association(peer: SocketAddr, client: SocketAddr) -> (r: bool)
    ensures
        r == (peer.ip == client.ip),
{
    peer.ip == client.ip
}

/// A session of an association: the outbound and the destination it is for, the
/// handle of what takes its packets, and whether that still does.
#[derive(Debug)]
pub struct AssociationSession {
    pub tag: String,
    pub destination: Destination,
    pub handle: u64,
    pub closed: bool,
}

/// The session is for the outbound and the destination, and still takes packets.
pub open spec fn serves(s: AssociationSession, tag: Seq<char>, d: DestinationView) -> bool {
    s.tag@ == tag && s.destination@ == d && !s.closed
}

/// The session that takes the packets for an outbound and a destination, if there
/// is one.
pub fn find_session(sessions: &Vec<AssociationSession>, tag: &str, destination: &Destination) -> (r:
    Option<u64>)
    ensures
        match r {
            Some(handle) => exists|i: int|
                0 <= i < sessions@.len() && #[trigger] serves(sessions@[i], tag@, destination@)
                    && sessions@[i].handle == handle && forall|j: int|
                    0 <= j < i ==> !#[trigger] serves(sessions@[j], tag@, destination@),
            None => forall|i: int|
                0 <= i < sessions@.len() ==> !#[trigger] serves(sessions@[i], tag@, destination@),
        },
{
    let mut i: usize = 0;
    while i < sessions.len()
        invariant
            i <= sessions@.len(),
            forall|j: int|
                0 <= j < i ==> !#[trigger] serves(sessions@[j], tag@, destination@),
        decreases sessions@.len() - i,
    {
        let s = &sessions[i];
        if !s.closed && text::same_text(s.tag.as_str(), tag) && same_destination(
            &s.destination,
            destination,
        ) {
            proof {
                assert(serves(sessions@[i as int], tag@, destination@));
            }
            return Some(s.handle);
        }
        i = i + 1;
    }
    None
}

/// A client is told why its flow is refused, but where a rule wants it dropped in
/// silence; of anything else it hears nothing.
pub proof fn clients_are_told_why(o: RouteOptionsView)
    ensures
        refusal(RelayError::Rejected, o) is None <==> o.reject_method == Some("drop"@),
        refusal(RelayError::Blocked, o) == Some("UDP connection blocked"@),
        refusal(RelayError::UnconnectedClassic, o) == Some("unconnected UoT requires VLESS XUDP"@),
        refusal(RelayError::NoResolver, o) is None,
        refusal(RelayError::UnknownOutbound, o) is None,
        refusal(RelayError::NoAddress, o) is None,
{
}

/// The answer from a name is said to come from the name or from the true source,
/// and from nowhere else; for an address it is always the true source.
pub proof fn answers_name_their_source(f: FlowView, source: DestinationView)
    ensures
        answer_source(f, Some(source)) == source || answer_source(f, Some(source))
            == f.destination,
        f.destination is Ip ==> answer_source(f, Some(source)) == source,
        f.options.udp_disable_domain_unmapping ==> answer_source(f, Some(source)) == source,
        answer_source(f, None) == f.destination,
{
}

} // verus!
