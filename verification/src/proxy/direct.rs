//! Connecting without another proxy: which addresses are tried in which order,
//! from where, and when the next attempt starts.
use crate::net::{self, Destination, DestinationView, IpAddr, SocketAddr};
use crate::routing::options::RouteOptionsView;
use crate::routing::RouteOptions;
use crate::text;
use crate::time::{self, Duration};
use vstd::prelude::*;

verus! {

// ---- the order of addresses ----

/// The addresses of one family, in order.
pub open spec fn of_family(list: Seq<SocketAddr>, v4: bool) -> Seq<SocketAddr>
    decreases list.len(),
{
    if list.len() == 0 {
        list
    } else if (list.last().ip is V4) == v4 {
        of_family(list.drop_last(), v4).push(list.last())
    } else {
        of_family(list.drop_last(), v4)
    }
}

/// The addresses in the order a strategy tries them: those of one family alone,
/// those of one family first, or as they are.
pub open spec fn ordered(list: Seq<SocketAddr>, strategy: Option<Seq<char>>) -> Seq<SocketAddr> {
    if strategy == Some("ipv4_only"@) {
        of_family(list, true)
    } else if strategy == Some("ipv6_only"@) {
        of_family(list, false)
    } else if strategy == Some("prefer_ipv4"@) {
        of_family(list, true) + of_family(list, false)
    } else if strategy == Some("prefer_ipv6"@) {
        of_family(list, false) + of_family(list, true)
    } else {
        list
    }
}

fn push_family(out: &mut Vec<SocketAddr>, list: &Vec<SocketAddr>, v4: bool)
    ensures
        final(out)@ == old(out)@ + of_family(list@, v4),
{
    let ghost before = out@;
    let mut i: usize = 0;
    proof {
        assert(list@.take(0) =~= Seq::<SocketAddr>::empty());
        assert(before + of_family(list@.take(0), v4) =~= before);
    }
    while i < list.len()
        invariant
            i <= list@.len(),
            out@ == before + of_family(list@.take(i as int), v4),
        decreases list@.len() - i,
    {
        proof {
            assert(list@.take(i + 1).drop_last() =~= list@.take(i as int));
            assert(list@.take(i + 1).last() == list@[i as int]);
        }
        if list[i].ip.is_ipv4() == v4 {
            out.push(list[i]);
            proof {
                assert(before + of_family(list@.take(i as int), v4).push(list@[i as int]) =~= (
                before + of_family(list@.take(i as int), v4)).push(list@[i as int]));
            }
        }
        i = i + 1;
    }
    proof {
        assert(list@.take(i as int) =~= list@);
    }
}

/// Orders addresses by a strategy.
pub fn order_addresses(addresses: &mut Vec<SocketAddr>, strategy: Option<&str>)
    ensures
        final(addresses)@ == ordered(old(addresses)@, text::opt_str(strategy)),
{
    let strategy = match strategy {
        Some(s) => s,
        None => {
            return;
        },
    };
    let mut out: Vec<SocketAddr> = Vec::new();
    proof {
        let none = Seq::<SocketAddr>::empty();
        assert(out@ =~= none);
        assert(none + of_family(addresses@, true) =~= of_family(addresses@, true));
        assert(none + of_family(addresses@, false) =~= of_family(addresses@, false));
        lemma_strategy_words();
    }
    if text::same_text(strategy, "ipv4_only") {
        push_family(&mut out, addresses, true);
    } else if text::same_text(strategy, "ipv6_only") {
        push_family(&mut out, addresses, false);
    } else if text::same_text(strategy, "prefer_ipv4") {
        push_family(&mut out, addresses, true);
        push_family(&mut out, addresses, false);
    } else if text::same_text(strategy, "prefer_ipv6") {
        push_family(&mut out, addresses, false);
        push_family(&mut out, addresses, true);
    } else {
        return;
    }
    *addresses = out;
}

proof fn lemma_strategy_words()
    ensures
        "ipv4_only"@ != "ipv6_only"@,
        "ipv4_only"@ != "prefer_ipv4"@,
        "ipv4_only"@ != "prefer_ipv6"@,
        "ipv6_only"@ != "prefer_ipv4"@,
        "ipv6_only"@ != "prefer_ipv6"@,
        "prefer_ipv4"@ != "prefer_ipv6"@,
{
    reveal_strlit("ipv4_only");
    reveal_strlit("ipv6_only");
    reveal_strlit("prefer_ipv4");
    reveal_strlit("prefer_ipv6");
    assert("ipv4_only"@[3] == '4' && "ipv6_only"@[3] == '6');
    assert("prefer_ipv4"@[10] == '4' && "prefer_ipv6"@[10] == '6');
}

/// Ordering never makes an address up, and a preference never loses one.
pub proof fn ordering_keeps_addresses(
    list: Seq<SocketAddr>,
    strategy: Option<Seq<char>>,
    a: SocketAddr,
)
    ensures
        ordered(list, strategy).contains(a) ==> list.contains(a),
        list.contains(a) && strategy != Some("ipv4_only"@) && strategy != Some("ipv6_only"@)
            ==> ordered(list, strategy).contains(a),
{
    lemma_family_contains(list, true, a);
    lemma_family_contains(list, false, a);
    let four = of_family(list, true);
    let six = of_family(list, false);
    lemma_contains_sum(four, six, a);
    lemma_contains_sum(six, four, a);
}

proof fn lemma_contains_sum<T>(x: Seq<T>, y: Seq<T>, a: T)
    ensures
        (x + y).contains(a) == (x.contains(a) || y.contains(a)),
{
    if x.contains(a) {
        let i = choose|i: int| 0 <= i < x.len() && x[i] == a;
        assert((x + y)[i] == a);
    }
    if y.contains(a) {
        let i = choose|i: int| 0 <= i < y.len() && y[i] == a;
        assert((x + y)[x.len() + i] == a);
    }
    if (x + y).contains(a) {
        let i = choose|i: int| 0 <= i < (x + y).len() && (x + y)[i] == a;
        if i < x.len() {
            assert(x[i] == a);
        } else {
            assert(y[i - x.len()] == a);
        }
    }
}

proof fn lemma_family_contains(list: Seq<SocketAddr>, v4: bool, a: SocketAddr)
    ensures
        of_family(list, v4).contains(a) == (list.contains(a) && (a.ip is V4) == v4),
    decreases list.len(),
{
    if list.len() > 0 {
        let front = list.drop_last();
        let kept = of_family(front, v4);
        lemma_family_contains(front, v4, a);
        assert(list =~= front + seq![list.last()]);
        lemma_contains_sum(front, seq![list.last()], a);
        lemma_contains_sum(kept, seq![list.last()], a);
        assert(kept.push(list.last()) =~= kept + seq![list.last()]);
        assert(seq![list.last()].contains(a) == (a == list.last())) by {
            assert(seq![list.last()][0] == list.last());
        }
    } else {
        assert(!list.contains(a));
    }
}

// ---- attempts ----

/// Why nothing is connected.
#[derive(Clone, Copy, Debug, PartialEq, Eq, Structural)]
pub enum DirectError {
    NoAddress,
    InvalidBindAddress,
    BindFamily,
}

/// The strategy of a direct connection: that for names, else that for networks.
pub open spec fn strategy_of(options: RouteOptionsView) -> Option<Seq<char>> {
    match options.domain_strategy {
        Some(s) => Some(s),
        None => options.network_strategy,
    }
}

/// How a direct connection is tried.
#[derive(Debug)]
pub struct DirectPlan {
    pub addresses: Vec<SocketAddr>,
    pub timeout: Duration,
    pub fallback_delay: Duration,
}

/// Each address with the port.
pub open spec fn with_port(ips: Seq<IpAddr>, port: u16) -> Seq<SocketAddr> {
    ips.map_values(|ip: IpAddr| SocketAddr { ip, port })
}

/// The addresses of a destination: its own, or those that its name was looked up
/// to.
pub open spec fn candidates(d: DestinationView, looked_up: Seq<IpAddr>) -> Seq<SocketAddr> {
    match d {
        DestinationView::Ip(ip, port) => seq![SocketAddr { ip, port }],
        DestinationView::Domain(_, port) => with_port(looked_up, port),
    }
}

/// Plans a direct connection: the addresses in order, how long each attempt may
/// take, and after what time the next one starts beside it.
pub fn connect_direct(destination: &Destination, looked_up: &Vec<IpAddr>, options: &RouteOptions) -> (r:
    Result<DirectPlan, DirectError>)
    ensures
        ({
            let addresses = ordered(candidates(destination@, looked_up@), strategy_of(options@));
            match r {
                Ok(plan) => addresses.len() > 0 && plan.addresses@ == addresses
                    && plan.timeout.millis == time::option_millis(options@.connect_timeout, 10000)
                    && plan.fallback_delay.millis == time::option_millis(
                    options@.fallback_delay,
                    300,
                ),
                Err(e) => addresses.len() == 0 && e == DirectError::NoAddress,
            }
        }),
{
    let mut addresses: Vec<SocketAddr> = Vec::new();
    match destination {
        Destination::Ip(ip, port) => {
            addresses.push(SocketAddr { ip: *ip, port: *port });
            proof {
                assert(addresses@ =~= candidates(destination@, looked_up@));
            }
        },
        Destination::Domain(_, port) => {
            let mut i: usize = 0;
            while i < looked_up.len()
                invariant
                    i <= looked_up@.len(),
                    addresses@ =~= with_port(looked_up@, *port).take(i as int),
                decreases looked_up@.len() - i,
            {
                addresses.push(SocketAddr { ip: looked_up[i], port: *port });
                i = i + 1;
            }
            proof {
                assert(addresses@ =~= with_port(looked_up@, *port));
            }
        },
    }
    let strategy = match &options.domain_strategy {
        Some(s) => Some(s.as_str()),
        None => text::as_opt_str(&options.network_strategy),
    };
    order_addresses(&mut addresses, strategy);
    if addresses.len() == 0 {
        return Err(DirectError::NoAddress);
    }
    Ok(
        DirectPlan {
            addresses,
            timeout: time::option_duration(&options.connect_timeout, Duration::from_secs(10)),
            fallback_delay: time::option_duration(&options.fallback_delay, Duration::from_millis(300)),
        },
    )
}

/// What happened to the attempts under way.
#[derive(Clone, Copy, Debug, PartialEq, Eq, Structural)]
pub enum AttemptEvent {
    /// An attempt came through.
    Connected,
    /// An attempt failed.
    Failed,
    /// The delay passed while attempts were under way.
    Waited,
}

/// What is done then.
#[derive(Clone, Copy, Debug, PartialEq, Eq, Structural)]
pub enum AttemptAction {
    /// Start an attempt on the address with this number.
    Start(usize),
    /// Go on waiting; with a delay only while an address is left.
    Wait,
    /// The connection stands.
    Done,
    /// All attempts have failed.
    GiveUp,
}

/// The attempts on a list of addresses: how many were started, and how many of
/// them are under way.
#[derive(Clone, Copy, Debug, PartialEq, Eq, Structural)]
pub struct Attempts {
    pub addresses: usize,
    pub started: usize,
    pub pending: usize,
}

/// The attempts after something happened, and what is done then.
pub open spec fn attempted(a: Attempts, event: AttemptEvent) -> (Attempts, AttemptAction) {
    let more = Attempts { started: (a.started + 1) as usize, ..a };
    match event {
        AttemptEvent::Connected => (a, AttemptAction::Done),
        AttemptEvent::Waited => (
            Attempts { pending: (a.pending + 1) as usize, ..more },
            AttemptAction::Start(a.started),
        ),
        AttemptEvent::Failed => if a.pending > 1 {
            (Attempts { pending: (a.pending - 1) as usize, ..a }, AttemptAction::Wait)
        } else if a.started < a.addresses {
            (more, AttemptAction::Start(a.started))
        } else {
            (Attempts { pending: 0, ..a }, AttemptAction::GiveUp)
        },
    }
}

/// The attempts after so many failures in a row, from the first on.
pub open spec fn after_failures(addresses: usize, failures: nat) -> (Attempts, AttemptAction)
    decreases failures,
{
    if failures == 0 {
        (Attempts { addresses, started: 1, pending: 1 }, AttemptAction::Start(0))
    } else {
        attempted(
            after_failures(addresses, (failures - 1) as nat).0,
            AttemptEvent::Failed,
        )
    }
}

impl Attempts {
    /// No more are under way than were started, nor started than there are
    /// addresses; something is under way while an address is left.
    pub open spec fn wf(self) -> bool {
        &&& self.pending <= self.started <= self.addresses
        &&& self.started < self.addresses ==> self.pending > 0
    }

    /// Starts with the first address.
    pub fn first(addresses: usize) -> (r: Attempts)
        requires
            addresses > 0,
        ensures
            r.wf(),
            r == (Attempts { addresses, started: 1, pending: 1 }),
    {
        Attempts { addresses, started: 1, pending: 1 }
    }

    /// Whether the delay counts: an address is left to start on.
    pub fn waits_for_delay(&self) -> (r: bool)
        ensures
            r == (self.started < self.addresses),
    {
        self.started < self.addresses
    }

    /// Takes in what happened: the first attempt that comes through is taken; a
    /// failure starts the next address only where nothing else is under way; the
    /// delay starts the next address beside those under way.
    pub fn on(&mut self, event: AttemptEvent) -> (r: AttemptAction)
        requires
            old(self).wf(),
            old(self).pending > 0,
            event == AttemptEvent::Waited ==> old(self).started < old(self).addresses,
        ensures
            final(self).wf(),
            final(self).addresses == old(self).addresses,
            match event {
                AttemptEvent::Connected => r == AttemptAction::Done && *final(self) == *old(self),
                AttemptEvent::Waited => r == AttemptAction::Start(old(self).started)
                    && final(self).started == old(self).started + 1 && final(self).pending == old(self).pending + 1,
                AttemptEvent::Failed => if old(self).pending > 1 {
                    r == AttemptAction::Wait && final(self).started == old(self).started && final(self).pending == old(self).pending - 1
                } else if old(self).started < old(self).addresses {
                    r == AttemptAction::Start(old(self).started) && final(self).started == old(self).started + 1 && final(self).pending == 1
                } else {
                    r == AttemptAction::GiveUp && final(self).started == old(self).started && final(self).pending == 0
                },
            },
            (*final(self), r) == attempted(*old(self), event),
    {
        match event {
            AttemptEvent::Connected => AttemptAction::Done,
            AttemptEvent::Waited => {
                let next: usize = self.started;
                self.started = self.started + 1;
                self.pending = self.pending + 1;
                AttemptAction::Start(next)
            },
            AttemptEvent::Failed => {
                if self.pending > 1 {
                    self.pending = self.pending - 1;
                    AttemptAction::Wait
                } else if self.started < self.addresses {
                    let next: usize = self.started;
                    self.started = self.started + 1;
                    AttemptAction::Start(next)
                } else {
                    self.pending = 0;
                    AttemptAction::GiveUp
                }
            },
        }
    }
}

/// Giving up is the last resort: every address was tried and nothing is under
/// way.
pub proof fn giving_up_is_last(a: Attempts)
    requires
        a.wf(),
        a.pending == 0,
    ensures
        a.started == a.addresses,
{
}

/// Addresses are tried in their order and each of them once: an attempt starts on
/// the first that was not tried, on no other, and nothing else starts one. What came
/// through is taken at once, and nothing is given up while an attempt is under way or
/// an address is left.
pub proof fn each_address_is_tried_once(a: Attempts, event: AttemptEvent)
    requires
        a.wf(),
        a.pending > 0,
        event == AttemptEvent::Waited ==> a.started < a.addresses,
    ensures
        ({
            let (b, action) = attempted(a, event);
            &&& b.wf() && b.addresses == a.addresses
            &&& match action {
                AttemptAction::Start(i) => i == a.started && i < a.addresses && b.started
                    == a.started + 1 && event != AttemptEvent::Connected,
                AttemptAction::Done => event == AttemptEvent::Connected && b == a,
                AttemptAction::Wait => event == AttemptEvent::Failed && b.started == a.started
                    && b.pending > 0 && b.pending + 1 == a.pending,
                AttemptAction::GiveUp => event == AttemptEvent::Failed && a.started == a.addresses
                    && a.pending == 1 && b.pending == 0,
            }
            &&& event == AttemptEvent::Waited ==> b.pending == a.pending + 1
        }),
{
}

/// Where each attempt fails before the next starts, every address is tried in turn,
/// and only after the last one failed is the connection given up.
pub proof fn failures_lead_through_every_address(addresses: usize, failures: nat)
    requires
        failures <= addresses,
        addresses > 0,
    ensures
        failures < addresses ==> after_failures(addresses, failures) == (
            Attempts { addresses, started: (failures + 1) as usize, pending: 1 },
            AttemptAction::Start(failures as usize),
        ),
        failures == addresses ==> after_failures(addresses, failures).1 == AttemptAction::GiveUp,
    decreases failures,
{
    if failures > 0 {
        failures_lead_through_every_address(addresses, (failures - 1) as nat);
    }
}

// ---- where an attempt starts from ----

/// The address of the options for a family.
pub open spec fn configured_bind(options: RouteOptionsView, v4: bool) -> Option<Seq<char>> {
    if v4 {
        options.inet4_bind_address
    } else {
        options.inet6_bind_address
    }
}

/// The address that a connection to a target is made from, if the options give
/// one.
pub fn bind_address(target: SocketAddr, options: &RouteOptions) -> (r: Result<
    Option<IpAddr>,
    DirectError,
>)
    ensures
        match configured_bind(options@, target.ip is V4) {
            None => r == Ok::<Option<IpAddr>, DirectError>(None),
            Some(s) => match net::ip_text(s) {
                Some(ip) => r == Ok::<Option<IpAddr>, DirectError>(Some(ip)),
                None => r == Err::<Option<IpAddr>, DirectError>(DirectError::InvalidBindAddress),
            },
        },
{
    let configured = if target.ip.is_ipv4() {
        &options.inet4_bind_address
    } else {
        &options.inet6_bind_address
    };
    match configured {
        None => Ok(None),
        Some(s) => match net::parse_ip(s.as_str()) {
            Some(ip) => Ok(Some(ip)),
            None => Err(DirectError::InvalidBindAddress),
        },
    }
}

/// The address that datagrams to a target are sent from: that of the options, or
/// any of the target's family. It has to be of that family.
pub fn direct_udp_bind(target: SocketAddr, options: &RouteOptions) -> (r: Result<
    IpAddr,
    DirectError,
>)
    ensures
        match configured_bind(options@, target.ip is V4) {
            None => r == Ok::<IpAddr, DirectError>(
                match target.ip {
                    IpAddr::V4(_) => IpAddr::V4(0),
                    IpAddr::V6(_) => IpAddr::V6(0),
                },
            ),
            Some(s) => match net::ip_text(s) {
                None => r == Err::<IpAddr, DirectError>(DirectError::InvalidBindAddress),
                Some(ip) => if (ip is V4) == (target.ip is V4) {
                    r == Ok::<IpAddr, DirectError>(ip)
                } else {
                    r == Err::<IpAddr, DirectError>(DirectError::BindFamily)
                },
            },
        },
{
    let ip = match bind_address(target, options) {
        Err(e) => {
            return Err(e);
        },
        Ok(Some(ip)) => ip,
        Ok(None) => match target.ip {
            IpAddr::V4(_) => IpAddr::V4(0),
            IpAddr::V6(_) => IpAddr::V6(0),
        },
    };
    if ip.is_ipv4() != target.ip.is_ipv4() {
        return Err(DirectError::BindFamily);
    }
    Ok(ip)
}

/// How packets of a socket that may not be fragmented are treated.
#[derive(Clone, Copy, Debug, PartialEq, Eq, Structural)]
pub enum MtuDiscovery {
    Want,
    Do,
}

/// An option that is set on a socket.
#[derive(Clone, Debug, PartialEq, Eq)]
pub enum SocketOption {
    ReuseAddress,
    BindToDevice(String),
    Mark(u32),
    Discovery(MtuDiscovery),
    FastOpen,
}

/// An option with plain values.
pub enum SocketOptionView {
    ReuseAddress,
    BindToDevice(Seq<char>),
    Mark(u32),
    Discovery(MtuDiscovery),
    FastOpen,
}

impl View for SocketOption {
    type V = SocketOptionView;

    open spec fn view(&self) -> SocketOptionView {
        match *self {
            SocketOption::ReuseAddress => SocketOptionView::ReuseAddress,
            SocketOption::BindToDevice(name) => SocketOptionView::BindToDevice(name@),
            SocketOption::Mark(mark) => SocketOptionView::Mark(mark),
            SocketOption::Discovery(d) => SocketOptionView::Discovery(d),
            SocketOption::FastOpen => SocketOptionView::FastOpen,
        }
    }
}

pub open spec fn option_views(s: Seq<SocketOption>) -> Seq<SocketOptionView> {
    s.map_values(|o: SocketOption| o@)
}

/// An option, where it is wanted.
pub open spec fn if_set(set: bool, option: SocketOptionView) -> Seq<SocketOptionView> {
    if set {
        seq![option]
    } else {
        Seq::empty()
    }
}

/// The options of a socket for datagrams, in the order they are set.
pub open spec fn udp_options(o: RouteOptionsView) -> Seq<SocketOptionView> {
    if_set(o.reuse_addr, SocketOptionView::ReuseAddress) + if_set(
        o.bind_interface is Some,
        SocketOptionView::BindToDevice(o.bind_interface->0),
    ) + if_set(o.routing_mark is Some, SocketOptionView::Mark(o.routing_mark->0)) + if_set(
        o.udp_fragment is Some,
        SocketOptionView::Discovery(
            if o.udp_fragment->0 {
                MtuDiscovery::Want
            } else {
                MtuDiscovery::Do
            },
        ),
    )
}

/// The options of a socket for a connection, in the order they are set.
pub open spec fn tcp_options(o: RouteOptionsView) -> Seq<SocketOptionView> {
    if_set(o.bind_interface is Some, SocketOptionView::BindToDevice(o.bind_interface->0)) + if_set(
        o.routing_mark is Some,
        SocketOptionView::Mark(o.routing_mark->0),
    ) + if_set(o.tcp_fast_open, SocketOptionView::FastOpen)
}

fn push_option(list: &mut Vec<SocketOption>, option: SocketOption)
    ensures
        option_views(final(list)@) == option_views(old(list)@) + seq![option@],
{
    let ghost before = option_views(list@);
    list.push(option);
    proof {
        assert(option_views(list@) =~= before + seq![option@]);
    }
}

/// The options to set on a socket for datagrams.
pub fn set_linux_udp_socket_options(options: &RouteOptions) -> (r: Vec<SocketOption>)
    ensures
        option_views(r@) == udp_options(options@),
{
    let mut r: Vec<SocketOption> = Vec::new();
    proof {
        assert(option_views(r@) =~= Seq::<SocketOptionView>::empty());
    }
    if options.reuse_addr {
        push_option(&mut r, SocketOption::ReuseAddress);
    }
    match &options.bind_interface {
        Some(name) => push_option(
            &mut r,
            SocketOption::BindToDevice(text::copy_text(name.as_str())),
        ),
        None => {},
    }
    match options.routing_mark {
        Some(mark) => push_option(&mut r, SocketOption::Mark(mark)),
        None => {},
    }
    match options.udp_fragment {
        Some(fragment) => push_option(
            &mut r,
            SocketOption::Discovery(
                if fragment {
                    MtuDiscovery::Want
                } else {
                    MtuDiscovery::Do
                },
            ),
        ),
        None => {},
    }
    proof {
        assert(option_views(r@) =~= udp_options(options@));
    }
    r
}

/// The options to set on a socket for a connection.
pub fn set_linux_socket_options(options: &RouteOptions) -> (r: Vec<SocketOption>)
    ensures
        option_views(r@) == tcp_options(options@),
{
    let mut r: Vec<SocketOption> = Vec::new();
    proof {
        assert(option_views(r@) =~= Seq::<SocketOptionView>::empty());
    }
    match &options.bind_interface {
        Some(name) => push_option(
            &mut r,
            SocketOption::BindToDevice(text::copy_text(name.as_str())),
        ),
        None => {},
    }
    match options.routing_mark {
        Some(mark) => push_option(&mut r, SocketOption::Mark(mark)),
        None => {},
    }
    if options.tcp_fast_open {
        push_option(&mut r, SocketOption::FastOpen);
    }
    proof {
        assert(option_views(r@) =~= tcp_options(options@));
    }
    r
}

proof fn lemma_family_is_filter(list: Seq<SocketAddr>, v4: bool)
    ensures
        of_family(list, v4) == list.filter(|a: SocketAddr| (a.ip is V4) == v4),
    decreases list.len(),
{
    reveal(Seq::filter);
    if list.len() > 0 {
        lemma_family_is_filter(list.drop_last(), v4);
    }
}

/// A strategy for one family tries the addresses of that family alone, one that
/// prefers a family tries those first and then the others, and each keeps the order
/// in which they were found; any other strategy changes nothing.
pub proof fn addresses_are_tried_by_strategy(list: Seq<SocketAddr>, strategy: Option<Seq<char>>)
    ensures
        ({
            let four = list.filter(|a: SocketAddr| (a.ip is V4) == true);
            let six = list.filter(|a: SocketAddr| (a.ip is V4) == false);
            &&& strategy == Some("ipv4_only"@) ==> ordered(list, strategy) == four
            &&& strategy == Some("ipv6_only"@) ==> ordered(list, strategy) == six
            &&& strategy == Some("prefer_ipv4"@) ==> ordered(list, strategy) == four + six
            &&& strategy == Some("prefer_ipv6"@) ==> ordered(list, strategy) == six + four
            &&& strategy is None ==> ordered(list, strategy) == list
        }),
{
    lemma_family_is_filter(list, true);
    lemma_family_is_filter(list, false);
    lemma_strategy_words();
}

/// An address is tried at its own port, and a name at every address that it was
/// looked up to, in that order and at the port that was asked for. The strategy for
/// names comes before that for networks.
pub proof fn every_address_is_tried_at_the_port(
    d: DestinationView,
    looked_up: Seq<IpAddr>,
    o: RouteOptionsView,
)
    ensures
        d matches DestinationView::Ip(ip, port) ==> candidates(d, looked_up) == seq![
            SocketAddr { ip, port },
        ],
        d matches DestinationView::Domain(_, port) ==> candidates(d, looked_up).len()
            == looked_up.len() && forall|i: int|
            0 <= i < looked_up.len() ==> (#[trigger] candidates(d, looked_up)[i]).ip == looked_up[i]
                && candidates(d, looked_up)[i].port == port,
        o.domain_strategy is Some ==> strategy_of(o) == o.domain_strategy,
        o.domain_strategy is None ==> strategy_of(o) == o.network_strategy,
{
}

/// A socket is bound by the address of its family.
pub proof fn sockets_are_bound_by_family(o: RouteOptionsView)
    ensures
        configured_bind(o, true) == o.inet4_bind_address,
        configured_bind(o, false) == o.inet6_bind_address,
{
}

/// A socket for datagrams gets each option that is asked for and no other.
pub proof fn datagram_sockets_get_what_is_asked_for(o: RouteOptionsView, x: SocketOptionView)
    ensures
        udp_options(o).contains(x) <==> match x {
            SocketOptionView::ReuseAddress => o.reuse_addr,
            SocketOptionView::BindToDevice(name) => o.bind_interface == Some(name),
            SocketOptionView::Mark(mark) => o.routing_mark == Some(mark),
            SocketOptionView::Discovery(MtuDiscovery::Want) => o.udp_fragment == Some(true),
            SocketOptionView::Discovery(MtuDiscovery::Do) => o.udp_fragment == Some(false),
            _ => false,
        },
        tcp_options(o).contains(x) <==> match x {
            SocketOptionView::BindToDevice(name) => o.bind_interface == Some(name),
            SocketOptionView::Mark(mark) => o.routing_mark == Some(mark),
            SocketOptionView::FastOpen => o.tcp_fast_open,
            _ => false,
        },
{
    let a = if_set(o.reuse_addr, SocketOptionView::ReuseAddress);
    let b = if_set(
        o.bind_interface is Some,
        SocketOptionView::BindToDevice(o.bind_interface->0),
    );
    let c = if_set(o.routing_mark is Some, SocketOptionView::Mark(o.routing_mark->0));
    let d = if_set(
        o.udp_fragment is Some,
        SocketOptionView::Discovery(
            if o.udp_fragment->0 {
                MtuDiscovery::Want
            } else {
                MtuDiscovery::Do
            },
        ),
    );
    let e = if_set(o.tcp_fast_open, SocketOptionView::FastOpen);
    lemma_one_of(a, b, x);
    lemma_one_of(a + b, c, x);
    lemma_one_of(a + b + c, d, x);
    lemma_one_of(b, c, x);
    lemma_one_of(b + c, e, x);
    lemma_if_set(o.reuse_addr, SocketOptionView::ReuseAddress, x);
    lemma_if_set(
        o.bind_interface is Some,
        SocketOptionView::BindToDevice(o.bind_interface->0),
        x,
    );
    lemma_if_set(o.routing_mark is Some, SocketOptionView::Mark(o.routing_mark->0), x);
    lemma_if_set(
        o.udp_fragment is Some,
        SocketOptionView::Discovery(
            if o.udp_fragment->0 {
                MtuDiscovery::Want
            } else {
                MtuDiscovery::Do
            },
        ),
        x,
    );
    lemma_if_set(o.tcp_fast_open, SocketOptionView::FastOpen, x);
}

proof fn lemma_if_set(set: bool, option: SocketOptionView, x: SocketOptionView)
    ensures
        if_set(set, option).contains(x) <==> set && x == option,
{
    if set {
        assert(if_set(set, option)[0] == option);
    }
}

proof fn lemma_one_of(a: Seq<SocketOptionView>, b: Seq<SocketOptionView>, x: SocketOptionView)
    ensures
        (a + b).contains(x) <==> a.contains(x) || b.contains(x),
{
    if a.contains(x) {
        let i = choose|i: int| 0 <= i < a.len() && a[i] == x;
        assert((a + b)[i] == x);
    }
    if b.contains(x) {
        let i = choose|i: int| 0 <= i < b.len() && b[i] == x;
        assert((a + b)[a.len() + i] == x);
    }
}

} // verus!
