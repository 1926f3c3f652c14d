//! Internet addresses, networks and destinations.
use crate::text;
use crate::wire;
use vstd::prelude::*;

verus! {

/// An address of either family, as the number its octets stand for.
#[derive(Clone, Copy, Debug, PartialEq, Eq, Structural)]
pub enum IpAddr {
    V4(u32),
    V6(u128),
}

/// An address with a port.
#[derive(Clone, Copy, Debug, PartialEq, Eq, Structural)]
pub struct SocketAddr {
    pub ip: IpAddr,
    pub port: u16,
}

/// A network: an address and the number of leading bits that count.
#[derive(Clone, Copy, Debug, PartialEq, Eq, Structural)]
pub struct IpNet {
    pub address: IpAddr,
    pub prefix: u8,
}

impl IpAddr {
    /// The address in octets, most significant first.
    pub open spec fn octets(self) -> Seq<u8> {
        match self {
            IpAddr::V4(n) => wire::bytes32(n as nat),
            IpAddr::V6(n) => wire::bytes128(n as nat),
        }
    }

    /// How many bits an address of this family has.
    pub open spec fn width(self) -> nat {
        match self {
            IpAddr::V4(_) => 32,
            IpAddr::V6(_) => 128,
        }
    }

    /// The address as a number.
    pub open spec fn value(self) -> nat {
        match self {
            IpAddr::V4(n) => n as nat,
            IpAddr::V6(n) => n as nat,
        }
    }

    /// Appends the octets.
    pub fn push_octets(&self, out: &mut Vec<u8>)
        ensures
            final(out)@ == old(out)@ + self.octets(),
    {
        match self {
            IpAddr::V4(n) => wire::push_u32(out, *n),
            IpAddr::V6(n) => wire::push_u128(out, *n),
        }
    }

    pub fn is_ipv4(&self) -> (r: bool)
        ensures
            r == (self is V4),
    {
        match self {
            IpAddr::V4(_) => true,
            IpAddr::V6(_) => false,
        }
    }

    pub fn is_ipv6(&self) -> (r: bool)
        ensures
            r == (self is V6),
    {
        !self.is_ipv4()
    }
}

/// The leading `prefix` bits of an address, as a number.
pub open spec fn leading_bits(address: IpAddr, prefix: nat) -> nat
    recommends
        prefix <= address.width(),
{
    address.value() / vstd::arithmetic::power2::pow2((address.width() - prefix) as nat)
}

impl IpNet {
    /// The prefix is at most the width of the address.
    pub open spec fn wf(self) -> bool {
        self.prefix <= self.address.width()
    }

    /// How many leading bits count: the prefix, or all bits where it is longer.
    pub open spec fn bits(self) -> nat {
        if self.wf() {
            self.prefix as nat
        } else {
            self.address.width()
        }
    }

    /// The same family, and the same leading bits.
    pub open spec fn holds(self, ip: IpAddr) -> bool {
        (self.address is V4) == (ip is V4) && leading_bits(self.address, self.bits())
            == leading_bits(ip, self.bits())
    }

    /// The first address of the network: every bit behind the prefix is zero.
    pub open spec fn first(self) -> IpAddr {
        let unit = vstd::arithmetic::power2::pow2((self.address.width() - self.bits()) as nat);
        match self.address {
            IpAddr::V4(n) => IpAddr::V4((n as nat / unit * unit) as u32),
            IpAddr::V6(n) => IpAddr::V6((n as nat / unit * unit) as u128),
        }
    }

    /// How many bits behind the prefix do not count.
    fn free_bits(&self) -> (r: u32)
        ensures
            r == self.address.width() - self.bits(),
    {
        let width: u8 = match self.address {
            IpAddr::V4(_) => 32,
            IpAddr::V6(_) => 128,
        };
        if self.prefix <= width {
            (width - self.prefix) as u32
        } else {
            0
        }
    }

    /// Whether the network holds an address.
    pub fn contains(&self, ip: &IpAddr) -> (r: bool)
        ensures
            r == self.holds(*ip),
    {
        let free = self.free_bits();
        match (self.address, *ip) {
            (IpAddr::V4(a), IpAddr::V4(b)) => top_bits(a as u128, free, 32) == top_bits(
                b as u128,
                free,
                32,
            ),
            (IpAddr::V6(a), IpAddr::V6(b)) => top_bits(a, free, 128) == top_bits(b, free, 128),
            _ => false,
        }
    }

    /// The first address of the network.
    pub fn network(&self) -> (r: IpAddr)
        ensures
            r == self.first(),
    {
        let free = self.free_bits();
        match self.address {
            IpAddr::V4(a) => IpAddr::V4(clear_low(a as u128, free, 32) as u32),
            IpAddr::V6(a) => IpAddr::V6(clear_low(a, free, 128)),
        }
    }
}

/// A network of no leading bits holds every address of its family, one of all bits
/// holds its own address alone, one of fewer bits holds all that one of more bits
/// from the same address holds, and none holds an address of the other family.
pub proof fn networks_hold_by_leading_bits(address: IpAddr, long: u8, short: u8, ip: IpAddr)
    requires
        short <= long <= address.width(),
    ensures
        (IpNet { address, prefix: 0 }).holds(ip) <==> (ip is V4) == (address is V4),
        (IpNet { address, prefix: address.width() as u8 }).holds(ip) <==> ip == address,
        (IpNet { address, prefix: long }).holds(ip) ==> (IpNet { address, prefix: short }).holds(ip),
        (IpNet { address, prefix: long }).holds(ip) ==> (ip is V4) == (address is V4),
        (IpNet { address, prefix: long }).holds(address),
        (IpNet { address, prefix: long }).holds(ip) ==> (IpNet { address: ip, prefix: long }).holds(
            address,
        ),
{
    let w = address.width();
    let one = vstd::arithmetic::power2::pow2(w);
    vstd::arithmetic::power2::lemma2_to64();
    vstd::arithmetic::power2::lemma2_to64_rest();
    vstd::arithmetic::power2::lemma_pow2_adds(64, 64);
    assert(address.value() < one);
    assert((ip is V4) == (address is V4) ==> ip.value() < one);
    vstd::arithmetic::div_mod::lemma_basic_div(address.value() as int, one as int);
    if (ip is V4) == (address is V4) {
        vstd::arithmetic::div_mod::lemma_basic_div(ip.value() as int, one as int);
    }
    vstd::arithmetic::div_mod::lemma_div_basics(address.value() as int);
    vstd::arithmetic::div_mod::lemma_div_basics(ip.value() as int);
    assert(vstd::arithmetic::power2::pow2(0) == 1);
    // Fewer bits are the leading ones of more.
    let unit = vstd::arithmetic::power2::pow2((w - long) as nat);
    let more = vstd::arithmetic::power2::pow2((long - short) as nat);
    vstd::arithmetic::power2::lemma_pow2_adds((w - long) as nat, (long - short) as nat);
    vstd::arithmetic::power2::lemma_pow2_pos((w - long) as nat);
    vstd::arithmetic::power2::lemma_pow2_pos((long - short) as nat);
    assert((w - long) as nat + (long - short) as nat == (w - short) as nat);
    vstd::arithmetic::div_mod::lemma_div_denominator(
        address.value() as int,
        unit as int,
        more as int,
    );
    vstd::arithmetic::div_mod::lemma_div_denominator(ip.value() as int, unit as int, more as int);
}

/// A network holds its first address, and that address is the first of its own
/// network.
pub proof fn network_holds_first(net: IpNet)
    ensures
        net.holds(net.first()),
        (IpNet { address: net.first(), prefix: net.prefix }).first() == net.first(),
{
    let unit = vstd::arithmetic::power2::pow2((net.address.width() - net.bits()) as nat) as int;
    let n = net.address.value() as int;
    vstd::arithmetic::power2::lemma_pow2_pos((net.address.width() - net.bits()) as nat);
    vstd::arithmetic::div_mod::lemma_fundamental_div_mod(n, unit);
    vstd::arithmetic::div_mod::lemma_div_multiples_vanish(n / unit, unit);
    vstd::arithmetic::div_mod::lemma_div_pos_is_pos(n, unit);
    assert(unit * (n / unit) == n / unit * unit) by (nonlinear_arith);
    vstd::arithmetic::mul::lemma_mul_nonnegative(n / unit, unit);
    assert(0 <= n / unit * unit <= n);
}

/// `2` to the power `k`.
fn power_of_two(k: u32) -> (r: u128)
    requires
        k <= 127,
    ensures
        r == vstd::arithmetic::power2::pow2(k as nat),
        r > 0,
{
    let mut i: u32 = 0;
    let mut r: u128 = 1;
    proof {
        vstd::arithmetic::power2::lemma2_to64();
    }
    while i < k
        invariant
            i <= k <= 127,
            r == vstd::arithmetic::power2::pow2(i as nat),
        decreases k - i,
    {
        proof {
            lemma_pow2_127(i as nat);
            vstd::arithmetic::power2::lemma_pow2_unfold((i + 1) as nat);
        }
        r = r * 2;
        i = i + 1;
    }
    proof {
        vstd::arithmetic::power2::lemma_pow2_pos(k as nat);
    }
    r
}

proof fn lemma_pow2_127(i: nat)
    requires
        i < 127,
    ensures
        vstd::arithmetic::power2::pow2(i) * 2 <= 0x8000_0000_0000_0000_0000_0000_0000_0000,
        vstd::arithmetic::power2::pow2(128) == 0x1_0000_0000_0000_0000_0000_0000_0000_0000,
{
    vstd::arithmetic::power2::lemma2_to64();
    vstd::arithmetic::power2::lemma2_to64_rest();
    vstd::arithmetic::power2::lemma_pow2_adds(64, 64);
    vstd::arithmetic::power2::lemma_pow2_adds(63, 63);
    if i < 126 {
        vstd::arithmetic::power2::lemma_pow2_strictly_increases(i, 126);
    }
}

/// The number without its `k` lowest bits.
fn top_bits(n: u128, k: u32, width: u32) -> (r: u128)
    requires
        k <= width,
        width == 32 && n <= u32::MAX || width == 128,
    ensures
        r == n as nat / vstd::arithmetic::power2::pow2(k as nat),
{
    if k == 128 {
        proof {
            lemma_pow2_127(0);
        }
        return 0;
    }
    n / power_of_two(k)
}

/// The number with its `k` lowest bits set to zero.
fn clear_low(n: u128, k: u32, width: u32) -> (r: u128)
    requires
        k <= width,
        width == 32 && n <= u32::MAX || width == 128,
    ensures
        r == n as nat / vstd::arithmetic::power2::pow2(k as nat) * vstd::arithmetic::power2::pow2(
            k as nat,
        ),
        r <= n,
{
    if k == 128 {
        proof {
            lemma_pow2_127(0);
            assert(0nat * vstd::arithmetic::power2::pow2(128) == 0) by (nonlinear_arith);
        }
        return 0;
    }
    let unit: u128 = power_of_two(k);
    proof {
        vstd::arithmetic::div_mod::lemma_fundamental_div_mod(n as int, unit as int);
        assert(unit * (n / unit) == n / unit * unit) by (nonlinear_arith);
    }
    n / unit * unit
}

/// What an address text stands for, by the reading of `std`'s address type.
pub uninterp spec fn ip_text(s: Seq<char>) -> Option<IpAddr>;

/// What a network text `address/prefix` stands for, by the reading of `ipnet`.
pub uninterp spec fn net_text(s: Seq<char>) -> Option<IpNet>;

/// Reads an address: `str::parse` into the address type of `std`, handed over
/// through `ipnet::IpNet::new`, which takes any address with the prefix 0. The
/// result depends on the text alone.
#[verifier::external_body]
fn read_ip(s: &str) -> (r: Option<IpAddr>)
    ensures
        r == ip_text(s@),
{
    match s.parse().map(|ip| ipnet::IpNet::new(ip, 0)) {
        Ok(Ok(ipnet::IpNet::V4(net))) => Some(IpAddr::V4(net.addr().to_bits())),
        Ok(Ok(ipnet::IpNet::V6(net))) => Some(IpAddr::V6(net.addr().to_bits())),
        _ => None,
    }
}

/// Reads a network: `str::parse` into `ipnet::IpNet`. The result depends on the
/// text alone, and its prefix is at most the width of the address.
#[verifier::external_body]
fn read_net(s: &str) -> (r: Option<IpNet>)
    ensures
        r == net_text(s@),
        r matches Some(net) ==> net.wf(),
{
    match s.parse() {
        Ok(ipnet::IpNet::V4(net)) => Some(
            IpNet { address: IpAddr::V4(net.addr().to_bits()), prefix: net.prefix_len() },
        ),
        Ok(ipnet::IpNet::V6(net)) => Some(
            IpNet { address: IpAddr::V6(net.addr().to_bits()), prefix: net.prefix_len() },
        ),
        Err(_) => None,
    }
}

/// Reads an address.
pub fn parse_ip(s: &str) -> (r: Option<IpAddr>)
    ensures
        r == ip_text(s@),
{
    read_ip(s)
}

/// Reads a network.
pub fn parse_net(s: &str) -> (r: Option<IpNet>)
    ensures
        r == net_text(s@),
        r matches Some(net) ==> net.wf(),
{
    read_net(s)
}

/// The network of one address.
pub open spec fn host_net(address: IpAddr) -> IpNet {
    IpNet { address, prefix: address.width() as u8 }
}

/// A network text, or the text of a single address.
pub open spec fn net_or_ip_text(s: Seq<char>) -> Option<IpNet> {
    match net_text(s) {
        Some(net) => Some(net),
        None => match ip_text(s) {
            Some(address) => Some(host_net(address)),
            None => None,
        },
    }
}

/// Reads a network, or a single address as the network of that address.
pub fn parse_net_or_ip(s: &str) -> (r: Option<IpNet>)
    ensures
        r == net_or_ip_text(s@),
        r matches Some(net) ==> net.wf(),
{
    match parse_net(s) {
        Some(net) => Some(net),
        None => match parse_ip(s) {
            Some(address) => {
                let prefix: u8 = match address {
                    IpAddr::V4(_) => 32,
                    IpAddr::V6(_) => 128,
                };
                Some(IpNet { address, prefix })
            },
            None => None,
        },
    }
}

/// Where a connection is meant to go.
#[derive(Clone, Debug, PartialEq, Eq)]
pub enum Destination {
    Ip(IpAddr, u16),
    Domain(String, u16),
}

/// A destination with its host as plain text.
pub enum DestinationView {
    Ip(IpAddr, u16),
    Domain(Seq<char>, u16),
}

impl View for Destination {
    type V = DestinationView;

    open spec fn view(&self) -> DestinationView {
        match *self {
            Destination::Ip(ip, port) => DestinationView::Ip(ip, port),
            Destination::Domain(host, port) => DestinationView::Domain(host@, port),
        }
    }
}

impl DestinationView {
    pub open spec fn port(self) -> u16 {
        match self {
            DestinationView::Ip(_, port) => port,
            DestinationView::Domain(_, port) => port,
        }
    }
}

impl Destination {
    /// A copy with the same contents.
    pub fn copy(&self) -> (r: Destination)
        ensures
            r@ == self@,
    {
        match self {
            Destination::Ip(ip, port) => Destination::Ip(*ip, *port),
            Destination::Domain(host, port) => Destination::Domain(
                text::copy_text(host.as_str()),
                *port,
            ),
        }
    }

    pub fn port(&self) -> (r: u16)
        ensures
            r == self@.port(),
    {
        match self {
            Destination::Ip(_, port) => *port,
            Destination::Domain(_, port) => *port,
        }
    }
}

/// A host text and a port: an address where the text reads as one, else a name.
pub open spec fn host_destination(host: Seq<char>, port: u16) -> DestinationView {
    match ip_text(host) {
        Some(ip) => DestinationView::Ip(ip, port),
        None => DestinationView::Domain(host, port),
    }
}

/// The destination that a host text and a port stand for.
pub fn parse_destination(host: &str, port: u16) -> (r: Destination)
    ensures
        r@ == host_destination(host@, port),
{
    match parse_ip(host) {
        Some(ip) => Destination::Ip(ip, port),
        None => Destination::Domain(text::copy_text(host), port),
    }
}

/// A host and a port; the name of a host with a colon in it stands in brackets.
pub open spec fn socket_text(host: Seq<char>, port: u16) -> Seq<char> {
    url_host_text(host) + seq![':'] + text::decimal(port as nat)
}

/// The name of a host as it stands in a URL: in brackets where it has a colon in
/// it and no bracket in front.
pub open spec fn url_host_text(host: Seq<char>) -> Seq<char> {
    if host.contains(':') && !(host.len() > 0 && host[0] == '[') {
        seq!['['] + host + seq![']']
    } else {
        host
    }
}

/// The name of a host as it stands in a URL.
pub fn url_host(host: &str) -> (r: String)
    ensures
        r@ == url_host_text(host@),
{
    let chars = text::to_chars(host);
    if text::text_has_char(host, ':') && !(chars.len() > 0 && chars[0] == '[') {
        let mut r = String::new();
        text::push_char(&mut r, '[');
        r.append(host);
        text::push_char(&mut r, ']');
        proof {
            assert(r@ =~= url_host_text(host@));
        }
        r
    } else {
        text::copy_text(host)
    }
}

/// A host and a port as one text.
pub fn socket(host: &str, port: u16) -> (r: String)
    ensures
        r@ == socket_text(host@, port),
{
    let mut r = url_host(host);
    text::push_char(&mut r, ':');
    r.append(text::to_decimal(port as u64).as_str());
    proof {
        assert(r@ =~= socket_text(host@, port));
    }
    r
}

/// A host and a port are written with a colon between, and a host that has a colon in
/// it stands in brackets, once.
pub proof fn sockets_are_written_with_a_colon(host: Seq<char>, port: u16)
    ensures
        !host.contains(':') ==> socket_text(host, port) == host + seq![':'] + text::decimal(
            port as nat,
        ),
        host.contains(':') && host[0] != '[' ==> socket_text(host, port) == seq!['['] + host + seq![
            ']',
            ':',
        ] + text::decimal(port as nat),
        host.contains(':') && host[0] == '[' ==> socket_text(host, port) == host + seq![':']
            + text::decimal(port as nat),
        url_host_text(url_host_text(host)) == url_host_text(host),
{
    if host.contains(':') {
        let i = choose|i: int| 0 <= i < host.len() && host[i] == ':';
        if host[0] != '[' {
            assert(seq!['['] + host + seq![']'] + seq![':'] =~= seq!['['] + host + seq![']', ':']);
            assert((seq!['['] + host + seq![']'])[0] == '[');
        }
    }
}

} // verus!
