//! UDP through SOCKS: the datagrams of an association, and where answers come
//! from.
use crate::net::{self, Destination, DestinationView, IpAddr, SocketAddr};
use crate::routing::options::RouteOptionsView;
use crate::routing::RouteOptions;
use crate::text;
use crate::wire;
use vstd::prelude::*;

verus! {

/// An address as the session protocol over TLS has it.
#[derive(Clone, Debug, PartialEq, Eq)]
pub enum Address {
    Ip(IpAddr, u16),
    Domain(String, u16),
}

impl View for Address {
    type V = DestinationView;

    open spec fn view(&self) -> DestinationView {
        match *self {
            Address::Ip(ip, port) => DestinationView::Ip(ip, port),
            Address::Domain(host, port) => DestinationView::Domain(host@, port),
        }
    }
}

/// The same place as an address of the session protocol.
pub fn to_anytls_destination(destination: &Destination) -> (r: Address)
    ensures
        r@ == destination@,
{
    match destination {
        Destination::Ip(ip, port) => Address::Ip(*ip, *port),
        Destination::Domain(host, port) => Address::Domain(text::copy_text(host.as_str()), *port),
    }
}

/// The same place as a destination.
pub fn from_anytls_destination(destination: &Address) -> (r: Destination)
    ensures
        r@ == destination@,
{
    match destination {
        Address::Ip(ip, port) => Destination::Ip(*ip, *port),
        Address::Domain(host, port) => Destination::Domain(text::copy_text(host.as_str()), *port),
    }
}

/// What an answer is said to come from: the name that was asked for, unless the
/// options want the true source.
pub open spec fn response_source(
    requested: DestinationView,
    source: DestinationView,
    options: RouteOptionsView,
) -> DestinationView {
    if !options.udp_disable_domain_unmapping && requested is Domain {
        requested
    } else {
        source
    }
}

/// What an answer from another proxy is said to come from.
pub fn udp_response_proxy_destination(
    requested: &Destination,
    source: &Destination,
    options: &RouteOptions,
) -> (r: Destination)
    ensures
        r@ == response_source(requested@, source@, options@),
{
    if options.udp_disable_domain_unmapping {
        return source.copy();
    }
    match requested {
        Destination::Domain(_, _) => requested.copy(),
        Destination::Ip(_, _) => source.copy(),
    }
}

/// What an answer that came in on a socket is said to come from.
pub fn udp_response_destination(
    requested: &Destination,
    source: SocketAddr,
    options: &RouteOptions,
) -> (r: Destination)
    ensures
        r@ == response_source(
            requested@,
            DestinationView::Ip(source.ip, source.port),
            options@,
        ),
{
    let source = Destination::Ip(source.ip, source.port);
    udp_response_proxy_destination(requested, &source, options)
}

// ---- datagrams ----

/// Why a datagram or a request cannot be read or written.
#[derive(Clone, Copy, Debug, PartialEq, Eq, Structural)]
pub enum SocksError {
    ReservedField,
    Fragmented,
    MissingAddressType,
    InvalidAddressType,
    TruncatedIpv4,
    MissingDomainLength,
    TruncatedDomain,
    InvalidDomain,
    TruncatedIpv6,
    MissingPort,
    DomainTooLong,
}

/// The port at a position, and where it ends, for a host that ends there.
pub open spec fn with_port(p: Seq<u8>, end: int, host: spec_fn(u16) -> DestinationView) -> Result<
    (DestinationView, int),
    SocksError,
> {
    if end + 2 > p.len() {
        Err(SocksError::MissingPort)
    } else {
        Ok((host(wire::be16(p, end) as u16), end + 2))
    }
}

/// The address at a position of a packet, and where it ends.
pub open spec fn address_at(p: Seq<u8>, offset: int) -> Result<(DestinationView, int), SocksError> {
    if offset >= p.len() {
        Err(SocksError::MissingAddressType)
    } else if p[offset] == 1 {
        if offset + 5 > p.len() {
            Err(SocksError::TruncatedIpv4)
        } else {
            let ip = IpAddr::V4(wire::be32(p, offset + 1) as u32);
            with_port(p, offset + 5, |port: u16| DestinationView::Ip(ip, port))
        }
    } else if p[offset] == 3 {
        if offset + 1 >= p.len() {
            Err(SocksError::MissingDomainLength)
        } else {
            let end = offset + 2 + p[offset + 1] as int;
            if end > p.len() {
                Err(SocksError::TruncatedDomain)
            } else if !vstd::utf8::valid_utf8(p.subrange(offset + 2, end)) {
                Err(SocksError::InvalidDomain)
            } else {
                let host = vstd::utf8::decode_utf8(p.subrange(offset + 2, end));
                with_port(p, end, |port: u16| net::host_destination(host, port))
            }
        }
    } else if p[offset] == 4 {
        if offset + 17 > p.len() {
            Err(SocksError::TruncatedIpv6)
        } else {
            let ip = IpAddr::V6(wire::be128(p, offset + 1) as u128);
            with_port(p, offset + 17, |port: u16| DestinationView::Ip(ip, port))
        }
    } else {
        Err(SocksError::InvalidAddressType)
    }
}

/// Reads an address of SOCKS at a position of a packet.
pub fn decode_address(packet: &[u8], offset: usize) -> (r: Result<(Destination, usize), SocksError>)
    ensures
        match r {
            Ok((d, end)) => address_at(packet@, offset as int) == Ok::<_, SocksError>(
                (d@, end as int),
            ),
            Err(e) => address_at(packet@, offset as int) == Err::<(DestinationView, int), _>(e),
        },
{
    if offset >= packet.len() {
        return Err(SocksError::MissingAddressType);
    }
    let kind = packet[offset];
    let left: usize = packet.len() - offset;
    if kind == 1 {
        if left < 5 {
            return Err(SocksError::TruncatedIpv4);
        }
        let ip = IpAddr::V4(wire::read_u32(packet, offset + 1));
        if left < 7 {
            return Err(SocksError::MissingPort);
        }
        Ok((Destination::Ip(ip, wire::read_u16(packet, offset + 5)), offset + 7))
    } else if kind == 3 {
        if left < 2 {
            return Err(SocksError::MissingDomainLength);
        }
        let length: usize = packet[offset + 1] as usize;
        if left - 2 < length {
            return Err(SocksError::TruncatedDomain);
        }
        let bytes = text::copy_bytes(&packet[offset + 2..offset + 2 + length]);
        let host = match text::utf8_text(bytes) {
            Some(host) => host,
            None => {
                return Err(SocksError::InvalidDomain);
            },
        };
        let end: usize = offset + 2 + length;
        if packet.len() - end < 2 {
            return Err(SocksError::MissingPort);
        }
        Ok((net::parse_destination(host.as_str(), wire::read_u16(packet, end)), end + 2))
    } else if kind == 4 {
        if left < 17 {
            return Err(SocksError::TruncatedIpv6);
        }
        let ip = IpAddr::V6(wire::read_u128(packet, offset + 1));
        if left < 19 {
            return Err(SocksError::MissingPort);
        }
        Ok((Destination::Ip(ip, wire::read_u16(packet, offset + 17)), offset + 19))
    } else {
        Err(SocksError::InvalidAddressType)
    }
}

/// The destination and the payload of a datagram of SOCKS.
pub open spec fn socks_datagram(p: Seq<u8>) -> Result<(DestinationView, Seq<u8>), SocksError> {
    if p.len() < 4 || p[0] != 0 || p[1] != 0 {
        Err(SocksError::ReservedField)
    } else if p[2] != 0 {
        Err(SocksError::Fragmented)
    } else {
        match address_at(p, 3) {
            Ok((d, end)) => Ok((d, p.skip(end))),
            Err(e) => Err(e),
        }
    }
}

/// Reads a datagram of SOCKS.
pub fn parse_socks_udp<'a>(packet: &'a [u8]) -> (r: Result<(Destination, &'a [u8]), SocksError>)
    ensures
        match r {
            Ok((d, payload)) => socks_datagram(packet@) == Ok::<_, SocksError>((d@, payload@)),
            Err(e) => socks_datagram(packet@) == Err::<(DestinationView, Seq<u8>), _>(e),
        },
{
    if packet.len() < 4 || packet[0] != 0 || packet[1] != 0 {
        return Err(SocksError::ReservedField);
    }
    if packet[2] != 0 {
        return Err(SocksError::Fragmented);
    }
    match decode_address(packet, 3) {
        Ok((destination, end)) => {
            proof {
                assert(packet@.subrange(end as int, packet@.len() as int) =~= packet@.skip(
                    end as int,
                ));
            }
            Ok((destination, &packet[end..packet.len()]))
        },
        Err(e) => Err(e),
    }
}

/// Reads any bytes as a datagram; whether they are one is the result.
pub fn fuzz_socks_udp(packet: &[u8]) -> (r: bool)
    ensures
        r == (socks_datagram(packet@) is Ok),
{
    match parse_socks_udp(packet) {
        Ok(_) => true,
        Err(_) => false,
    }
}

/// The bytes of an address of SOCKS; a name of over 255 bytes has none.
pub open spec fn address_bytes(d: DestinationView) -> Option<Seq<u8>> {
    match d {
        DestinationView::Ip(IpAddr::V4(n), port) => Some(
            seq![1u8] + wire::bytes32(n as nat) + wire::bytes16(port as nat),
        ),
        DestinationView::Ip(IpAddr::V6(n), port) => Some(
            seq![4u8] + wire::bytes128(n as nat) + wire::bytes16(port as nat),
        ),
        DestinationView::Domain(host, port) => {
            let bytes = vstd::utf8::encode_utf8(host);
            if bytes.len() > 255 {
                None
            } else {
                Some(seq![3u8, bytes.len() as u8] + bytes + wire::bytes16(port as nat))
            }
        },
    }
}

/// Writes an address of SOCKS.
pub fn encode_address(output: &mut Vec<u8>, destination: &Destination) -> (r: Result<(), SocksError>)
    ensures
        match address_bytes(destination@) {
            Some(bytes) => r is Ok && final(output)@ == old(output)@ + bytes,
            None => r == Err::<(), SocksError>(SocksError::DomainTooLong) && final(output)@ == old(
                output,
            )@,
        },
{
    let ghost before = output@;
    match destination {
        Destination::Ip(IpAddr::V4(n), port) => {
            output.push(1);
            wire::push_u32(output, *n);
            wire::push_u16(output, *port);
            proof {
                assert(output@ =~= before + (seq![1u8] + wire::bytes32(*n as nat) + wire::bytes16(
                    *port as nat,
                )));
            }
        },
        Destination::Ip(IpAddr::V6(n), port) => {
            output.push(4);
            wire::push_u128(output, *n);
            wire::push_u16(output, *port);
            proof {
                assert(output@ =~= before + (seq![4u8] + wire::bytes128(*n as nat) + wire::bytes16(
                    *port as nat,
                )));
            }
        },
        Destination::Domain(host, port) => {
            let bytes = text::text_bytes(host.as_str());
            if bytes.len() > 255 {
                return Err(SocksError::DomainTooLong);
            }
            output.push(3);
            output.push(bytes.len() as u8);
            wire::push_bytes(output, bytes.as_slice());
            wire::push_u16(output, *port);
            proof {
                assert(output@ =~= before + (seq![3u8, bytes@.len() as u8] + bytes@ + wire::bytes16(
                    *port as nat,
                )));
            }
        },
    }
    Ok(())
}

/// Writes a datagram of SOCKS.
pub fn encode_socks_udp(destination: &Destination, payload: &[u8]) -> (r: Result<
    Vec<u8>,
    SocksError,
>)
    ensures
        match address_bytes(destination@) {
            Some(bytes) => r is Ok && r->Ok_0@ == seq![0u8, 0, 0] + bytes + payload@,
            None => r == Err::<Vec<u8>, SocksError>(SocksError::DomainTooLong),
        },
{
    let mut packet: Vec<u8> = Vec::new();
    packet.push(0);
    packet.push(0);
    packet.push(0);
    proof {
        assert(packet@ =~= seq![0u8, 0, 0]);
    }
    match encode_address(&mut packet, destination) {
        Ok(()) => {},
        Err(e) => {
            return Err(e);
        },
    }
    wire::push_bytes(&mut packet, payload);
    Ok(packet)
}

/// The reply that an association or a connection of SOCKS is granted.
pub fn socks_reply(address: SocketAddr) -> (r: Vec<u8>)
    ensures
        r@ == seq![5u8, 0, 0] + address_bytes(DestinationView::Ip(address.ip, address.port))->0,
{
    let mut reply: Vec<u8> = Vec::new();
    reply.push(5);
    reply.push(0);
    reply.push(0);
    proof {
        assert(reply@ =~= seq![5u8, 0, 0]);
    }
    let _ = encode_address(&mut reply, &Destination::Ip(address.ip, address.port));
    reply
}

/// The address behind the three leading bytes of a datagram, read at its place.
proof fn lemma_reads_ip(front: Seq<u8>, b: Seq<u8>, tail: Seq<u8>, payload: Seq<u8>)
    requires
        front.len() == 4,
        tail.len() == 2,
    ensures
        ({
            let p = front + b + tail + payload;
            &&& p.len() == 6 + b.len() + payload.len()
            &&& forall|i: int| 0 <= i < 4 ==> p[i] == front[i]
            &&& p.subrange(4, 4 + b.len() as int) == b
            &&& p.subrange(4 + b.len() as int, 6 + b.len() as int) == tail
            &&& p.skip(6 + b.len() as int) == payload
        }),
{
    let p = front + b + tail + payload;
    assert(p.subrange(4, 4 + b.len() as int) =~= b);
    assert(p.subrange(4 + b.len() as int, 6 + b.len() as int) =~= tail);
    assert(p.skip(6 + b.len() as int) =~= payload);
}

proof fn lemma_reads_v4(p: Seq<u8>, n: u32, port: u16, payload: Seq<u8>)
    requires
        p.len() >= 10,
        p[0] == 0 && p[1] == 0 && p[2] == 0 && p[3] == 1,
        p.subrange(4, 8) == wire::bytes32(n as nat),
        p.subrange(8, 10) == wire::bytes16(port as nat),
        p.skip(10) == payload,
    ensures
        socks_datagram(p) == Ok::<_, SocksError>((DestinationView::Ip(IpAddr::V4(n), port), payload)),
{
    wire::lemma_be32(p, 4, n as nat);
    wire::lemma_be16(p, 8, port as nat);
}

proof fn lemma_reads_v6(p: Seq<u8>, n: u128, port: u16, payload: Seq<u8>)
    requires
        p.len() >= 22,
        p[0] == 0 && p[1] == 0 && p[2] == 0 && p[3] == 4,
        p.subrange(4, 20) == wire::bytes128(n as nat),
        p.subrange(20, 22) == wire::bytes16(port as nat),
        p.skip(22) == payload,
    ensures
        socks_datagram(p) == Ok::<_, SocksError>((DestinationView::Ip(IpAddr::V6(n), port), payload)),
{
    wire::lemma_be128(p, 4, n);
    wire::lemma_be16(p, 20, port as nat);
}

proof fn lemma_reads_domain(p: Seq<u8>, host: Seq<char>, port: u16, payload: Seq<u8>)
    requires
        vstd::utf8::encode_utf8(host).len() <= 255,
        p == seq![0u8, 0, 0] + address_bytes(DestinationView::Domain(host, port))->0 + payload,
    ensures
        socks_datagram(p) == Ok::<_, SocksError>((net::host_destination(host, port), payload)),
{
    let bytes = vstd::utf8::encode_utf8(host);
    let front = seq![0u8, 0, 0, 3, bytes.len() as u8];
    let tail = wire::bytes16(port as nat);
    let end = 5 + bytes.len() as int;
    assert(p =~= front + bytes + (tail + payload));
    wire::lemma_parts(front, bytes, tail + payload);
    assert(p =~= (front + bytes) + tail + payload);
    wire::lemma_parts(front + bytes, tail, payload);
    vstd::utf8::encode_utf8_valid_utf8(host);
    vstd::utf8::encode_utf8_decode_utf8(host);
    wire::lemma_be16(p, end, port as nat);
}

/// What was written as a datagram is read back: the destination and the payload,
/// for every destination that can be written, but for a name that reads as an
/// address, which comes back as that address.
#[verifier::spinoff_prover]
#[verifier::rlimit(50)]
pub proof fn socks_udp_round_trip(d: DestinationView, payload: Seq<u8>)
    requires
        address_bytes(d) is Some,
    ensures
        socks_datagram(seq![0u8, 0, 0] + address_bytes(d)->0 + payload) == Ok::<_, SocksError>(
            (
                match d {
                    DestinationView::Domain(host, port) => net::host_destination(host, port),
                    DestinationView::Ip(_, _) => d,
                },
                payload,
            ),
        ),
{
    let head = seq![0u8, 0, 0];
    let p = head + address_bytes(d)->0 + payload;
    match d {
        DestinationView::Ip(ip, port) => {
            let kind = match ip {
                IpAddr::V4(_) => 1u8,
                IpAddr::V6(_) => 4u8,
            };
            let front = seq![0u8, 0, 0, kind];
            let b = ip.octets();
            let tail = wire::bytes16(port as nat);
            lemma_reads_ip(front, b, tail, payload);
            assert(p =~= front + b + tail + payload);
            match ip {
                IpAddr::V4(n) => {
                    assert(b.len() == 4);
                    lemma_reads_v4(p, n, port, payload);
                },
                IpAddr::V6(n) => {
                    assert(b.len() == 16);
                    lemma_reads_v6(p, n, port, payload);
                },
            }
        },
        DestinationView::Domain(host, port) => {
            lemma_reads_domain(p, host, port, payload);
        },
    }
}

} // verus!
