//! The inbound for traffic that policy routing hands over with its own
//! destination.
use crate::net::{self, IpAddr, SocketAddr};
use crate::proxy::udp_nat::{
    behavior_named, mapping_key, next, place, session_views, touched, with_sender,
    without_handles, SessionView, UdpMappingKey, UdpNatBehavior, UdpNatTable,
    UnsupportedBehavior,
};
use crate::singbox::Inbound;
use crate::text;
use crate::time::{self, Duration};
use crate::wire;
use vstd::prelude::*;

verus! {

// ---- control messages ----
// Their heads are read as a 64-bit machine lays them out that stores the least
// significant byte first: a length of eight bytes, then a level and a type of four. The
// kernel writes them in the order and the word size of the machine it runs on, so
// messages of another machine are not read.

/// The number that four bytes stand for, least significant first.
pub open spec fn le32(b: Seq<u8>, i: int) -> nat {
    (b[i] + 0x100 * b[i + 1] + 0x1_0000 * b[i + 2] + 0x100_0000 * b[i + 3]) as nat
}

/// The number that eight bytes stand for, least significant first.
pub open spec fn le64(b: Seq<u8>, i: int) -> nat {
    le32(b, i) + 0x1_0000_0000 * le32(b, i + 4)
}

fn read_le32(b: &[u8], i: usize) -> (n: u32)
    requires
        i + 4 <= b@.len(),
    ensures
        n == le32(b@, i as int),
{
    assert(i + 4 <= b.len());
    (b[i] as u32) + 0x100 * (b[i + 1] as u32) + 0x1_0000 * (b[i + 2] as u32) + 0x100_0000 * (
    b[i + 3] as u32)
}

fn read_le64(b: &[u8], i: usize) -> (n: u64)
    requires
        i + 8 <= b@.len(),
    ensures
        n == le64(b@, i as int),
{
    assert(i + 8 <= b.len());
    (read_le32(b, i) as u64) + 0x1_0000_0000 * (read_le32(b, i + 4) as u64)
}

/// How long the message at a place is: what it says, but no more than there is.
pub open spec fn message_length(oob: Seq<u8>, at: int) -> int {
    let n = le64(oob, at) as int;
    if n < oob.len() - at {
        n
    } else {
        oob.len() - at
    }
}

/// A message stands at a place.
pub open spec fn has_message(oob: Seq<u8>, at: int) -> bool {
    0 <= at && at + 12 <= oob.len() && message_length(oob, at) >= 12
}

/// The message at a place is the destination of a datagram of the one family.
pub open spec fn is_destination4(oob: Seq<u8>, at: int) -> bool {
    le32(oob, at + 8) == 0 && le32(oob, at + 12) == 20
}

/// The message at a place is the destination of a datagram of the other family.
pub open spec fn is_destination6(oob: Seq<u8>, at: int) -> bool {
    le32(oob, at + 8) == 41 && le32(oob, at + 12) == 74
}

/// The destination in the first message, from a place on, that holds one.
pub open spec fn destination_from(oob: Seq<u8>, at: int) -> Option<SocketAddr>
    decreases oob.len() - at,
{
    if !has_message(oob, at) {
        None
    } else if is_destination4(oob, at) {
        Some(
            SocketAddr {
                ip: IpAddr::V4(wire::be32(oob, at + 20) as u32),
                port: wire::be16(oob, at + 18) as u16,
            },
        )
    } else if is_destination6(oob, at) {
        Some(
            SocketAddr {
                ip: IpAddr::V6(wire::be128(oob, at + 24) as u128),
                port: wire::be16(oob, at + 18) as u16,
            },
        )
    } else {
        destination_from(oob, at + message_length(oob, at))
    }
}

/// The messages from a place on are whole, up to the first that holds a
/// destination: no message ends in its head, and that one not in its address.
pub open spec fn is_intact(oob: Seq<u8>, at: int) -> bool
    decreases oob.len() - at,
{
    has_message(oob, at) ==> {
        &&& at + 16 <= oob.len()
        &&& if is_destination4(oob, at) {
            at + 24 <= oob.len()
        } else if is_destination6(oob, at) {
            at + 40 <= oob.len()
        } else {
            is_intact(oob, at + message_length(oob, at))
        }
    }
}

/// Whether the control messages of a datagram are whole.
pub fn intact(oob: &[u8]) -> (r: bool)
    ensures
        r == is_intact(oob@, 0),
{
    let total: usize = oob.len();
    let mut at: usize = 0;
    while total - at >= 12
        invariant
            total == oob@.len(),
            at <= total,
            is_intact(oob@, 0) == is_intact(oob@, at as int),
        decreases total - at,
    {
        let stated: u64 = read_le64(oob, at);
        let left: usize = total - at;
        let length: usize = if stated < left as u64 {
            stated as usize
        } else {
            left
        };
        if length < 12 {
            return true;
        }
        if left < 16 {
            return false;
        }
        let level: u32 = read_le32(oob, at + 8);
        let kind: u32 = read_le32(oob, at + 12);
        if level == 0 && kind == 20 {
            return left >= 24;
        }
        if level == 41 && kind == 74 {
            return left >= 40;
        }
        at = at + length;
    }
    true
}

/// Reads the destination of a datagram out of its control messages, as a 64-bit machine
/// writes them that stores the least significant byte first.
pub fn original_destination(oob: &[u8]) -> (r: Option<SocketAddr>)
    requires
        is_intact(oob@, 0),
    ensures
        r == destination_from(oob@, 0),
{
    let total: usize = oob.len();
    let mut at: usize = 0;
    while total - at >= 12
        invariant
            total == oob@.len(),
            at <= total,
            is_intact(oob@, at as int),
            destination_from(oob@, 0) == destination_from(oob@, at as int),
        decreases total - at,
    {
        let stated: u64 = read_le64(oob, at);
        let left: usize = total - at;
        let length: usize = if stated < left as u64 {
            stated as usize
        } else {
            left
        };
        if length < 12 {
            return None;
        }
        assert(has_message(oob@, at as int));
        let level: u32 = read_le32(oob, at + 8);
        let kind: u32 = read_le32(oob, at + 12);
        if level == 0 && kind == 20 {
            return Some(
                SocketAddr {
                    ip: IpAddr::V4(wire::read_u32(oob, at + 20)),
                    port: wire::read_u16(oob, at + 18),
                },
            );
        }
        if level == 41 && kind == 74 {
            return Some(
                SocketAddr {
                    ip: IpAddr::V6(wire::read_u128(oob, at + 24)),
                    port: wire::read_u16(oob, at + 18),
                },
            );
        }
        at = at + length;
    }
    None
}

/// What stands in front of messages does not change them.
proof fn lemma_shifted(front: Seq<u8>, oob: Seq<u8>, at: int)
    requires
        0 <= at <= oob.len(),
        is_intact(oob, at),
    ensures
        is_intact(front + oob, front.len() + at),
        destination_from(front + oob, front.len() + at) == destination_from(oob, at),
    decreases oob.len() - at,
{
    let all = front + oob;
    let n = front.len() as int;
    assert forall|i: int| 0 <= i < oob.len() implies #[trigger] all[n + i] == oob[i] by {}
    if at + 12 <= oob.len() {
        assert(le64(all, n + at) == le64(oob, at)) by {
            assert(all[n + at] == oob[at]);
            assert(all[n + (at + 1)] == oob[at + 1]);
            assert(all[n + (at + 2)] == oob[at + 2]);
            assert(all[n + (at + 3)] == oob[at + 3]);
            assert(all[n + (at + 4)] == oob[at + 4]);
            assert(all[n + (at + 5)] == oob[at + 5]);
            assert(all[n + (at + 6)] == oob[at + 6]);
            assert(all[n + (at + 7)] == oob[at + 7]);
        }
        assert(has_message(all, n + at) == has_message(oob, at));
        if has_message(oob, at) {
            assert(at + 16 <= oob.len());
            assert(le32(all, n + at + 8) == le32(oob, at + 8)) by {
                assert(all[n + (at + 8)] == oob[at + 8]);
                assert(all[n + (at + 9)] == oob[at + 9]);
                assert(all[n + (at + 10)] == oob[at + 10]);
                assert(all[n + (at + 11)] == oob[at + 11]);
            }
            assert(le32(all, n + at + 12) == le32(oob, at + 12)) by {
                assert(all[n + (at + 12)] == oob[at + 12]);
                assert(all[n + (at + 13)] == oob[at + 13]);
                assert(all[n + (at + 14)] == oob[at + 14]);
                assert(all[n + (at + 15)] == oob[at + 15]);
            }
            if is_destination4(oob, at) || is_destination6(oob, at) {
                lemma_same_number(all, oob, n, at, if is_destination4(oob, at) {
                    24
                } else {
                    40
                });
            } else {
                lemma_shifted(front, oob, at + message_length(oob, at));
            }
        }
    }
}

proof fn lemma_same_number(all: Seq<u8>, oob: Seq<u8>, n: int, at: int, size: int)
    requires
        0 <= at,
        at + size <= oob.len(),
        size == 24 || size == 40,
        forall|i: int| 0 <= i < oob.len() ==> #[trigger] all[n + i] == oob[i],
    ensures
        wire::be16(all, n + at + 18) == wire::be16(oob, at + 18),
        size == 24 ==> wire::be32(all, n + at + 20) == wire::be32(oob, at + 20),
        size == 40 ==> wire::be128(all, n + at + 24) == wire::be128(oob, at + 24),
{
    assert(all[n + (at + 18)] == oob[at + 18]);
    assert(all[n + (at + 19)] == oob[at + 19]);
    if size == 24 {
        lemma_same32(all, oob, n, at + 20);
    } else {
        lemma_same32(all, oob, n, at + 24);
        lemma_same32(all, oob, n, at + 28);
        lemma_same32(all, oob, n, at + 32);
        lemma_same32(all, oob, n, at + 36);
    }
}

proof fn lemma_same32(all: Seq<u8>, oob: Seq<u8>, n: int, at: int)
    requires
        0 <= at,
        at + 4 <= oob.len(),
        forall|i: int| 0 <= i < oob.len() ==> #[trigger] all[n + i] == oob[i],
    ensures
        wire::be32(all, n + at) == wire::be32(oob, at),
{
    assert(all[n + at] == oob[at]);
    assert(all[n + (at + 1)] == oob[at + 1]);
    assert(all[n + (at + 2)] == oob[at + 2]);
    assert(all[n + (at + 3)] == oob[at + 3]);
}

/// A whole message that holds no destination is passed over: the destination is
/// the one in the messages behind it.
pub proof fn other_messages_are_passed_over(message: Seq<u8>, rest: Seq<u8>)
    requires
        message.len() >= 16,
        le64(message, 0) == message.len(),
        !is_destination4(message, 0),
        !is_destination6(message, 0),
        is_intact(rest, 0),
    ensures
        is_intact(message + rest, 0),
        destination_from(message + rest, 0) == destination_from(rest, 0),
{
    let all = message + rest;
    assert(le64(all, 0) == le64(message, 0));
    assert(le32(all, 8) == le32(message, 8));
    assert(le32(all, 12) == le32(message, 12));
    assert(message_length(all, 0) == message.len());
    lemma_shifted(message, rest, 0);
}

// ---- options of the sockets ----

/// An option of a transparent socket: its level, its name and its value, which is
/// always on.
#[derive(Clone, Copy, Debug, PartialEq, Eq, Structural)]
pub enum TransparentOption {
    /// The address can be used again at once.
    ReuseAddress,
    /// The socket can be bound to any address.
    Transparent { ipv6: bool },
    /// Datagrams come with their destination.
    Destination { ipv6: bool },
}

/// The options of a transparent socket, in the order in which they are set.
pub fn set_tproxy_options(is_ipv6: bool, is_udp: bool) -> (r: Vec<TransparentOption>)
    ensures
        r@ == seq![
            TransparentOption::ReuseAddress,
            TransparentOption::Transparent { ipv6: is_ipv6 },
        ] + (if is_udp {
            seq![TransparentOption::Destination { ipv6: is_ipv6 }]
        } else {
            Seq::empty()
        }),
{
    let mut r: Vec<TransparentOption> = Vec::new();
    r.push(TransparentOption::ReuseAddress);
    r.push(TransparentOption::Transparent { ipv6: is_ipv6 });
    if is_udp {
        r.push(TransparentOption::Destination { ipv6: is_ipv6 });
    }
    r
}

// ---- settings ----

/// The settings of the inbound.
#[derive(Debug)]
pub struct TproxySettings {
    pub listen: String,
    pub tag: String,
    pub mapping: UdpNatBehavior,
    pub filtering: UdpNatBehavior,
    pub udp_timeout: Duration,
    pub udp_nat_max: usize,
}

/// Why the inbound cannot be set up.
#[derive(Debug)]
pub enum TproxyError {
    NoPort,
    Behavior(UnsupportedBehavior),
}

/// Reads the settings of the inbound. A session of datagrams lives for a second at
/// least, and there are 1024 of them where no other number is given.
pub fn tproxy_settings(inbound: &Inbound) -> (r: Result<TproxySettings, TproxyError>)
    ensures
        match r {
            Ok(s) => {
                &&& inbound.listen_port is Some
                &&& s.listen@ == net::socket_text(
                    text::text_or(text::opt_text(inbound.listen), "::"@),
                    inbound.listen_port->0,
                )
                &&& s.tag@ == text::text_or(text::opt_text(inbound.tag), "tproxy-in"@)
                &&& behavior_named(text::opt_text(inbound.udp_mapping)) == Some(s.mapping)
                &&& behavior_named(text::opt_text(inbound.udp_filtering)) == Some(s.filtering)
                &&& s.udp_timeout.millis == ({
                    let t = time::lenient_millis(text::opt_text(inbound.udp_timeout));
                    if t >= 1000 {
                        t
                    } else {
                        1000
                    }
                })
                &&& s.udp_nat_max == (match inbound.udp_nat_max {
                    Some(n) if n > 0 => n as usize,
                    _ => 1024,
                })
            },
            Err(TproxyError::NoPort) => inbound.listen_port is None,
            Err(TproxyError::Behavior(e)) => inbound.listen_port is Some && ({
                let mapping = text::opt_text(inbound.udp_mapping);
                let filtering = text::opt_text(inbound.udp_filtering);
                if behavior_named(mapping) is None {
                    e.field@ == "udp_mapping"@ && mapping == Some(e.value@)
                } else {
                    behavior_named(filtering) is None && e.field@ == "udp_filtering"@ && filtering
                        == Some(e.value@)
                }
            }),
        },
{
    let port: u16 = match inbound.listen_port {
        Some(port) => port,
        None => {
            return Err(TproxyError::NoPort);
        },
    };
    let host = text::or_text(&inbound.listen, "::");
    let listen = net::socket(host.as_str(), port);
    let tag = text::or_text(&inbound.tag, "tproxy-in");
    let mapping = match UdpNatBehavior::parse(
        text::as_opt_str(&inbound.udp_mapping),
        "udp_mapping",
    ) {
        Ok(b) => b,
        Err(e) => {
            return Err(TproxyError::Behavior(e));
        },
    };
    let filtering = match UdpNatBehavior::parse(
        text::as_opt_str(&inbound.udp_filtering),
        "udp_filtering",
    ) {
        Ok(b) => b,
        Err(e) => {
            return Err(TproxyError::Behavior(e));
        },
    };
    let udp_timeout = time::parse_duration_lenient(text::as_opt_str(&inbound.udp_timeout)).max(
        Duration::from_secs(1),
    );
    let stated: u32 = match inbound.udp_nat_max {
        Some(n) => n,
        None => 0,
    };
    let udp_nat_max: usize = if stated == 0 {
        1024
    } else {
        stated as usize
    };
    Ok(TproxySettings { listen, tag, mapping, filtering, udp_timeout, udp_nat_max })
}

impl TproxySettings {
    /// Whether every session has one destination.
    pub fn fixed(&self) -> (r: bool)
        ensures
            r == (self.mapping == UdpNatBehavior::AddressAndPortDependent),
    {
        self.mapping == UdpNatBehavior::AddressAndPortDependent
    }
}

// ---- datagrams ----

/// Where a datagram goes.
#[derive(Clone, Copy, Debug, PartialEq, Eq, Structural)]
pub struct PacketStep {
    /// The session that it belongs to.
    pub key: UdpMappingKey,
    /// What hands it on.
    pub sender: u64,
    /// Whether the session has to be opened first.
    pub opened: bool,
}

/// What a table knows of who hands on the datagrams of a session.
pub open spec fn sender_of(s: Seq<SessionView>, key: UdpMappingKey) -> Option<u64> {
    if place(s, key) < s.len() {
        s[place(s, key)].sender
    } else {
        None
    }
}

/// Takes a datagram: to the session it belongs to, which is opened with a fresh
/// sender where there is none or its sender is closed.
pub fn take_packet(
    table: &mut UdpNatTable,
    mapping: UdpNatBehavior,
    peer: SocketAddr,
    destination: SocketAddr,
    now: Duration,
    fresh: u64,
    closed: &Vec<u64>,
) -> (r: PacketStep)
    requires
        old(table).wf(),
    ensures
        final(table).wf(),
        final(table).same_rules(old(table)),
        r.key == mapping_key(mapping, peer, destination),
        ({
            let s = without_handles(session_views(old(table).sessions@), closed@);
            let t = touched(
                s,
                r.key,
                destination,
                now.millis as nat,
                old(table).idle_timeout.millis as nat,
                old(table).max_sessions as nat,
                next(old(table).generation),
            );
            match sender_of(s, r.key) {
                Some(sender) => !r.opened && r.sender == sender && session_views(
                    final(table).sessions@,
                ) == t,
                None => r.opened && r.sender == fresh && session_views(final(table).sessions@)
                    == with_sender(t, r.key, Some(fresh)),
            }
        }),
{
    table.clear_closed(closed);
    let key = UdpNatTable::key_for(mapping, peer, destination);
    match table.touch_and_sender(key, destination, now) {
        Some(sender) => PacketStep { key, sender, opened: false },
        None => {
            table.insert_sender(key, fresh);
            PacketStep { key, sender: fresh, opened: true }
        },
    }
}

/// A small number in eight bytes, the lowest first.
pub open spec fn small64(n: u8) -> Seq<u8> {
    seq![n, 0, 0, 0, 0, 0, 0, 0]
}

/// A small number in four bytes, the lowest first.
pub open spec fn small32(n: u8) -> Seq<u8> {
    seq![n, 0, 0, 0]
}

/// The destination that the kernel writes with a datagram is read as it is written:
/// behind the length, the level and the type of its message stand the family, the
/// port and the address, and for the newer family four bytes more between those two.
pub proof fn written_destinations_are_read(
    length: u8,
    family: Seq<u8>,
    flow: Seq<u8>,
    port: u16,
    four: u32,
    six: u128,
    rest: Seq<u8>,
)
    requires
        family.len() == 2,
        flow.len() == 4,
        length >= 16,
    ensures
        ({
            let old = small64(length) + small32(0) + small32(20) + family + wire::bytes16(
                port as nat,
            ) + wire::bytes32(four as nat) + rest;
            &&& is_intact(old, 0)
            &&& destination_from(old, 0) == Some(SocketAddr { ip: IpAddr::V4(four), port })
        }),
        ({
            let new = small64(length) + small32(41) + small32(74) + family + wire::bytes16(
                port as nat,
            ) + flow + wire::bytes128(six as nat) + rest;
            &&& is_intact(new, 0)
            &&& destination_from(new, 0) == Some(SocketAddr { ip: IpAddr::V6(six), port })
        }),
{
    lemma_old_reads(length, family, port, four, rest);
    lemma_new_reads(length, family, flow, port, six, rest);
}

proof fn lemma_old_reads(length: u8, family: Seq<u8>, port: u16, four: u32, rest: Seq<u8>)
    requires
        family.len() == 2,
        length >= 16,
    ensures
        ({
            let old = small64(length) + small32(0) + small32(20) + family + wire::bytes16(
                port as nat,
            ) + wire::bytes32(four as nat) + rest;
            &&& is_intact(old, 0)
            &&& destination_from(old, 0) == Some(SocketAddr { ip: IpAddr::V4(four), port })
        }),
{
    let b = small64(length) + small32(0) + small32(20) + family + wire::bytes16(port as nat)
        + wire::bytes32(four as nat) + rest;
    assert(b[0] == length && b[1] == 0 && b[2] == 0 && b[3] == 0 && b[4] == 0 && b[5] == 0 && b[6]
        == 0 && b[7] == 0);
    assert(b[8] == 0 && b[9] == 0 && b[10] == 0 && b[11] == 0);
    assert(b[12] == 20 && b[13] == 0 && b[14] == 0 && b[15] == 0);
    assert(le64(b, 0) == length);
    assert(b.len() == 24 + rest.len());
    assert(b.subrange(18, 20) =~= wire::bytes16(port as nat));
    wire::lemma_be16(b, 18, port as nat);
    assert(b.subrange(20, 24) =~= wire::bytes32(four as nat));
    wire::lemma_be32(b, 20, four as nat);
}

proof fn lemma_new_reads(
    length: u8,
    family: Seq<u8>,
    flow: Seq<u8>,
    port: u16,
    six: u128,
    rest: Seq<u8>,
)
    requires
        family.len() == 2,
        flow.len() == 4,
        length >= 16,
    ensures
        ({
            let new = small64(length) + small32(41) + small32(74) + family + wire::bytes16(
                port as nat,
            ) + flow + wire::bytes128(six as nat) + rest;
            &&& is_intact(new, 0)
            &&& destination_from(new, 0) == Some(SocketAddr { ip: IpAddr::V6(six), port })
        }),
{
    let octets = wire::bytes128(six as nat);
    let b = small64(length) + small32(41) + small32(74) + family + wire::bytes16(port as nat) + flow
        + octets + rest;
    assert(octets.len() == 16);
    assert(b[0] == length && b[1] == 0 && b[2] == 0 && b[3] == 0 && b[4] == 0 && b[5] == 0 && b[6]
        == 0 && b[7] == 0);
    assert(b[8] == 41 && b[9] == 0 && b[10] == 0 && b[11] == 0);
    assert(b[12] == 74 && b[13] == 0 && b[14] == 0 && b[15] == 0);
    assert(le64(b, 0) == length);
    assert(b.len() == 40 + rest.len());
    assert(b.subrange(18, 20) =~= wire::bytes16(port as nat));
    wire::lemma_be16(b, 18, port as nat);
    assert(b.subrange(24, 40) =~= octets);
    wire::lemma_be128(b, 24, six);
}

proof fn lemma_same_places(a: Seq<SessionView>, b: Seq<SessionView>, key: UdpMappingKey)
    requires
        a.len() == b.len(),
        forall|i: int| 0 <= i < a.len() ==> (#[trigger] a[i]).key == b[i].key,
    ensures
        place(a, key) == place(b, key),
        0 <= place(a, key) <= a.len(),
        place(a, key) < a.len() ==> a[place(a, key)].key == key,
    decreases a.len(),
{
    if a.len() > 0 {
        assert(a[0].key == b[0].key);
        let x = a.skip(1);
        let y = b.skip(1);
        assert forall|i: int| 0 <= i < x.len() implies (#[trigger] x[i]).key == y[i].key by {
            assert(x[i] == a[i + 1] && y[i] == b[i + 1]);
        }
        lemma_same_places(x, y, key);
        if a[0].key != key && place(x, key) < x.len() {
            assert(x[place(x, key)] == a[place(x, key) + 1]);
        }
    }
}

/// What was set to hand on the packets of a session hands them on from then on, and
/// those of every other session go on as they did; what was closed hands on nothing
/// more, and what was not goes on.
pub proof fn senders_serve_their_own_sessions(
    s: Seq<SessionView>,
    key: UdpMappingKey,
    other: UdpMappingKey,
    sender: u64,
    closed: Seq<u64>,
)
    requires
        place(s, key) < s.len(),
        other != key,
    ensures
        sender_of(with_sender(s, key, Some(sender)), key) == Some(sender),
        sender_of(with_sender(s, key, Some(sender)), other) == sender_of(s, other),
        sender_of(s, key) matches Some(x) ==> (closed.contains(x) ==> sender_of(
            without_handles(s, closed),
            key,
        ) is None) && (!closed.contains(x) ==> sender_of(without_handles(s, closed), key) == Some(
            x,
        )),
        sender_of(s, key) is None ==> sender_of(without_handles(s, closed), key) is None,
{
    let t = with_sender(s, key, Some(sender));
    lemma_same_places(s, s, key);
    lemma_same_places(s, s, other);
    lemma_same_places(t, s, key);
    lemma_same_places(t, s, other);
    let u = without_handles(s, closed);
    lemma_same_places(u, s, key);
}

} // verus!
