//! Telling the protocol of a connection from its first bytes.
use crate::dns::message;
use crate::text;
use crate::wire;
use vstd::prelude::*;

verus! {

/// What the first bytes of a connection tell.
#[derive(Debug, Clone, PartialEq, Eq)]
pub struct SniffResult {
    pub protocol: String,
    pub domain: Option<String>,
    pub client: Option<String>,
}

/// A result with its texts as plain sequences.
pub struct SniffView {
    pub protocol: Seq<char>,
    pub domain: Option<Seq<char>>,
    pub client: Option<Seq<char>>,
}

impl View for SniffResult {
    type V = SniffView;

    open spec fn view(&self) -> SniffView {
        SniffView {
            protocol: self.protocol@,
            domain: text::opt_text(self.domain),
            client: text::opt_text(self.client),
        }
    }
}

/// The view of an optional result.
pub open spec fn opt_sniff(r: Option<SniffResult>) -> Option<SniffView> {
    match r {
        Some(s) => Some(s@),
        None => None,
    }
}

/// A protocol of which nothing more is told.
pub open spec fn just(protocol: Seq<char>) -> SniffView {
    SniffView { protocol, domain: None, client: None }
}

// ---- DNS ----

/// The DNS message in the data: over TCP it stands behind its length.
pub open spec fn dns_payload(data: Seq<u8>, tcp: bool) -> Option<Seq<u8>> {
    if !tcp {
        Some(data)
    } else if data.len() < 2 || data.len() < 2 + wire::be16(data, 0) {
        None
    } else {
        Some(data.subrange(2, 2 + wire::be16(data, 0) as int))
    }
}

/// A query with at least one question.
pub open spec fn dns_query(data: Seq<u8>, tcp: bool) -> bool {
    match dns_payload(data, tcp) {
        None => false,
        Some(m) => m.len() >= 12 && m[2] < 0x80 && wire::be16(m, 4) > 0,
    }
}

/// Whether the data is a DNS query.
pub fn is_dns_message(data: &[u8], tcp: bool) -> (r: bool)
    ensures
        r == dns_query(data@, tcp),
{
    let m = if tcp {
        if data.len() < 2 {
            return false;
        }
        let length: usize = wire::read_u16(data, 0) as usize;
        if data.len() - 2 < length {
            return false;
        }
        &data[2..2 + length]
    } else {
        data
    };
    m.len() >= 12 && m[2] < 0x80 && wire::read_u16(m, 4) > 0
}

/// The name of the first question, in lower case.
pub open spec fn question_name(data: Seq<u8>, tcp: bool) -> Option<Seq<char>> {
    if tcp && data.len() < 2 {
        None
    } else {
        match message::question_labels(
            if tcp {
                data.skip(2)
            } else {
                data
            },
            12,
        ) {
            Ok((l, _)) => Some(text::lower(text::join(l, '.'))),
            Err(_) => None,
        }
    }
}

/// The name of the first question of a DNS query.
pub fn dns_question_name(data: &[u8], tcp: bool) -> (r: Option<String>)
    ensures
        text::opt_text(r) == question_name(data@, tcp),
{
    let m = if tcp {
        if data.len() < 2 {
            return None;
        }
        proof {
            assert(data@.subrange(2, data@.len() as int) =~= data@.skip(2));
        }
        &data[2..data.len()]
    } else {
        data
    };
    match message::read_labels(m, 12) {
        Ok((parts, _)) => {
            let name = text::join_texts(&parts, '.');
            Some(text::to_lower(name.as_str()))
        },
        Err(_) => None,
    }
}

// ---- TLS ----

/// The server name among the extensions from `p` to `end` of a client hello.
pub open spec fn sni_extension(h: Seq<u8>, p: int, end: int) -> Option<Seq<char>>
    decreases h.len() - p,
{
    if p < 0 || p + 4 > end || end > h.len() {
        None
    } else {
        let length = wire::be16(h, p + 2);
        if p + 4 + length > h.len() {
            None
        } else if wire::be16(h, p) == 0 && length >= 5 {
            let n = wire::be16(h, p + 7);
            let name = h.subrange(p + 9, p + 9 + n);
            if 5 + n > length || !vstd::utf8::valid_utf8(name) {
                None
            } else {
                Some(text::lower(vstd::utf8::decode_utf8(name)))
            }
        } else {
            sni_extension(h, p + 4 + length, end)
        }
    }
}

/// The server name in a client hello: behind the session, the cipher suites and
/// the compression methods come the extensions.
pub open spec fn hello_sni(h: Seq<u8>) -> Option<Seq<char>> {
    if h.len() < 42 || h[0] != 1 {
        None
    } else {
        let suites = 39 + h[38] as int;
        if suites + 2 > h.len() {
            None
        } else {
            let methods = suites + 2 + wire::be16(h, suites);
            if methods + 1 > h.len() {
                None
            } else {
                let list = methods + 1 + h[methods] as int;
                if list + 2 > h.len() {
                    None
                } else {
                    let end = list + 2 + wire::be16(h, list);
                    sni_extension(
                        h,
                        list + 2,
                        if end <= h.len() {
                            end
                        } else {
                            h.len() as int
                        },
                    )
                }
            }
        }
    }
}

/// The server name that a TLS record with a client hello asks for.
pub open spec fn server_name(data: Seq<u8>) -> Option<Seq<char>> {
    if data.len() < 5 || data.len() < 5 + wire::be16(data, 3) {
        None
    } else {
        hello_sni(data.subrange(5, 5 + wire::be16(data, 3) as int))
    }
}

fn find_sni(h: &[u8], from: usize, end: usize) -> (r: Option<String>)
    requires
        end <= h@.len(),
    ensures
        text::opt_text(r) == sni_extension(h@, from as int, end as int),
{
    let mut p: usize = from;
    while p <= end && end - p >= 4
        invariant
            end <= h@.len(),
            p <= h@.len() || p == from,
            sni_extension(h@, from as int, end as int) == sni_extension(
                h@,
                p as int,
                end as int,
            ),
        decreases h@.len() - p,
    {
        let kind = wire::read_u16(h, p);
        let length: usize = wire::read_u16(h, p + 2) as usize;
        if h.len() - p - 4 < length {
            return None;
        }
        if kind == 0 && length >= 5 {
            let n: usize = wire::read_u16(h, p + 7) as usize;
            if length - 5 < n {
                return None;
            }
            let name = text::copy_bytes(&h[p + 9..p + 9 + n]);
            return match text::utf8_text(name) {
                None => None,
                Some(s) => Some(text::to_lower(s.as_str())),
            };
        }
        p = p + 4 + length;
    }
    None
}

fn hello_server_name(h: &[u8]) -> (r: Option<String>)
    ensures
        text::opt_text(r) == hello_sni(h@),
{
    if h.len() < 42 || h[0] != 1 {
        return None;
    }
    let suites: usize = 39 + h[38] as usize;
    if suites > h.len() || h.len() - suites < 2 {
        return None;
    }
    let skip: usize = 2 + wire::read_u16(h, suites) as usize;
    if h.len() - suites <= skip {
        return None;
    }
    let methods: usize = suites + skip;
    let skip: usize = 1 + h[methods] as usize;
    if h.len() - methods < skip + 2 {
        return None;
    }
    let list: usize = methods + skip;
    let length: usize = wire::read_u16(h, list) as usize;
    let end: usize = if h.len() - list - 2 >= length {
        list + 2 + length
    } else {
        h.len()
    };
    find_sni(h, list + 2, end)
}

/// The server name that a TLS client hello asks for, in lower case.
pub fn tls_server_name(data: &[u8]) -> (r: Option<String>)
    ensures
        text::opt_text(r) == server_name(data@),
{
    if data.len() < 5 {
        return None;
    }
    let length: usize = wire::read_u16(data, 3) as usize;
    if data.len() - 5 < length {
        return None;
    }
    hello_server_name(&data[5..5 + length])
}

// ---- HTTP ----

pub open spec fn is_bracket(c: char) -> bool {
    c == '[' || c == ']'
}

/// A text without brackets at its start.
pub open spec fn skip_brackets(s: Seq<char>) -> Seq<char>
    decreases s.len(),
{
    if s.len() > 0 && is_bracket(s[0]) {
        skip_brackets(s.skip(1))
    } else {
        s
    }
}

/// A text without brackets at its end.
pub open spec fn drop_brackets(s: Seq<char>) -> Seq<char>
    decreases s.len(),
{
    if s.len() > 0 && is_bracket(s.last()) {
        drop_brackets(s.drop_last())
    } else {
        s
    }
}

/// The host of a `Host` header: without white space and brackets around it, and
/// up to the first colon.
pub open spec fn host_of(value: Seq<char>) -> Seq<char> {
    let s = drop_brackets(skip_brackets(text::trim_space(value)));
    s.take(text::span(s, ':') as int)
}

fn read_host(value: &str) -> (r: String)
    ensures
        r@ == host_of(value@),
{
    let trimmed = text::trim_text(value);
    let v = text::to_chars(trimmed.as_str());
    let mut a: usize = 0;
    proof {
        assert(v@.skip(0) =~= v@);
    }
    while a < v.len() && (v[a] == '[' || v[a] == ']')
        invariant
            a <= v@.len(),
            skip_brackets(v@.skip(a as int)) == skip_brackets(v@),
        decreases v@.len() - a,
    {
        proof {
            assert(v@.skip(a as int).skip(1) =~= v@.skip(a + 1));
        }
        a = a + 1;
    }
    let mut b: usize = v.len();
    proof {
        assert(skip_brackets(v@) == v@.skip(a as int));
        assert(v@.subrange(a as int, b as int) =~= v@.skip(a as int));
    }
    while b > a && (v[b - 1] == '[' || v[b - 1] == ']')
        invariant
            a <= b <= v@.len(),
            drop_brackets(v@.subrange(a as int, b as int)) == drop_brackets(v@.skip(a as int)),
        decreases b,
    {
        proof {
            assert(v@.subrange(a as int, b as int).drop_last() =~= v@.subrange(a as int, b - 1));
        }
        b = b - 1;
    }
    let s = &v[a..b];
    let n = text::span_of(s, ':');
    proof {
        assert(s@.subrange(0, n as int) =~= s@.take(n as int));
    }
    text::to_text(&s[0..n])
}

/// The data starts with one of the methods of HTTP.
pub open spec fn http_start(data: Seq<u8>) -> bool {
    ||| text::starts_with(data, seq![0x47u8, 0x45, 0x54, 0x20])
    ||| text::starts_with(data, seq![0x50u8, 0x4f, 0x53, 0x54])
    ||| text::starts_with(data, seq![0x48u8, 0x45, 0x41, 0x44])
    ||| text::starts_with(data, seq![0x50u8, 0x55, 0x54, 0x20])
    ||| text::starts_with(data, seq![0x4fu8, 0x50, 0x54, 0x49])
    ||| text::starts_with(data, seq![0x43u8, 0x4f, 0x4e, 0x4e])
    ||| text::starts_with(data, seq![0x44u8, 0x45, 0x4c, 0x45])
    ||| text::starts_with(data, seq![0x50u8, 0x41, 0x54, 0x43])
}

/// What an HTTP request tells: its host and its user agent.
pub open spec fn http_view(data: Seq<u8>) -> SniffView {
    let ls = text::lines(text::lossy(data));
    SniffView {
        protocol: "http"@,
        domain: match text::header_value(ls, "host"@) {
            Some(v) => Some(host_of(v)),
            None => None,
        },
        client: match text::header_value(ls, "user-agent"@) {
            Some(v) => Some(text::trim_space(v)),
            None => None,
        },
    }
}

/// What an SSH greeting tells: its first line.
pub open spec fn ssh_view(data: Seq<u8>) -> SniffView {
    let ls = text::lines(text::lossy(data));
    SniffView {
        protocol: "ssh"@,
        domain: None,
        client: if ls.len() > 0 {
            Some(ls[0])
        } else {
            None
        },
    }
}

fn bytes_start(data: &[u8], prefix: &[u8]) -> (r: bool)
    ensures
        r == text::starts_with(data@, prefix@),
{
    if prefix.len() > data.len() {
        return false;
    }
    proof {
        assert(data@.subrange(0, prefix@.len() as int) =~= data@.take(prefix@.len() as int));
    }
    text::same_bytes(&data[0..prefix.len()], prefix)
}

fn starts4(data: &[u8], a: u8, b: u8, c: u8, d: u8) -> (r: bool)
    ensures
        r == text::starts_with(data@, seq![a, b, c, d]),
{
    let prefix: [u8; 4] = [a, b, c, d];
    proof {
        assert(prefix@ =~= seq![a, b, c, d]);
    }
    bytes_start(data, &prefix)
}

fn is_http_start(data: &[u8]) -> (r: bool)
    ensures
        r == http_start(data@),
{
    starts4(data, 0x47, 0x45, 0x54, 0x20) || starts4(data, 0x50, 0x4f, 0x53, 0x54) || starts4(
        data,
        0x48,
        0x45,
        0x41,
        0x44,
    ) || starts4(data, 0x50, 0x55, 0x54, 0x20) || starts4(data, 0x4f, 0x50, 0x54, 0x49) || starts4(
        data,
        0x43,
        0x4f,
        0x4e,
        0x4e,
    ) || starts4(data, 0x44, 0x45, 0x4c, 0x45) || starts4(data, 0x50, 0x41, 0x54, 0x43)
}

fn sniff_http(data: &[u8]) -> (r: SniffResult)
    ensures
        r@ == http_view(data@),
{
    let content = text::lossy_text(data);
    let ls = text::split_lines(content.as_str());
    let domain = match text::find_header(&ls, "host") {
        Some(v) => Some(read_host(v.as_str())),
        None => None,
    };
    let client = match text::find_header(&ls, "user-agent") {
        Some(v) => Some(text::trim_text(v.as_str())),
        None => None,
    };
    SniffResult { protocol: text::copy_text("http"), domain, client }
}

fn sniff_ssh(data: &[u8]) -> (r: SniffResult)
    ensures
        r@ == ssh_view(data@),
{
    let content = text::lossy_text(data);
    let ls = text::split_lines(content.as_str());
    proof {
        assert(text::texts(ls@).len() == ls@.len());
    }
    let client = if ls.len() > 0 {
        proof {
            assert(text::texts(ls@)[0] == ls@[0]@);
        }
        Some(text::copy_text(ls[0].as_str()))
    } else {
        None
    };
    SniffResult { protocol: text::copy_text("ssh"), domain: None, client }
}

// ---- all protocols ----

/// No sniffer is named, or the given one is.
pub open spec fn enabled(sniffers: Seq<Seq<char>>, name: Seq<char>) -> bool {
    sniffers.len() == 0 || sniffers.contains(name)
}

/// The bytes that the protocol of BitTorrent starts with.
pub open spec fn bittorrent_start() -> Seq<u8> {
    seq![
        0x13u8,
        0x42,
        0x69,
        0x74,
        0x54,
        0x6f,
        0x72,
        0x72,
        0x65,
        0x6e,
        0x74,
        0x20,
        0x70,
        0x72,
        0x6f,
        0x74,
        0x6f,
        0x63,
        0x6f,
        0x6c,
    ]
}

/// What the first bytes of a TCP connection tell.
pub open spec fn sniffed_tcp(data: Seq<u8>, on: Seq<Seq<char>>) -> Option<SniffView> {
    if enabled(on, "tls"@) && text::starts_with(data, seq![0x16u8, 0x03]) {
        Some(SniffView { protocol: "tls"@, domain: server_name(data), client: None })
    } else if enabled(on, "http"@) && http_start(data) {
        Some(http_view(data))
    } else if enabled(on, "ssh"@) && text::starts_with(data, seq![0x53u8, 0x53, 0x48, 0x2d]) {
        Some(ssh_view(data))
    } else if enabled(on, "rdp"@) && data.len() >= 7 && data[0] == 3 && data[1] == 0 && data[5]
        == 0xe0 {
        Some(just("rdp"@))
    } else if enabled(on, "dns"@) && dns_query(data, true) {
        Some(SniffView { protocol: "dns"@, domain: question_name(data, true), client: None })
    } else if enabled(on, "bittorrent"@) && text::starts_with(data, bittorrent_start()) {
        Some(just("bittorrent"@))
    } else {
        None
    }
}

/// What a UDP datagram tells.
pub open spec fn sniffed_udp(data: Seq<u8>, on: Seq<Seq<char>>) -> Option<SniffView> {
    if enabled(on, "dns"@) && dns_query(data, false) {
        Some(SniffView { protocol: "dns"@, domain: question_name(data, false), client: None })
    } else if enabled(on, "stun"@) && data.len() >= 8 && wire::be32(data, 4) == 0x2112_a442 {
        Some(just("stun"@))
    } else if enabled(on, "quic"@) && data.len() >= 1 && data[0] >= 0x80 {
        Some(just("quic"@))
    } else if enabled(on, "dtls"@) && data.len() >= 13 && 20 <= data[0] <= 64 && data[1] == 0xfe && (
    data[2] == 0xfd || data[2] == 0xff) {
        Some(just("dtls"@))
    } else if enabled(on, "ntp"@) && data.len() >= 48 && 1 <= data[0] % 8 <= 5 && data[0] / 64 != 3 {
        Some(just("ntp"@))
    } else if enabled(on, "utp"@) && data.len() >= 20 && data[0] % 16 == 1 && data[0] / 16 <= 4 {
        Some(just("utp"@))
    } else if enabled(on, "udp_tracker"@) && data.len() >= 16 && wire::be64(data, 0)
        == 0x417_2710_1980 {
        Some(just("udp_tracker"@))
    } else {
        None
    }
}

/// What the first bytes tell.
pub open spec fn sniffed(data: Seq<u8>, udp: bool, on: Seq<Seq<char>>) -> Option<SniffView> {
    if udp {
        sniffed_udp(data, on)
    } else {
        sniffed_tcp(data, on)
    }
}

fn is_enabled(sniffers: &Vec<String>, name: &str) -> (r: bool)
    ensures
        r == enabled(text::texts(sniffers@), name@),
{
    let ghost on = text::texts(sniffers@);
    if sniffers.len() == 0 {
        return true;
    }
    let mut i: usize = 0;
    while i < sniffers.len()
        invariant
            i <= sniffers@.len(),
            on == text::texts(sniffers@),
            forall|j: int| 0 <= j < i ==> on[j] != name@,
        decreases sniffers@.len() - i,
    {
        if text::same_text(sniffers[i].as_str(), name) {
            proof {
                assert(on[i as int] == name@);
            }
            return true;
        }
        i = i + 1;
    }
    false
}

fn only(protocol: &str) -> (r: Option<SniffResult>)
    ensures
        opt_sniff(r) == Some(just(protocol@)),
{
    Some(SniffResult { protocol: text::copy_text(protocol), domain: None, client: None })
}

fn sniff_stream(data: &[u8], sniffers: &Vec<String>) -> (r: Option<SniffResult>)
    ensures
        opt_sniff(r) == sniffed_tcp(data@, text::texts(sniffers@)),
{
    let hello: [u8; 2] = [0x16, 0x03];
    proof {
        assert(hello@ =~= seq![0x16u8, 0x03]);
    }
    if is_enabled(sniffers, "tls") && bytes_start(data, &hello) {
        return Some(
            SniffResult {
                protocol: text::copy_text("tls"),
                domain: tls_server_name(data),
                client: None,
            },
        );
    }
    if is_enabled(sniffers, "http") && is_http_start(data) {
        return Some(sniff_http(data));
    }
    if is_enabled(sniffers, "ssh") && starts4(data, 0x53, 0x53, 0x48, 0x2d) {
        return Some(sniff_ssh(data));
    }
    if is_enabled(sniffers, "rdp") && data.len() >= 7 && data[0] == 3 && data[1] == 0 && data[5]
        == 0xe0 {
        return only("rdp");
    }
    if is_enabled(sniffers, "dns") && is_dns_message(data, true) {
        return Some(
            SniffResult {
                protocol: text::copy_text("dns"),
                domain: dns_question_name(data, true),
                client: None,
            },
        );
    }
    let start: [u8; 20] = [
        0x13,
        0x42,
        0x69,
        0x74,
        0x54,
        0x6f,
        0x72,
        0x72,
        0x65,
        0x6e,
        0x74,
        0x20,
        0x70,
        0x72,
        0x6f,
        0x74,
        0x6f,
        0x63,
        0x6f,
        0x6c,
    ];
    proof {
        assert(start@ =~= bittorrent_start());
    }
    if is_enabled(sniffers, "bittorrent") && bytes_start(data, &start) {
        return only("bittorrent");
    }
    None
}

fn sniff_datagram(data: &[u8], sniffers: &Vec<String>) -> (r: Option<SniffResult>)
    ensures
        opt_sniff(r) == sniffed_udp(data@, text::texts(sniffers@)),
{
    if is_enabled(sniffers, "dns") && is_dns_message(data, false) {
        return Some(
            SniffResult {
                protocol: text::copy_text("dns"),
                domain: dns_question_name(data, false),
                client: None,
            },
        );
    }
    if is_enabled(sniffers, "stun") && data.len() >= 8 && wire::read_u32(data, 4) == 0x2112_a442 {
        return only("stun");
    }
    if is_enabled(sniffers, "quic") && data.len() >= 1 && data[0] >= 0x80 {
        return only("quic");
    }
    if is_enabled(sniffers, "dtls") && data.len() >= 13 && 20 <= data[0] && data[0] <= 64 && data[1]
        == 0xfe && (data[2] == 0xfd || data[2] == 0xff) {
        return only("dtls");
    }
    if is_enabled(sniffers, "ntp") && data.len() >= 48 && 1 <= data[0] % 8 && data[0] % 8 <= 5
        && data[0] / 64 != 3 {
        return only("ntp");
    }
    if is_enabled(sniffers, "utp") && data.len() >= 20 && data[0] % 16 == 1 && data[0] / 16 <= 4 {
        return only("utp");
    }
    if is_enabled(sniffers, "udp_tracker") && data.len() >= 16 && wire::read_u64(data, 0)
        == 0x417_2710_1980 {
        return only("udp_tracker");
    }
    None
}

/// Tells the protocol from the first bytes of a connection or from a datagram,
/// by the named sniffers or by all.
pub fn sniff_payload(data: &[u8], udp: bool, sniffers: &Vec<String>) -> (r: Option<SniffResult>)
    ensures
        opt_sniff(r) == sniffed(data@, udp, text::texts(sniffers@)),
{
    if udp {
        sniff_datagram(data, sniffers)
    } else {
        sniff_stream(data, sniffers)
    }
}

/// A named sniffer never tells another protocol than one of those named.
pub proof fn sniffers_limit_protocols(data: Seq<u8>, udp: bool, on: Seq<Seq<char>>)
    requires
        on.len() > 0,
        sniffed(data, udp, on) is Some,
    ensures
        on.contains(sniffed(data, udp, on)->0.protocol),
{
}

/// What is told with all sniffers is told too when only that one is named.
pub proof fn sniffing_with_the_one_named(data: Seq<u8>, udp: bool)
    requires
        sniffed(data, udp, Seq::empty()) is Some,
    ensures
        sniffed(data, udp, seq![sniffed(data, udp, Seq::empty())->0.protocol]) == sniffed(
            data,
            udp,
            Seq::empty(),
        ),
{
    let view = sniffed(data, udp, Seq::empty())->0;
    let on = seq![view.protocol];
    assert(on[0] == view.protocol);
    assert(on.contains(view.protocol));
    reveal_strlit("tls");
    reveal_strlit("http");
    reveal_strlit("ssh");
    reveal_strlit("rdp");
    reveal_strlit("dns");
    reveal_strlit("bittorrent");
    reveal_strlit("stun");
    reveal_strlit("quic");
    reveal_strlit("dtls");
    reveal_strlit("ntp");
    reveal_strlit("utp");
    reveal_strlit("udp_tracker");
    assert forall|name: Seq<char>| on.contains(name) implies name == view.protocol by {
        let i = choose|i: int| 0 <= i < on.len() && on[i] == name;
    }
    lemma_other_names();
}

proof fn lemma_other_names()
    ensures
        "tls"@ != "http"@,
        "tls"@ != "ssh"@,
        "tls"@ != "rdp"@,
        "tls"@ != "dns"@,
        "tls"@ != "bittorrent"@,
        "http"@ != "ssh"@,
        "http"@ != "rdp"@,
        "http"@ != "dns"@,
        "http"@ != "bittorrent"@,
        "ssh"@ != "rdp"@,
        "ssh"@ != "dns"@,
        "ssh"@ != "bittorrent"@,
        "rdp"@ != "dns"@,
        "rdp"@ != "bittorrent"@,
        "dns"@ != "bittorrent"@,
        "dns"@ != "stun"@,
        "dns"@ != "quic"@,
        "dns"@ != "dtls"@,
        "dns"@ != "ntp"@,
        "dns"@ != "utp"@,
        "dns"@ != "udp_tracker"@,
        "stun"@ != "quic"@,
        "stun"@ != "dtls"@,
        "stun"@ != "ntp"@,
        "stun"@ != "utp"@,
        "stun"@ != "udp_tracker"@,
        "quic"@ != "dtls"@,
        "quic"@ != "ntp"@,
        "quic"@ != "utp"@,
        "quic"@ != "udp_tracker"@,
        "dtls"@ != "ntp"@,
        "dtls"@ != "utp"@,
        "dtls"@ != "udp_tracker"@,
        "ntp"@ != "utp"@,
        "ntp"@ != "udp_tracker"@,
        "utp"@ != "udp_tracker"@,
{
    reveal_strlit("tls");
    reveal_strlit("http");
    reveal_strlit("ssh");
    reveal_strlit("rdp");
    reveal_strlit("dns");
    reveal_strlit("bittorrent");
    reveal_strlit("stun");
    reveal_strlit("quic");
    reveal_strlit("dtls");
    reveal_strlit("ntp");
    reveal_strlit("utp");
    reveal_strlit("udp_tracker");
    assert("tls"@[0] == 't' && "http"@[0] == 'h' && "ssh"@[0] == 's' && "rdp"@[0] == 'r' && "dns"@[0]
        == 'd' && "bittorrent"@[0] == 'b');
    assert("stun"@[0] == 's' && "quic"@[0] == 'q' && "dtls"@[0] == 'd' && "ntp"@[0] == 'n'
        && "utp"@[0] == 'u' && "udp_tracker"@[0] == 'u');
    assert("dns"@[1] == 'n' && "dtls"@[1] == 't' && "utp"@[1] == 't' && "udp_tracker"@[1] == 'd');
}

/// Each protocol is told by its own marks: looked for alone it is told exactly where
/// the first bytes bear them.
pub proof fn protocols_are_told_by_their_marks(data: Seq<u8>)
    ensures
        sniffed(data, false, seq!["tls"@]) is Some <==> data.len() >= 2 && data[0] == 0x16
            && data[1] == 3,
        sniffed(data, false, seq!["ssh"@]) is Some <==> data.len() >= 4 && data[0] == 'S' as u8
            && data[1] == 'S' as u8 && data[2] == 'H' as u8 && data[3] == '-' as u8,
        sniffed(data, false, seq!["rdp"@]) is Some <==> data.len() >= 7 && data[0] == 3 && data[1]
            == 0 && data[5] == 0xe0,
        sniffed(data, true, seq!["stun"@]) is Some <==> data.len() >= 8 && data[4] == 0x21
            && data[5] == 0x12 && data[6] == 0xa4 && data[7] == 0x42,
        sniffed(data, true, seq!["quic"@]) is Some <==> data.len() >= 1 && data[0] >= 0x80,
        sniffed(data, true, seq!["dtls"@]) is Some <==> data.len() >= 13 && 20 <= data[0] <= 64
            && data[1] == 0xfe && (data[2] == 0xfd || data[2] == 0xff),
        sniffed(data, true, seq!["ntp"@]) is Some <==> data.len() >= 48 && 1 <= data[0] % 8 <= 5
            && data[0] / 64 != 3,
        sniffed(data, true, seq!["utp"@]) is Some <==> data.len() >= 20 && data[0] % 16 == 1
            && data[0] < 80,
        sniffed(data, true, seq!["dns"@]) is Some <==> data.len() >= 12 && data[2] < 0x80 && (
        data[4] > 0 || data[5] > 0),
{
    lemma_other_names();
    lemma_only("tls"@);
    lemma_only("ssh"@);
    lemma_only("rdp"@);
    lemma_only("stun"@);
    lemma_only("quic"@);
    lemma_only("dtls"@);
    lemma_only("ntp"@);
    lemma_only("utp"@);
    lemma_only("dns"@);
    if data.len() >= 2 {
        assert(data.take(2) =~= seq![data[0], data[1]]);
        assert(seq![0x16u8, 0x03][0] == 0x16 && seq![0x16u8, 0x03][1] == 3);
        assert(seq![data[0], data[1]] == seq![0x16u8, 0x03] ==> data.take(2)[0] == 0x16
            && data.take(2)[1] == 3);
    }
    if data.len() >= 4 {
        let mark = seq![0x53u8, 0x53, 0x48, 0x2d];
        assert(data.take(4) =~= seq![data[0], data[1], data[2], data[3]]);
        if data.take(4) == mark {
            assert(data.take(4)[0] == mark[0] && data.take(4)[1] == mark[1] && data.take(4)[2]
                == mark[2] && data.take(4)[3] == mark[3]);
        }
    }
}

proof fn lemma_only(name: Seq<char>)
    ensures
        forall|other: Seq<char>| #[trigger] seq![name].contains(other) <==> other == name,
{
    assert(seq![name][0] == name);
}

} // verus!
