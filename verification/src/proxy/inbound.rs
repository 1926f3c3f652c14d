//! The inbound for clients of SOCKS and of HTTP proxies.
use crate::encoding;
use crate::net::{self, Destination, DestinationView, IpAddr};
use crate::singbox::{Inbound, User};
use crate::text;
use crate::wire;
use vstd::prelude::*;

verus! {

// ---- settings ----

/// What clients speak.
#[derive(Clone, Copy, Debug, PartialEq, Eq, Structural)]
pub enum InboundKind {
    Socks,
    Http,
    /// The first byte of a connection tells.
    Mixed,
}

/// The kind that a word stands for.
pub open spec fn kind_named(word: Seq<char>) -> Option<InboundKind> {
    if word == "socks"@ {
        Some(InboundKind::Socks)
    } else if word == "http"@ {
        Some(InboundKind::Http)
    } else if word == "mixed"@ {
        Some(InboundKind::Mixed)
    } else {
        None
    }
}

/// The kind that a word stands for.
pub fn inbound_kind(word: &str) -> (r: Option<InboundKind>)
    ensures
        r == kind_named(word@),
{
    if text::same_text(word, "socks") {
        Some(InboundKind::Socks)
    } else if text::same_text(word, "http") {
        Some(InboundKind::Http)
    } else if text::same_text(word, "mixed") {
        Some(InboundKind::Mixed)
    } else {
        None
    }
}

/// The settings of the inbound.
#[derive(Debug)]
pub struct ProxySettings {
    pub kind: InboundKind,
    pub listen: String,
    pub tag: String,
}

/// Why the inbound cannot be set up.
#[derive(Clone, Copy, Debug, PartialEq, Eq, Structural)]
pub enum ProxyInboundError {
    UnsupportedKind,
    NoPort,
}

/// Reads the settings of the inbound.
pub fn proxy_settings(inbound: &Inbound) -> (r: Result<ProxySettings, ProxyInboundError>)
    ensures
        match r {
            Ok(s) => {
                &&& kind_named(inbound.kind@) == Some(s.kind)
                &&& inbound.listen_port is Some
                &&& s.listen@ == net::socket_text(
                    text::text_or(text::opt_text(inbound.listen), "127.0.0.1"@),
                    inbound.listen_port->0,
                )
                &&& s.tag@ == text::text_or(text::opt_text(inbound.tag), "socks-in"@)
            },
            Err(ProxyInboundError::UnsupportedKind) => kind_named(inbound.kind@) is None,
            Err(ProxyInboundError::NoPort) => kind_named(inbound.kind@) is Some
                && inbound.listen_port is None,
        },
{
    let kind = match inbound_kind(inbound.kind.as_str()) {
        Some(kind) => kind,
        None => {
            return Err(ProxyInboundError::UnsupportedKind);
        },
    };
    let port: u16 = match inbound.listen_port {
        Some(port) => port,
        None => {
            return Err(ProxyInboundError::NoPort);
        },
    };
    let host = text::or_text(&inbound.listen, "127.0.0.1");
    let listen = net::socket(host.as_str(), port);
    let tag = text::or_text(&inbound.tag, "socks-in");
    Ok(ProxySettings { kind, listen, tag })
}

/// What a connection speaks, by its first byte where the inbound takes both; never
/// `Mixed`.
pub fn connection_kind(kind: InboundKind, first: u8) -> (r: InboundKind)
    ensures
        r == (if kind == InboundKind::Mixed {
            if first == 5 {
                InboundKind::Socks
            } else {
                InboundKind::Http
            }
        } else {
            kind
        }),
{
    match kind {
        InboundKind::Mixed => if first == 5 {
            InboundKind::Socks
        } else {
            InboundKind::Http
        },
        other => other,
    }
}

// ---- users ----

/// One of the users has this name and this password.
pub open spec fn is_user(users: Seq<User>, name: Seq<char>, password: Seq<char>) -> bool {
    exists|i: int|
        0 <= i < users.len() && text::opt_text((#[trigger] users[i]).name) == Some(name)
            && text::opt_text(users[i].password) == Some(password)
}

/// Whether one of the users has this name and this password.
pub fn authenticate(users: &Vec<User>, name: &str, password: &str) -> (r: bool)
    ensures
        r == is_user(users@, name@, password@),
{
    let mut i: usize = 0;
    while i < users.len()
        invariant
            i <= users@.len(),
            forall|j: int|
                0 <= j < i ==> !(text::opt_text((#[trigger] users@[j]).name) == Some(name@)
                    && text::opt_text(users@[j].password) == Some(password@)),
        decreases users@.len() - i,
    {
        if text::opt_is(&users[i].name, name) && text::opt_is(&users[i].password, password) {
            return true;
        }
        i = i + 1;
    }
    false
}

// ---- what a handshake leads to ----

/// What a client asks for.
#[derive(Debug)]
pub enum Handshake {
    /// A connection: where to, what is answered once it is there, and what is sent
    /// over it first.
    Tcp {
        destination: Destination,
        reply: Option<Vec<u8>>,
        initial: Vec<u8>,
        auth_user: Option<String>,
    },
    /// An association for datagrams.
    Udp { auth_user: Option<String> },
}

/// What a client asks for, with plain values.
#[verifier::ext_equal]
pub enum HandshakeView {
    Tcp {
        destination: DestinationView,
        reply: Option<Seq<u8>>,
        initial: Seq<u8>,
        auth_user: Option<Seq<char>>,
    },
    Udp { auth_user: Option<Seq<char>> },
}

impl View for Handshake {
    type V = HandshakeView;

    open spec fn view(&self) -> HandshakeView {
        match *self {
            Handshake::Tcp { destination, reply, initial, auth_user } => HandshakeView::Tcp {
                destination: destination@,
                reply: encoding::opt_bytes(reply),
                initial: initial@,
                auth_user: text::opt_text(auth_user),
            },
            Handshake::Udp { auth_user } => HandshakeView::Udp {
                auth_user: text::opt_text(auth_user),
            },
        }
    }
}

// ---- SOCKS ----

/// Why a client of SOCKS is turned away.
#[derive(Clone, Copy, Debug, PartialEq, Eq, Structural)]
pub enum SocksFailure {
    Version,
    NoMethod,
    AuthVersion,
    NameNotText,
    PasswordNotText,
    Credentials,
    RequestVersion,
    Command,
    HostNotText,
    Address,
}

/// How far one part of the handshake has come.
#[derive(Clone, Copy, Debug, PartialEq, Eq, Structural)]
pub enum Stage {
    /// This many bytes more are to be read.
    Need(usize),
    Failed(SocksFailure),
    /// The part is over; it ends at this place.
    Passed(usize),
}

/// The method of a handshake: with a name and a password, or with none.
pub open spec fn socks_method(secured: bool) -> u8 {
    if secured {
        2
    } else {
        0
    }
}

/// The greeting: the version, the number of methods and the methods.
pub open spec fn greeting(secured: bool, b: Seq<u8>) -> Stage {
    if b.len() < 1 {
        Stage::Need(1)
    } else if b[0] != 5 {
        Stage::Failed(SocksFailure::Version)
    } else if b.len() < 2 {
        Stage::Need(1)
    } else if b.len() < 2 + b[1] {
        Stage::Need((2 + b[1] - b.len()) as usize)
    } else if !b.subrange(2, 2 + b[1]).contains(socks_method(secured)) {
        Stage::Failed(SocksFailure::NoMethod)
    } else {
        Stage::Passed((2 + b[1]) as usize)
    }
}

/// What the greeting is answered.
pub open spec fn greeting_reply(secured: bool, stage: Stage) -> Seq<u8> {
    match stage {
        Stage::Passed(_) => seq![5u8, socks_method(secured)],
        Stage::Failed(SocksFailure::NoMethod) => seq![5u8, 0xff],
        _ => Seq::empty(),
    }
}

/// The name in the credentials at a place.
pub open spec fn given_name(b: Seq<u8>, p: int) -> Seq<u8> {
    b.subrange(p + 2, p + 2 + b[p + 1])
}

/// The password in the credentials at a place.
pub open spec fn given_password(b: Seq<u8>, p: int) -> Seq<u8> {
    let q = p + 2 + b[p + 1];
    b.subrange(q + 1, q + 1 + b[q])
}

/// The credentials: a version, a name and a password, each with its length.
pub open spec fn credentials(users: Seq<User>, b: Seq<u8>, p: int) -> Stage {
    let q = p + 2 + b[p + 1];
    if b.len() < p + 1 {
        Stage::Need(1)
    } else if b[p] != 1 {
        Stage::Failed(SocksFailure::AuthVersion)
    } else if b.len() < p + 2 {
        Stage::Need(1)
    } else if b.len() < q {
        Stage::Need((q - b.len()) as usize)
    } else if b.len() < q + 1 {
        Stage::Need(1)
    } else if b.len() < q + 1 + b[q] {
        Stage::Need((q + 1 + b[q] - b.len()) as usize)
    } else if !vstd::utf8::valid_utf8(given_name(b, p)) {
        Stage::Failed(SocksFailure::NameNotText)
    } else if !vstd::utf8::valid_utf8(given_password(b, p)) {
        Stage::Failed(SocksFailure::PasswordNotText)
    } else if is_user(
        users,
        vstd::utf8::decode_utf8(given_name(b, p)),
        vstd::utf8::decode_utf8(given_password(b, p)),
    ) {
        Stage::Passed((q + 1 + b[q]) as usize)
    } else {
        Stage::Failed(SocksFailure::Credentials)
    }
}

/// What the credentials are answered.
pub open spec fn credentials_reply(stage: Stage) -> Seq<u8> {
    match stage {
        Stage::Passed(_) => seq![1u8, 0],
        Stage::Failed(SocksFailure::Credentials) => seq![1u8, 1],
        _ => Seq::empty(),
    }
}

/// The request: a version, a command, a byte that is not looked at, the kind of an
/// address, the address and a port.
pub open spec fn socks_request(b: Seq<u8>, p: int) -> Stage {
    let q = p + 5 + b[p + 4];
    if b.len() < p + 1 {
        Stage::Need(1)
    } else if b[p] != 5 {
        Stage::Failed(SocksFailure::RequestVersion)
    } else if b.len() < p + 2 {
        Stage::Need(1)
    } else if b[p + 1] != 1 && b[p + 1] != 3 {
        Stage::Failed(SocksFailure::Command)
    } else if b.len() < p + 4 {
        Stage::Need((p + 4 - b.len()) as usize)
    } else if b[p + 3] == 1 {
        ends_at(b, p + 10)
    } else if b[p + 3] == 4 {
        ends_at(b, p + 22)
    } else if b[p + 3] == 3 {
        if b.len() < p + 5 {
            Stage::Need(1)
        } else if b.len() < q {
            Stage::Need((q - b.len()) as usize)
        } else if !vstd::utf8::valid_utf8(b.subrange(p + 5, q)) {
            Stage::Failed(SocksFailure::HostNotText)
        } else {
            ends_at(b, q + 2)
        }
    } else {
        Stage::Failed(SocksFailure::Address)
    }
}

/// What is there is read up to a place.
pub open spec fn ends_at(b: Seq<u8>, end: int) -> Stage {
    if b.len() < end {
        Stage::Need((end - b.len()) as usize)
    } else {
        Stage::Passed(end as usize)
    }
}

/// Where a whole request asks to go. A name is not read as an address.
pub open spec fn requested(b: Seq<u8>, p: int) -> DestinationView {
    let q = p + 5 + b[p + 4];
    if b[p + 3] == 1 {
        DestinationView::Ip(
            IpAddr::V4(wire::be32(b, p + 4) as u32),
            wire::be16(b, p + 8) as u16,
        )
    } else if b[p + 3] == 4 {
        DestinationView::Ip(
            IpAddr::V6(wire::be128(b, p + 4) as u128),
            wire::be16(b, p + 20) as u16,
        )
    } else {
        DestinationView::Domain(
            vstd::utf8::decode_utf8(b.subrange(p + 5, q)),
            wire::be16(b, q) as u16,
        )
    }
}

/// How far a handshake has come with the bytes read so far.
#[derive(Debug)]
pub enum SocksProgress {
    /// This many bytes more are to be read.
    Need(usize),
    Failed(SocksFailure),
    Done(Handshake),
}

/// How far a handshake has come, with plain values.
#[verifier::ext_equal]
pub enum SocksProgressView {
    Need(usize),
    Failed(SocksFailure),
    Done(HandshakeView),
}

impl View for SocksProgress {
    type V = SocksProgressView;

    open spec fn view(&self) -> SocksProgressView {
        match *self {
            SocksProgress::Need(n) => SocksProgressView::Need(n),
            SocksProgress::Failed(e) => SocksProgressView::Failed(e),
            SocksProgress::Done(h) => SocksProgressView::Done(h@),
        }
    }
}

/// The answer to a client whose connection is there.
pub open spec fn connected_reply() -> Seq<u8> {
    seq![5u8, 0, 0, 1, 0, 0, 0, 0, 0, 0]
}

/// What a whole handshake leads to: its request stands at `p`.
pub open spec fn socks_outcome(b: Seq<u8>, p: int, auth_user: Option<Seq<char>>) -> HandshakeView {
    if b[p + 1] == 1 {
        HandshakeView::Tcp {
            destination: requested(b, p),
            reply: Some(connected_reply()),
            initial: Seq::empty(),
            auth_user,
        }
    } else {
        HandshakeView::Udp { auth_user }
    }
}

/// How far the request at a place has come.
pub open spec fn request_progress(b: Seq<u8>, p: int, auth_user: Option<Seq<char>>) -> SocksProgressView {
    match socks_request(b, p) {
        Stage::Need(n) => SocksProgressView::Need(n),
        Stage::Failed(e) => SocksProgressView::Failed(e),
        Stage::Passed(_) => SocksProgressView::Done(socks_outcome(b, p, auth_user)),
    }
}

/// How far a handshake has come with bytes, and what has been answered so far.
pub open spec fn socks_progress(users: Seq<User>, b: Seq<u8>) -> (Seq<u8>, SocksProgressView) {
    let secured = users.len() > 0;
    let first = greeting(secured, b);
    match first {
        Stage::Need(n) => (greeting_reply(secured, first), SocksProgressView::Need(n)),
        Stage::Failed(e) => (greeting_reply(secured, first), SocksProgressView::Failed(e)),
        Stage::Passed(p) => if !secured {
            (greeting_reply(secured, first), request_progress(b, p as int, None))
        } else {
            let second = credentials(users, b, p as int);
            let replies = greeting_reply(secured, first) + credentials_reply(second);
            match second {
                Stage::Need(n) => (replies, SocksProgressView::Need(n)),
                Stage::Failed(e) => (replies, SocksProgressView::Failed(e)),
                Stage::Passed(q) => (
                    replies,
                    request_progress(
                        b,
                        q as int,
                        Some(vstd::utf8::decode_utf8(given_name(b, p as int))),
                    ),
                ),
            }
        },
    }
}

fn read_greeting(secured: bool, b: &[u8]) -> (r: Stage)
    ensures
        r == greeting(secured, b@),
        r matches Stage::Passed(p) ==> p <= b@.len(),
{
    let total: usize = b.len();
    if total < 1 {
        return Stage::Need(1);
    }
    if b[0] != 5 {
        return Stage::Failed(SocksFailure::Version);
    }
    if total < 2 {
        return Stage::Need(1);
    }
    let end: usize = 2 + b[1] as usize;
    if total < end {
        return Stage::Need(end - total);
    }
    let method: u8 = if secured {
        2
    } else {
        0
    };
    let ghost methods = b@.subrange(2, end as int);
    let mut i: usize = 2;
    while i < end
        invariant
            2 <= b@.len(),
            b@[0] == 5,
            end == 2 + b@[1],
            end <= b@.len(),
            2 <= i <= end,
            method == socks_method(secured),
            methods == b@.subrange(2, end as int),
            forall|j: int| 2 <= j < i ==> b@[j] != method,
        decreases end - i,
    {
        if b[i] == method {
            proof {
                assert(methods[i - 2] == method);
            }
            return Stage::Passed(end);
        }
        i = i + 1;
    }
    proof {
        assert(!methods.contains(method));
    }
    Stage::Failed(SocksFailure::NoMethod)
}

fn read_credentials(users: &Vec<User>, b: &[u8], p: usize) -> (r: (Stage, Option<String>))
    requires
        p <= b@.len(),
        p <= 300,
    ensures
        r.0 == credentials(users@, b@, p as int),
        r.0 matches Stage::Passed(q) ==> q <= b@.len() && q <= p + 600 && text::opt_text(r.1) == Some(
            vstd::utf8::decode_utf8(given_name(b@, p as int)),
        ),
{
    let total: usize = b.len();
    if total < p + 1 {
        return (Stage::Need(1), None);
    }
    if b[p] != 1 {
        return (Stage::Failed(SocksFailure::AuthVersion), None);
    }
    if total < p + 2 {
        return (Stage::Need(1), None);
    }
    let q: usize = p + 2 + b[p + 1] as usize;
    if total < q {
        return (Stage::Need(q - total), None);
    }
    if total < q + 1 {
        return (Stage::Need(1), None);
    }
    let end: usize = q + 1 + b[q] as usize;
    if total < end {
        return (Stage::Need(end - total), None);
    }
    let name = match text::utf8_text(text::copy_bytes(&b[p + 2..q])) {
        Some(name) => name,
        None => {
            return (Stage::Failed(SocksFailure::NameNotText), None);
        },
    };
    let password = match text::utf8_text(text::copy_bytes(&b[q + 1..end])) {
        Some(password) => password,
        None => {
            return (Stage::Failed(SocksFailure::PasswordNotText), None);
        },
    };
    if authenticate(users, name.as_str(), password.as_str()) {
        (Stage::Passed(end), Some(name))
    } else {
        (Stage::Failed(SocksFailure::Credentials), None)
    }
}

fn read_request(b: &[u8], p: usize, auth_user: Option<String>) -> (r: SocksProgress)
    requires
        p <= b@.len(),
        p <= 900,
    ensures
        r@ == request_progress(b@, p as int, text::opt_text(auth_user)),
{
    let total: usize = b.len();
    if total < p + 1 {
        return SocksProgress::Need(1);
    }
    if b[p] != 5 {
        return SocksProgress::Failed(SocksFailure::RequestVersion);
    }
    if total < p + 2 {
        return SocksProgress::Need(1);
    }
    let command: u8 = b[p + 1];
    if command != 1 && command != 3 {
        return SocksProgress::Failed(SocksFailure::Command);
    }
    if total < p + 4 {
        return SocksProgress::Need(p + 4 - total);
    }
    let kind: u8 = b[p + 3];
    let destination = if kind == 1 {
        if total < p + 10 {
            return SocksProgress::Need(p + 10 - total);
        }
        Destination::Ip(IpAddr::V4(wire::read_u32(b, p + 4)), wire::read_u16(b, p + 8))
    } else if kind == 4 {
        if total < p + 22 {
            return SocksProgress::Need(p + 22 - total);
        }
        Destination::Ip(IpAddr::V6(wire::read_u128(b, p + 4)), wire::read_u16(b, p + 20))
    } else if kind == 3 {
        if total < p + 5 {
            return SocksProgress::Need(1);
        }
        let q: usize = p + 5 + b[p + 4] as usize;
        if total < q {
            return SocksProgress::Need(q - total);
        }
        let host = match text::utf8_text(text::copy_bytes(&b[p + 5..q])) {
            Some(host) => host,
            None => {
                return SocksProgress::Failed(SocksFailure::HostNotText);
            },
        };
        if total < q + 2 {
            return SocksProgress::Need(q + 2 - total);
        }
        Destination::Domain(host, wire::read_u16(b, q))
    } else {
        return SocksProgress::Failed(SocksFailure::Address);
    };
    if command == 1 {
        let mut reply: Vec<u8> = Vec::new();
        reply.push(5);
        reply.push(0);
        reply.push(0);
        reply.push(1);
        wire::push_u32(&mut reply, 0);
        wire::push_u16(&mut reply, 0);
        proof {
            assert(reply@ =~= connected_reply());
        }
        SocksProgress::Done(
            Handshake::Tcp { destination, reply: Some(reply), initial: Vec::new(), auth_user },
        )
    } else {
        SocksProgress::Done(Handshake::Udp { auth_user })
    }
}

/// Takes the bytes that were read of a handshake so far: what has been answered to
/// them in all, and how far the handshake has come.
pub fn socks_handshake(users: &Vec<User>, received: &[u8]) -> (r: (Vec<u8>, SocksProgress))
    ensures
        (r.0@, r.1@) == socks_progress(users@, received@),
{
    let secured: bool = users.len() > 0;
    let mut replies: Vec<u8> = Vec::new();
    let first = read_greeting(secured, received);
    let p: usize = match first {
        Stage::Need(n) => {
            return (replies, SocksProgress::Need(n));
        },
        Stage::Failed(e) => {
            if e == SocksFailure::NoMethod {
                replies.push(5);
                replies.push(0xff);
            }
            return (replies, SocksProgress::Failed(e));
        },
        Stage::Passed(p) => p,
    };
    replies.push(5);
    replies.push(
        if secured {
            2
        } else {
            0
        },
    );
    proof {
        assert(replies@ =~= greeting_reply(secured, first));
    }
    if !secured {
        let progress = read_request(received, p, None);
        return (replies, progress);
    }
    let (second, name) = read_credentials(users, received, p);
    match second {
        Stage::Need(n) => {
            proof {
                assert(replies@ =~= replies@ + credentials_reply(second));
            }
            (replies, SocksProgress::Need(n))
        },
        Stage::Failed(e) => {
            let ghost before = replies@;
            if e == SocksFailure::Credentials {
                replies.push(1);
                replies.push(1);
            }
            proof {
                assert(replies@ =~= before + credentials_reply(second));
            }
            (replies, SocksProgress::Failed(e))
        },
        Stage::Passed(q) => {
            let ghost before = replies@;
            replies.push(1);
            replies.push(0);
            proof {
                assert(replies@ =~= before + credentials_reply(second));
            }
            let progress = read_request(received, q, name);
            (replies, progress)
        },
    }
}

// ---- laws of the handshake ----

proof fn lemma_same_reads(b: Seq<u8>, more: Seq<u8>)
    ensures
        forall|i: int| 0 <= i < b.len() ==> #[trigger] (b + more)[i] == b[i],
        forall|i: int, j: int|
            0 <= i <= j <= b.len() ==> #[trigger] (b + more).subrange(i, j) == b.subrange(i, j),
{
    assert forall|i: int, j: int| 0 <= i <= j <= b.len() implies #[trigger] (b + more).subrange(
        i,
        j,
    ) == b.subrange(i, j) by {
        assert((b + more).subrange(i, j) =~= b.subrange(i, j));
    }
}

proof fn lemma_greeting_settled(secured: bool, b: Seq<u8>, more: Seq<u8>)
    requires
        b.len() + more.len() <= usize::MAX,
    ensures
        greeting(secured, b) !is Need ==> greeting(secured, b + more) == greeting(secured, b),
        greeting(secured, b) matches Stage::Need(n) ==> n > 0 && (more.len() < n ==> greeting(
            secured,
            b + more,
        ) == Stage::Need((n - more.len()) as usize)),
{
    lemma_same_reads(b, more);
    if more.len() == 0 {
        assert(b + more =~= b);
    }
}

proof fn lemma_credentials_settled(users: Seq<User>, b: Seq<u8>, more: Seq<u8>, p: int)
    requires
        0 <= p <= b.len(),
        b.len() + more.len() <= usize::MAX - 1000,
    ensures
        credentials(users, b, p) !is Need ==> credentials(users, b + more, p) == credentials(
            users,
            b,
            p,
        ),
        credentials(users, b, p) is Passed ==> given_name(b + more, p) == given_name(b, p),
        credentials(users, b, p) matches Stage::Need(n) ==> n > 0 && (more.len() < n
            ==> credentials(users, b + more, p) == Stage::Need((n - more.len()) as usize)),
{
    lemma_same_reads(b, more);
    if more.len() == 0 {
        assert(b + more =~= b);
    }
}

proof fn lemma_request_settled(b: Seq<u8>, more: Seq<u8>, p: int, auth_user: Option<Seq<char>>)
    requires
        0 <= p <= b.len(),
        b.len() + more.len() <= usize::MAX - 1000,
    ensures
        request_progress(b, p, auth_user) !is Need ==> request_progress(b + more, p, auth_user)
            == request_progress(b, p, auth_user),
        request_progress(b, p, auth_user) matches SocksProgressView::Need(n) ==> n > 0 && (
        more.len() < n ==> request_progress(b + more, p, auth_user) == SocksProgressView::Need(
            (n - more.len()) as usize,
        )),
{
    lemma_same_reads(b, more);
    if more.len() == 0 {
        assert(b + more =~= b);
    }
    if socks_request(b, p) is Passed {
        let all = b + more;
        if b[p + 3] == 1 {
            lemma_same_be(b, more, p + 4, 6);
        } else if b[p + 3] == 4 {
            lemma_same_be(b, more, p + 4, 18);
        } else {
            lemma_same_be(b, more, p + 5 + b[p + 4], 2);
        }
        assert(requested(all, p) == requested(b, p));
    }
}

proof fn lemma_same_be(b: Seq<u8>, more: Seq<u8>, i: int, size: int)
    requires
        0 <= i,
        i + size <= b.len(),
        size == 2 || size == 6 || size == 18,
    ensures
        size == 2 ==> wire::be16(b + more, i) == wire::be16(b, i),
        size == 6 ==> wire::be32(b + more, i) == wire::be32(b, i) && wire::be16(b + more, i + 4)
            == wire::be16(b, i + 4),
        size == 18 ==> wire::be128(b + more, i) == wire::be128(b, i) && wire::be16(b + more, i + 16)
            == wire::be16(b, i + 16),
{
    lemma_same_reads(b, more);
}

/// A handshake that is over stays as it is, whatever is sent behind it; and one
/// that is not asks for bytes of its own: with fewer of them it asks for the rest.
pub proof fn handshake_takes_its_own_bytes(users: Seq<User>, b: Seq<u8>, more: Seq<u8>)
    requires
        b.len() + more.len() <= usize::MAX - 1000,
    ensures
        socks_progress(users, b).1 !is Need ==> socks_progress(users, b + more) == socks_progress(
            users,
            b,
        ),
        socks_progress(users, b).1 matches SocksProgressView::Need(n) ==> n > 0 && (more.len() < n
            ==> socks_progress(users, b + more) == (
            socks_progress(users, b).0,
            SocksProgressView::Need((n - more.len()) as usize),
        )),
{
    let secured = users.len() > 0;
    lemma_greeting_settled(secured, b, more);
    match greeting(secured, b) {
        Stage::Passed(p) => {
            assert(p <= b.len());
            if secured {
                lemma_credentials_settled(users, b, more, p as int);
                match credentials(users, b, p as int) {
                    Stage::Passed(q) => {
                        assert(q <= b.len());
                        lemma_request_settled(
                            b,
                            more,
                            q as int,
                            Some(vstd::utf8::decode_utf8(given_name(b, p as int))),
                        );
                    },
                    _ => {},
                }
            } else {
                lemma_request_settled(b, more, p as int, None);
            }
        },
        _ => {},
    }
}

/// Where there are users, only one of them gets through.
pub proof fn only_users_get_through(users: Seq<User>, b: Seq<u8>)
    requires
        users.len() > 0,
        socks_progress(users, b).1 is Done,
    ensures
        exists|name: Seq<char>, password: Seq<char>|
            #![trigger is_user(users, name, password)]
            is_user(users, name, password) && match socks_progress(users, b).1->Done_0 {
                HandshakeView::Tcp { auth_user, .. } => auth_user == Some(name),
                HandshakeView::Udp { auth_user } => auth_user == Some(name),
            },
{
    match greeting(true, b) {
        Stage::Passed(p) => {
            let name = vstd::utf8::decode_utf8(given_name(b, p as int));
            let password = vstd::utf8::decode_utf8(given_password(b, p as int));
            assert(is_user(users, name, password));
        },
        _ => {},
    }
}

/// An inbound speaks what its kind says, and a mixed one both.
pub proof fn inbounds_speak_by_their_kind(word: Seq<char>)
    ensures
        kind_named(word) == Some(InboundKind::Socks) <==> word == "socks"@,
        kind_named(word) == Some(InboundKind::Http) <==> word == "http"@,
        kind_named(word) == Some(InboundKind::Mixed) <==> word == "mixed"@,
{
    reveal_strlit("socks");
    reveal_strlit("http");
    reveal_strlit("mixed");
    assert("socks"@[0] == 's' && "http"@[0] == 'h' && "mixed"@[0] == 'm');
}

} // verus!
