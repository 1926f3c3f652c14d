//! What the program does with a configuration.
use crate::config::{ServerConfig, ServerTlsConfig, TransportConfig};
use crate::net;
use crate::proxy::runtime;
use crate::singbox::{Inbound, LogConfig, TlsConfig, User};
use crate::text;
use vstd::prelude::*;

verus! {

/// The level of the log: `off` where it is disabled, and `info` where none is given.
pub fn log_level(log: Option<&LogConfig>) -> (r: String)
    ensures
        r@ == (match log {
            Some(l) if l.disabled => "off"@,
            Some(l) => text::text_or(text::opt_text(l.level), "info"@),
            None => "info"@,
        }),
{
    match log {
        Some(l) => {
            if l.disabled {
                text::copy_text("off")
            } else {
                text::or_text(&l.level, "info")
            }
        },
        None => text::copy_text("info"),
    }
}

/// Whether lines of the log carry the time.
pub fn log_timestamp(log: Option<&LogConfig>) -> (r: bool)
    ensures
        r == !(log matches Some(l) && l.timestamp == Some(false)),
{
    match log {
        Some(l) => match l.timestamp {
            Some(t) => t,
            None => true,
        },
        None => true,
    }
}

/// What an inbound is run as.
#[derive(Clone, Copy, Debug, PartialEq, Eq, Structural)]
pub enum InboundTask {
    Tun,
    /// For clients of SOCKS and of HTTP proxies.
    Proxy,
    AnyTls,
    Xhttp,
    /// The inbound is passed over.
    Nothing,
}

/// What an inbound is run as.
pub open spec fn task_of(inbound: Inbound) -> InboundTask {
    let kind = inbound.kind@;
    if kind == "tun"@ {
        InboundTask::Tun
    } else if kind == "socks"@ || kind == "http"@ || kind == "mixed"@ {
        InboundTask::Proxy
    } else if kind == "anytls"@ {
        InboundTask::AnyTls
    } else if kind == "vless"@ && text::opt_text(inbound.transport) == Some("xhttp"@) {
        InboundTask::Xhttp
    } else {
        InboundTask::Nothing
    }
}

/// What an inbound is run as.
pub fn inbound_task(inbound: &Inbound) -> (r: InboundTask)
    ensures
        r == task_of(*inbound),
{
    let kind = inbound.kind.as_str();
    if text::same_text(kind, "tun") {
        InboundTask::Tun
    } else if text::same_text(kind, "socks") || text::same_text(kind, "http") || text::same_text(
        kind,
        "mixed",
    ) {
        InboundTask::Proxy
    } else if text::same_text(kind, "anytls") {
        InboundTask::AnyTls
    } else if text::same_text(kind, "vless") && text::opt_is(&inbound.transport, "xhttp") {
        InboundTask::Xhttp
    } else {
        InboundTask::Nothing
    }
}

/// Some inbound is run.
pub open spec fn any_task(inbounds: Seq<Inbound>) -> bool {
    exists|i: int|
        0 <= i < inbounds.len() && task_of(#[trigger] inbounds[i]) != InboundTask::Nothing
}

/// Whether some inbound is run; a program that runs none, nor a controller, is not
/// started.
pub fn runs_anything(inbounds: &Vec<Inbound>, controller: bool) -> (r: bool)
    ensures
        r == (controller || any_task(inbounds@)),
{
    if controller {
        return true;
    }
    let mut i: usize = 0;
    while i < inbounds.len()
        invariant
            i <= inbounds@.len(),
            forall|j: int|
                0 <= j < i ==> task_of(#[trigger] inbounds@[j]) == InboundTask::Nothing,
        decreases inbounds@.len() - i,
    {
        if inbound_task(&inbounds[i]) != InboundTask::Nothing {
            return true;
        }
        i = i + 1;
    }
    false
}

/// Lines put together, with a line feed at the end.
pub open spec fn pem_text(lines: Seq<String>) -> Seq<char> {
    let joined = text::join(text::texts(lines), '\n');
    if text::ends_with(joined, seq!['\n']) {
        joined
    } else {
        joined.push('\n')
    }
}

/// Lines put together, with a line feed at the end.
pub fn pem(lines: &Vec<String>) -> (r: String)
    ensures
        r@ == pem_text(lines@),
{
    let mut r = text::join_texts(lines, '\n');
    let chars = text::to_chars(r.as_str());
    let n: usize = chars.len();
    proof {
        if n > 0 {
            assert(r@.skip(n - 1) =~= seq![r@[n - 1]]);
            if text::ends_with(r@, seq!['\n']) {
                assert(r@.skip(n - 1)[0] == '\n');
            }
        }
    }
    if !(n > 0 && chars[n - 1] == '\n') {
        text::push_char(&mut r, '\n');
    }
    r
}

/// The ids of users that have one.
pub open spec fn user_ids(users: Seq<User>) -> Seq<Seq<char>>
    decreases users.len(),
{
    if users.len() == 0 {
        Seq::empty()
    } else {
        match users.last().uuid {
            Some(id) => user_ids(users.drop_last()).push(id@),
            None => user_ids(users.drop_last()),
        }
    }
}

fn collect_ids(users: &Vec<User>) -> (r: Vec<String>)
    ensures
        text::texts(r@) == user_ids(users@),
{
    let mut r: Vec<String> = Vec::new();
    let mut i: usize = 0;
    proof {
        assert(users@.take(0) =~= Seq::<User>::empty());
        assert(text::texts(r@) =~= Seq::<Seq<char>>::empty());
    }
    while i < users.len()
        invariant
            i <= users@.len(),
            text::texts(r@) == user_ids(users@.take(i as int)),
        decreases users@.len() - i,
    {
        let ghost before = text::texts(r@);
        proof {
            assert(users@.take(i + 1).drop_last() =~= users@.take(i as int));
            assert(users@.take(i + 1).last() == users@[i as int]);
        }
        match &users[i].uuid {
            Some(id) => {
                r.push(text::copy_text(id.as_str()));
                proof {
                    assert(text::texts(r@) =~= before.push(id@));
                }
            },
            None => {},
        }
        i = i + 1;
    }
    proof {
        assert(users@.take(i as int) =~= users@);
    }
    r
}

/// Settings are those of TLS of the server: the paths of its certificate and key, or
/// else those themselves.
pub open spec fn is_server_tls(tls: TlsConfig, t: ServerTlsConfig) -> bool {
    &&& t.http3 == runtime::has_text(tls.alpn@, "h3"@)
    &&& t.certificate@ == (match tls.certificate_path {
        Some(p) => p@,
        None => pem_text(tls.certificate@),
    })
    &&& t.private_key@ == (match tls.key_path {
        Some(p) => p@,
        None => pem_text(tls.key@),
    })
}

/// Settings are those of TLS of the server where it is on, and none where it is off.
pub open spec fn server_tls_of(tls: Option<TlsConfig>, r: Option<ServerTlsConfig>) -> bool {
    match tls {
        Some(v) if v.enabled => r matches Some(t) && is_server_tls(v, t),
        _ => r is None,
    }
}

/// The settings of TLS of the server, where they are on.
pub fn server_tls(tls: &Option<TlsConfig>) -> (r: Option<ServerTlsConfig>)
    ensures
        server_tls_of(*tls, r),
{
    match tls {
        Some(v) => {
            if !v.enabled {
                return None;
            }
            let certificate = match &v.certificate_path {
                Some(p) => text::copy_text(p.as_str()),
                None => pem(&v.certificate),
            };
            let private_key = match &v.key_path {
                Some(p) => text::copy_text(p.as_str()),
                None => pem(&v.key),
            };
            Some(
                ServerTlsConfig {
                    certificate,
                    private_key,
                    http3: runtime::contains_text(&v.alpn, "h3"),
                },
            )
        },
        None => None,
    }
}

/// Why an inbound cannot be run as a server.
#[derive(Clone, Copy, Debug, PartialEq, Eq, Structural)]
pub enum ServerError {
    NoListenPort,
    /// Hellos are to be encrypted, which the server does not do.
    Ech,
}

/// Hellos to the server are to be encrypted.
pub open spec fn wants_ech(tls: Option<TlsConfig>) -> bool {
    tls matches Some(t) && t.enabled && (t.ech matches Some(ech) && ech.enabled)
}

fn asks_for_ech(tls: &Option<TlsConfig>) -> (r: bool)
    ensures
        r == wants_ech(*tls),
{
    match tls {
        Some(t) => match &t.ech {
            Some(ech) => t.enabled && ech.enabled,
            None => false,
        },
        None => false,
    }
}

/// The settings of the server that an inbound is run as, over a transport.
pub fn server_config(inbound: &Inbound, transport: TransportConfig) -> (r: Result<
    ServerConfig,
    ServerError,
>)
    ensures
        match r {
            Ok(s) => {
                &&& inbound.listen_port is Some
                &&& !wants_ech(inbound.tls)
                &&& s.listen@ == net::socket_text(
                    text::text_or(text::opt_text(inbound.listen), "::"@),
                    inbound.listen_port->0,
                )
                &&& s.target@.len() == 0
                &&& text::texts(s.users@) == user_ids(inbound.users@)
                &&& s.transport == transport
                &&& server_tls_of(inbound.tls, s.tls)
            },
            Err(e) => if inbound.listen_port is None {
                e == ServerError::NoListenPort
            } else {
                wants_ech(inbound.tls) && e == ServerError::Ech
            },
        },
{
    let port: u16 = match inbound.listen_port {
        Some(port) => port,
        None => {
            return Err(ServerError::NoListenPort);
        },
    };
    if asks_for_ech(&inbound.tls) {
        return Err(ServerError::Ech);
    }
    let host = text::or_text(&inbound.listen, "::");
    let listen = net::socket(host.as_str(), port);
    let users = collect_ids(&inbound.users);
    let tls = server_tls(&inbound.tls);
    Ok(ServerConfig { listen, target: String::new(), users, transport, tls })
}

/// An inbound is run by its kind, one of another proxy only over the carrier of this
/// one; a kind that is not known is passed over.
pub proof fn inbounds_are_run_by_their_kind(inbound: Inbound)
    ensures
        ({
            let kind = inbound.kind@;
            &&& task_of(inbound) == InboundTask::Tun <==> kind == "tun"@
            &&& task_of(inbound) == InboundTask::Proxy <==> kind == "socks"@ || kind == "http"@
                || kind == "mixed"@
            &&& task_of(inbound) == InboundTask::AnyTls <==> kind == "anytls"@
            &&& task_of(inbound) == InboundTask::Xhttp <==> kind == "vless"@ && inbound.transport
                is Some && inbound.transport->0@ == "xhttp"@
        }),
{
    reveal_strlit("tun");
    reveal_strlit("socks");
    reveal_strlit("http");
    reveal_strlit("mixed");
    reveal_strlit("anytls");
    reveal_strlit("vless");
    assert("tun"@[0] == 't' && "socks"@[0] == 's' && "http"@[0] == 'h' && "mixed"@[0] == 'm'
        && "anytls"@[0] == 'a' && "vless"@[0] == 'v');
}

/// A server has TLS exactly where its settings switch it on, with the certificate and
/// the key that they name or hold.
pub proof fn servers_have_tls_where_it_is_on(tls: Option<TlsConfig>, r: Option<ServerTlsConfig>)
    requires
        server_tls_of(tls, r),
    ensures
        r is Some <==> tls is Some && tls->0.enabled,
        r is Some && tls->0.certificate_path is Some ==> r->0.certificate@
            == tls->0.certificate_path->0@,
        r is Some && tls->0.key_path is Some ==> r->0.private_key@ == tls->0.key_path->0@,
        r is Some ==> (r->0.http3 <==> exists|i: int|
            0 <= i < tls->0.alpn@.len() && (#[trigger] tls->0.alpn@[i])@ == "h3"@),
{
}

/// Each user with an identifier counts, in the order in which they are written.
pub proof fn users_count_by_their_identifiers(users: Seq<User>, user: User)
    ensures
        user_ids(users.push(user)) == (if user.uuid is Some {
            user_ids(users).push(user.uuid->0@)
        } else {
            user_ids(users)
        }),
{
    assert(users.push(user).drop_last() =~= users);
}

} // verus!
