//! What the outbounds of a configuration are set up as.
use crate::anytls;
use crate::config::ClientTlsConfig;
use crate::location;
use crate::net;
use crate::proxy::group::{Group, GroupKind, GroupView, Node, Outbounds};
use crate::proxy::relay::DialerKind;
use crate::routing::router;
use crate::singbox::{HttpClientConfig, Outbound, RouteConfig, RuleSetConfig, TlsConfig};
use crate::text;
use crate::time::{self, Duration};
use vstd::prelude::*;

verus! {

// ---- tags ----

/// The tag of an outbound: its own, or else its kind.
pub open spec fn tag_of(outbound: Outbound) -> Seq<char> {
    text::text_or(text::opt_text(outbound.tag), outbound.kind@)
}

/// The tag of an outbound.
pub fn outbound_tag(outbound: &Outbound) -> (r: String)
    ensures
        r@ == tag_of(*outbound),
{
    text::or_text(&outbound.tag, outbound.kind.as_str())
}

/// The tag of the outbound that traffic takes by default: the first one.
pub fn default_outbound(outbounds: &Vec<Outbound>) -> (r: String)
    ensures
        r@ == (if outbounds@.len() == 0 {
            "direct"@
        } else {
            tag_of(outbounds@[0])
        }),
{
    if outbounds.len() == 0 {
        text::copy_text("direct")
    } else {
        outbound_tag(&outbounds[0])
    }
}

// ---- clients ----

/// Why an outbound cannot be set up.
#[derive(Clone, Copy, Debug, PartialEq, Eq, Structural)]
pub enum OutboundError {
    UnsupportedKind,
    NoDefaultMember,
    NoTransport,
    NoServer,
    /// Hellos are to be encrypted, and their configuration is not given: it is not
    /// looked up for this kind of outbound.
    EchLookup,
    NoUuid,
    PacketEncoding,
    AnyTls(anytls::AnyTlsError),
}

/// Lines put together, where there are any.
pub open spec fn joined_lines(lines: Seq<String>) -> Option<Seq<char>> {
    if lines.len() == 0 {
        None
    } else {
        Some(text::join(text::texts(lines), '\n'))
    }
}

fn join_lines(lines: &Vec<String>) -> (r: Option<String>)
    ensures
        text::opt_text(r) == joined_lines(lines@),
{
    if lines.len() == 0 {
        None
    } else {
        Some(text::join_texts(lines, '\n'))
    }
}

/// One of the texts is the given one.
pub open spec fn has_text(list: Seq<String>, word: Seq<char>) -> bool {
    exists|i: int| 0 <= i < list.len() && (#[trigger] list[i])@ == word
}

/// Whether one of the texts is the given one.
pub fn contains_text(list: &Vec<String>, word: &str) -> (r: bool)
    ensures
        r == has_text(list@, word@),
{
    let mut i: usize = 0;
    while i < list.len()
        invariant
            i <= list@.len(),
            forall|j: int| 0 <= j < i ==> (#[trigger] list@[j])@ != word@,
        decreases list@.len() - i,
    {
        if text::same_text(list[i].as_str(), word) {
            return true;
        }
        i = i + 1;
    }
    false
}

/// The settings of TLS for a client, out of those of an outbound.
pub fn client_tls(tls: &TlsConfig) -> (r: ClientTlsConfig)
    ensures
        r.insecure == tls.insecure,
        r.disable_sni == tls.disable_sni,
        text::opt_text(r.min_version) == text::opt_text(tls.min_version),
        text::opt_text(r.max_version) == text::opt_text(tls.max_version),
        text::opt_text(r.ca_certificate) == text::opt_text(tls.certificate_path),
        text::opt_text(r.ca_pem) == joined_lines(tls.certificate@),
        text::texts(r.certificate_public_key_sha256@) == text::texts(
            tls.certificate_public_key_sha256@,
        ),
        text::opt_text(r.client_certificate) == joined_lines(tls.client_certificate@),
        text::opt_text(r.client_certificate_path) == text::opt_text(tls.client_certificate_path),
        text::opt_text(r.client_key) == joined_lines(tls.client_key@),
        text::opt_text(r.client_key_path) == text::opt_text(tls.client_key_path),
        !r.http2_only,
        r.http3 == has_text(tls.alpn@, "h3"@),
        text::opt_text(r.ech_config) == (match tls.ech {
            Some(ech) if ech.enabled => joined_lines(ech.config@),
            _ => None,
        }),
        text::opt_text(r.ech_config_path) == (match tls.ech {
            Some(ech) if ech.enabled => text::opt_text(ech.config_path),
            _ => None,
        }),
        r.ech_config_bytes is None,
{
    let (ech_config, ech_config_path) = match &tls.ech {
        Some(ech) => {
            if ech.enabled {
                (join_lines(&ech.config), text::copy_opt(&ech.config_path))
            } else {
                (None, None)
            }
        },
        None => (None, None),
    };
    ClientTlsConfig {
        insecure: tls.insecure,
        disable_sni: tls.disable_sni,
        min_version: text::copy_opt(&tls.min_version),
        max_version: text::copy_opt(&tls.max_version),
        ca_certificate: text::copy_opt(&tls.certificate_path),
        ca_pem: join_lines(&tls.certificate),
        certificate_public_key_sha256: text::copy_texts(&tls.certificate_public_key_sha256),
        client_certificate: join_lines(&tls.client_certificate),
        client_certificate_path: text::copy_opt(&tls.client_certificate_path),
        client_key: join_lines(&tls.client_key),
        client_key_path: text::copy_opt(&tls.client_key_path),
        http2_only: false,
        http3: contains_text(&tls.alpn, "h3"),
        ech_config,
        ech_config_path,
        ech_config_bytes: None,
    }
}

/// The settings of TLS of an outbound are on.
pub open spec fn tls_on(outbound: Outbound) -> bool {
    outbound.tls matches Some(t) && t.enabled
}

/// The name of the server in the URL of a client.
pub open spec fn vless_name(outbound: Outbound) -> Seq<char> {
    if tls_on(outbound) {
        text::text_or(text::opt_text(outbound.tls->0.server_name), outbound.server->0@)
    } else {
        outbound.server->0@
    }
}

/// The port of a client.
pub open spec fn vless_port(outbound: Outbound) -> u16 {
    match outbound.server_port {
        Some(port) => port,
        None => if tls_on(outbound) {
            443
        } else {
            80
        },
    }
}

/// The URL of a client.
pub open spec fn vless_url(outbound: Outbound, path: Seq<char>) -> Seq<char> {
    (if tls_on(outbound) {
        "https"@
    } else {
        "http"@
    }) + "://"@ + net::socket_text(vless_name(outbound), vless_port(outbound)) + path
}

/// The configuration of encrypted hellos would have to be looked up: they are on and
/// neither a configuration nor a file is given.
pub open spec fn needs_ech_lookup(tls: Option<TlsConfig>) -> bool {
    tls matches Some(t) && (t.ech matches Some(ech) && ech.enabled && ech.config@.len() == 0
        && ech.config_path is None)
}

fn asks_for_ech_lookup(tls: &Option<TlsConfig>) -> (r: bool)
    ensures
        r == needs_ech_lookup(*tls),
{
    match tls {
        Some(t) => match &t.ech {
            Some(ech) => ech.enabled && ech.config.len() == 0 && ech.config_path.is_none(),
            None => false,
        },
        None => false,
    }
}

/// What a client connects with.
#[derive(Debug)]
pub struct VlessPlan {
    pub url: String,
    pub server: String,
    pub port: u16,
    /// Whether the server is looked up under its own name because the URL has
    /// another.
    pub resolve: bool,
}

/// Why a client cannot be planned, if it cannot.
pub open spec fn vless_fault(outbound: Outbound, path: Option<Seq<char>>) -> Option<OutboundError> {
    if path is None {
        Some(OutboundError::NoTransport)
    } else if outbound.server is None {
        Some(OutboundError::NoServer)
    } else if needs_ech_lookup(outbound.tls) {
        Some(OutboundError::EchLookup)
    } else {
        None
    }
}

/// Plans a client over the transport with a path.
pub fn vless_plan(outbound: &Outbound, path: Option<&str>) -> (r: Result<
    VlessPlan,
    OutboundError,
>)
    ensures
        match r {
            Ok(plan) => {
                &&& vless_fault(*outbound, text::opt_str(path)) is None
                &&& plan.url@ == vless_url(*outbound, path->0@)
                &&& plan.server@ == outbound.server->0@
                &&& plan.port == vless_port(*outbound)
                &&& plan.resolve == (vless_name(*outbound) != outbound.server->0@)
            },
            Err(e) => vless_fault(*outbound, text::opt_str(path)) == Some(e),
        },
{
    let path = match path {
        Some(path) => path,
        None => {
            return Err(OutboundError::NoTransport);
        },
    };
    let server = match &outbound.server {
        Some(server) => text::copy_text(server.as_str()),
        None => {
            return Err(OutboundError::NoServer);
        },
    };
    if asks_for_ech_lookup(&outbound.tls) {
        return Err(OutboundError::EchLookup);
    }
    let enabled = match &outbound.tls {
        Some(tls) => tls.enabled,
        None => false,
    };
    let port: u16 = match outbound.server_port {
        Some(port) => port,
        None => if enabled {
            443
        } else {
            80
        },
    };
    let tls_name = match &outbound.tls {
        Some(tls) => text::or_text(&tls.server_name, server.as_str()),
        None => text::copy_text(server.as_str()),
    };
    let name = if enabled {
        text::copy_text(tls_name.as_str())
    } else {
        text::copy_text(server.as_str())
    };
    let mut url = if enabled {
        text::copy_text("https")
    } else {
        text::copy_text("http")
    };
    url.append("://");
    url.append(net::socket(name.as_str(), port).as_str());
    url.append(path);
    let resolve = !text::same_text(name.as_str(), server.as_str());
    Ok(VlessPlan { url, server, port, resolve })
}

/// How packets are carried: one by one with their addresses, unless an empty word
/// is given.
pub open spec fn packet_encoding(word: Option<Seq<char>>) -> Option<bool> {
    match word {
        None => Some(true),
        Some(w) => if w == "xudp"@ {
            Some(true)
        } else if w.len() == 0 {
            Some(false)
        } else {
            None
        },
    }
}

/// Why an outbound has no user, if it has none.
pub open spec fn vless_user_fault(outbound: Outbound) -> Option<OutboundError> {
    if outbound.uuid is None {
        Some(OutboundError::NoUuid)
    } else if packet_encoding(text::opt_text(outbound.packet_encoding)) is None {
        Some(OutboundError::PacketEncoding)
    } else {
        None
    }
}

/// The user of an outbound and how its packets are carried.
pub fn vless_user(outbound: &Outbound) -> (r: Result<(String, bool), OutboundError>)
    ensures
        match r {
            Ok((user, xudp)) => vless_user_fault(*outbound) is None && user@ == outbound.uuid->0@
                && packet_encoding(text::opt_text(outbound.packet_encoding)) == Some(xudp),
            Err(e) => vless_user_fault(*outbound) == Some(e),
        },
{
    let user = match &outbound.uuid {
        Some(uuid) => text::copy_text(uuid.as_str()),
        None => {
            return Err(OutboundError::NoUuid);
        },
    };
    let xudp = match &outbound.packet_encoding {
        None => true,
        Some(word) => {
            if text::same_text(word.as_str(), "xudp") {
                true
            } else if text::to_chars(word.as_str()).len() == 0 {
                false
            } else {
                return Err(OutboundError::PacketEncoding);
            }
        },
    };
    Ok((user, xudp))
}

// ---- all outbounds ----

/// What an outbound is set up as, with the path of its transport.
pub open spec fn node_of(outbound: Outbound, path: Option<Seq<char>>) -> Result<
    Node,
    OutboundError,
> {
    let kind = outbound.kind@;
    if kind == "selector"@ || kind == "urltest"@ {
        if outbound.default is None && outbound.outbounds@.len() == 0 {
            Err(OutboundError::NoDefaultMember)
        } else {
            Ok(Node::Group)
        }
    } else if kind == "direct"@ {
        Ok(Node::Leaf(DialerKind::Direct))
    } else if kind == "vless"@ {
        match (vless_fault(outbound, path), vless_user_fault(outbound)) {
            (Some(e), _) => Err(e),
            (None, Some(e)) => Err(e),
            (None, None) => Ok(
                Node::Leaf(
                    DialerKind::Vless {
                        xudp: packet_encoding(text::opt_text(outbound.packet_encoding))->0,
                    },
                ),
            ),
        }
    } else if kind == "anytls"@ {
        match anytls_fault(outbound) {
            Some(e) => Err(OutboundError::AnyTls(e)),
            None => Ok(Node::Leaf(DialerKind::AnyTls)),
        }
    } else if kind == "block"@ {
        Ok(Node::Leaf(DialerKind::Block))
    } else {
        Err(OutboundError::UnsupportedKind)
    }
}

/// Why a client of AnyTLS cannot be planned, if it cannot.
pub open spec fn anytls_fault(outbound: Outbound) -> Option<anytls::AnyTlsError> {
    match anytls::outbound_fault(outbound) {
        Some(e) => Some(e),
        None => if outbound.server is None {
            Some(anytls::AnyTlsError::NoServer)
        } else if outbound.password is None {
            Some(anytls::AnyTlsError::NoPassword)
        } else {
            None
        },
    }
}

/// The group that an outbound is, as it is set up.
pub open spec fn group_of(outbound: Outbound) -> GroupView {
    GroupView {
        kind: if outbound.kind@ == "selector"@ {
            GroupKind::Selector
        } else {
            GroupKind::UrlTest
        },
        members: text::texts(outbound.outbounds@),
        selected: match outbound.default {
            Some(d) => d@,
            None => outbound.outbounds@[0]@,
        },
        url: text::opt_text(outbound.url),
        interval: ({
            let t = time::lenient_millis(text::opt_text(outbound.interval));
            if t >= 1000 {
                t
            } else {
                1000
            }
        }),
        tolerance: match outbound.tolerance {
            Some(t) => t,
            None => 50,
        },
    }
}

/// What stands under a tag once outbounds are set up: the last one with it.
pub open spec fn node_under(
    outbounds: Seq<Outbound>,
    paths: Seq<Option<Seq<char>>>,
    tag: Seq<char>,
) -> Option<Node>
    decreases outbounds.len(),
{
    if outbounds.len() == 0 {
        None
    } else if tag_of(outbounds.last()) == tag {
        match node_of(outbounds.last(), paths[outbounds.len() - 1]) {
            Ok(n) => Some(n),
            Err(_) => None,
        }
    } else {
        node_under(outbounds.drop_last(), paths, tag)
    }
}

/// Whether an outbound is a group.
pub open spec fn is_group(outbound: Outbound) -> bool {
    outbound.kind@ == "selector"@ || outbound.kind@ == "urltest"@
}

/// The group under a tag once outbounds are set up: the last one with it.
pub open spec fn group_under(outbounds: Seq<Outbound>, tag: Seq<char>) -> Option<GroupView>
    decreases outbounds.len(),
{
    if outbounds.len() == 0 {
        None
    } else if tag_of(outbounds.last()) == tag && is_group(outbounds.last()) {
        Some(group_of(outbounds.last()))
    } else {
        group_under(outbounds.drop_last(), tag)
    }
}

/// Why outbounds cannot be set up: the fault of the first that cannot.
pub open spec fn outbounds_fault(
    outbounds: Seq<Outbound>,
    paths: Seq<Option<Seq<char>>>,
) -> Option<OutboundError>
    decreases outbounds.len(),
{
    if outbounds.len() == 0 {
        None
    } else {
        match outbounds_fault(outbounds.drop_last(), paths) {
            Some(e) => Some(e),
            None => match node_of(outbounds.last(), paths[outbounds.len() - 1]) {
                Ok(_) => None,
                Err(e) => Some(e),
            },
        }
    }
}

fn add_outbound(o: &mut Outbounds, outbound: &Outbound, path: Option<&str>) -> (r:
    Result<(), OutboundError>)
    ensures
        old(o).wf() ==> final(o).wf(),
        match node_of(*outbound, text::opt_str(path)) {
            Err(e) => r == Err::<(), OutboundError>(e),
            Ok(node) => {
                &&& r is Ok
                &&& final(o).node_at(tag_of(*outbound)) == Some(node)
                &&& forall|tag: Seq<char>|
                    tag != tag_of(*outbound) ==> #[trigger] final(o).node_at(tag) == old(o).node_at(
                        tag,
                    )
                &&& forall|tag: Seq<char>| #[trigger]
                    final(o).group_at(tag) == (if tag == tag_of(*outbound) && is_group(*outbound) {
                        Some(group_of(*outbound))
                    } else {
                        old(o).group_at(tag)
                    })
            },
        },
{
    let tag = outbound_tag(outbound);
    let kind = outbound.kind.as_str();
    let selector = text::same_text(kind, "selector");
    if selector || text::same_text(kind, "urltest") {
        let group_kind = if selector {
            GroupKind::Selector
        } else {
            GroupKind::UrlTest
        };
        let members = text::copy_texts(&outbound.outbounds);
        proof {
            assert(text::texts(members@) == text::texts(outbound.outbounds@));
            assert(members@.len() == text::texts(members@).len());
            assert(outbound.outbounds@.len() == text::texts(outbound.outbounds@).len());
            if members@.len() > 0 {
                assert(text::texts(members@)[0] == members@[0]@);
                assert(text::texts(outbound.outbounds@)[0] == outbound.outbounds@[0]@);
            }
        }
        return match Group::new(
            group_kind,
            members,
            text::copy_opt(&outbound.default),
            text::copy_opt(&outbound.url),
            text::copy_opt(&outbound.interval),
            outbound.tolerance,
        ) {
            Ok(group) => {
                o.add_group(tag.as_str(), group);
                Ok(())
            },
            Err(_) => Err(OutboundError::NoDefaultMember),
        };
    }
    let leaf = if text::same_text(kind, "direct") {
        DialerKind::Direct
    } else if text::same_text(kind, "vless") {
        match vless_plan(outbound, path) {
            Ok(_) => {},
            Err(e) => {
                return Err(e);
            },
        }
        match vless_user(outbound) {
            Ok((_, xudp)) => DialerKind::Vless { xudp },
            Err(e) => {
                return Err(e);
            },
        }
    } else if text::same_text(kind, "anytls") {
        match anytls::build_client(outbound, false) {
            Ok(_) => DialerKind::AnyTls,
            Err(e) => {
                return Err(OutboundError::AnyTls(e));
            },
        }
    } else if text::same_text(kind, "block") {
        DialerKind::Block
    } else {
        return Err(OutboundError::UnsupportedKind);
    };
    let ghost before = *o;
    o.add_leaf(tag.as_str(), leaf);
    proof {
        assert forall|t: Seq<char>| #[trigger] o.group_at(t) == before.group_at(t) by {}
    }
    Ok(())
}

/// The paths of transports with plain values.
pub open spec fn path_views(s: Seq<Option<String>>) -> Seq<Option<Seq<char>>> {
    s.map_values(|p: Option<String>| text::opt_text(p))
}

/// Sets up the outbounds of a configuration, each with the path of its transport,
/// and the direct one where none has its tag.
pub fn build_runtime(outbounds: &Vec<Outbound>, paths: &Vec<Option<String>>) -> (r:
    Result<Outbounds, OutboundError>)
    requires
        outbounds@.len() == paths@.len(),
    ensures
        match r {
            Err(e) => outbounds_fault(outbounds@, path_views(paths@)) == Some(e),
            Ok(o) => {
                &&& o.wf()
                &&& outbounds_fault(outbounds@, path_views(paths@)) is None
                &&& forall|tag: Seq<char>| #[trigger]
                    o.node_at(tag) == (match node_under(
                        outbounds@,
                        path_views(paths@),
                        tag,
                    ) {
                        Some(n) => Some(n),
                        None => if tag == "direct"@ {
                            Some(Node::Leaf(DialerKind::Direct))
                        } else {
                            None
                        },
                    })
                &&& forall|tag: Seq<char>| #[trigger]
                    o.group_at(tag) == group_under(outbounds@, tag)
            },
        },
{
    let ghost all = path_views(paths@);
    let mut o = Outbounds::new();
    let mut i: usize = 0;
    proof {
        assert(outbounds@.take(0) =~= Seq::<Outbound>::empty());
    }
    while i < outbounds.len()
        invariant
            i <= outbounds@.len(),
            outbounds@.len() == paths@.len(),
            all == path_views(paths@),
            o.wf(),
            outbounds_fault(outbounds@.take(i as int), all) is None,
            forall|tag: Seq<char>| #[trigger]
                o.node_at(tag) == node_under(outbounds@.take(i as int), all, tag),
            forall|tag: Seq<char>| #[trigger]
                o.group_at(tag) == group_under(outbounds@.take(i as int), tag),
        decreases outbounds@.len() - i,
    {
        let ghost before = o;
        let ghost next = outbounds@.take(i + 1);
        proof {
            assert(next.drop_last() =~= outbounds@.take(i as int));
            assert(next.last() == outbounds@[i as int]);
            assert(all[i as int] == text::opt_text(paths@[i as int]));
            lemma_fault_stays(outbounds@, all, i + 1);
        }
        match add_outbound(&mut o, &outbounds[i], text::as_opt_str(&paths[i])) {
            Err(e) => {
                return Err(e);
            },
            Ok(()) => {},
        }
        proof {
            assert forall|tag: Seq<char>| #[trigger] o.node_at(tag) == node_under(
                next,
                all,
                tag,
            ) by {
                if tag != tag_of(next.last()) {
                    assert(before.node_at(tag) == node_under(
                        next.drop_last(),
                        all,
                        tag,
                    ));
                }
            }
            assert forall|tag: Seq<char>| #[trigger] o.group_at(tag) == group_under(next, tag) by {
                assert(before.group_at(tag) == group_under(next.drop_last(), tag));
            }
        }
        i = i + 1;
    }
    proof {
        assert(outbounds@.take(i as int) =~= outbounds@);
    }
    let ghost before = o;
    o.add_direct();
    proof {
        assert forall|tag: Seq<char>| #[trigger] o.node_at(tag) == (match node_under(
            outbounds@,
            all,
            tag,
        ) {
            Some(n) => Some(n),
            None => if tag == "direct"@ {
                Some(Node::Leaf(DialerKind::Direct))
            } else {
                None
            },
        }) by {
            assert(before.node_at(tag) == node_under(outbounds@, all, tag));
        }
        assert forall|tag: Seq<char>| #[trigger] o.group_at(tag) == group_under(outbounds@, tag) by {
            assert(o.group_at(tag) == before.group_at(tag));
        }
    }
    Ok(o)
}

proof fn lemma_fault_stays(
    outbounds: Seq<Outbound>,
    paths: Seq<Option<Seq<char>>>,
    n: int,
)
    requires
        0 <= n <= outbounds.len(),
    ensures
        outbounds_fault(outbounds.take(n), paths) matches Some(e) ==> outbounds_fault(
            outbounds,
            paths,
        ) == Some(e),
    decreases outbounds.len() - n,
{
    if n < outbounds.len() {
        let next = outbounds.take(n + 1);
        assert(next.drop_last() =~= outbounds.take(n));
        lemma_fault_stays(outbounds, paths, n + 1);
    } else {
        assert(outbounds.take(n) =~= outbounds);
    }
}

// ---- through which outbound ----

/// Why the servers of names cannot be reached through an outbound.
#[derive(Clone, Copy, Debug, PartialEq, Eq, Structural)]
pub enum DetourError {
    Unknown,
    /// Nothing goes through the outbound.
    Unusable,
}

/// The outbound that a detour leads through.
pub fn detour_dialer(o: &Outbounds, tag: &str) -> (r: Result<DialerKind, DetourError>)
    ensures
        r == (match o.leads_to(tag@, 8) {
            None => Err(DetourError::Unknown),
            Some(DialerKind::Block) => Err(DetourError::Unusable),
            Some(kind) => Ok(kind),
        }),
{
    match o.resolve(tag) {
        None => Err(DetourError::Unknown),
        Some(kind) => match kind {
            DialerKind::Block => Err(DetourError::Unusable),
            _ => Ok(kind),
        },
    }
}

/// The name of an outbound for a controller.
pub open spec fn kind_name(kind: DialerKind) -> Seq<char> {
    match kind {
        DialerKind::Direct => "Direct"@,
        DialerKind::Block => "Reject"@,
        DialerKind::AnyTls => "AnyTLS"@,
        DialerKind::Vless { .. } => "VLESS"@,
    }
}

/// The name of an outbound for a controller.
pub fn clash_type(kind: DialerKind) -> (r: &'static str)
    ensures
        r@ == kind_name(kind),
{
    match kind {
        DialerKind::Direct => "Direct",
        DialerKind::Block => "Reject",
        DialerKind::AnyTls => "AnyTLS",
        DialerKind::Vless { .. } => "VLESS",
    }
}

// ---- probing ----

/// The request that an outbound is probed with.
pub open spec fn probe_text(url: Seq<char>) -> Seq<char> {
    "HEAD "@ + location::url_path(url)->0 + " HTTP/1.1\r\nHost: "@ + location::url_host(url)->0->0
        + "\r\nConnection: close\r\n\r\n"@
}

/// What an outbound is probed with.
#[derive(Debug)]
pub struct Probe {
    pub host: String,
    pub port: u16,
    pub request: String,
}

/// Plans the probe of an outbound: nothing for what is not a URL with a host and a
/// port.
pub fn plan_probe(url: &str) -> (r: Option<Probe>)
    ensures
        match r {
            Some(p) => location::url_host(url@) == Some(Some(p.host@)) && location::url_port(url@)
                == Some(Some(p.port)) && p.request@ == probe_text(url@),
            None => location::url_text(url@) is None || !(location::url_host(url@) matches Some(
                Some(_),
            )) || !(location::url_port(url@) matches Some(Some(_))),
        },
{
    if location::parse_url(url).is_none() {
        return None;
    }
    let host = match location::get_host(url) {
        Some(Some(host)) => host,
        _ => {
            return None;
        },
    };
    let port: u16 = match location::get_port(url) {
        Some(Some(port)) => port,
        _ => {
            return None;
        },
    };
    let path = match location::get_path(url) {
        Some(path) => path,
        None => {
            return None;
        },
    };
    let mut request = text::copy_text("HEAD ");
    request.append(path.as_str());
    request.append(" HTTP/1.1\r\nHost: ");
    request.append(host.as_str());
    request.append("\r\nConnection: close\r\n\r\n");
    Some(Probe { host, port, request })
}

// ---- sets of rules ----

/// Puts the interface that was found into the settings, where they ask for it.
pub fn detect_interface(route: &mut RouteConfig, found: Option<String>)
    ensures
        final(route).rules == old(route).rules,
        final(route).rule_set == old(route).rule_set,
        final(route).final_outbound == old(route).final_outbound,
        final(route).default_mark == old(route).default_mark,
        final(route).default_network_strategy == old(route).default_network_strategy,
        final(route).default_fallback_delay == old(route).default_fallback_delay,
        final(route).default_http_client == old(route).default_http_client,
        final(route).auto_detect_interface == old(route).auto_detect_interface,
        final(route).default_interface == (if old(route).auto_detect_interface == Some(true) {
            found
        } else {
            old(route).default_interface
        }),
{
    match route.auto_detect_interface {
        Some(true) => {
            route.default_interface = found;
        },
        _ => {},
    }
}

/// A set of rules is read again from time to time.
pub open spec fn is_updated(set: RuleSetConfig) -> bool {
    set.kind@ == "remote"@ || set.update_interval is Some
}

/// How often a set of rules is read again: once a day where nothing else is said,
/// and no more than once a minute over the network, else once a second.
pub open spec fn set_interval(set: RuleSetConfig) -> nat {
    let stated = time::lenient_millis(
        Some(text::text_or(text::opt_text(set.update_interval), "24h"@)),
    );
    let least: nat = if set.kind@ == "remote"@ {
        60000
    } else {
        1000
    };
    if stated >= least {
        stated
    } else {
        least
    }
}

/// How often the sets of rules are read again: as often as the one that is read
/// most often.
pub open spec fn shortest_interval(sets: Seq<RuleSetConfig>) -> Option<nat>
    decreases sets.len(),
{
    if sets.len() == 0 {
        None
    } else {
        let before = shortest_interval(sets.drop_last());
        if !is_updated(sets.last()) {
            before
        } else {
            match before {
                Some(t) if t <= set_interval(sets.last()) => Some(t),
                _ => Some(set_interval(sets.last())),
            }
        }
    }
}

/// How often the sets of rules are read again, if any is.
pub fn update_interval(sets: &Vec<RuleSetConfig>) -> (r: Option<Duration>)
    ensures
        match r {
            Some(t) => shortest_interval(sets@) == Some(t.millis as nat),
            None => shortest_interval(sets@) is None,
        },
{
    let mut r: Option<Duration> = None;
    let mut i: usize = 0;
    proof {
        assert(sets@.take(0) =~= Seq::<RuleSetConfig>::empty());
    }
    while i < sets.len()
        invariant
            i <= sets@.len(),
            match r {
                Some(t) => shortest_interval(sets@.take(i as int)) == Some(t.millis as nat),
                None => shortest_interval(sets@.take(i as int)) is None,
            },
        decreases sets@.len() - i,
    {
        proof {
            assert(sets@.take(i + 1).drop_last() =~= sets@.take(i as int));
            assert(sets@.take(i + 1).last() == sets@[i as int]);
        }
        let remote = text::same_text(sets[i].kind.as_str(), "remote");
        if remote || sets[i].update_interval.is_some() {
            let least = if remote {
                Duration::from_secs(60)
            } else {
                Duration::from_secs(1)
            };
            let stated = text::or_text(&sets[i].update_interval, "24h");
            let t = time::parse_duration_lenient(Some(stated.as_str())).max(least);
            let shorter = match r {
                Some(s) => t.millis < s.millis,
                None => true,
            };
            if shorter {
                r = Some(t);
            }
        }
        i = i + 1;
    }
    proof {
        assert(sets@.take(i as int) =~= sets@);
    }
    r
}

/// No set of rules waits longer than it asks to.
pub proof fn no_set_waits_longer(sets: Seq<RuleSetConfig>, i: int)
    requires
        0 <= i < sets.len(),
        is_updated(sets[i]),
    ensures
        shortest_interval(sets) matches Some(t) && 1000 <= t <= set_interval(sets[i]),
    decreases sets.len(),
{
    let before = sets.drop_last();
    if i < sets.len() - 1 {
        assert(before[i] == sets[i]);
        no_set_waits_longer(before, i);
    } else {
        lemma_interval_floor(before);
    }
}

proof fn lemma_interval_floor(sets: Seq<RuleSetConfig>)
    ensures
        shortest_interval(sets) matches Some(t) ==> t >= 1000,
    decreases sets.len(),
{
    if sets.len() > 0 {
        lemma_interval_floor(sets.drop_last());
    }
}

/// The client of HTTP with a tag.
pub open spec fn client_tagged(clients: Seq<HttpClientConfig>, tag: Seq<char>) -> Option<
    HttpClientConfig,
>
    decreases clients.len(),
{
    if clients.len() == 0 {
        None
    } else if clients[0].tag@ == tag {
        Some(clients[0])
    } else {
        client_tagged(clients.skip(1), tag)
    }
}

/// A text that is not empty.
pub open spec fn not_empty(value: Option<Seq<char>>) -> Option<Seq<char>> {
    match value {
        Some(s) if s.len() > 0 => Some(s),
        _ => None,
    }
}

/// The outbound that sets of rules are downloaded through, if one is named.
pub open spec fn download_detour(route: RouteConfig, clients: Seq<HttpClientConfig>) -> Option<
    Seq<char>,
> {
    match not_empty(text::opt_text(route.default_http_client)) {
        None => None,
        Some(tag) => match client_tagged(clients, tag) {
            None => None,
            Some(client) => not_empty(text::opt_text(client.detour)),
        },
    }
}

/// The outbound that sets of rules are downloaded through, if one is named.
pub fn prefetch_detour(route: &RouteConfig, clients: &Vec<HttpClientConfig>) -> (r: Option<String>)
    ensures
        text::opt_text(r) == download_detour(*route, clients@),
{
    let tag = match &route.default_http_client {
        Some(tag) => tag.as_str(),
        None => {
            return None;
        },
    };
    if text::to_chars(tag).len() == 0 {
        return None;
    }
    let mut i: usize = 0;
    proof {
        assert(clients@.skip(0) =~= clients@);
    }
    while i < clients.len()
        invariant
            i <= clients@.len(),
            client_tagged(clients@, tag@) == client_tagged(clients@.skip(i as int), tag@),
            tag@.len() > 0,
            text::opt_text(route.default_http_client) == Some(tag@),
        decreases clients@.len() - i,
    {
        proof {
            assert(clients@.skip(i as int)[0] == clients@[i as int]);
            assert(clients@.skip(i as int).skip(1) =~= clients@.skip(i + 1));
        }
        if text::same_text(clients[i].tag.as_str(), tag) {
            return match &clients[i].detour {
                Some(detour) => {
                    if text::to_chars(detour.as_str()).len() == 0 {
                        None
                    } else {
                        Some(text::copy_text(detour.as_str()))
                    }
                },
                None => None,
            };
        }
        i = i + 1;
    }
    None
}

/// The address of a set of rules that is downloaded ahead, if it is.
pub fn prefetch_url(set: &RuleSetConfig) -> (r: Option<String>)
    ensures
        text::opt_text(r) == (if set.kind@ == "remote"@ && set.url is Some && router::format_of(
            *set,
            set.url->0@,
        ) is Ok {
            text::opt_text(set.url)
        } else {
            None
        }),
{
    if !text::same_text(set.kind.as_str(), "remote") {
        return None;
    }
    match &set.url {
        None => None,
        Some(url) => match router::rule_set_format(set, url.as_str()) {
            Ok(_) => Some(text::copy_text(url.as_str())),
            Err(_) => None,
        },
    }
}

// ---- laws of outbounds ----

proof fn lemma_kind_words()
    ensures
        "selector"@ != "urltest"@,
        "selector"@ != "direct"@,
        "selector"@ != "vless"@,
        "selector"@ != "anytls"@,
        "selector"@ != "block"@,
        "urltest"@ != "direct"@,
        "urltest"@ != "vless"@,
        "urltest"@ != "anytls"@,
        "urltest"@ != "block"@,
        "direct"@ != "vless"@,
        "direct"@ != "anytls"@,
        "direct"@ != "block"@,
        "vless"@ != "anytls"@,
        "vless"@ != "block"@,
        "anytls"@ != "block"@,
{
    reveal_strlit("selector");
    reveal_strlit("urltest");
    reveal_strlit("direct");
    reveal_strlit("vless");
    reveal_strlit("anytls");
    reveal_strlit("block");
    assert("selector"@[0] == 's');
    assert("urltest"@[0] == 'u');
    assert("direct"@[0] == 'd');
    assert("vless"@[0] == 'v');
    assert("anytls"@[0] == 'a');
    assert("block"@[0] == 'b');
}

/// An outbound dials by its kind and by no other: directly, not at all, through a
/// session, or through another proxy, with the packets of datagrams wrapped unless
/// the outbound says that they are not; a selector and a test are groups, which need
/// a member to start with. Any other kind is refused.
pub proof fn an_outbound_dials_by_its_kind(outbound: Outbound, path: Option<Seq<char>>)
    ensures
        ({
            let kind = outbound.kind@;
            let node = node_of(outbound, path);
            &&& node == Ok::<_, OutboundError>(Node::Leaf(DialerKind::Direct)) <==> kind
                == "direct"@
            &&& node == Ok::<_, OutboundError>(Node::Leaf(DialerKind::Block)) <==> kind == "block"@
            &&& node == Ok::<_, OutboundError>(Node::Leaf(DialerKind::AnyTls)) <==> kind
                == "anytls"@ && anytls_fault(outbound) is None
            &&& node == Ok::<_, OutboundError>(Node::Group) <==> (kind == "selector"@ || kind
                == "urltest"@) && (outbound.default is Some || outbound.outbounds@.len() > 0)
            &&& node == Ok::<_, OutboundError>(Node::Leaf(DialerKind::Vless { xudp: true })) ==> kind
                == "vless"@ && (outbound.packet_encoding is None || outbound.packet_encoding->0@
                == "xudp"@)
            &&& node == Ok::<_, OutboundError>(Node::Leaf(DialerKind::Vless { xudp: false }))
                ==> kind == "vless"@ && outbound.packet_encoding is Some
                && outbound.packet_encoding->0@.len() == 0
            &&& kind == "vless"@ && path is Some && outbound.server is Some && outbound.uuid is Some
                && !needs_ech_lookup(outbound.tls) && (outbound.packet_encoding is None
                || outbound.packet_encoding->0@ == "xudp"@) ==> node == Ok::<_, OutboundError>(
                Node::Leaf(DialerKind::Vless { xudp: true }),
            )
            &&& kind == "vless"@ && (path is None || outbound.server is None || outbound.uuid is None)
                ==> node is Err
            &&& kind != "direct"@ && kind != "block"@ && kind != "anytls"@ && kind != "selector"@
                && kind != "urltest"@ && kind != "vless"@ ==> node == Err::<Node, _>(
                OutboundError::UnsupportedKind,
            )
        }),
{
    lemma_kind_words();
    reveal_strlit("xudp");
}

/// The outbound with a tag is the last one that has it, and an outbound without a
/// tag has its kind as one.
pub proof fn the_last_outbound_with_a_tag_counts(
    outbounds: Seq<Outbound>,
    paths: Seq<Option<Seq<char>>>,
    i: int,
    tag: Seq<char>,
)
    requires
        0 <= i < outbounds.len() <= paths.len(),
        match outbounds[i].tag {
            Some(t) => t@ == tag,
            None => outbounds[i].kind@ == tag,
        },
        forall|j: int|
            i < j < outbounds.len() ==> match (#[trigger] outbounds[j]).tag {
                Some(t) => t@ != tag,
                None => outbounds[j].kind@ != tag,
            },
    ensures
        node_under(outbounds, paths, tag) == (match node_of(outbounds[i], paths[i]) {
            Ok(n) => Some(n),
            Err(_) => None,
        }),
    decreases outbounds.len(),
{
    if i < outbounds.len() - 1 {
        let last = outbounds[outbounds.len() - 1];
        assert(tag_of(last) != tag);
        let front = outbounds.drop_last();
        assert forall|j: int| i < j < front.len() implies match (#[trigger] front[j]).tag {
            Some(t) => t@ != tag,
            None => front[j].kind@ != tag,
        } by {
            assert(front[j] == outbounds[j]);
        }
        the_last_outbound_with_a_tag_counts(front, paths, i, tag);
    }
}

/// A tag that no outbound has leads nowhere.
pub proof fn an_unknown_tag_leads_nowhere(
    outbounds: Seq<Outbound>,
    paths: Seq<Option<Seq<char>>>,
    tag: Seq<char>,
)
    requires
        forall|j: int|
            0 <= j < outbounds.len() ==> match (#[trigger] outbounds[j]).tag {
                Some(t) => t@ != tag,
                None => outbounds[j].kind@ != tag,
            },
    ensures
        node_under(outbounds, paths, tag) is None,
        group_under(outbounds, tag) is None,
    decreases outbounds.len(),
{
    if outbounds.len() > 0 {
        assert(tag_of(outbounds[outbounds.len() - 1]) != tag);
        let front = outbounds.drop_last();
        assert forall|j: int| 0 <= j < front.len() implies match (#[trigger] front[j]).tag {
            Some(t) => t@ != tag,
            None => front[j].kind@ != tag,
        } by {
            assert(front[j] == outbounds[j]);
        }
        an_unknown_tag_leads_nowhere(front, paths, tag);
    }
}

/// Outbounds are set up all together: where one of them is at fault, none is.
pub proof fn one_fault_is_enough(outbounds: Seq<Outbound>, paths: Seq<Option<Seq<char>>>)
    ensures
        outbounds_fault(outbounds, paths) is None <==> forall|i: int|
            0 <= i < outbounds.len() ==> node_of(#[trigger] outbounds[i], paths[i]) is Ok,
    decreases outbounds.len(),
{
    if outbounds.len() > 0 {
        let front = outbounds.drop_last();
        one_fault_is_enough(front, paths);
        assert forall|i: int| 0 <= i < front.len() implies front[i] == outbounds[i] by {
        }
        if outbounds_fault(outbounds, paths) is None {
            assert forall|i: int| 0 <= i < outbounds.len() implies node_of(
                #[trigger] outbounds[i],
                paths[i],
            ) is Ok by {
                if i < front.len() {
                    assert(node_of(front[i], paths[i]) is Ok);
                }
            }
        }
        if forall|i: int|
            0 <= i < outbounds.len() ==> node_of(#[trigger] outbounds[i], paths[i]) is Ok {
            assert forall|i: int| 0 <= i < front.len() implies node_of(
                #[trigger] front[i],
                paths[i],
            ) is Ok by {
                assert(node_of(outbounds[i], paths[i]) is Ok);
            }
            assert(node_of(outbounds[outbounds.len() - 1], paths[outbounds.len() - 1]) is Ok);
        }
    }
}

/// Another proxy is reached at the name that its TLS settings give, or else at its
/// server, at its own port, or else at the one of its scheme, which is that of TLS
/// where it is on.
pub proof fn a_proxy_is_reached_at_its_own_place(outbound: Outbound, path: Seq<char>)
    requires
        outbound.server is Some,
        !outbound.server->0@.contains(':'),
        outbound.tls matches Some(t) ==> (t.server_name matches Some(n) ==> !n@.contains(':')),
    ensures
        ({
            let on = outbound.tls is Some && outbound.tls->0.enabled;
            let name = if on && outbound.tls->0.server_name is Some {
                outbound.tls->0.server_name->0@
            } else {
                outbound.server->0@
            };
            let port: u16 = if outbound.server_port is Some {
                outbound.server_port->0
            } else if on {
                443
            } else {
                80
            };
            vless_url(outbound, path) == (if on {
                "https://"@
            } else {
                "http://"@
            }) + name + seq![':'] + text::decimal(port as nat) + path
        }),
{
    reveal_strlit("https");
    reveal_strlit("http");
    reveal_strlit("://");
    reveal_strlit("https://");
    reveal_strlit("http://");
    assert("https"@ + "://"@ =~= "https://"@);
    assert("http"@ + "://"@ =~= "http://"@);
    let url = vless_url(outbound, path);
    let on = outbound.tls is Some && outbound.tls->0.enabled;
    let socket = net::socket_text(vless_name(outbound), vless_port(outbound));
    assert(socket =~= vless_name(outbound) + seq![':'] + text::decimal(
        vless_port(outbound) as nat,
    ));
    assert(url =~= (if on {
        "https://"@
    } else {
        "http://"@
    }) + vless_name(outbound) + seq![':'] + text::decimal(vless_port(outbound) as nat) + path);
}

/// A group has the members that are written in it, and starts with its default, or
/// else with the first of them; it is tested no more often than every second, and a
/// member has to be fifty milliseconds faster where nothing else is said.
pub proof fn groups_are_as_written(outbound: Outbound)
    ensures
        ({
            let g = group_of(outbound);
            &&& g.kind == GroupKind::Selector <==> outbound.kind@ == "selector"@
            &&& g.members.len() == outbound.outbounds@.len()
            &&& forall|i: int|
                0 <= i < g.members.len() ==> #[trigger] g.members[i] == outbound.outbounds@[i]@
            &&& outbound.default matches Some(d) ==> g.selected == d@
            &&& outbound.default is None && outbound.outbounds@.len() > 0 ==> g.selected
                == g.members[0]
            &&& g.interval >= 1000
            &&& outbound.interval matches Some(t) ==> (time::duration_millis(t@) matches Some(n)
                && n >= 1000 ==> g.interval == time::duration_millis(t@)->0)
            &&& outbound.tolerance matches Some(t) ==> g.tolerance == t
            &&& outbound.tolerance is None ==> g.tolerance == 50
            &&& g.url == text::opt_text(outbound.url)
        }),
{
}

/// A set that is read from afar is renewed once a minute at most, another once a
/// second; where no interval is written, once a day.
pub proof fn sets_are_renewed_at_intervals(set: RuleSetConfig)
    ensures
        set.kind@ == "remote"@ ==> set_interval(set) >= 60 * 1000,
        set_interval(set) >= 1000,
        set.update_interval matches Some(t) ==> (time::duration_millis(t@) matches Some(n) && n
            >= 60 * 1000 ==> set_interval(set) == time::duration_millis(t@)->0),
        set.update_interval is None ==> set_interval(set) == 24 * 60 * 60 * 1000,
{
    reveal_strlit("24h");
    reveal_strlit("h");
    time::durations_are_read_as_written(24);
    reveal_with_fuel(text::decimal, 3);
    assert(text::decimal(24) =~= seq!['2', '4']);
    assert(text::decimal(24) + "h"@ =~= "24h"@);
}

/// Downloads go through the outbound of the client that the routes name by default,
/// the first one of that name; without such a client, or without an outbound of its
/// own, they go directly.
pub proof fn downloads_go_through_the_named_client(
    route: RouteConfig,
    clients: Seq<HttpClientConfig>,
    i: int,
)
    requires
        route.default_http_client is Some,
        route.default_http_client->0@.len() > 0,
        0 <= i <= clients.len(),
        i < clients.len() ==> clients[i].tag@ == route.default_http_client->0@,
        forall|j: int|
            0 <= j < i ==> (#[trigger] clients[j]).tag@ != route.default_http_client->0@,
    ensures
        i == clients.len() ==> download_detour(route, clients) is None,
        i < clients.len() ==> match clients[i].detour {
            Some(d) => download_detour(route, clients) == (if d@.len() > 0 {
                Some(d@)
            } else {
                None
            }),
            None => download_detour(route, clients) is None,
        },
{
    lemma_client_tagged(clients, route.default_http_client->0@, i);
}

proof fn lemma_client_tagged(clients: Seq<HttpClientConfig>, tag: Seq<char>, i: int)
    requires
        0 <= i <= clients.len(),
        i < clients.len() ==> clients[i].tag@ == tag,
        forall|j: int| 0 <= j < i ==> (#[trigger] clients[j]).tag@ != tag,
    ensures
        client_tagged(clients, tag) == (if i < clients.len() {
            Some(clients[i])
        } else {
            None
        }),
    decreases i,
{
    if i > 0 {
        assert(clients[0].tag@ != tag);
        assert forall|j: int| 0 <= j < i - 1 implies (#[trigger] clients.skip(1)[j]).tag@
            != tag by {
            assert(clients.skip(1)[j] == clients[j + 1]);
        }
        lemma_client_tagged(clients.skip(1), tag, i - 1);
    }
}

/// Lines that are written one by one are put together with line feeds between, and no
/// lines are nothing.
pub proof fn lines_are_put_together(lines: Seq<String>)
    ensures
        lines.len() == 0 ==> joined_lines(lines) is None,
        lines.len() == 1 ==> joined_lines(lines) == Some(lines[0]@),
        lines.len() == 2 ==> joined_lines(lines) == Some(lines[0]@ + seq!['\n'] + lines[1]@),
{
    let t = text::texts(lines);
    if lines.len() == 1 {
        assert(t[0] == lines[0]@);
    }
    if lines.len() == 2 {
        reveal_with_fuel(text::join, 2);
        assert(t[0] == lines[0]@ && t[1] == lines[1]@);
        assert(t.skip(1)[0] == t[1]);
    }
}

/// A probe asks for the head of its path at the host that it names.
pub proof fn probes_ask_for_a_head(url: Seq<char>, host: Seq<char>, path: Seq<char>)
    requires
        location::url_host(url) == Some(Some(host)),
        location::url_path(url) == Some(path),
    ensures
        probe_text(url) == "HEAD "@ + path + " HTTP/1.1\r\nHost: "@ + host
            + "\r\nConnection: close\r\n\r\n"@,
{
}

} // verus!
