//! The client: what it is set up with and what its requests are.
use crate::config::{
    self, ClientConfig, ClientTlsConfig, ConfigError, Mode, TransportConfig,
};
use crate::encoding;
use crate::header;
use crate::location::{self, Pairs, RequestUrl};
use crate::net::SocketAddr;
use crate::protocol::acceptance;
use crate::protocol::carried;
use crate::protocol::metadata::{self, Fields, ProtocolError};
use crate::protocol::padding;
use crate::protocol::payload;
use crate::protocol::request;
use crate::protocol::round_trip;
use crate::text;
use crate::time::Duration;
use vstd::prelude::*;

verus! {

/// Why a client cannot be set up or cannot send.
#[derive(Clone, Copy, Debug, PartialEq, Eq, Structural)]
pub enum ClientError {
    Config(ConfigError),
    /// Only one of a configuration, a file and what was looked up can be given.
    EchExclusive,
    EchWithoutHttps,
    EchInsecure,
    Url,
    /// A URL would be longer than can be counted in 32 bits, or a padding longer than
    /// there is room for.
    TooLong,
    Protocol(ProtocolError),
    /// Only one of a text and a file can be given.
    Exclusive,
    Method,
}

// ---- certificates and keys ----

/// Where a certificate or a key comes from.
#[derive(Debug)]
pub enum Material {
    Nothing,
    Given(Vec<u8>),
    File(String),
}

/// Where a certificate or a key comes from, with plain values.
pub enum MaterialView {
    Nothing,
    Given(Seq<u8>),
    File(Seq<char>),
}

impl View for Material {
    type V = MaterialView;

    open spec fn view(&self) -> MaterialView {
        match *self {
            Material::Nothing => MaterialView::Nothing,
            Material::Given(bytes) => MaterialView::Given(bytes@),
            Material::File(path) => MaterialView::File(path@),
        }
    }
}

/// Where a certificate or a key comes from: a text, or a file, but not both.
pub open spec fn source_of(given: Option<Seq<char>>, path: Option<Seq<char>>) -> Option<
    MaterialView,
> {
    match (given, path) {
        (None, None) => Some(MaterialView::Nothing),
        (Some(s), None) => Some(MaterialView::Given(vstd::utf8::encode_utf8(s))),
        (None, Some(p)) => Some(MaterialView::File(p)),
        (Some(_), Some(_)) => None,
    }
}

/// Where a certificate or a key comes from: a text, or a file, but not both.
pub fn material(given: &Option<String>, path: &Option<String>) -> (r: Result<Material, ClientError>)
    ensures
        match r {
            Ok(m) => source_of(text::opt_text(*given), text::opt_text(*path)) == Some(m@),
            Err(e) => source_of(text::opt_text(*given), text::opt_text(*path)) is None && e
                == ClientError::Exclusive,
        },
{
    match given {
        Some(s) => match path {
            Some(_) => Err(ClientError::Exclusive),
            None => Ok(Material::Given(text::text_bytes(s.as_str()))),
        },
        None => match path {
            Some(p) => Ok(Material::File(text::copy_text(p.as_str()))),
            None => Ok(Material::Nothing),
        },
    }
}

/// How many configurations of encrypted hellos are given.
pub open spec fn ech_sources(tls: ClientTlsConfig) -> nat {
    (if tls.ech_config is Some {
        1nat
    } else {
        0
    }) + (if tls.ech_config_path is Some {
        1nat
    } else {
        0
    }) + (if tls.ech_config_bytes is Some {
        1nat
    } else {
        0
    })
}

/// Where the configuration of encrypted hellos comes from: a text, a file, or what
/// was looked up, and only one of these.
pub open spec fn ech_source(tls: ClientTlsConfig) -> Option<MaterialView> {
    if ech_sources(tls) > 1 {
        None
    } else if let Some(bytes) = encoding::opt_bytes(tls.ech_config_bytes) {
        Some(MaterialView::Given(bytes))
    } else {
        source_of(text::opt_text(tls.ech_config), text::opt_text(tls.ech_config_path))
    }
}

/// Where the configuration of encrypted hellos comes from.
pub fn load_ech_pem(tls: &ClientTlsConfig) -> (r: Result<Material, ClientError>)
    ensures
        match r {
            Ok(m) => ech_source(*tls) == Some(m@),
            Err(e) => ech_source(*tls) is None && e == ClientError::EchExclusive,
        },
{
    match &tls.ech_config {
        Some(s) => {
            if tls.ech_config_path.is_some() || tls.ech_config_bytes.is_some() {
                Err(ClientError::EchExclusive)
            } else {
                Ok(Material::Given(text::text_bytes(s.as_str())))
            }
        },
        None => match &tls.ech_config_path {
            Some(p) => {
                if tls.ech_config_bytes.is_some() {
                    Err(ClientError::EchExclusive)
                } else {
                    Ok(Material::File(text::copy_text(p.as_str())))
                }
            },
            None => match &tls.ech_config_bytes {
                Some(b) => Ok(Material::Given(text::copy_bytes(b.as_slice()))),
                None => Ok(Material::Nothing),
            },
        },
    }
}

/// Why encrypted hellos cannot be had, if they cannot.
pub open spec fn ech_fault(config: ClientConfig) -> Option<ClientError> {
    let n = ech_sources(config.tls);
    if n > 1 {
        Some(ClientError::EchExclusive)
    } else if n != 0 && !text::starts_with(config.server@, "https://"@) {
        Some(ClientError::EchWithoutHttps)
    } else if n != 0 && config.tls.insecure {
        Some(ClientError::EchInsecure)
    } else {
        None
    }
}

fn check_ech(config: &ClientConfig) -> (r: Option<ClientError>)
    ensures
        r == ech_fault(*config),
{
    let given = match load_ech_pem(&config.tls) {
        Err(e) => {
            return Some(e);
        },
        Ok(Material::Nothing) => false,
        Ok(_) => true,
    };
    if given && !text::text_starts_with(config.server.as_str(), "https://") {
        return Some(ClientError::EchWithoutHttps);
    }
    if given && config.tls.insecure {
        return Some(ClientError::EchInsecure);
    }
    None
}

// ---- versions of HTTP ----

/// The version of HTTP that a client speaks.
#[derive(Clone, Copy, Debug, PartialEq, Eq, Structural)]
pub enum HttpVersion {
    /// What is agreed upon.
    Agreed,
    /// The second, without asking.
    Two,
    /// The third, without asking.
    Three,
}

/// The version of HTTP that a client speaks. A single stream without TLS needs the
/// second.
pub open spec fn spoken(config: ClientConfig) -> HttpVersion {
    if config.tls.http3 {
        HttpVersion::Three
    } else if config.tls.http2_only || (config.transport.mode == Mode::StreamOne
        && text::starts_with(config.server@, "http://"@)) {
        HttpVersion::Two
    } else {
        HttpVersion::Agreed
    }
}

/// The version of HTTP that a client speaks.
pub fn http_version(config: &ClientConfig) -> (r: HttpVersion)
    ensures
        r == spoken(*config),
{
    if config.tls.http3 {
        HttpVersion::Three
    } else if config.tls.http2_only || (config.transport.mode == Mode::StreamOne
        && text::text_starts_with(config.server.as_str(), "http://")) {
        HttpVersion::Two
    } else {
        HttpVersion::Agreed
    }
}

/// The protocols that a client offers over TLS, in the order of its liking.
pub open spec fn offered(tls: ClientTlsConfig) -> Seq<&'static str> {
    if tls.http3 {
        seq!["h3"]
    } else if tls.http2_only {
        seq!["h2"]
    } else {
        seq!["h2", "http/1.1"]
    }
}

/// The protocols that a client offers over TLS.
pub fn offered_protocols(tls: &ClientTlsConfig) -> (r: Vec<&'static str>)
    ensures
        r@ == offered(*tls),
{
    let mut r: Vec<&'static str> = Vec::new();
    if tls.http3 {
        r.push("h3");
    } else if tls.http2_only {
        r.push("h2");
    } else {
        r.push("h2");
        r.push("http/1.1");
    }
    r
}

// ---- the client of HTTP ----

/// Why no client of HTTP can be set up.
#[derive(Clone, Copy, Debug, PartialEq, Eq, Structural)]
pub enum HttpClientError {
    Url,
    /// An address is given for a server without a host.
    NoHost,
    /// Only one of a text and a file can be given.
    CaExclusive,
    CertificateExclusive,
    KeyExclusive,
    /// Only one of a configuration, a file and what was looked up can be given.
    EchExclusive,
}

/// What the client of HTTP under a carrier is set up with.
#[derive(Debug)]
pub struct HttpClientPlan {
    /// Seconds after which an idle connection is probed.
    pub keep_alive: Option<u64>,
    /// The host that is not looked up, and where it is.
    pub resolved: Option<(String, SocketAddr)>,
    pub version: HttpVersion,
    pub ca: Material,
    pub certificate: Material,
    pub key: Material,
    pub protocols: Vec<&'static str>,
    pub ech: Material,
}

/// A plan with plain values.
pub struct HttpClientView {
    pub keep_alive: Option<u64>,
    pub resolved: Option<(Seq<char>, SocketAddr)>,
    pub version: HttpVersion,
    pub ca: MaterialView,
    pub certificate: MaterialView,
    pub key: MaterialView,
    pub protocols: Seq<&'static str>,
    pub ech: MaterialView,
}

impl View for HttpClientPlan {
    type V = HttpClientView;

    open spec fn view(&self) -> HttpClientView {
        HttpClientView {
            keep_alive: self.keep_alive,
            resolved: match self.resolved {
                Some((host, address)) => Some((host@, address)),
                None => None,
            },
            version: self.version,
            ca: self.ca@,
            certificate: self.certificate@,
            key: self.key@,
            protocols: self.protocols@,
            ech: self.ech@,
        }
    }
}

/// The host that is not looked up, and where it is: that of the server, if an
/// address is given for it.
pub open spec fn resolved_host(c: ClientConfig) -> Result<
    Option<(Seq<char>, SocketAddr)>,
    HttpClientError,
> {
    match c.connect_addr {
        None => Ok(None),
        Some(address) => match location::url_host(c.server@) {
            None => Err(HttpClientError::Url),
            Some(None) => Err(HttpClientError::NoHost),
            Some(Some(host)) => Ok(Some((host, address))),
        },
    }
}

/// What the client of HTTP is set up with.
pub open spec fn http_client(c: ClientConfig) -> Result<HttpClientView, HttpClientError> {
    match (
        resolved_host(c),
        source_of(text::opt_text(c.tls.ca_pem), text::opt_text(c.tls.ca_certificate)),
        source_of(
            text::opt_text(c.tls.client_certificate),
            text::opt_text(c.tls.client_certificate_path),
        ),
        source_of(text::opt_text(c.tls.client_key), text::opt_text(c.tls.client_key_path)),
        ech_source(c.tls),
    ) {
        (Err(e), _, _, _, _) => Err(e),
        (_, None, _, _, _) => Err(HttpClientError::CaExclusive),
        (_, _, None, _, _) => Err(HttpClientError::CertificateExclusive),
        (_, _, _, None, _) => Err(HttpClientError::KeyExclusive),
        (_, _, _, _, None) => Err(HttpClientError::EchExclusive),
        (Ok(resolved), Some(ca), Some(certificate), Some(key), Some(ech)) => Ok(
            HttpClientView {
                keep_alive: if c.transport.xmux.h_keep_alive_period > 0 {
                    Some(c.transport.xmux.h_keep_alive_period)
                } else {
                    None
                },
                resolved,
                version: spoken(c),
                ca,
                certificate,
                key,
                protocols: offered(c.tls),
                ech,
            },
        ),
    }
}

fn resolve_host(config: &ClientConfig) -> (r: Result<Option<(String, SocketAddr)>, HttpClientError>)
    ensures
        match r {
            Ok(None) => resolved_host(*config) == Ok::<
                Option<(Seq<char>, SocketAddr)>,
                HttpClientError,
            >(None),
            Ok(Some((host, address))) => resolved_host(*config) == Ok::<
                Option<(Seq<char>, SocketAddr)>,
                HttpClientError,
            >(Some((host@, address))),
            Err(e) => resolved_host(*config) == Err::<
                Option<(Seq<char>, SocketAddr)>,
                HttpClientError,
            >(e),
        },
{
    match config.connect_addr {
        None => Ok(None),
        Some(address) => match location::get_host(config.server.as_str()) {
            None => Err(HttpClientError::Url),
            Some(None) => Err(HttpClientError::NoHost),
            Some(Some(host)) => Ok(Some((host, address))),
        },
    }
}

/// Decides what the client of HTTP under a carrier is set up with.
pub fn build_http_client(config: &ClientConfig) -> (r: Result<HttpClientPlan, HttpClientError>)
    ensures
        match r {
            Ok(plan) => http_client(*config) == Ok::<HttpClientView, HttpClientError>(plan@),
            Err(e) => http_client(*config) == Err::<HttpClientView, HttpClientError>(e),
        },
{
    let tls = &config.tls;
    let keep_alive = if config.transport.xmux.h_keep_alive_period > 0 {
        Some(config.transport.xmux.h_keep_alive_period)
    } else {
        None
    };
    let resolved = match resolve_host(config) {
        Ok(resolved) => resolved,
        Err(e) => {
            return Err(e);
        },
    };
    let ca = match material(&tls.ca_pem, &tls.ca_certificate) {
        Ok(ca) => ca,
        Err(_) => {
            return Err(HttpClientError::CaExclusive);
        },
    };
    let certificate = match material(&tls.client_certificate, &tls.client_certificate_path) {
        Ok(certificate) => certificate,
        Err(_) => {
            return Err(HttpClientError::CertificateExclusive);
        },
    };
    let key = match material(&tls.client_key, &tls.client_key_path) {
        Ok(key) => key,
        Err(_) => {
            return Err(HttpClientError::KeyExclusive);
        },
    };
    let protocols = offered_protocols(tls);
    let ech = match load_ech_pem(tls) {
        Ok(ech) => ech,
        Err(_) => {
            return Err(HttpClientError::EchExclusive);
        },
    };
    Ok(
        HttpClientPlan {
            keep_alive,
            resolved,
            version: http_version(config),
            ca,
            certificate,
            key,
            protocols,
            ech,
        },
    )
}

// ---- the requests in common ----

/// The URL with another path, where it can be counted.
pub open spec fn grown_path(u: Seq<char>, path: Seq<char>) -> Option<Seq<char>> {
    if location::can_move(u, path) {
        Some(location::moved(u, path))
    } else {
        None
    }
}

/// The URL with pairs put behind those of its query, where it can be counted.
pub open spec fn grown_pairs(u: Seq<char>, pairs: Pairs) -> Option<Seq<char>>
    decreases pairs.len(),
{
    if pairs.len() == 0 {
        Some(u)
    } else if location::can_extend(u, pairs[0].0, pairs[0].1) {
        grown_pairs(location::extended(u, pairs[0].0, pairs[0].1), pairs.skip(1))
    } else {
        None
    }
}

/// The URL with the configured path, where it has none of its own.
pub open spec fn with_own_path(u: Seq<char>, path: Seq<char>) -> Option<Seq<char>> {
    if location::path_of(u) == "/"@ {
        grown_path(u, path)
    } else {
        Some(u)
    }
}

/// The URL with a slash at the end of its path.
pub open spec fn with_slash(u: Seq<char>) -> Option<Seq<char>> {
    let path = location::path_of(u);
    if text::ends_with(path, seq!['/']) {
        Some(u)
    } else {
        grown_path(u, path.push('/'))
    }
}

/// The URL that all requests start from.
pub open spec fn base_url(server: Seq<char>, path: Seq<char>, query: Option<Seq<char>>) -> Result<
    Seq<char>,
    ClientError,
> {
    match location::normal_form(server) {
        None => Err(ClientError::Url),
        Some(u) => match with_own_path(u, path) {
            None => Err(ClientError::TooLong),
            Some(v) => match with_slash(v) {
                None => Err(ClientError::TooLong),
                Some(w) => match query {
                    None => Ok(w),
                    Some(q) => match grown_pairs(w, location::form_pairs(q)) {
                        None => Err(ClientError::TooLong),
                        Some(x) => Ok(x),
                    },
                },
            },
        },
    }
}

/// The URL that all requests of a client start from.
pub open spec fn own_url(config: ClientConfig) -> Result<Seq<char>, ClientError> {
    base_url(
        config.server@,
        config.transport.path@,
        text::opt_text(config.transport.query),
    )
}

/// The URL that all requests of a client start from, once its settings are in
/// their normal form.
pub open spec fn normal_url(config: ClientConfig) -> Result<Seq<char>, ClientError> {
    base_url(
        config.server@,
        config::normal_path(config.transport.path@),
        config::normal_query(
            config.transport.path@,
            text::opt_text(config.transport.query),
        ),
    )
}

/// The fields that all requests start from.
pub open spec fn base_fields(transport: TransportConfig) -> Result<Fields, ProtocolError> {
    let (m, e) = request::common_fields(transport, header::nothing());
    match (e, transport.host) {
        (Some(e), _) => Err(e),
        (None, None) => Ok(m),
        (None, Some(host)) => if config::is_field_value(host@) {
            Ok(m.insert("host"@, seq![vstd::utf8::encode_utf8(host@)]))
        } else {
            Err(ProtocolError::HeaderValue)
        },
    }
}

fn grow_path(url: &RequestUrl, path: &str) -> (r: Option<RequestUrl>)
    ensures
        match r {
            Some(u) => grown_path(url@, path@) == Some(u@) && (location::is_web(url@) ==> {
                &&& location::is_web(u@)
                &&& location::url_query(u@) == location::url_query(url@)
                &&& location::is_plain_path(path@) ==> location::path_of(u@) == path@
            }),
            None => grown_path(url@, path@) is None,
        },
{
    if url.takes_path(path) {
        Some(url.with_path(path))
    } else {
        None
    }
}

fn grow_pairs(url: &RequestUrl, pairs: &Vec<(String, String)>) -> (r: Option<RequestUrl>)
    ensures
        match r {
            Some(u) => grown_pairs(url@, location::pair_views(pairs@)) == Some(u@) && (
            location::is_web(url@) ==> {
                &&& location::is_web(u@)
                &&& location::path_of(u@) == location::path_of(url@)
                &&& location::url_pairs(u@)->0 == location::url_pairs(url@)->0
                    + location::pair_views(pairs@)
            }),
            None => grown_pairs(url@, location::pair_views(pairs@)) is None,
        },
{
    let ghost all = location::pair_views(pairs@);
    let ghost start = url@;
    let mut grown = url.copy();
    let mut i: usize = 0;
    proof {
        assert(all.skip(0) =~= all);
        let none = all.take(0);
        assert(location::url_pairs(start)->0 + none =~= location::url_pairs(start)->0);
    }
    while i < pairs.len()
        invariant
            location::is_web(start) ==> {
                &&& location::is_web(grown@)
                &&& location::path_of(grown@) == location::path_of(start)
                &&& location::url_pairs(grown@)->0 == location::url_pairs(start)->0 + all.take(
                    i as int,
                )
            },
            i <= pairs@.len(),
            all == location::pair_views(pairs@),
            start == url@,
            grown_pairs(start, all) == grown_pairs(grown@, all.skip(i as int)),
        decreases pairs@.len() - i,
    {
        let (key, value) = &pairs[i];
        proof {
            assert(all.skip(i as int)[0] == (key@, value@));
            assert(all.skip(i as int).skip(1) =~= all.skip(i + 1));
            assert(all.take(i + 1) =~= all.take(i as int).push((key@, value@)));
            assert(location::url_pairs(start)->0 + all.take(i + 1) =~= (
            location::url_pairs(start)->0 + all.take(i as int)).push((key@, value@)));
        }
        if !grown.takes_pair(key.as_str(), value.as_str()) {
            return None;
        }
        grown = grown.with_pair(key.as_str(), value.as_str());
        i = i + 1;
    }
    proof {
        assert(all.take(i as int) =~= all);
    }
    Some(grown)
}

fn build_url(config: &ClientConfig) -> (r: Result<RequestUrl, ClientError>)
    ensures
        match r {
            Ok(u) => {
                &&& own_url(*config) == Ok::<Seq<char>, ClientError>(u@)
                &&& location::is_web(location::normal_form(config.server@)->0) ==> {
                    let first = location::normal_form(config.server@)->0;
                    let own = location::path_of(first);
                    let chosen = if own == "/"@ {
                        config.transport.path@
                    } else {
                        own
                    };
                    &&& location::is_web(u@)
                    &&& own != "/"@ && own.len() > 0 && own.last() == '/' ==> location::path_of(u@) == own
                    &&& location::is_plain_path(chosen) ==> location::path_of(u@) == (if chosen.last() == '/' {
                        chosen
                    } else {
                        chosen.push('/')
                    })
                    &&& location::url_pairs(u@)->0 == location::url_pairs(first)->0 + (match text::opt_text(config.transport.query) {
                        Some(q) => location::form_pairs(q),
                        None => Seq::empty(),
                    })
                }
            },
            Err(e) => own_url(*config) == Err::<Seq<char>, ClientError>(e),
        },
{
    let mut url = match RequestUrl::parse(config.server.as_str()) {
        Some(url) => url,
        None => {
            return Err(ClientError::Url);
        },
    };
    let path = url.path();
    if text::same_text(path.as_str(), "/") {
        url = match grow_path(&url, config.transport.path.as_str()) {
            Some(u) => u,
            None => {
                return Err(ClientError::TooLong);
            },
        };
    }
    let mut path = url.path();
    let chars = text::to_chars(path.as_str());
    let n: usize = chars.len();
    let slash = n > 0 && chars[n - 1] == '/';
    proof {
        if n > 0 {
            assert(path@.skip(n - 1) =~= seq![path@[n - 1]]);
            if text::ends_with(path@, seq!['/']) {
                assert(path@.skip(n - 1)[0] == '/');
            }
        }
        assert(slash == text::ends_with(path@, seq!['/']));
    }
    if !slash {
        text::push_char(&mut path, '/');
        url = match grow_path(&url, path.as_str()) {
            Some(u) => u,
            None => {
                return Err(ClientError::TooLong);
            },
        };
    }
    match &config.transport.query {
        None => Ok(url),
        Some(q) => {
            let pairs = location::parse_pairs(q.as_str());
            match grow_pairs(&url, &pairs) {
                Some(u) => Ok(u),
                None => Err(ClientError::TooLong),
            }
        },
    }
}

proof fn lemma_common_room(m: Fields, list: Seq<config::HeaderField>, more: nat)
    requires
        header::room(m, list.len() + more),
    ensures
        header::room(request::with_fields(m, list).0, more),
    decreases list.len(),
{
    if list.len() > 0 {
        let k = text::lower(list[0].name@);
        let v = seq![vstd::utf8::encode_utf8(list[0].value@)];
        header::lemma_room(m, list.len() + more, k, v);
        if header::is_name(list[0].name@) && config::is_field_value(list[0].value@) {
            lemma_common_room(m.insert(k, v), list.skip(1), more);
        }
    }
}

fn build_headers(transport: &TransportConfig) -> (r: Result<axum::http::HeaderMap, ProtocolError>)
    requires
        transport.headers@.len() <= 6000,
    ensures
        match r {
            Ok(h) => base_fields(*transport) == Ok::<Fields, ProtocolError>(header::contents(h))
                && header::room(header::contents(h), 500),
            Err(e) => base_fields(*transport) == Err::<Fields, ProtocolError>(e),
        },
{
    let mut headers = header::no_headers();
    proof {
        assert(header::contents(headers).dom() =~= Set::<Seq<char>>::empty());
        lemma_common_room(header::contents(headers), transport.headers@, 502);
    }
    let ghost named = request::with_fields(header::contents(headers), transport.headers@).0;
    match request::add_common_headers(transport, &mut headers) {
        Err(e) => {
            return Err(e);
        },
        Ok(()) => {},
    }
    proof {
        let m = header::contents(headers);
        if transport.token is Some {
            header::lemma_room(
                named,
                502,
                "authorization"@,
                seq![vstd::utf8::encode_utf8(config::bearer(transport.token->0@))],
            );
        }
        assert(header::room(m, 501));
    }
    match &transport.host {
        Some(host) => {
            let bytes = text::text_bytes(host.as_str());
            if !header::check_value(bytes.as_slice()) {
                return Err(ProtocolError::HeaderValue);
            }
            proof {
                reveal_strlit("host");
                assert(text::lower("host"@) =~= "host"@);
                header::lemma_room(header::contents(headers), 501, "host"@, seq![bytes@]);
            }
            header::insert(&mut headers, "host", bytes.as_slice());
        },
        None => {
            proof {
                header::lemma_room(header::contents(headers), 501, seq![], seq![]);
            }
        },
    }
    Ok(headers)
}

// ---- the client ----

/// A client.
#[derive(Debug)]
pub struct Client {
    pub config: ClientConfig,
    pub url: RequestUrl,
    pub headers: axum::http::HeaderMap,
}

/// What is sent with a padding of a length, a session and a number.
pub open spec fn sent(
    config: TransportConfig,
    length: nat,
    base: (Seq<char>, Fields),
    session: Option<Seq<char>>,
    sequence: Option<u64>,
) -> Result<(Seq<char>, Fields), ClientError> {
    let value = padding::padding(config.padding_method@, length);
    let (u, m) = request::with_padding(request::padding_place(config), value, base.0, base.1);
    if length > usize::MAX / 4 || !request::can_pad(config, value, base.0) || !metadata::can_carry(
        config,
        u,
        session,
        sequence,
    ) {
        Err(ClientError::TooLong)
    } else {
        match metadata::placed_opt(config.session_placement, config.session_key@, session, u, m) {
            Err(e) => Err(ClientError::Protocol(e)),
            Ok((v, n)) => match metadata::placed_opt(
                config.sequence_placement,
                config.sequence_key@,
                metadata::sequence_text(sequence),
                v,
                n,
            ) {
                Err(e) => Err(ClientError::Protocol(e)),
                Ok(made) => Ok(made),
            },
        }
    }
}

/// A length that is asked for.
pub open spec fn is_length(config: TransportConfig, n: nat) -> bool {
    config.padding_min <= n <= config.padding_max
}

/// A digit of a number to the base of sixteen, with small letters.
pub open spec fn is_hex_digit(c: char) -> bool {
    '0' <= c <= '9' || 'a' <= c <= 'f'
}

/// The name of a session: thirty-two digits to the base of sixteen.
pub open spec fn is_session(s: Seq<char>) -> bool {
    s.len() == 32 && forall|i: int| 0 <= i < s.len() ==> is_hex_digit(#[trigger] s[i])
}

/// A number by chance: `uuid::Uuid::new_v4`, written by `simple`, which gives
/// thirty-two digits to the base of sixteen with small letters.
#[verifier::external_body]
fn random_id() -> (r: String)
    ensures
        is_session(r@),
{
    uuid::Uuid::new_v4().simple().to_string()
}

/// The name of a session can stand wherever the settings place it.
pub proof fn sessions_fit_every_place(session: Seq<char>, placement: config::Placement)
    requires
        is_session(session),
        config::holds_metadata(placement),
    ensures
        round_trip::fits_place(placement, session),
{
    assert forall|i: int| 0 <= i < session.len() implies encoding::is_url_safe(
        #[trigger] session[i],
    ) by {
        assert(is_hex_digit(session[i]));
    }
    round_trip::id_is_plain(session);
}

/// The settings are such that a server with the same takes what is sent.
pub open spec fn is_taken(
    config: TransportConfig,
    base: (Seq<char>, Fields),
    session: Seq<char>,
) -> bool {
    &&& round_trip::carries(config, base.0, base.1, session)
    &&& acceptance::separate(config)
    &&& request::padding_fits(config, base.0, base.1)
    &&& request::is_authorized(config, base.1)
}

proof fn lemma_placed_room(
    placement: config::Placement,
    key: Seq<char>,
    value: Option<Seq<char>>,
    url: Seq<char>,
    m: Fields,
    more: nat,
)
    requires
        header::room(m, more + 1),
    ensures
        metadata::placed_opt(placement, key, value, url, m) matches Ok((u, n)) ==> header::room(
            n,
            more,
        ),
{
    header::lemma_room(m, more + 1, seq![], seq![]);
    match metadata::placed_opt(placement, key, value, url, m) {
        Ok((u, n)) => {
            if n != m {
                match placement {
                    config::Placement::Header => {
                        header::lemma_room(
                            m,
                            more + 1,
                            text::lower(key),
                            seq![vstd::utf8::encode_utf8(value->0)],
                        );
                    },
                    _ => {
                        let bytes = vstd::utf8::encode_utf8(metadata::cookie(key, value->0));
                        header::lemma_room(
                            m,
                            more + 1,
                            "cookie"@,
                            header::values_under(m, "cookie"@).push(bytes),
                        );
                    },
                }
            }
        },
        Err(_) => {},
    }
}

proof fn lemma_padded_room(config: TransportConfig, value: Seq<char>, url: Seq<char>, m: Fields, more: nat)
    requires
        header::room(m, more + 1),
    ensures
        header::room(
            request::with_padding(request::padding_place(config), value, url, m).1,
            more,
        ),
{
    let (placement, key, name) = request::padding_place(config);
    let n = request::with_padding((placement, key, name), value, url, m).1;
    header::lemma_room(m, more + 1, seq![], seq![]);
    if n != m {
        match placement {
            config::Placement::Cookie => {
                let bytes = vstd::utf8::encode_utf8(metadata::cookie(key, value));
                header::lemma_room(
                    m,
                    more + 1,
                    "cookie"@,
                    header::values_under(m, "cookie"@).push(bytes),
                );
            },
            config::Placement::Header => {
                header::lemma_room(
                    m,
                    more + 1,
                    text::lower(name),
                    seq![vstd::utf8::encode_utf8(value)],
                );
            },
            _ => {
                let reference = location::extended(url, key, value);
                header::lemma_room(
                    m,
                    more + 1,
                    text::lower(name),
                    seq![vstd::utf8::encode_utf8(reference)],
                );
            },
        }
    }
}

impl Client {
    /// The settings are in order, and there is room for what requests need.
    pub open spec fn wf(&self) -> bool {
        &&& self.config.transport.padding_min <= self.config.transport.padding_max
        &&& header::room(header::contents(self.headers), 500)
    }

    /// Sets up a client.
    pub fn new(config: ClientConfig) -> (r: Result<Client, ClientError>)
        requires
            config.transport.headers@.len() <= 6000,
        ensures
            match r {
                Ok(c) => {
                    &&& c.wf()
                    &&& config.transport.problem() is None
                    &&& ech_fault(config) is None
                    &&& c.config.listen == config.listen
                    &&& c.config.server == config.server
                    &&& c.config.tls == config.tls
                    &&& c.config.connect_addr == config.connect_addr
                    &&& c.config.transport.same_rest(config.transport)
                    &&& c.config.transport.path@ == config::normal_path(config.transport.path@)
                    &&& text::opt_text(c.config.transport.query) == config::normal_query(
                        config.transport.path@,
                        text::opt_text(config.transport.query),
                    )
                    &&& c.config.transport.uplink_method@ == text::upper(
                        config.transport.uplink_method@,
                    )
                    &&& normal_url(config) == Ok::<Seq<char>, ClientError>(c.url@)
                    &&& base_fields(config.transport) == Ok::<Fields, ProtocolError>(
                        header::contents(c.headers),
                    )
                    &&& config.transport.host matches Some(h) ==> {
                        &&& header::values_under(header::contents(c.headers), "host"@) == seq![
                            vstd::utf8::encode_utf8(h@),
                        ]
                        &&& round_trip::is_plain_text(h@) ==> header::text_under(
                            header::contents(c.headers),
                            "host"@,
                        ) == Some(h@)
                    }
                    &&& config.transport.token matches Some(t) ==> header::values_under(
                        header::contents(c.headers),
                        "authorization"@,
                    ) == seq![vstd::utf8::encode_utf8("Bearer "@ + t@)]
                    &&& location::is_web(location::normal_form(config.server@)->0) ==> {
                        let first = location::normal_form(config.server@)->0;
                        let own = location::path_of(first);
                        let chosen = if own == "/"@ {
                            config::normal_path(config.transport.path@)
                        } else {
                            own
                        };
                        &&& location::is_web(c.url@)
                        &&& own != "/"@ && own.len() > 0 && own.last() == '/' ==> location::path_of(c.url@) == own
                        &&& location::is_plain_path(chosen) ==> location::path_of(c.url@) == (if chosen.last() == '/' {
                            chosen
                        } else {
                            chosen.push('/')
                        })
                        &&& location::url_pairs(c.url@)->0 == location::url_pairs(first)->0 + (match config::normal_query(
                            config.transport.path@,
                            text::opt_text(config.transport.query),
                        ) {
                            Some(q) => location::form_pairs(q),
                            None => Seq::empty(),
                        })
                    }
                },
                Err(e) => match (config.transport.problem(), ech_fault(config)) {
                    (Some(f), _) => e == ClientError::Config(f),
                    (None, Some(f)) => e == f,
                    (None, None) => match normal_url(config) {
                        Err(f) => e == f,
                        Ok(_) => base_fields(config.transport) matches Err(f) && e
                            == ClientError::Protocol(f),
                    },
                },
            },
    {
        let mut config = config;
        match config.transport.validate() {
            Err(e) => {
                return Err(ClientError::Config(e));
            },
            Ok(()) => {},
        }
        match check_ech(&config) {
            Some(e) => {
                return Err(e);
            },
            None => {},
        }
        let url = match build_url(&config) {
            Ok(url) => url,
            Err(e) => {
                return Err(e);
            },
        };
        let headers = match build_headers(&config.transport) {
            Ok(headers) => headers,
            Err(e) => {
                return Err(ClientError::Protocol(e));
            },
        };
        proof {
            carried::the_host_and_the_token_are_carried(config.transport);
        }
        Ok(Client { config, url, headers })
    }

    /// A request with padding of a length by chance, a session and a number. A
    /// server with the same settings takes it, where they keep all of it apart.
    pub fn request(&self, session: Option<&str>, sequence: Option<u64>) -> (r: Result<
        (RequestUrl, axum::http::HeaderMap),
        ClientError,
    >)
        requires
            self.wf(),
        ensures
            exists|n: nat|
                #[trigger] is_length(self.config.transport, n) && is_sent(
                    self.config.transport,
                    n,
                    (self.url@, header::contents(self.headers)),
                    text::opt_str(session),
                    sequence,
                    r,
                ),
            r matches Ok((url, headers)) ==> header::room(header::contents(headers), 497),
            forall|name: Seq<char>|
                r is Ok && !carried::written(self.config.transport, name)
                    ==> #[trigger] header::values_under(header::contents(r->Ok_0.1), name)
                    == header::values_under(header::contents(self.headers), name),
            r is Ok && !carried::written(self.config.transport, "host"@) ==> header::text_under(
                header::contents(r->Ok_0.1),
                "host"@,
            ) == header::text_under(header::contents(self.headers), "host"@),
            r is Ok && session is Some && sequence is Some && is_taken(
                self.config.transport,
                (self.url@, header::contents(self.headers)),
                session->0@,
            ) ==> ({
                let config = self.config.transport;
                let seen = round_trip::request_of(r->Ok_0.0@, header::contents(r->Ok_0.1));
                &&& metadata::session_in(config, seen.path, seen.pairs, seen.fields) == Some(
                    session->0@,
                )
                &&& metadata::sequence_in(config, seen.path, seen.pairs, seen.fields)
                    == metadata::sequence_text(sequence)
                &&& request::padding_accepted(config, seen.pairs, seen.fields)
                &&& request::is_authorized(config, seen.fields)
            }),
            r is Ok && session is Some && sequence is None && is_taken(
                self.config.transport,
                (self.url@, header::contents(self.headers)),
                session->0@,
            ) ==> ({
                let config = self.config.transport;
                let seen = round_trip::request_of(r->Ok_0.0@, header::contents(r->Ok_0.1));
                &&& metadata::session_in(config, seen.path, seen.pairs, seen.fields) == Some(
                    session->0@,
                )
                &&& request::padding_accepted(config, seen.pairs, seen.fields)
                &&& request::is_authorized(config, seen.fields)
            }),
    {
        let config = &self.config.transport;
        let length: usize = request::choose_length(config);
        let ghost n = length as nat;
        let ghost value = padding::padding(config.padding_method@, n);
        let ghost base = (self.url@, header::contents(self.headers));
        proof {
            assert(is_length(*config, n));
        }
        if length > usize::MAX / 4 {
            return Err(ClientError::TooLong);
        }
        let written = padding::padding_value(config.padding_method.as_str(), length);
        if !request::takes_padding(config, written.as_str(), &self.url) {
            return Err(ClientError::TooLong);
        }
        let mut url = self.url.copy();
        let mut headers = header::copy_headers(&self.headers);
        proof {
            header::lemma_room(base.1, 500, seq![], seq![]);
        }
        request::place_padding(config, length, &mut url, &mut headers);
        let ghost after = (url@, header::contents(headers));
        proof {
            lemma_padded_room(*config, value, base.0, base.1, 499);
            lemma_placed_room(
                config.session_placement,
                config.session_key@,
                text::opt_str(session),
                after.0,
                after.1,
                498,
            );
            match metadata::placed_opt(
                config.session_placement,
                config.session_key@,
                text::opt_str(session),
                after.0,
                after.1,
            ) {
                Ok((u, m)) => {
                    lemma_placed_room(
                        config.sequence_placement,
                        config.sequence_key@,
                        metadata::sequence_text(sequence),
                        u,
                        m,
                        497,
                    );
                },
                Err(_) => {},
            }
            header::lemma_room(after.1, 499, seq![], seq![]);
            if session is Some && sequence is None && is_taken(*config, base, session->0@) {
                let seen = round_trip::request_of(base.0, base.1);
                request::padding_is_plain(config.padding_method@, n);
                acceptance::openings_are_accepted(*config, base.0, seen, value, session->0@);
            }
            if session is Some && sequence is Some && is_taken(*config, base, session->0@) {
                let seen = round_trip::request_of(base.0, base.1);
                request::padding_is_plain(config.padding_method@, n);
                acceptance::requests_are_accepted(
                    *config,
                    base.0,
                    seen,
                    value,
                    session->0@,
                    sequence->0,
                );
            }
        }
        if !metadata::takes_metadata(config, &url, session, sequence) {
            return Err(ClientError::TooLong);
        }
        match metadata::apply_metadata(config, &mut url, &mut headers, session, sequence) {
            Err(e) => {
                proof {
                    assert(is_sent(
                        *config,
                        n,
                        base,
                        text::opt_str(session),
                        sequence,
                        Err(ClientError::Protocol(e)),
                    ));
                }
                Err(ClientError::Protocol(e))
            },
            Ok(()) => {
                let r = Ok((url, headers));
                proof {
                    assert(is_sent(*config, n, base, text::opt_str(session), sequence, r));
                    assert forall|name: Seq<char>| !carried::written(*config, name) implies
                        #[trigger] header::values_under(header::contents(headers), name)
                        == header::values_under(base.1, name) by {
                        carried::requests_carry_the_fields_of_the_client(
                            *config,
                            n,
                            base,
                            text::opt_str(session),
                            sequence,
                            name,
                        );
                    }
                    reveal_strlit("host");
                    assert(text::lower("host"@) =~= "host"@);
                }
                r
            },
        }
    }

    /// Opens a session: a name for it by chance, and the request that asks for what
    /// comes back over it.
    pub fn open_session(&self) -> (r: (
        String,
        Result<(RequestUrl, axum::http::HeaderMap), ClientError>,
    ))
        requires
            self.wf(),
        ensures
            is_session(r.0@),
            exists|n: nat|
                #[trigger] is_length(self.config.transport, n) && is_sent(
                    self.config.transport,
                    n,
                    (self.url@, header::contents(self.headers)),
                    Some(r.0@),
                    None,
                    r.1,
                ),
            forall|name: Seq<char>|
                r.1 is Ok && !carried::written(self.config.transport, name)
                    ==> #[trigger] header::values_under(header::contents(r.1->Ok_0.1), name)
                    == header::values_under(header::contents(self.headers), name),
            r.1 is Ok && !carried::written(self.config.transport, "host"@) ==> header::text_under(
                header::contents(r.1->Ok_0.1),
                "host"@,
            ) == header::text_under(header::contents(self.headers), "host"@),
            r.1 is Ok && is_taken(
                self.config.transport,
                (self.url@, header::contents(self.headers)),
                r.0@,
            ) ==> ({
                let config = self.config.transport;
                let seen = round_trip::request_of(r.1->Ok_0.0@, header::contents(r.1->Ok_0.1));
                &&& metadata::session_in(config, seen.path, seen.pairs, seen.fields) == Some(r.0@)
                &&& request::padding_accepted(config, seen.pairs, seen.fields)
                &&& request::is_authorized(config, seen.fields)
            }),
    {
        let session = random_id();
        let opening = self.request(Some(session.as_str()), None);
        (session, opening)
    }

    /// Marks a request or a response as a stream, unless the settings say not to.
    pub fn mark_stream(&self, headers: &mut axum::http::HeaderMap)
        requires
            header::room(header::contents(*old(headers)), 1),
        ensures
            header::contents(*final(headers)) == (if self.config.transport.no_grpc_header {
                header::contents(*old(headers))
            } else {
                header::contents(*old(headers)).insert(
                    "content-type"@,
                    seq![vstd::utf8::encode_utf8("application/grpc"@)],
                )
            }),
    {
        if !self.config.transport.no_grpc_header {
            let bytes = text::text_bytes("application/grpc");
            proof {
                reveal_strlit("content-type");
                assert(text::lower("content-type"@) =~= "content-type"@);
                reveal_strlit("application/grpc");
                assert(round_trip::is_plain_text("application/grpc"@));
                round_trip::plain_text_is_a_value("application/grpc"@);
            }
            header::insert(headers, "content-type", bytes.as_slice());
        }
    }

    /// The method that is sent with, where it is one.
    pub fn uplink_method(&self) -> (r: Result<&str, ClientError>)
        ensures
            match r {
                Ok(m) => m@ == self.config.transport.uplink_method@ && header::is_token(m@),
                Err(e) => !header::is_token(self.config.transport.uplink_method@) && e
                    == ClientError::Method,
            },
    {
        let method = self.config.transport.uplink_method.as_str();
        if header::check_method(method) {
            Ok(method)
        } else {
            Err(ClientError::Method)
        }
    }

    /// The request for one packet of a session: with its bytes in the body that is
    /// handed back, or in the fields.
    pub fn packet(&self, session: &str, sequence: u64, bytes: &[u8]) -> (r: Result<
        (RequestUrl, axum::http::HeaderMap, Vec<u8>),
        ClientError,
    >)
        requires
            self.wf(),
            bytes@.len() <= usize::MAX / 3,
            self.config.transport.data_placement == config::Placement::Header ==> bytes@.len()
                <= 1_000_000,
        ensures
            exists|n: nat|
                #[trigger] is_length(self.config.transport, n) && is_packet(
                    self.config.transport,
                    n,
                    (self.url@, header::contents(self.headers)),
                    (session@, sequence, bytes@),
                    r,
                ),
            forall|name: Seq<char>|
                r is Ok && !carried::written(self.config.transport, name) && (
                self.config.transport.data_placement == config::Placement::Header
                    ==> !name.contains('-')) && (self.config.transport.data_placement
                    == config::Placement::Cookie ==> name != "cookie"@)
                    ==> #[trigger] header::values_under(header::contents(r->Ok_0.1), name)
                    == header::values_under(header::contents(self.headers), name),
            r is Ok && !carried::written(self.config.transport, "host"@) ==> header::text_under(
                header::contents(r->Ok_0.1),
                "host"@,
            ) == header::text_under(header::contents(self.headers), "host"@),
    {
        let config = &self.config.transport;
        let ghost base = (self.url@, header::contents(self.headers));
        let ghost packet = (session@, sequence, bytes@);
        let asked = self.request(Some(session), Some(sequence));
        let ghost n = choose|n: nat|
            #[trigger] is_length(*config, n) && is_sent(
                *config,
                n,
                base,
                Some(session@),
                Some(sequence),
                asked,
            );
        let (url, mut headers) = match asked {
            Ok(made) => made,
            Err(e) => {
                proof {
                    assert(is_packet(*config, n, base, packet, Err(e)));
                }
                return Err(e);
            },
        };
        let ghost made = header::contents(headers);
        proof {
            header::lemma_room(header::contents(headers), 497, seq![], seq![]);
        }
        match payload::put_payload(config, bytes, &mut headers) {
            Err(e) => {
                proof {
                    assert(is_packet(*config, n, base, packet, Err(ClientError::Protocol(e))));
                }
                Err(ClientError::Protocol(e))
            },
            Ok(body) => {
                let body = match body {
                    Some(b) => b,
                    None => Vec::new(),
                };
                let r = Ok((url, headers, body));
                proof {
                    assert(is_packet(*config, n, base, packet, r));
                    assert forall|name: Seq<char>|
                        !carried::written(*config, name) && (config.data_placement
                            == config::Placement::Header ==> !name.contains('-')) && (
                        config.data_placement == config::Placement::Cookie ==> name
                            != "cookie"@) implies #[trigger] header::values_under(
                        header::contents(headers),
                        name,
                    ) == header::values_under(base.1, name) by {
                        assert(header::values_under(made, name) == header::values_under(
                            base.1,
                            name,
                        ));
                        carried::packets_leave_the_other_fields(*config, made, bytes@, name);
                    }
                    reveal_strlit("host");
                    reveal_strlit("cookie");
                    assert(text::lower("host"@) =~= "host"@);
                    assert("host"@.len() != "cookie"@.len());
                    assert(!"host"@.contains('-'));
                }
                r
            },
        }
    }

    /// An upload in packets: its first packet has the number 0.
    pub fn upload(&self) -> (r: Upload)
        ensures
            r.next == 0,
            r.interval == self.config.transport.packet_interval_ms,
    {
        Upload { next: 0, interval: self.config.transport.packet_interval_ms }
    }

    /// How much is read of a connection at once.
    pub fn buffer_size(&self) -> (r: usize)
        ensures
            r == (if self.config.transport.max_packet_size >= 65536 {
                self.config.transport.max_packet_size as int
            } else {
                65536
            }),
    {
        if self.config.transport.max_packet_size >= 65536 {
            self.config.transport.max_packet_size
        } else {
            65536
        }
    }
}

/// An upload in packets.
#[derive(Debug)]
pub struct Upload {
    /// The number of the next packet.
    pub next: u64,
    /// The pause between packets, in milliseconds.
    pub interval: u64,
}

impl Upload {
    /// Counts a packet that was sent: the next one has the next number. There is a
    /// pause before it where one is set.
    pub fn sent(&mut self) -> (r: Option<Duration>)
        requires
            old(self).next < u64::MAX,
        ensures
            final(self).next == old(self).next + 1,
            final(self).interval == old(self).interval,
            match r {
                Some(pause) => old(self).interval > 0 && pause.millis == old(self).interval,
                None => old(self).interval == 0,
            },
    {
        self.next = self.next + 1;
        if self.interval > 0 {
            Some(Duration { millis: self.interval as u128 })
        } else {
            None
        }
    }
}

/// A result is what is sent with a padding, a session and a number.
pub open spec fn is_sent(
    config: TransportConfig,
    length: nat,
    base: (Seq<char>, Fields),
    session: Option<Seq<char>>,
    sequence: Option<u64>,
    r: Result<(RequestUrl, axum::http::HeaderMap), ClientError>,
) -> bool {
    match sent(config, length, base, session, sequence) {
        Ok((u, m)) => r matches Ok((url, headers)) && url@ == u && header::contents(headers) == m,
        Err(e) => r matches Err(f) && f == e,
    }
}

/// A result is what is sent with a padding, a session, a number and the bytes of a
/// packet, in the body or in the fields; they are read back where their places were
/// free.
pub open spec fn is_packet(
    config: TransportConfig,
    length: nat,
    base: (Seq<char>, Fields),
    packet: (Seq<char>, u64, Seq<u8>),
    r: Result<(RequestUrl, axum::http::HeaderMap, Vec<u8>), ClientError>,
) -> bool {
    match sent(config, length, base, Some(packet.0), Some(packet.1)) {
        Ok((u, m)) => match payload::with_payload(config, m, packet.2) {
            (n, None) => {
                &&& r matches Ok((url, headers, body)) && url@ == u && header::contents(headers)
                    == n && body@ == (if payload::in_body(config.data_placement) {
                    packet.2
                } else {
                    Seq::empty()
                })
                &&& payload::takes_payload(config, m, packet.2) ==> payload::payload_in(
                    config,
                    header::contents(r->Ok_0.1),
                    r->Ok_0.2@,
                ) == Ok::<Seq<u8>, ProtocolError>(packet.2)
            },
            (_, Some(e)) => r matches Err(f) && f == ClientError::Protocol(e),
        },
        Err(e) => r matches Err(f) && f == e,
    }
}

/// A client speaks the third version where that is asked for, the second where only
/// that is asked for or where one stream is kept open without TLS, and else what is
/// agreed on; and over TLS it offers what it can speak and nothing else.
pub proof fn clients_speak_what_is_asked_for(config: ClientConfig)
    ensures
        config.tls.http3 ==> spoken(config) == HttpVersion::Three && offered(config.tls) == seq![
            "h3",
        ],
        !config.tls.http3 && config.tls.http2_only ==> spoken(config) == HttpVersion::Two
            && offered(config.tls) == seq!["h2"],
        !config.tls.http3 && !config.tls.http2_only ==> offered(config.tls) == seq![
            "h2",
            "http/1.1",
        ],
        !config.tls.http3 && !config.tls.http2_only && text::starts_with(
            config.server@,
            "http://"@,
        ) && config.transport.mode == Mode::StreamOne ==> spoken(config) == HttpVersion::Two,
        !config.tls.http3 && !config.tls.http2_only && (config.transport.mode != Mode::StreamOne
            || !text::starts_with(config.server@, "http://"@)) ==> spoken(config)
            == HttpVersion::Agreed,
{
}

/// Each piece of a client's settings for TLS comes from its own place, in the text
/// or in a file and not in both; an encrypted hello needs HTTPS, a checked server
/// and one source alone.
pub proof fn clients_load_their_own_material(c: ClientConfig)
    ensures
        http_client(c) matches Ok(plan) ==> {
            &&& c.tls.ca_pem matches Some(s) ==> c.tls.ca_certificate is None && plan.ca
                == MaterialView::Given(vstd::utf8::encode_utf8(s@))
            &&& c.tls.ca_certificate matches Some(p) ==> c.tls.ca_pem is None && plan.ca
                == MaterialView::File(p@)
            &&& c.tls.client_certificate matches Some(s) ==> c.tls.client_certificate_path is None
                && plan.certificate == MaterialView::Given(vstd::utf8::encode_utf8(s@))
            &&& c.tls.client_certificate_path matches Some(p) ==> plan.certificate
                == MaterialView::File(p@)
            &&& c.tls.client_key matches Some(s) ==> c.tls.client_key_path is None && plan.key
                == MaterialView::Given(vstd::utf8::encode_utf8(s@))
            &&& c.tls.client_key_path matches Some(p) ==> plan.key == MaterialView::File(p@)
            &&& c.tls.ech_config matches Some(s) ==> plan.ech == MaterialView::Given(
                vstd::utf8::encode_utf8(s@),
            )
            &&& c.tls.ech_config_path matches Some(p) ==> plan.ech == MaterialView::File(p@)
            &&& c.tls.ech_config_bytes matches Some(b) ==> plan.ech == MaterialView::Given(b@)
            &&& c.tls.ca_pem is None && c.tls.ca_certificate is None ==> plan.ca
                == MaterialView::Nothing
            &&& c.connect_addr matches Some(a) ==> match plan.resolved {
                Some((host, address)) => address == a && location::url_host(c.server@) == Some(
                    Some(host),
                ),
                None => false,
            }
            &&& c.connect_addr is None ==> plan.resolved is None
            &&& c.transport.xmux.h_keep_alive_period > 0 ==> plan.keep_alive == Some(
                c.transport.xmux.h_keep_alive_period,
            )
            &&& c.transport.xmux.h_keep_alive_period <= 0 ==> plan.keep_alive is None
        },
        ech_fault(c) is None <==> {
            &&& !(c.tls.ech_config is Some && c.tls.ech_config_path is Some)
            &&& !(c.tls.ech_config is Some && c.tls.ech_config_bytes is Some)
            &&& !(c.tls.ech_config_path is Some && c.tls.ech_config_bytes is Some)
            &&& c.tls.ech_config is Some || c.tls.ech_config_path is Some
                || c.tls.ech_config_bytes is Some ==> text::starts_with(c.server@, "https://"@)
                && !c.tls.insecure
        },
{
}

} // verus!
