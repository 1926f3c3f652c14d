//! The transport's configuration and its rules.
use crate::header;
use crate::net::SocketAddr;
use crate::text;
use crate::time::Duration;
use vstd::prelude::*;

verus! {

/// A range of numbers, both ends included; nothing where its upper end is nought.
#[derive(Debug, Clone, Copy, PartialEq, Eq, Structural)]
pub struct RangeConfig {
    pub from: usize,
    pub to: usize,
}

impl Default for RangeConfig {
    fn default() -> (r: RangeConfig)
        ensures
            r == (RangeConfig { from: 0, to: 0 }),
    {
        RangeConfig { from: 0, to: 0 }
    }
}

/// What is wrong with a configuration.
#[derive(Debug, Clone, Copy, PartialEq, Eq, Structural)]
pub enum ConfigError {
    /// A range starts above nought and ends at nought.
    RangeWithoutEnd,
    /// A range starts above its end.
    RangeReversed,
    /// Connections are limited in two ways.
    XmuxExclusive,
    PaddingRange,
    PacketLimits,
    MetadataPlacement,
    DataPlacement,
    PaddingPlacement,
    PaddingMethod,
    UplinkMethod,
    GetUplink,
    HostHeader,
    HeaderName,
    HeaderValue,
    HostValue,
    TokenValue,
    MetadataName,
}

/// A range that cannot be, by its name.
#[derive(Debug, Clone, PartialEq, Eq)]
pub struct InvalidRange {
    pub name: String,
    pub error: ConfigError,
}

impl RangeConfig {
    /// What is wrong with the range, if anything is.
    pub open spec fn problem(self) -> Option<ConfigError> {
        if self.to == 0 {
            if self.from != 0 {
                Some(ConfigError::RangeWithoutEnd)
            } else {
                None
            }
        } else if self.from > self.to {
            Some(ConfigError::RangeReversed)
        } else {
            None
        }
    }

    /// Checks the range, which goes by a name.
    pub fn validate(self, name: &str) -> (r: Result<(), InvalidRange>)
        ensures
            match r {
                Ok(()) => self.problem() is None,
                Err(e) => self.problem() == Some(e.error) && e.name@ == name@,
            },
    {
        if self.to == 0 {
            if self.from != 0 {
                return Err(
                    InvalidRange {
                        name: text::copy_text(name),
                        error: ConfigError::RangeWithoutEnd,
                    },
                );
            }
        } else if self.from > self.to {
            return Err(
                InvalidRange { name: text::copy_text(name), error: ConfigError::RangeReversed },
            );
        }
        Ok(())
    }

    /// A number of the range, by chance; nought where the range is nothing.
    pub fn sample(self) -> (r: usize)
        requires
            self.problem() is None,
        ensures
            self.to == 0 ==> r == 0,
            self.to != 0 ==> self.from <= r <= self.to,
    {
        if self.to == 0 {
            0
        } else {
            random_between(self.from, self.to)
        }
    }
}

/// Calls `random_range` of the crate `rand` on a range with both ends included:
/// some number of the range. Which one is left to chance.
#[verifier::external_body]
pub(crate) fn random_between(from: usize, to: usize) -> (r: usize)
    requires
        from <= to,
    ensures
        from <= r <= to,
{
    rand::random_range(from..=to)
}

/// How connections are shared and renewed.
#[derive(Debug, Clone, Copy, PartialEq, Eq, Structural)]
pub struct XmuxConfig {
    pub max_concurrency: RangeConfig,
    pub max_connections: RangeConfig,
    pub c_max_reuse_times: RangeConfig,
    pub h_max_request_times: RangeConfig,
    pub h_max_reusable_secs: RangeConfig,
    pub h_keep_alive_period: u64,
}

impl Default for XmuxConfig {
    fn default() -> (r: XmuxConfig)
        ensures
            r == XmuxConfig::blank(),
    {
        let none = RangeConfig { from: 0, to: 0 };
        XmuxConfig {
            max_concurrency: none,
            max_connections: none,
            c_max_reuse_times: none,
            h_max_request_times: none,
            h_max_reusable_secs: none,
            h_keep_alive_period: 0,
        }
    }
}

/// The first of two findings.
pub open spec fn first_of(a: Option<ConfigError>, b: Option<ConfigError>) -> Option<ConfigError> {
    match a {
        Some(e) => Some(e),
        None => b,
    }
}

impl XmuxConfig {
    pub open spec fn blank() -> XmuxConfig {
        let none = RangeConfig { from: 0, to: 0 };
        XmuxConfig {
            max_concurrency: none,
            max_connections: none,
            c_max_reuse_times: none,
            h_max_request_times: none,
            h_max_reusable_secs: none,
            h_keep_alive_period: 0,
        }
    }

    /// What is wrong first, if anything is.
    pub open spec fn problem(self) -> Option<ConfigError> {
        if self.max_concurrency.to != 0 && self.max_connections.to != 0 {
            Some(ConfigError::XmuxExclusive)
        } else {
            first_of(
                self.max_concurrency.problem(),
                first_of(
                    self.max_connections.problem(),
                    first_of(
                        self.c_max_reuse_times.problem(),
                        first_of(
                            self.h_max_request_times.problem(),
                            self.h_max_reusable_secs.problem(),
                        ),
                    ),
                ),
            )
        }
    }

    /// Checks the limits.
    pub fn validate(&self) -> (r: Result<(), ConfigError>)
        ensures
            match self.problem() {
                Some(e) => r == Err::<(), ConfigError>(e),
                None => r is Ok,
            },
    {
        if self.max_concurrency.to != 0 && self.max_connections.to != 0 {
            return Err(ConfigError::XmuxExclusive);
        }
        match self.max_concurrency.validate("xmux.max_concurrency") {
            Err(e) => {
                return Err(e.error);
            },
            Ok(()) => {},
        }
        match self.max_connections.validate("xmux.max_connections") {
            Err(e) => {
                return Err(e.error);
            },
            Ok(()) => {},
        }
        match self.c_max_reuse_times.validate("xmux.c_max_reuse_times") {
            Err(e) => {
                return Err(e.error);
            },
            Ok(()) => {},
        }
        match self.h_max_request_times.validate("xmux.h_max_request_times") {
            Err(e) => {
                return Err(e.error);
            },
            Ok(()) => {},
        }
        match self.h_max_reusable_secs.validate("xmux.h_max_reusable_secs") {
            Err(e) => Err(e.error),
            Ok(()) => Ok(()),
        }
    }
}

/// How a connection is carried over requests.
#[derive(Debug, Clone, Copy, PartialEq, Eq, Structural)]
pub enum Mode {
    Auto,
    StreamOne,
    StreamUp,
    PacketUp,
}

impl Default for Mode {
    fn default() -> (r: Mode)
        ensures
            r == Mode::Auto,
    {
        Mode::Auto
    }
}

impl Mode {
    /// The mode that is used: packets, where none is asked for.
    pub fn resolved(self) -> (r: Mode)
        ensures
            r == (if self == Mode::Auto {
                Mode::PacketUp
            } else {
                self
            }),
    {
        match self {
            Mode::Auto => Mode::PacketUp,
            mode => mode,
        }
    }
}

/// Where in a request something stands.
#[derive(Debug, Clone, Copy, PartialEq, Eq, Structural)]
pub enum Placement {
    Path,
    Query,
    Header,
    Cookie,
    Body,
    Auto,
    QueryInHeader,
}

impl Default for Placement {
    fn default() -> (r: Placement)
        ensures
            r == Placement::Path,
    {
        Placement::Path
    }
}

/// A header field that every request carries.
#[derive(Debug, Clone, PartialEq, Eq)]
pub struct HeaderField {
    pub name: String,
    pub value: String,
}

/// The transport's settings.
#[derive(Debug, Clone)]
pub struct TransportConfig {
    pub path: String,
    pub query: Option<String>,
    pub host: Option<String>,
    pub mode: Mode,
    pub headers: Vec<HeaderField>,
    pub token: Option<String>,
    pub session_placement: Placement,
    pub session_key: String,
    pub sequence_placement: Placement,
    pub sequence_key: String,
    pub data_placement: Placement,
    pub data_key: String,
    pub padding_min: usize,
    pub padding_max: usize,
    pub padding_obfs: bool,
    pub padding_placement: Placement,
    pub padding_key: String,
    pub padding_header: String,
    pub padding_method: String,
    pub uplink_method: String,
    pub no_grpc_header: bool,
    pub no_sse_header: bool,
    pub max_packet_size: usize,
    pub max_buffered_packets: usize,
    pub packet_interval_ms: u64,
    pub session_timeout_secs: u64,
    pub max_sessions: usize,
    pub max_session_id_length: usize,
    pub xmux: XmuxConfig,
}

impl TransportConfig {
    /// The settings that hold where nothing is configured.
    pub open spec fn standard(self) -> bool {
        &&& self.path@ == "/xhttp"@
        &&& self.query is None
        &&& self.host is None
        &&& self.mode == Mode::Auto
        &&& self.headers@.len() == 0
        &&& self.token is None
        &&& self.session_placement == Placement::Path
        &&& self.session_key@ == "x_session"@
        &&& self.sequence_placement == Placement::Path
        &&& self.sequence_key@ == "x_seq"@
        &&& self.data_placement == Placement::Body
        &&& self.data_key@ == "X-Data"@
        &&& self.padding_min == 100
        &&& self.padding_max == 1000
        &&& !self.padding_obfs
        &&& self.padding_placement == Placement::QueryInHeader
        &&& self.padding_key@ == "x_padding"@
        &&& self.padding_header@ == "X-Padding"@
        &&& self.padding_method@ == "repeat-x"@
        &&& self.uplink_method@ == "POST"@
        &&& !self.no_grpc_header
        &&& !self.no_sse_header
        &&& self.max_packet_size == 1_000_000
        &&& self.max_buffered_packets == 30
        &&& self.packet_interval_ms == 30
        &&& self.session_timeout_secs == 30
        &&& self.max_sessions == 4096
        &&& self.max_session_id_length == 256
        &&& self.xmux == XmuxConfig::blank()
    }
}

impl Default for TransportConfig {
    fn default() -> (r: TransportConfig)
        ensures
            r.standard(),
    {
        TransportConfig {
            path: text::copy_text("/xhttp"),
            query: None,
            host: None,
            mode: Mode::Auto,
            headers: Vec::new(),
            token: None,
            session_placement: Placement::Path,
            session_key: text::copy_text("x_session"),
            sequence_placement: Placement::Path,
            sequence_key: text::copy_text("x_seq"),
            data_placement: Placement::Body,
            data_key: text::copy_text("X-Data"),
            padding_min: 100,
            padding_max: 1000,
            padding_obfs: false,
            padding_placement: Placement::QueryInHeader,
            padding_key: text::copy_text("x_padding"),
            padding_header: text::copy_text("X-Padding"),
            padding_method: text::copy_text("repeat-x"),
            uplink_method: text::copy_text("POST"),
            no_grpc_header: false,
            no_sse_header: false,
            max_packet_size: 1_000_000,
            max_buffered_packets: 30,
            packet_interval_ms: 30,
            session_timeout_secs: 30,
            max_sessions: 4096,
            max_session_id_length: 256,
            xmux: XmuxConfig {
                max_concurrency: RangeConfig { from: 0, to: 0 },
                max_connections: RangeConfig { from: 0, to: 0 },
                c_max_reuse_times: RangeConfig { from: 0, to: 0 },
                h_max_request_times: RangeConfig { from: 0, to: 0 },
                h_max_reusable_secs: RangeConfig { from: 0, to: 0 },
                h_keep_alive_period: 0,
            },
        }
    }
}

// ---- the rules of the transport's settings ----

/// A path without slashes at its end, but for the first one.
pub open spec fn without_end_slashes(s: Seq<char>) -> Seq<char>
    decreases s.len(),
{
    if s.len() > 1 && s.last() == '/' {
        without_end_slashes(s.drop_last())
    } else {
        s
    }
}

/// A path with a slash in front.
pub open spec fn with_front_slash(s: Seq<char>) -> Seq<char> {
    if s.len() > 0 && s[0] == '/' {
        s
    } else {
        seq!['/'] + s
    }
}

/// The path that a configured one stands for: what is in front of a question
/// mark, with a slash in front and none at the end.
pub open spec fn normal_path(s: Seq<char>) -> Seq<char> {
    without_end_slashes(
        with_front_slash(
            match text::split_once(s, '?') {
                Some((path, _)) => path,
                None => s,
            },
        ),
    )
}

/// The query that goes with it: what stands behind the question mark in the path,
/// or else the one configured.
pub open spec fn normal_query(path: Seq<char>, query: Option<Seq<char>>) -> Option<Seq<char>> {
    match text::split_once(path, '?') {
        Some((_, q)) if q.len() > 0 => Some(q),
        _ => query,
    }
}

/// Where metadata can stand.
pub open spec fn holds_metadata(p: Placement) -> bool {
    p == Placement::Path || p == Placement::Query || p == Placement::Header || p
        == Placement::Cookie
}

/// Where data can stand.
pub open spec fn holds_data(p: Placement) -> bool {
    p == Placement::Body || p == Placement::Header || p == Placement::Cookie || p == Placement::Auto
}

/// Where padding can stand.
pub open spec fn holds_padding(p: Placement) -> bool {
    p == Placement::Header || p == Placement::Cookie || p == Placement::Query || p
        == Placement::QueryInHeader
}

/// Whether a text can be the value of a header field.
pub open spec fn is_field_value(s: Seq<char>) -> bool {
    header::is_value(vstd::utf8::encode_utf8(s))
}

/// What is wrong with a field that every request carries.
pub open spec fn field_problem(f: HeaderField) -> Option<ConfigError> {
    if text::lower(f.name@) == "host"@ {
        Some(ConfigError::HostHeader)
    } else if !header::is_name(f.name@) {
        Some(ConfigError::HeaderName)
    } else if !is_field_value(f.value@) {
        Some(ConfigError::HeaderValue)
    } else {
        None
    }
}

/// What is wrong first with the fields that every request carries.
pub open spec fn fields_problem(s: Seq<HeaderField>) -> Option<ConfigError>
    decreases s.len(),
{
    if s.len() == 0 {
        None
    } else {
        first_of(field_problem(s[0]), fields_problem(s.skip(1)))
    }
}

/// The value of the field that authorizes a request.
pub open spec fn bearer(token: Seq<char>) -> Seq<char> {
    "Bearer "@ + token
}

impl TransportConfig {
    /// What is wrong before the upload method is looked at.
    pub open spec fn early_problem(self) -> Option<ConfigError> {
        if self.padding_min > self.padding_max {
            Some(ConfigError::PaddingRange)
        } else if self.max_packet_size == 0 || self.max_buffered_packets == 0
            || self.session_timeout_secs == 0 || self.max_sessions == 0
            || self.max_session_id_length == 0 {
            Some(ConfigError::PacketLimits)
        } else if !holds_metadata(self.session_placement) || !holds_metadata(
            self.sequence_placement,
        ) {
            Some(ConfigError::MetadataPlacement)
        } else if !holds_data(self.data_placement) {
            Some(ConfigError::DataPlacement)
        } else if !holds_padding(self.padding_placement) {
            Some(ConfigError::PaddingPlacement)
        } else if self.padding_method@ != "repeat-x"@ && self.padding_method@ != "tokenish"@ {
            Some(ConfigError::PaddingMethod)
        } else {
            None
        }
    }

    /// What is wrong from the upload method on.
    pub open spec fn late_problem(self) -> Option<ConfigError> {
        let method = text::upper(self.uplink_method@);
        if !header::is_token(method) {
            Some(ConfigError::UplinkMethod)
        } else if method == "GET"@ && self.mode != Mode::Auto && self.mode != Mode::PacketUp {
            Some(ConfigError::GetUplink)
        } else if fields_problem(self.headers@) is Some {
            fields_problem(self.headers@)
        } else if self.host is Some && !is_field_value(self.host->0@) {
            Some(ConfigError::HostValue)
        } else if self.token is Some && !is_field_value(bearer(self.token->0@)) {
            Some(ConfigError::TokenValue)
        } else if self.xmux.problem() is Some {
            self.xmux.problem()
        } else if self.session_placement == Placement::Header && !header::is_name(
            self.session_key@,
        ) {
            Some(ConfigError::MetadataName)
        } else if self.sequence_placement == Placement::Header && !header::is_name(
            self.sequence_key@,
        ) {
            Some(ConfigError::MetadataName)
        } else {
            None
        }
    }

    /// What is wrong first, if anything is.
    pub open spec fn problem(self) -> Option<ConfigError> {
        first_of(self.early_problem(), self.late_problem())
    }

    /// The rest of the settings is as it was: all but the path, the query and the
    /// upload method.
    pub open spec fn same_rest(self, other: TransportConfig) -> bool {
        &&& self.host == other.host
        &&& self.mode == other.mode
        &&& self.headers == other.headers
        &&& self.token == other.token
        &&& self.session_placement == other.session_placement
        &&& self.session_key == other.session_key
        &&& self.sequence_placement == other.sequence_placement
        &&& self.sequence_key == other.sequence_key
        &&& self.data_placement == other.data_placement
        &&& self.data_key == other.data_key
        &&& self.padding_min == other.padding_min
        &&& self.padding_max == other.padding_max
        &&& self.padding_obfs == other.padding_obfs
        &&& self.padding_placement == other.padding_placement
        &&& self.padding_key == other.padding_key
        &&& self.padding_header == other.padding_header
        &&& self.padding_method == other.padding_method
        &&& self.no_grpc_header == other.no_grpc_header
        &&& self.no_sse_header == other.no_sse_header
        &&& self.max_packet_size == other.max_packet_size
        &&& self.max_buffered_packets == other.max_buffered_packets
        &&& self.packet_interval_ms == other.packet_interval_ms
        &&& self.session_timeout_secs == other.session_timeout_secs
        &&& self.max_sessions == other.max_sessions
        &&& self.max_session_id_length == other.max_session_id_length
        &&& self.xmux == other.xmux
    }
}

fn check_field_value(s: &str) -> (r: bool)
    ensures
        r == is_field_value(s@),
{
    let bytes = text::text_bytes(s);
    header::check_value(bytes.as_slice())
}

fn check_fields(fields: &Vec<HeaderField>) -> (r: Option<ConfigError>)
    ensures
        r == fields_problem(fields@),
{
    let mut i: usize = 0;
    proof {
        assert(fields@.skip(0) =~= fields@);
    }
    while i < fields.len()
        invariant
            i <= fields@.len(),
            fields_problem(fields@) == fields_problem(fields@.skip(i as int)),
        decreases fields@.len() - i,
    {
        proof {
            assert(fields@.skip(i as int)[0] == fields@[i as int]);
            assert(fields@.skip(i as int).skip(1) =~= fields@.skip(i + 1));
        }
        let name = text::to_lower(fields[i].name.as_str());
        if text::same_text(name.as_str(), "host") {
            return Some(ConfigError::HostHeader);
        }
        if !header::check_name(fields[i].name.as_str()) {
            return Some(ConfigError::HeaderName);
        }
        if !check_field_value(fields[i].value.as_str()) {
            return Some(ConfigError::HeaderValue);
        }
        i = i + 1;
    }
    None
}

fn normalize_path(s: &str) -> (r: String)
    ensures
        r@ == without_end_slashes(with_front_slash(s@)),
{
    let mut v = text::to_chars(s);
    if !(v.len() > 0 && v[0] == '/') {
        v.insert(0, '/');
        proof {
            assert(v@ =~= seq!['/'] + s@);
        }
    }
    let ghost all = v@;
    let mut n: usize = v.len();
    proof {
        assert(all.take(n as int) =~= all);
    }
    while n > 1 && v[n - 1] == '/'
        invariant
            1 <= n <= v@.len(),
            v@ == all,
            without_end_slashes(all) == without_end_slashes(all.take(n as int)),
        decreases n,
    {
        proof {
            assert(all.take(n as int).drop_last() =~= all.take(n - 1));
            assert(all.take(n as int).last() == all[n - 1]);
        }
        n = n - 1;
    }
    proof {
        assert(all.subrange(0, n as int) =~= all.take(n as int));
    }
    text::to_text(&v.as_slice()[0..n])
}

/// The value of the field that authorizes a request.
pub fn bearer_text(token: &str) -> (r: String)
    ensures
        r@ == bearer(token@),
{
    let mut s = text::copy_text("Bearer ");
    s.append(token);
    s
}

impl TransportConfig {
    fn normalize(&mut self)
        ensures
            final(self).path@ == normal_path(old(self).path@),
            text::opt_text(final(self).query) == normal_query(
                old(self).path@,
                text::opt_text(old(self).query),
            ),
            final(self).uplink_method == old(self).uplink_method,
            final(self).same_rest(*old(self)),
    {
        match text::split_at_char(self.path.as_str(), '?') {
            Some((path, query)) => {
                self.path = path;
                let chars = text::to_chars(query.as_str());
                if chars.len() > 0 {
                    self.query = Some(query);
                }
            },
            None => {},
        }
        self.path = normalize_path(self.path.as_str());
    }

    fn check_early(&self) -> (r: Option<ConfigError>)
        ensures
            r == self.early_problem(),
    {
        if self.padding_min > self.padding_max {
            return Some(ConfigError::PaddingRange);
        }
        if self.max_packet_size == 0 || self.max_buffered_packets == 0 || self.session_timeout_secs
            == 0 || self.max_sessions == 0 || self.max_session_id_length == 0 {
            return Some(ConfigError::PacketLimits);
        }
        if !is_metadata_place(self.session_placement) || !is_metadata_place(
            self.sequence_placement,
        ) {
            return Some(ConfigError::MetadataPlacement);
        }
        match self.data_placement {
            Placement::Body | Placement::Header | Placement::Cookie | Placement::Auto => {},
            _ => {
                return Some(ConfigError::DataPlacement);
            },
        }
        match self.padding_placement {
            Placement::Header | Placement::Cookie | Placement::Query | Placement::QueryInHeader => {
            },
            _ => {
                return Some(ConfigError::PaddingPlacement);
            },
        }
        if !text::same_text(self.padding_method.as_str(), "repeat-x") && !text::same_text(
            self.padding_method.as_str(),
            "tokenish",
        ) {
            return Some(ConfigError::PaddingMethod);
        }
        None
    }

    fn check_late(&self, method: &str) -> (r: Option<ConfigError>)
        requires
            method@ == text::upper(self.uplink_method@),
        ensures
            r == self.late_problem(),
    {
        if !header::check_method(method) {
            return Some(ConfigError::UplinkMethod);
        }
        if text::same_text(method, "GET") && self.mode != Mode::Auto && self.mode != Mode::PacketUp {
            return Some(ConfigError::GetUplink);
        }
        match check_fields(&self.headers) {
            Some(e) => {
                return Some(e);
            },
            None => {},
        }
        match &self.host {
            Some(host) => {
                if !check_field_value(host.as_str()) {
                    return Some(ConfigError::HostValue);
                }
            },
            None => {},
        }
        match &self.token {
            Some(token) => {
                let value = bearer_text(token.as_str());
                if !check_field_value(value.as_str()) {
                    return Some(ConfigError::TokenValue);
                }
            },
            None => {},
        }
        match self.xmux.validate() {
            Err(e) => {
                return Some(e);
            },
            Ok(()) => {},
        }
        if self.session_placement == Placement::Header && !header::check_name(
            self.session_key.as_str(),
        ) {
            return Some(ConfigError::MetadataName);
        }
        if self.sequence_placement == Placement::Header && !header::check_name(
            self.sequence_key.as_str(),
        ) {
            return Some(ConfigError::MetadataName);
        }
        None
    }

    /// Brings the path, the query and the upload method into their normal form and
    /// checks the settings.
    pub fn validate(&mut self) -> (r: Result<(), ConfigError>)
        ensures
            match old(self).problem() {
                Some(e) => r == Err::<(), ConfigError>(e),
                None => r is Ok,
            },
            final(self).path@ == normal_path(old(self).path@),
            text::opt_text(final(self).query) == normal_query(
                old(self).path@,
                text::opt_text(old(self).query),
            ),
            final(self).uplink_method@ == (if old(self).early_problem() is Some {
                old(self).uplink_method@
            } else {
                text::upper(old(self).uplink_method@)
            }),
            final(self).same_rest(*old(self)),
    {
        self.normalize();
        match self.check_early() {
            Some(e) => {
                return Err(e);
            },
            None => {},
        }
        let method = text::to_upper(self.uplink_method.as_str());
        let found = self.check_late(method.as_str());
        self.uplink_method = method;
        match found {
            Some(e) => Err(e),
            None => Ok(()),
        }
    }

    /// How long a session without requests is kept.
    pub fn session_timeout(&self) -> (r: Duration)
        ensures
            r.millis == self.session_timeout_secs * 1000,
    {
        Duration::from_secs(self.session_timeout_secs)
    }
}

fn is_metadata_place(p: Placement) -> (r: bool)
    ensures
        r == holds_metadata(p),
{
    match p {
        Placement::Path | Placement::Query | Placement::Header | Placement::Cookie => true,
        _ => false,
    }
}

// ---- laws ----

/// A path in its normal form starts with a slash and ends with none, unless it is
/// one slash.
pub proof fn normal_path_shape(s: Seq<char>)
    ensures
        normal_path(s).len() > 0,
        normal_path(s)[0] == '/',
        normal_path(s).len() > 1 ==> normal_path(s).last() != '/',
{
    let head = match text::split_once(s, '?') {
        Some((path, _)) => path,
        None => s,
    };
    lemma_without_end(with_front_slash(head));
}

proof fn lemma_without_end(s: Seq<char>)
    requires
        s.len() > 0,
        s[0] == '/',
    ensures
        without_end_slashes(s).len() > 0,
        without_end_slashes(s)[0] == '/',
        without_end_slashes(s).len() > 1 ==> without_end_slashes(s).last() != '/',
        without_end_slashes(s).len() <= s.len(),
        without_end_slashes(s) == s.take(without_end_slashes(s).len() as int),
    decreases s.len(),
{
    if s.len() > 1 && s.last() == '/' {
        lemma_without_end(s.drop_last());
        let r = without_end_slashes(s.drop_last());
        assert(s.drop_last().take(r.len() as int) =~= s.take(r.len() as int));
    } else {
        assert(s.take(s.len() as int) =~= s);
    }
}

/// Normalizing a path twice is normalizing it once.
pub proof fn normal_path_idempotent(s: Seq<char>)
    ensures
        normal_path(normal_path(s)) == normal_path(s),
{
    let n = text::span(s, '?') as int;
    text::lemma_span_bounds(s, '?');
    let head = match text::split_once(s, '?') {
        Some((path, _)) => path,
        None => s,
    };
    let front = with_front_slash(head);
    lemma_without_end(front);
    let p = normal_path(s);
    assert(!head.contains('?')) by {
        if head.contains('?') {
            let i = choose|i: int| 0 <= i < head.len() && head[i] == '?';
            assert(s[i] == '?');
        }
    }
    assert(!p.contains('?')) by {
        if p.contains('?') {
            let i = choose|i: int| 0 <= i < p.len() && p[i] == '?';
            assert(front[i] == '?');
            if front.len() > head.len() {
                assert(head[i - 1] == '?');
            } else {
                assert(head[i] == '?');
            }
        }
    }
    text::lemma_span_bounds(p, '?');
    let m = text::span(p, '?') as int;
    assert(m == p.len()) by {
        if m < p.len() {
            assert(p[m] == '?');
        }
    }
}

/// Settings that were found right are found right again, and stay as they are.
pub proof fn validating_twice(a: TransportConfig, b: TransportConfig)
    requires
        a.problem() is None,
        b.same_rest(a),
        b.uplink_method@ == text::upper(a.uplink_method@),
    ensures
        b.problem() is None,
        text::upper(b.uplink_method@) == b.uplink_method@,
{
    let m = text::upper(a.uplink_method@);
    assert(text::upper(m) =~= m);
}

// ---- servers and clients ----

/// A server.
#[derive(Debug, Clone)]
pub struct ServerConfig {
    pub listen: String,
    pub target: String,
    pub users: Vec<String>,
    pub transport: TransportConfig,
    pub tls: Option<ServerTlsConfig>,
}

/// A server's certificate.
#[derive(Debug, Clone, PartialEq, Eq)]
pub struct ServerTlsConfig {
    pub certificate: String,
    pub private_key: String,
    pub http3: bool,
}

/// A client of a server.
#[derive(Debug, Clone)]
pub struct ClientConfig {
    pub listen: String,
    pub server: String,
    pub connect_addr: Option<SocketAddr>,
    pub transport: TransportConfig,
    pub tls: ClientTlsConfig,
}

/// What a client checks and shows when it connects.
#[derive(Debug, Clone, PartialEq, Eq)]
pub struct ClientTlsConfig {
    pub insecure: bool,
    pub disable_sni: bool,
    pub min_version: Option<String>,
    pub max_version: Option<String>,
    pub ca_certificate: Option<String>,
    pub ca_pem: Option<String>,
    pub certificate_public_key_sha256: Vec<String>,
    pub client_certificate: Option<String>,
    pub client_certificate_path: Option<String>,
    pub client_key: Option<String>,
    pub client_key_path: Option<String>,
    pub http2_only: bool,
    pub http3: bool,
    pub ech_config: Option<String>,
    pub ech_config_path: Option<String>,
    pub ech_config_bytes: Option<Vec<u8>>,
}

impl ClientTlsConfig {
    /// Nothing is configured.
    pub open spec fn blank(self) -> bool {
        &&& !self.insecure
        &&& !self.disable_sni
        &&& self.min_version is None
        &&& self.max_version is None
        &&& self.ca_certificate is None
        &&& self.ca_pem is None
        &&& self.certificate_public_key_sha256@.len() == 0
        &&& self.client_certificate is None
        &&& self.client_certificate_path is None
        &&& self.client_key is None
        &&& self.client_key_path is None
        &&& !self.http2_only
        &&& !self.http3
        &&& self.ech_config is None
        &&& self.ech_config_path is None
        &&& self.ech_config_bytes is None
    }
}

impl Default for ClientTlsConfig {
    fn default() -> (r: ClientTlsConfig)
        ensures
            r.blank(),
    {
        ClientTlsConfig {
            insecure: false,
            disable_sni: false,
            min_version: None,
            max_version: None,
            ca_certificate: None,
            ca_pem: None,
            certificate_public_key_sha256: Vec::new(),
            client_certificate: None,
            client_certificate_path: None,
            client_key: None,
            client_key_path: None,
            http2_only: false,
            http3: false,
            ech_config: None,
            ech_config_path: None,
            ech_config_bytes: None,
        }
    }
}

// ---- laws of settings ----

proof fn lemma_fields_problem(s: Seq<HeaderField>)
    ensures
        fields_problem(s) is None <==> forall|i: int|
            0 <= i < s.len() ==> text::lower((#[trigger] s[i]).name@) != "host"@ && header::is_name(
                s[i].name@,
            ) && is_field_value(s[i].value@),
    decreases s.len(),
{
    if s.len() > 0 {
        let rest = s.skip(1);
        lemma_fields_problem(rest);
        assert forall|i: int| 0 <= i < rest.len() implies rest[i] == s[i + 1] by {
        }
        if fields_problem(s) is None {
            assert forall|i: int| 0 <= i < s.len() implies text::lower((#[trigger] s[i]).name@)
                != "host"@ && header::is_name(s[i].name@) && is_field_value(s[i].value@) by {
                if i > 0 {
                    assert(rest[i - 1] == s[i]);
                }
            }
        }
        if forall|i: int|
            0 <= i < s.len() ==> text::lower((#[trigger] s[i]).name@) != "host"@ && header::is_name(
                s[i].name@,
            ) && is_field_value(s[i].value@) {
            assert(s[0].name@ == s[0].name@);
            assert forall|i: int| 0 <= i < rest.len() implies text::lower(
                (#[trigger] rest[i]).name@,
            ) != "host"@ && header::is_name(rest[i].name@) && is_field_value(rest[i].value@) by {
                assert(rest[i] == s[i + 1]);
            }
        }
    }
}

/// Settings are in order exactly where all of this holds: the range of paddings is
/// one, no limit is zero, every part has a place that can hold it, the method of
/// padding is known, the upload method is a token and no `GET` but for packets, the
/// fields, the host and the token can be written, the host is not among the fields,
/// the limits of connections are ranges and do not exclude one another, and the
/// session and the number have names that fields can have.
pub proof fn settings_are_in_order(c: TransportConfig)
    ensures
        c.problem() is None <==> {
            &&& c.padding_min <= c.padding_max
            &&& c.max_packet_size > 0 && c.max_buffered_packets > 0 && c.session_timeout_secs > 0
                && c.max_sessions > 0 && c.max_session_id_length > 0
            &&& c.session_placement == Placement::Path || c.session_placement == Placement::Query
                || c.session_placement == Placement::Header || c.session_placement
                == Placement::Cookie
            &&& c.sequence_placement == Placement::Path || c.sequence_placement == Placement::Query
                || c.sequence_placement == Placement::Header || c.sequence_placement
                == Placement::Cookie
            &&& c.data_placement == Placement::Body || c.data_placement == Placement::Header
                || c.data_placement == Placement::Cookie || c.data_placement == Placement::Auto
            &&& c.padding_placement == Placement::Header || c.padding_placement
                == Placement::Cookie || c.padding_placement == Placement::Query
                || c.padding_placement == Placement::QueryInHeader
            &&& c.padding_method@ == "repeat-x"@ || c.padding_method@ == "tokenish"@
            &&& header::is_token(text::upper(c.uplink_method@))
            &&& text::upper(c.uplink_method@) == "GET"@ ==> c.mode == Mode::Auto || c.mode
                == Mode::PacketUp
            &&& forall|i: int|
                0 <= i < c.headers@.len() ==> text::lower((#[trigger] c.headers@[i]).name@)
                    != "host"@ && header::is_name(c.headers@[i].name@) && is_field_value(
                    c.headers@[i].value@,
                )
            &&& c.host matches Some(h) ==> is_field_value(h@)
            &&& c.token matches Some(t) ==> is_field_value("Bearer "@ + t@)
            &&& !(c.xmux.max_concurrency.to != 0 && c.xmux.max_connections.to != 0)
            &&& c.xmux.max_concurrency.problem() is None && c.xmux.max_connections.problem() is None
                && c.xmux.c_max_reuse_times.problem() is None
                && c.xmux.h_max_request_times.problem() is None
                && c.xmux.h_max_reusable_secs.problem() is None
            &&& c.session_placement == Placement::Header ==> header::is_name(c.session_key@)
            &&& c.sequence_placement == Placement::Header ==> header::is_name(c.sequence_key@)
        },
{
    lemma_fields_problem(c.headers@);
}

/// A path with a question mark is the path in front of the first one; what stands
/// behind it is the query, unless that is empty. A path with a slash in front and
/// none at its end stays as it is, and a missing slash is put in front.
pub proof fn paths_are_cut_at_the_question_mark(
    path: Seq<char>,
    behind: Seq<char>,
    query: Option<Seq<char>>,
)
    requires
        !path.contains('?'),
    ensures
        normal_path(path + seq!['?'] + behind) == normal_path(path),
        behind.len() > 0 ==> normal_query(path + seq!['?'] + behind, query) == Some(behind),
        behind.len() == 0 ==> normal_query(path + seq!['?'] + behind, query) == query,
        normal_query(path, query) == query,
        path.len() > 0 && path[0] == '/' && path.last() != '/' ==> normal_path(path) == path,
        path.len() > 0 && path[0] != '/' && path.last() != '/' ==> normal_path(path) == seq!['/']
            + path,
        path.len() > 0 && path[0] == '/' && path.last() != '/' ==> normal_path(path.push('/'))
            == path,
{
    let whole = path + seq!['?'] + behind;
    let n = path.len() as int;
    assert forall|i: int| 0 <= i < n implies path[i] != '?' by {
        assert(path.contains(path[i]));
    }
    text::lemma_span(whole, '?', n);
    text::lemma_span(path, '?', n);
    assert(whole.take(n) =~= path);
    assert(whole.skip(n + 1) =~= behind);
    if n > 0 && path[0] == '/' && path.last() != '/' {
        let longer = path.push('/');
        assert forall|i: int| 0 <= i < longer.len() implies longer[i] != '?' by {
            if i < n {
                assert(longer[i] == path[i]);
            }
        }
        text::lemma_span(longer, '?', longer.len() as int);
        assert(longer.drop_last() =~= path);
        assert(without_end_slashes(longer) == without_end_slashes(path));
    }
}

/// The settings that hold where nothing is configured are in order.
pub proof fn the_standard_settings_are_in_order(c: TransportConfig)
    requires
        c.standard(),
    ensures
        c.problem() is None,
        normal_path(c.path@) == c.path@,
        text::upper(c.uplink_method@) == c.uplink_method@,
{
    reveal_strlit("/xhttp");
    reveal_strlit("POST");
    reveal_strlit("GET");
    reveal_strlit("repeat-x");
    assert(text::upper("POST"@) =~= "POST"@);
    assert("POST"@.len() != "GET"@.len());
    assert(!"/xhttp"@.contains('?'));
    paths_are_cut_at_the_question_mark("/xhttp"@, Seq::empty(), None);
    settings_are_in_order(c);
}

} // verus!
