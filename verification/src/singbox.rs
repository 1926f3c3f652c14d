//! The sections of the configuration.
use crate::json::Value;
use vstd::prelude::*;

verus! {

/// A list of texts under a name.
#[derive(Debug)]
pub struct NamedTexts {
    pub name: String,
    pub values: Vec<String>,
}

/// One route rule: its conditions, its action and the options of that action.
#[derive(Debug)]
pub struct RouteRule {
    pub kind: String,
    pub mode: Option<String>,
    pub rules: Vec<RouteRule>,
    pub geosite: Vec<String>,
    pub geoip: Vec<String>,
    pub source_geoip: Vec<String>,
    pub domain: Vec<String>,
    pub domain_suffix: Vec<String>,
    pub domain_keyword: Vec<String>,
    pub domain_regex: Vec<String>,
    pub ip_cidr: Vec<String>,
    pub source_ip_cidr: Vec<String>,
    pub ip_version: Vec<u8>,
    pub ip_is_private: bool,
    pub source_ip_is_private: bool,
    pub source_port: Vec<u16>,
    pub source_port_range: Vec<String>,
    pub port: Vec<u16>,
    pub port_range: Vec<String>,
    pub network: Vec<String>,
    pub protocol: Vec<String>,
    pub client: Vec<String>,
    pub inbound: Vec<String>,
    pub auth_user: Vec<String>,
    pub process_name: Vec<String>,
    pub process_path: Vec<String>,
    pub process_path_regex: Vec<String>,
    pub package_name: Vec<String>,
    pub package_name_regex: Vec<String>,
    pub user: Vec<String>,
    pub user_id: Vec<u32>,
    pub clash_mode: Option<String>,
    pub network_type: Vec<String>,
    pub network_is_expensive: bool,
    pub network_is_constrained: bool,
    pub wifi_ssid: Vec<String>,
    pub wifi_bssid: Vec<String>,
    pub interface_address: Vec<NamedTexts>,
    pub network_interface_address: Vec<NamedTexts>,
    pub source_mac_address: Vec<String>,
    pub source_hostname: Vec<String>,
    pub default_interface_address: Vec<String>,
    pub preferred_by: Vec<String>,
    pub rule_set: Vec<String>,
    pub rule_set_ip_cidr_match_source: bool,
    pub invert: bool,
    pub action: Option<String>,
    pub outbound: Option<String>,
    pub sniffer: Vec<String>,
    pub timeout: Option<String>,
    pub server: Option<String>,
    pub strategy: Option<String>,
    pub disable_cache: bool,
    pub rewrite_ttl: Option<u32>,
    pub client_subnet: Option<String>,
    pub override_address: Option<String>,
    pub override_port: Option<u16>,
    pub network_strategy: Option<String>,
    pub fallback_delay: Option<String>,
    pub udp_disable_domain_unmapping: bool,
    pub udp_connect: bool,
    pub udp_timeout: Option<String>,
    pub tls_fragment: bool,
    pub tls_fragment_fallback_delay: Option<String>,
    pub tls_record_fragment: bool,
    pub tls_spoof: Option<String>,
    pub tls_spoof_method: Option<String>,
    pub bind_interface: Option<String>,
    pub inet4_bind_address: Option<String>,
    pub inet6_bind_address: Option<String>,
    pub routing_mark: Option<u32>,
    pub reuse_addr: bool,
    pub connect_timeout: Option<String>,
    pub tcp_fast_open: bool,
    pub tcp_multi_path: bool,
    pub udp_fragment: Option<bool>,
    pub domain_strategy: Option<String>,
    pub method: Option<String>,
    pub no_drop: bool,
}

impl RouteRule {
    /// Nothing is configured.
    pub open spec fn blank(self) -> bool {
        &&& self.kind@.len() == 0
        &&& self.mode is None
        &&& self.rules@.len() == 0
        &&& self.geosite@.len() == 0
        &&& self.geoip@.len() == 0
        &&& self.source_geoip@.len() == 0
        &&& self.domain@.len() == 0
        &&& self.domain_suffix@.len() == 0
        &&& self.domain_keyword@.len() == 0
        &&& self.domain_regex@.len() == 0
        &&& self.ip_cidr@.len() == 0
        &&& self.source_ip_cidr@.len() == 0
        &&& self.ip_version@.len() == 0
        &&& !self.ip_is_private
        &&& !self.source_ip_is_private
        &&& self.source_port@.len() == 0
        &&& self.source_port_range@.len() == 0
        &&& self.port@.len() == 0
        &&& self.port_range@.len() == 0
        &&& self.network@.len() == 0
        &&& self.protocol@.len() == 0
        &&& self.client@.len() == 0
        &&& self.inbound@.len() == 0
        &&& self.auth_user@.len() == 0
        &&& self.process_name@.len() == 0
        &&& self.process_path@.len() == 0
        &&& self.process_path_regex@.len() == 0
        &&& self.package_name@.len() == 0
        &&& self.package_name_regex@.len() == 0
        &&& self.user@.len() == 0
        &&& self.user_id@.len() == 0
        &&& self.clash_mode is None
        &&& self.network_type@.len() == 0
        &&& !self.network_is_expensive
        &&& !self.network_is_constrained
        &&& self.wifi_ssid@.len() == 0
        &&& self.wifi_bssid@.len() == 0
        &&& self.interface_address@.len() == 0
        &&& self.network_interface_address@.len() == 0
        &&& self.source_mac_address@.len() == 0
        &&& self.source_hostname@.len() == 0
        &&& self.default_interface_address@.len() == 0
        &&& self.preferred_by@.len() == 0
        &&& self.rule_set@.len() == 0
        &&& !self.rule_set_ip_cidr_match_source
        &&& !self.invert
        &&& self.action is None
        &&& self.outbound is None
        &&& self.sniffer@.len() == 0
        &&& self.timeout is None
        &&& self.server is None
        &&& self.strategy is None
        &&& !self.disable_cache
        &&& self.rewrite_ttl is None
        &&& self.client_subnet is None
        &&& self.override_address is None
        &&& self.override_port is None
        &&& self.network_strategy is None
        &&& self.fallback_delay is None
        &&& !self.udp_disable_domain_unmapping
        &&& !self.udp_connect
        &&& self.udp_timeout is None
        &&& !self.tls_fragment
        &&& self.tls_fragment_fallback_delay is None
        &&& !self.tls_record_fragment
        &&& self.tls_spoof is None
        &&& self.tls_spoof_method is None
        &&& self.bind_interface is None
        &&& self.inet4_bind_address is None
        &&& self.inet6_bind_address is None
        &&& self.routing_mark is None
        &&& !self.reuse_addr
        &&& self.connect_timeout is None
        &&& !self.tcp_fast_open
        &&& !self.tcp_multi_path
        &&& self.udp_fragment is None
        &&& self.domain_strategy is None
        &&& self.method is None
        &&& !self.no_drop
    }
}

impl Default for RouteRule {
    fn default() -> (r: RouteRule)
        ensures
            r.blank(),
    {
        RouteRule {
            kind: String::new(),
            mode: None,
            rules: Vec::new(),
            geosite: Vec::new(),
            geoip: Vec::new(),
            source_geoip: Vec::new(),
            domain: Vec::new(),
            domain_suffix: Vec::new(),
            domain_keyword: Vec::new(),
            domain_regex: Vec::new(),
            ip_cidr: Vec::new(),
            source_ip_cidr: Vec::new(),
            ip_version: Vec::new(),
            ip_is_private: false,
            source_ip_is_private: false,
            source_port: Vec::new(),
            source_port_range: Vec::new(),
            port: Vec::new(),
            port_range: Vec::new(),
            network: Vec::new(),
            protocol: Vec::new(),
            client: Vec::new(),
            inbound: Vec::new(),
            auth_user: Vec::new(),
            process_name: Vec::new(),
            process_path: Vec::new(),
            process_path_regex: Vec::new(),
            package_name: Vec::new(),
            package_name_regex: Vec::new(),
            user: Vec::new(),
            user_id: Vec::new(),
            clash_mode: None,
            network_type: Vec::new(),
            network_is_expensive: false,
            network_is_constrained: false,
            wifi_ssid: Vec::new(),
            wifi_bssid: Vec::new(),
            interface_address: Vec::new(),
            network_interface_address: Vec::new(),
            source_mac_address: Vec::new(),
            source_hostname: Vec::new(),
            default_interface_address: Vec::new(),
            preferred_by: Vec::new(),
            rule_set: Vec::new(),
            rule_set_ip_cidr_match_source: false,
            invert: false,
            action: None,
            outbound: None,
            sniffer: Vec::new(),
            timeout: None,
            server: None,
            strategy: None,
            disable_cache: false,
            rewrite_ttl: None,
            client_subnet: None,
            override_address: None,
            override_port: None,
            network_strategy: None,
            fallback_delay: None,
            udp_disable_domain_unmapping: false,
            udp_connect: false,
            udp_timeout: None,
            tls_fragment: false,
            tls_fragment_fallback_delay: None,
            tls_record_fragment: false,
            tls_spoof: None,
            tls_spoof_method: None,
            bind_interface: None,
            inet4_bind_address: None,
            inet6_bind_address: None,
            routing_mark: None,
            reuse_addr: false,
            connect_timeout: None,
            tcp_fast_open: false,
            tcp_multi_path: false,
            udp_fragment: None,
            domain_strategy: None,
            method: None,
            no_drop: false,
        }
    }
}

/// A named set of rules, given in place, in a file or at an address.
#[derive(Debug)]
pub struct RuleSetConfig {
    pub kind: String,
    pub tag: String,
    pub path: Option<String>,
    pub url: Option<String>,
    pub format: Option<String>,
    pub download_detour: Option<String>,
    pub update_interval: Option<String>,
    pub rules: Vec<RouteRule>,
}

impl RuleSetConfig {
    /// Nothing is configured.
    pub open spec fn blank(self) -> bool {
        &&& self.kind@.len() == 0
        &&& self.tag@.len() == 0
        &&& self.path is None
        &&& self.url is None
        &&& self.format is None
        &&& self.download_detour is None
        &&& self.update_interval is None
        &&& self.rules@.len() == 0
    }
}

impl Default for RuleSetConfig {
    fn default() -> (r: RuleSetConfig)
        ensures
            r.blank(),
    {
        RuleSetConfig {
            kind: String::new(),
            tag: String::new(),
            path: None,
            url: None,
            format: None,
            download_detour: None,
            update_interval: None,
            rules: Vec::new(),
        }
    }
}

/// The route section.
#[derive(Debug)]
pub struct RouteConfig {
    pub rules: Vec<RouteRule>,
    pub rule_set: Vec<RuleSetConfig>,
    pub final_outbound: Option<String>,
    pub default_interface: Option<String>,
    pub default_mark: Option<u32>,
    pub default_network_strategy: Option<String>,
    pub default_fallback_delay: Option<String>,
    pub default_http_client: Option<String>,
    pub auto_detect_interface: Option<bool>,
}

impl RouteConfig {
    /// Nothing is configured.
    pub open spec fn blank(self) -> bool {
        &&& self.rules@.len() == 0
        &&& self.rule_set@.len() == 0
        &&& self.final_outbound is None
        &&& self.default_interface is None
        &&& self.default_mark is None
        &&& self.default_network_strategy is None
        &&& self.default_fallback_delay is None
        &&& self.default_http_client is None
        &&& self.auto_detect_interface is None
    }
}

impl Default for RouteConfig {
    fn default() -> (r: RouteConfig)
        ensures
            r.blank(),
    {
        RouteConfig {
            rules: Vec::new(),
            rule_set: Vec::new(),
            final_outbound: None,
            default_interface: None,
            default_mark: None,
            default_network_strategy: None,
            default_fallback_delay: None,
            default_http_client: None,
            auto_detect_interface: None,
        }
    }
}

/// One DNS rule: its conditions and its action.
#[derive(Debug)]
pub struct DnsRule {
    pub kind: String,
    pub mode: Option<String>,
    pub rules: Vec<DnsRule>,
    pub query_type: Vec<Value>,
    pub domain: Vec<String>,
    pub domain_suffix: Vec<String>,
    pub domain_keyword: Vec<String>,
    pub domain_regex: Vec<String>,
    pub rule_set: Vec<String>,
    pub invert: bool,
    pub action: Option<String>,
    pub server: Option<String>,
    pub rcode: Option<Value>,
    pub answer: Vec<String>,
    pub ns: Vec<String>,
    pub extra: Vec<String>,
    pub method: Option<String>,
    pub no_drop: bool,
    pub strategy: Option<String>,
    pub timeout: Option<String>,
    pub disable_cache: bool,
    pub rewrite_ttl: Option<u32>,
    pub client_subnet: Option<String>,
}

impl DnsRule {
    /// Nothing is configured.
    pub open spec fn blank(self) -> bool {
        &&& self.kind@.len() == 0
        &&& self.mode is None
        &&& self.rules@.len() == 0
        &&& self.query_type@.len() == 0
        &&& self.domain@.len() == 0
        &&& self.domain_suffix@.len() == 0
        &&& self.domain_keyword@.len() == 0
        &&& self.domain_regex@.len() == 0
        &&& self.rule_set@.len() == 0
        &&& !self.invert
        &&& self.action is None
        &&& self.server is None
        &&& self.rcode is None
        &&& self.answer@.len() == 0
        &&& self.ns@.len() == 0
        &&& self.extra@.len() == 0
        &&& self.method is None
        &&& !self.no_drop
        &&& self.strategy is None
        &&& self.timeout is None
        &&& !self.disable_cache
        &&& self.rewrite_ttl is None
        &&& self.client_subnet is None
    }
}

impl Default for DnsRule {
    fn default() -> (r: DnsRule)
        ensures
            r.blank(),
    {
        DnsRule {
            kind: String::new(),
            mode: None,
            rules: Vec::new(),
            query_type: Vec::new(),
            domain: Vec::new(),
            domain_suffix: Vec::new(),
            domain_keyword: Vec::new(),
            domain_regex: Vec::new(),
            rule_set: Vec::new(),
            invert: false,
            action: None,
            server: None,
            rcode: None,
            answer: Vec::new(),
            ns: Vec::new(),
            extra: Vec::new(),
            method: None,
            no_drop: false,
            strategy: None,
            timeout: None,
            disable_cache: false,
            rewrite_ttl: None,
            client_subnet: None,
        }
    }
}

/// A user of an inbound.
#[derive(Debug)]
pub struct User {
    pub name: Option<String>,
    pub password: Option<String>,
    pub uuid: Option<String>,
}

impl User {
    /// Nothing is set.
    pub open spec fn blank(self) -> bool {
        &&& self.name is None
        &&& self.password is None
        &&& self.uuid is None
    }
}

impl Default for User {
    fn default() -> (r: User)
        ensures
            r.blank(),
    {
        User {
            name: None,
            password: None,
            uuid: None,
        }
    }
}

/// The settings of encrypted client hellos.
#[derive(Debug)]
pub struct EchConfig {
    pub enabled: bool,
    pub config: Vec<String>,
    pub config_path: Option<String>,
    pub query_server_name: Option<String>,
    pub key: Vec<String>,
    pub key_path: Option<String>,
}

impl EchConfig {
    /// Nothing is set.
    pub open spec fn blank(self) -> bool {
        &&& !self.enabled
        &&& self.config@.len() == 0
        &&& self.config_path is None
        &&& self.query_server_name is None
        &&& self.key@.len() == 0
        &&& self.key_path is None
    }
}

impl Default for EchConfig {
    fn default() -> (r: EchConfig)
        ensures
            r.blank(),
    {
        EchConfig {
            enabled: false,
            config: Vec::new(),
            config_path: None,
            query_server_name: None,
            key: Vec::new(),
            key_path: None,
        }
    }
}

/// The settings of TLS.
#[derive(Debug)]
pub struct TlsConfig {
    pub enabled: bool,
    pub insecure: bool,
    pub disable_sni: bool,
    pub server_name: Option<String>,
    pub min_version: Option<String>,
    pub max_version: Option<String>,
    pub certificate: Vec<String>,
    pub certificate_path: Option<String>,
    pub certificate_public_key_sha256: Vec<String>,
    pub client_certificate: Vec<String>,
    pub client_certificate_path: Option<String>,
    pub client_key: Vec<String>,
    pub client_key_path: Option<String>,
    pub client_authentication: Option<String>,
    pub client_certificate_public_key_sha256: Vec<String>,
    pub key: Vec<String>,
    pub key_path: Option<String>,
    pub alpn: Vec<String>,
    pub ech: Option<EchConfig>,
}

impl TlsConfig {
    /// Nothing is set.
    pub open spec fn blank(self) -> bool {
        &&& !self.enabled
        &&& !self.insecure
        &&& !self.disable_sni
        &&& self.server_name is None
        &&& self.min_version is None
        &&& self.max_version is None
        &&& self.certificate@.len() == 0
        &&& self.certificate_path is None
        &&& self.certificate_public_key_sha256@.len() == 0
        &&& self.client_certificate@.len() == 0
        &&& self.client_certificate_path is None
        &&& self.client_key@.len() == 0
        &&& self.client_key_path is None
        &&& self.client_authentication is None
        &&& self.client_certificate_public_key_sha256@.len() == 0
        &&& self.key@.len() == 0
        &&& self.key_path is None
        &&& self.alpn@.len() == 0
        &&& self.ech is None
    }
}

impl Default for TlsConfig {
    fn default() -> (r: TlsConfig)
        ensures
            r.blank(),
    {
        TlsConfig {
            enabled: false,
            insecure: false,
            disable_sni: false,
            server_name: None,
            min_version: None,
            max_version: None,
            certificate: Vec::new(),
            certificate_path: None,
            certificate_public_key_sha256: Vec::new(),
            client_certificate: Vec::new(),
            client_certificate_path: None,
            client_key: Vec::new(),
            client_key_path: None,
            client_authentication: None,
            client_certificate_public_key_sha256: Vec::new(),
            key: Vec::new(),
            key_path: None,
            alpn: Vec::new(),
            ech: None,
        }
    }
}

/// An inbound: where connections come in. `transport` is the kind of its
/// transport.
#[derive(Debug)]
pub struct Inbound {
    pub kind: String,
    pub tag: Option<String>,
    pub listen: Option<String>,
    pub listen_port: Option<u16>,
    pub users: Vec<User>,
    pub tls: Option<TlsConfig>,
    pub transport: Option<String>,
    pub padding_scheme: Vec<String>,
    pub udp_mapping: Option<String>,
    pub udp_filtering: Option<String>,
    pub udp_timeout: Option<String>,
    pub udp_nat_max: Option<u32>,
}

impl Inbound {
    /// Nothing is set.
    pub open spec fn blank(self) -> bool {
        &&& self.kind@.len() == 0
        &&& self.tag is None
        &&& self.listen is None
        &&& self.listen_port is None
        &&& self.users@.len() == 0
        &&& self.tls is None
        &&& self.transport is None
        &&& self.padding_scheme@.len() == 0
        &&& self.udp_mapping is None
        &&& self.udp_filtering is None
        &&& self.udp_timeout is None
        &&& self.udp_nat_max is None
    }
}

impl Default for Inbound {
    fn default() -> (r: Inbound)
        ensures
            r.blank(),
    {
        Inbound {
            kind: String::new(),
            tag: None,
            listen: None,
            listen_port: None,
            users: Vec::new(),
            tls: None,
            transport: None,
            padding_scheme: Vec::new(),
            udp_mapping: None,
            udp_filtering: None,
            udp_timeout: None,
            udp_nat_max: None,
        }
    }
}

/// An outbound: where connections go out.
#[derive(Debug)]
pub struct Outbound {
    pub kind: String,
    pub tag: Option<String>,
    pub server: Option<String>,
    pub server_port: Option<u16>,
    pub uuid: Option<String>,
    pub password: Option<String>,
    pub packet_encoding: Option<String>,
    pub tls: Option<TlsConfig>,
    pub outbounds: Vec<String>,
    pub default: Option<String>,
    pub url: Option<String>,
    pub interval: Option<String>,
    pub tolerance: Option<u16>,
    pub idle_session_check_interval: Option<String>,
    pub idle_session_timeout: Option<String>,
    pub min_idle_session: Option<usize>,
    pub disable_reuse: bool,
}

impl Outbound {
    /// Nothing is set.
    pub open spec fn blank(self) -> bool {
        &&& self.kind@.len() == 0
        &&& self.tag is None
        &&& self.server is None
        &&& self.server_port is None
        &&& self.uuid is None
        &&& self.password is None
        &&& self.packet_encoding is None
        &&& self.tls is None
        &&& self.outbounds@.len() == 0
        &&& self.default is None
        &&& self.url is None
        &&& self.interval is None
        &&& self.tolerance is None
        &&& self.idle_session_check_interval is None
        &&& self.idle_session_timeout is None
        &&& self.min_idle_session is None
        &&& !self.disable_reuse
    }
}

impl Default for Outbound {
    fn default() -> (r: Outbound)
        ensures
            r.blank(),
    {
        Outbound {
            kind: String::new(),
            tag: None,
            server: None,
            server_port: None,
            uuid: None,
            password: None,
            packet_encoding: None,
            tls: None,
            outbounds: Vec::new(),
            default: None,
            url: None,
            interval: None,
            tolerance: None,
            idle_session_check_interval: None,
            idle_session_timeout: None,
            min_idle_session: None,
            disable_reuse: false,
        }
    }
}

/// A client of HTTP that downloads go through.
#[derive(Debug)]
pub struct HttpClientConfig {
    pub tag: String,
    pub detour: Option<String>,
}

impl HttpClientConfig {
    /// Nothing is set.
    pub open spec fn blank(self) -> bool {
        &&& self.tag@.len() == 0
        &&& self.detour is None
    }
}

impl Default for HttpClientConfig {
    fn default() -> (r: HttpClientConfig)
        ensures
            r.blank(),
    {
        HttpClientConfig {
            tag: String::new(),
            detour: None,
        }
    }
}

/// The settings of the controller.
#[derive(Debug)]
pub struct ClashApiConfig {
    pub external_controller: Option<String>,
    pub secret: Option<String>,
    pub external_ui: Option<String>,
    pub external_ui_download_url: Option<String>,
}

impl ClashApiConfig {
    /// Nothing is set.
    pub open spec fn blank(self) -> bool {
        &&& self.external_controller is None
        &&& self.secret is None
        &&& self.external_ui is None
        &&& self.external_ui_download_url is None
    }
}

impl Default for ClashApiConfig {
    fn default() -> (r: ClashApiConfig)
        ensures
            r.blank(),
    {
        ClashApiConfig {
            external_controller: None,
            secret: None,
            external_ui: None,
            external_ui_download_url: None,
        }
    }
}

/// The settings of the log.
#[derive(Debug)]
pub struct LogConfig {
    pub disabled: bool,
    pub level: Option<String>,
    pub output: Option<String>,
    pub timestamp: Option<bool>,
}

impl LogConfig {
    /// Nothing is set.
    pub open spec fn blank(self) -> bool {
        &&& !self.disabled
        &&& self.level is None
        &&& self.output is None
        &&& self.timestamp is None
    }
}

impl Default for LogConfig {
    fn default() -> (r: LogConfig)
        ensures
            r.blank(),
    {
        LogConfig {
            disabled: false,
            level: None,
            output: None,
            timestamp: None,
        }
    }
}

/// A server of names.
#[derive(Debug)]
pub struct DnsServer {
    pub kind: String,
    pub tag: String,
    pub server: Option<String>,
    pub server_port: Option<u16>,
    pub path: Option<String>,
    pub detour: Option<String>,
}

impl DnsServer {
    /// Nothing is set.
    pub open spec fn blank(self) -> bool {
        &&& self.kind@.len() == 0
        &&& self.tag@.len() == 0
        &&& self.server is None
        &&& self.server_port is None
        &&& self.path is None
        &&& self.detour is None
    }
}

impl Default for DnsServer {
    fn default() -> (r: DnsServer)
        ensures
            r.blank(),
    {
        DnsServer {
            kind: String::new(),
            tag: String::new(),
            server: None,
            server_port: None,
            path: None,
            detour: None,
        }
    }
}

/// The section on names.
#[derive(Debug)]
pub struct DnsConfig {
    pub servers: Vec<DnsServer>,
    pub rules: Vec<DnsRule>,
    pub final_server: Option<String>,
    pub strategy: Option<String>,
    pub client_subnet: Option<String>,
    pub timeout: Option<String>,
    pub reverse_mapping: bool,
    pub optimistic: Option<Value>,
    pub cache_capacity: Option<usize>,
    pub disable_cache: Option<bool>,
    pub disable_expire: Option<bool>,
}

impl DnsConfig {
    /// Nothing is set.
    pub open spec fn blank(self) -> bool {
        &&& self.servers@.len() == 0
        &&& self.rules@.len() == 0
        &&& self.final_server is None
        &&& self.strategy is None
        &&& self.client_subnet is None
        &&& self.timeout is None
        &&& !self.reverse_mapping
        &&& self.optimistic is None
        &&& self.cache_capacity is None
        &&& self.disable_cache is None
        &&& self.disable_expire is None
    }
}

impl Default for DnsConfig {
    fn default() -> (r: DnsConfig)
        ensures
            r.blank(),
    {
        DnsConfig {
            servers: Vec::new(),
            rules: Vec::new(),
            final_server: None,
            strategy: None,
            client_subnet: None,
            timeout: None,
            reverse_mapping: false,
            optimistic: None,
            cache_capacity: None,
            disable_cache: None,
            disable_expire: None,
        }
    }
}


} // verus!
