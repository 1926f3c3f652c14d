//! What the rules of a configuration come to once they are compiled: which
//! connections a rule matches, said over what is written in the rule.
use crate::dns::message;
use crate::net::{self, IpAddr};
use crate::pattern;
use crate::routing::compile::{self, RuleSet};
use crate::routing::matching::{
    self, CompiledRule, LogicalMode, NamedAddresses, NamedNets, PortRange, RouteContext,
};
use crate::routing::options::{ActionView, DecisionView, RouteOptionsView};
use crate::routing::router::{self, LoadedSet, Router};
use crate::singbox::{NamedTexts, RouteConfig, RouteRule, RuleSetConfig};
use crate::text;
use vstd::prelude::*;

verus! {

// ---- lists of a rule, as written and as compiled ----

proof fn lemma_texts_at(list: Seq<String>, i: int)
    requires
        0 <= i < list.len(),
    ensures
        text::texts(list)[i] == list[i]@,
        text::texts(list).len() == list.len(),
{
}

proof fn lemma_folded(list: Seq<String>, written: Seq<String>, v: Seq<char>)
    requires
        text::texts(list) == text::texts(written) || text::texts(list) == compile::all_lower(
            text::texts(written),
        ),
    ensures
        list.len() == written.len(),
        matching::any_folded(list, v) <==> exists|i: int|
            0 <= i < written.len() && text::lower((#[trigger] written[i])@) == text::lower(v),
{
    assert(text::texts(list).len() == list.len());
    assert(text::texts(written).len() == written.len());
    assert(list.len() == written.len());
    assert forall|i: int| 0 <= i < list.len() implies text::lower(#[trigger] list[i]@)
        == text::lower(written[i]@) by {
        lemma_texts_at(list, i);
        lemma_texts_at(written, i);
        text::lemma_lower_idempotent(written[i]@);
    }
    if matching::any_folded(list, v) {
        let i = choose|i: int|
            0 <= i < list.len() && text::lower((#[trigger] list[i])@) == text::lower(v);
        assert(text::lower(written[i]@) == text::lower(v));
    }
    if exists|i: int|
        0 <= i < written.len() && text::lower((#[trigger] written[i])@) == text::lower(v) {
        let i = choose|i: int|
            0 <= i < written.len() && text::lower((#[trigger] written[i])@) == text::lower(v);
        assert(text::lower(list[i]@) == text::lower(v));
    }
}

proof fn lemma_same(list: Seq<String>, written: Seq<String>, v: Seq<char>)
    requires
        text::texts(list) == text::texts(written),
    ensures
        list.len() == written.len(),
        matching::any_same(list, v) <==> exists|i: int|
            0 <= i < written.len() && (#[trigger] written[i])@ == v,
{
    assert(text::texts(list).len() == list.len());
    assert(text::texts(written).len() == written.len());
    assert forall|i: int| 0 <= i < list.len() implies #[trigger] list[i]@ == written[i]@ by {
        lemma_texts_at(list, i);
        lemma_texts_at(written, i);
    }
    if exists|i: int| 0 <= i < written.len() && (#[trigger] written[i])@ == v {
        let i = choose|i: int| 0 <= i < written.len() && (#[trigger] written[i])@ == v;
        assert(list[i]@ == v);
    }
}

proof fn lemma_found(list: Seq<String>, written: Seq<String>, v: Seq<char>)
    requires
        text::texts(list) == text::texts(written),
        compile::all_patterns(written),
    ensures
        list.len() == written.len(),
        matching::any_found(list, v) <==> exists|i: int|
            0 <= i < written.len() && pattern::pattern_finds((#[trigger] written[i])@, v),
{
    assert(text::texts(list).len() == list.len());
    assert(text::texts(written).len() == written.len());
    assert forall|i: int| 0 <= i < list.len() implies #[trigger] list[i]@ == written[i]@ by {
        lemma_texts_at(list, i);
        lemma_texts_at(written, i);
    }
    if matching::any_found(list, v) {
        let i = choose|i: int| 0 <= i < list.len() && matching::found((#[trigger] list[i])@, v);
        assert(pattern::pattern_finds(written[i]@, v));
    }
    if exists|i: int|
        0 <= i < written.len() && pattern::pattern_finds((#[trigger] written[i])@, v) {
        let i = choose|i: int|
            0 <= i < written.len() && pattern::pattern_finds((#[trigger] written[i])@, v);
        assert(matching::found(list[i]@, v));
    }
}

proof fn lemma_names(list: Seq<String>, written: Seq<String>, name: Seq<char>)
    requires
        text::texts(list) == compile::all_normalized(text::texts(written)),
    ensures
        list.len() == written.len(),
        matching::any_same(list, name) <==> exists|i: int|
            0 <= i < written.len() && text::lower(text::trim_end((#[trigger] written[i])@, '.'))
                == name,
        matching::any_under(list, name) <==> exists|i: int|
            0 <= i < written.len() && text::ends_with(
                text::split(name, '.'),
                text::split(text::lower(text::trim_end((#[trigger] written[i])@, '.')), '.'),
            ),
{
    assert(text::texts(list).len() == list.len());
    assert(text::texts(written).len() == written.len());
    assert forall|i: int| 0 <= i < list.len() implies #[trigger] list[i]@ == text::lower(
        text::trim_end(written[i]@, '.'),
    ) by {
        lemma_texts_at(list, i);
        lemma_texts_at(written, i);
    }
    assert forall|i: int| 0 <= i < list.len() implies (matching::name_under(
        name,
        #[trigger] list[i]@,
    ) <==> text::ends_with(text::split(name, '.'), text::split(list[i]@, '.'))) by {
        text::pieces_at_the_end(name, list[i]@, '.');
    }
    if exists|i: int|
        0 <= i < written.len() && text::lower(text::trim_end((#[trigger] written[i])@, '.'))
            == name {
        let i = choose|i: int|
            0 <= i < written.len() && text::lower(text::trim_end((#[trigger] written[i])@, '.'))
                == name;
        assert(list[i]@ == name);
    }
    if exists|i: int|
        0 <= i < written.len() && text::ends_with(
            text::split(name, '.'),
            text::split(text::lower(text::trim_end((#[trigger] written[i])@, '.')), '.'),
        ) {
        let i = choose|i: int|
            0 <= i < written.len() && text::ends_with(
                text::split(name, '.'),
                text::split(text::lower(text::trim_end((#[trigger] written[i])@, '.')), '.'),
            );
        assert(matching::name_under(name, list[i]@));
    }
    if matching::any_under(list, name) {
        let i = choose|i: int| 0 <= i < list.len() && matching::name_under(
            name,
            (#[trigger] list[i])@,
        );
        assert(text::ends_with(
            text::split(name, '.'),
            text::split(text::lower(text::trim_end(written[i]@, '.')), '.'),
        ));
    }
}

proof fn lemma_parts(list: Seq<String>, written: Seq<String>, name: Seq<char>)
    requires
        text::texts(list) == compile::all_lower(text::texts(written)),
    ensures
        list.len() == written.len(),
        matching::any_part(list, name) <==> exists|i: int|
            0 <= i < written.len() && text::has_part(name, text::lower((#[trigger] written[i])@)),
{
    assert(text::texts(list).len() == list.len());
    assert(text::texts(written).len() == written.len());
    assert forall|i: int| 0 <= i < list.len() implies #[trigger] list[i]@ == text::lower(
        written[i]@,
    ) by {
        lemma_texts_at(list, i);
        lemma_texts_at(written, i);
    }
    if exists|i: int|
        0 <= i < written.len() && text::has_part(name, text::lower((#[trigger] written[i])@)) {
        let i = choose|i: int|
            0 <= i < written.len() && text::has_part(name, text::lower((#[trigger] written[i])@));
        assert(text::has_part(name, list[i]@));
    }
    if matching::any_part(list, name) {
        let i = choose|i: int| 0 <= i < list.len() && text::has_part(name, (#[trigger] list[i])@);
        assert(text::has_part(name, text::lower(written[i]@)));
    }
}

proof fn lemma_nets(written: Seq<String>, ip: IpAddr)
    requires
        compile::all_nets(written),
    ensures
        matching::any_holds(compile::nets_of(written), ip) <==> exists|i: int|
            0 <= i < written.len() && (net::net_text((#[trigger] written[i])@)->0).holds(ip),
{
    let list = compile::nets_of(written);
    if matching::any_holds(list, ip) {
        let i = choose|i: int| 0 <= i < list.len() && (#[trigger] list[i]).holds(ip);
        assert((net::net_text(written[i]@)->0).holds(ip));
    }
    if exists|i: int|
        0 <= i < written.len() && (net::net_text((#[trigger] written[i])@)->0).holds(ip) {
        let i = choose|i: int|
            0 <= i < written.len() && (net::net_text((#[trigger] written[i])@)->0).holds(ip);
        assert(list[i].holds(ip));
    }
}

proof fn lemma_any_address(written: Seq<String>, addresses: Seq<IpAddr>)
    requires
        compile::all_nets(written),
    ensures
        matching::any_address(compile::nets_of(written), addresses) <==> exists|k: int, i: int|
            0 <= k < addresses.len() && 0 <= i < written.len() && (net::net_text(
                (#[trigger] written[i])@,
            )->0).holds(#[trigger] addresses[k]),
{
    let list = compile::nets_of(written);
    if matching::any_address(list, addresses) {
        let k = choose|k: int|
            0 <= k < addresses.len() && matching::any_holds(list, #[trigger] addresses[k]);
        lemma_nets(written, addresses[k]);
        let i = choose|i: int|
            0 <= i < written.len() && (net::net_text((#[trigger] written[i])@)->0).holds(
                addresses[k],
            );
        assert((net::net_text(written[i]@)->0).holds(addresses[k]));
    }
    if exists|k: int, i: int|
        0 <= k < addresses.len() && 0 <= i < written.len() && (net::net_text(
            (#[trigger] written[i])@,
        )->0).holds(#[trigger] addresses[k]) {
        let (k, i) = choose|k: int, i: int|
            0 <= k < addresses.len() && 0 <= i < written.len() && (net::net_text(
                (#[trigger] written[i])@,
            )->0).holds(#[trigger] addresses[k]);
        lemma_nets(written, addresses[k]);
        assert(matching::any_holds(list, addresses[k]));
    }
}

proof fn lemma_named(list: Seq<NamedNets>, written: Seq<NamedTexts>, actual: Seq<NamedAddresses>)
    requires
        compile::named_as(written, list),
        compile::all_named_nets(written),
    ensures
        list.len() == written.len(),
        matching::any_named(list, actual) <==> exists|i: int, j: int, k: int, m: int|
            0 <= i < written.len() && 0 <= j < actual.len() && 0 <= k < actual[j].addresses@.len()
                && 0 <= m < written[i].values@.len() && actual[j].name@ == text::lower(
                written[i].name@,
            ) && (net::net_text((#[trigger] written[i].values@[m])@)->0).holds(
                #[trigger] actual[j].addresses@[k],
            ),
{
    if matching::any_named(list, actual) {
        let i = choose|i: int|
            0 <= i < list.len() && matching::named_match(#[trigger] list[i], actual);
        let j = choose|j: int|
            0 <= j < actual.len() && (#[trigger] actual[j]).name@ == list[i].name@
                && matching::any_address(list[i].nets@, actual[j].addresses@);
        assert(compile::all_nets(written[i].values@));
        lemma_any_address(written[i].values@, actual[j].addresses@);
        let values = written[i].values@;
        let addresses = actual[j].addresses@;
        let (k, m) = choose|k: int, m: int|
            0 <= k < addresses.len() && 0 <= m < values.len() && (net::net_text(
                (#[trigger] values[m])@,
            )->0).holds(#[trigger] addresses[k]);
        assert((net::net_text(written[i].values@[m]@)->0).holds(actual[j].addresses@[k]));
    }
    if exists|i: int, j: int, k: int, m: int|
        0 <= i < written.len() && 0 <= j < actual.len() && 0 <= k < actual[j].addresses@.len() && 0
            <= m < written[i].values@.len() && actual[j].name@ == text::lower(written[i].name@) && (
        net::net_text((#[trigger] written[i].values@[m])@)->0).holds(
            #[trigger] actual[j].addresses@[k],
        ) {
        let (i, j, k, m) = choose|i: int, j: int, k: int, m: int|
            0 <= i < written.len() && 0 <= j < actual.len() && 0 <= k < actual[j].addresses@.len()
                && 0 <= m < written[i].values@.len() && actual[j].name@ == text::lower(
                written[i].name@,
            ) && (net::net_text((#[trigger] written[i].values@[m])@)->0).holds(
                #[trigger] actual[j].addresses@[k],
            );
        assert(compile::all_nets(written[i].values@));
        lemma_any_address(written[i].values@, actual[j].addresses@);
        let values = written[i].values@;
        let addresses = actual[j].addresses@;
        assert((net::net_text(values[m]@)->0).holds(addresses[k]));
        assert(matching::any_address(list[i].nets@, actual[j].addresses@));
        assert(matching::named_match(list[i], actual));
    }
}

proof fn lemma_ports(ports: Seq<u16>, written: Seq<String>, port: u16)
    requires
        compile::all_ranges(written),
    ensures
        compile::ranges_of(ports, written).len() == ports.len() + written.len(),
        matching::any_range(compile::ranges_of(ports, written), port) <==> (ports.contains(port)
            || exists|i: int|
            0 <= i < written.len() && (compile::port_range((#[trigger] written[i])@)->0).first
                <= port <= (compile::port_range(written[i]@)->0).last),
{
    let list = compile::ranges_of(ports, written);
    if matching::any_range(list, port) {
        let i = choose|i: int| 0 <= i < list.len() && matching::in_range(#[trigger] list[i], port);
        if i < ports.len() {
            assert(ports[i] == port);
        } else {
            let k = i - ports.len();
            assert(list[i] == compile::port_range(written[k]@)->0);
        }
    }
    if ports.contains(port) {
        let i = ports.index_of(port);
        assert(matching::in_range(list[i], port));
    }
    if exists|i: int|
        0 <= i < written.len() && (compile::port_range((#[trigger] written[i])@)->0).first <= port
            <= (compile::port_range(written[i]@)->0).last {
        let i = choose|i: int|
            0 <= i < written.len() && (compile::port_range((#[trigger] written[i])@)->0).first
                <= port <= (compile::port_range(written[i]@)->0).last;
        assert(matching::in_range(list[ports.len() + i], port));
    }
}

// ---- what a rule matches ----

spec fn words(v: Option<&str>) -> Seq<char> {
    match v {
        Some(t) => t@,
        None => Seq::empty(),
    }
}

proof fn lemma_versions(versions: Seq<u8>, ip: IpAddr)
    ensures
        matching::any_version(versions, ip) <==> (if ip is V4 {
            versions.contains(4u8)
        } else {
            versions.contains(6u8)
        }),
{
    let wanted: u8 = if ip is V4 {
        4
    } else {
        6
    };
    if matching::any_version(versions, ip) {
        let i = choose|i: int|
            0 <= i < versions.len() && matching::is_version(#[trigger] versions[i], ip);
        assert(versions[i] == wanted);
    }
    if versions.contains(wanted) {
        let i = versions.index_of(wanted);
        assert(matching::is_version(versions[i], ip));
    }
}

proof fn lemma_plain(rule: RouteRule)
    requires
        rule.kind@.len() == 0 || rule.kind@ == "default"@,
    ensures
        compile::mode_of(rule) == Ok::<Option<LogicalMode>, compile::RouteError>(None),
{
    reveal_strlit("");
    reveal_strlit("logical");
    reveal_strlit("default");
    if rule.kind@.len() == 0 {
        assert(rule.kind@ =~= ""@);
    } else {
        assert("default"@[0] != "logical"@[0]);
    }
}

/// The names of a rule: a name is compared in lower case and without the dots at
/// its end; a suffix is matched by whole labels, a keyword anywhere. Without a name
/// no condition on names holds.
pub proof fn a_rule_names_hosts(
    rule: RouteRule,
    sets: Seq<RuleSet>,
    decides: bool,
    compiled: CompiledRule,
    c: RouteContext,
)
    requires
        compile::rule_error(rule, sets, decides) is None,
        compile::compiled_as(rule, sets, decides, compiled),
    ensures
        compiled.domain_ok(text::opt_str(c.domain)) <==> {
            &&& rule.domain@.len() > 0 ==> (c.domain matches Some(d) && exists|i: int|
                0 <= i < rule.domain@.len() && text::lower(
                    text::trim_end((#[trigger] rule.domain@[i])@, '.'),
                ) == text::lower(text::trim_end(d@, '.')))
            &&& rule.domain_suffix@.len() > 0 ==> (c.domain matches Some(d) && exists|i: int|
                0 <= i < rule.domain_suffix@.len() && text::ends_with(
                    text::split(text::lower(text::trim_end(d@, '.')), '.'),
                    text::split(
                        text::lower(text::trim_end((#[trigger] rule.domain_suffix@[i])@, '.')),
                        '.',
                    ),
                ))
            &&& rule.domain_keyword@.len() > 0 ==> (c.domain matches Some(d) && exists|i: int|
                0 <= i < rule.domain_keyword@.len() && text::has_part(
                    text::lower(text::trim_end(d@, '.')),
                    text::lower((#[trigger] rule.domain_keyword@[i])@),
                ))
            &&& rule.domain_regex@.len() > 0 ==> (c.domain matches Some(d) && exists|i: int|
                0 <= i < rule.domain_regex@.len() && pattern::pattern_finds(
                    (#[trigger] rule.domain_regex@[i])@,
                    text::lower(text::trim_end(d@, '.')),
                ))
        },
{
    let name = match c.domain {
        Some(d) => text::lower(text::trim_end(d@, '.')),
        None => Seq::empty(),
    };
    lemma_names(compiled.domains@, rule.domain@, name);
    lemma_names(compiled.suffixes@, rule.domain_suffix@, name);
    lemma_parts(compiled.keywords@, rule.domain_keyword@, name);
    lemma_found(compiled.regexes@, rule.domain_regex@, name);
}

/// The addresses and ports of a rule: an address in one of the networks, of one of
/// the versions, private where that is asked for, and a port that is listed or in
/// one of the ranges, both ends included.
pub proof fn a_rule_names_addresses(
    rule: RouteRule,
    sets: Seq<RuleSet>,
    decides: bool,
    compiled: CompiledRule,
    c: RouteContext,
)
    requires
        compile::rule_error(rule, sets, decides) is None,
        compile::compiled_as(rule, sets, decides, compiled),
    ensures
        compiled.address_ok(c) <==> {
            &&& rule.ip_cidr@.len() > 0 ==> (c.destination_ip matches Some(ip) && exists|i: int|
                0 <= i < rule.ip_cidr@.len() && (net::net_text((#[trigger] rule.ip_cidr@[i])@)->0).holds(
                    ip,
                ))
            &&& rule.source_ip_cidr@.len() > 0 ==> (c.source_ip matches Some(ip) && exists|i: int|
                0 <= i < rule.source_ip_cidr@.len() && (net::net_text((#[trigger] rule.source_ip_cidr@[i])@)->0).holds(
                    ip,
                ))
            &&& rule.ip_version@.len() > 0 ==> (c.destination_ip matches Some(ip) && (if ip is V4 {
                rule.ip_version@.contains(4u8)
            } else {
                rule.ip_version@.contains(6u8)
            }))
            &&& rule.ip_is_private ==> (c.destination_ip matches Some(ip) && matching::private_ip(
                ip,
            ))
            &&& rule.source_ip_is_private ==> (c.source_ip matches Some(ip)
                && matching::private_ip(ip))
            &&& rule.source_port@.len() > 0 || rule.source_port_range@.len() > 0 ==> (c.source_port matches Some(p) && (
            rule.source_port@.contains(p) || exists|i: int|
                0 <= i < rule.source_port_range@.len() && (compile::port_range(
                    (#[trigger] rule.source_port_range@[i])@,
                )->0).first <= p <= (compile::port_range(rule.source_port_range@[i]@)->0).last))
            &&& rule.port@.len() > 0 || rule.port_range@.len() > 0 ==> (c.destination_port matches Some(p) && (
            rule.port@.contains(p) || exists|i: int|
                0 <= i < rule.port_range@.len() && (compile::port_range(
                    (#[trigger] rule.port_range@[i])@,
                )->0).first <= p <= (compile::port_range(rule.port_range@[i]@)->0).last))
        },
{
    if c.destination_ip is Some {
        lemma_nets(rule.ip_cidr@, c.destination_ip->0);
    }
    if c.source_ip is Some {
        lemma_nets(rule.source_ip_cidr@, c.source_ip->0);
    }
    if c.destination_ip is Some {
        lemma_versions(rule.ip_version@, c.destination_ip->0);
    }
    lemma_ports(
        rule.source_port@,
        rule.source_port_range@,
        match c.source_port {
            Some(p) => p,
            None => 0,
        },
    );
    lemma_ports(
        rule.port@,
        rule.port_range@,
        match c.destination_port {
            Some(p) => p,
            None => 0,
        },
    );
}

/// The kind of connection that a rule asks for and who makes it: texts are compared
/// but for ASCII case, inbounds and paths as they stand.
pub proof fn a_rule_names_clients(
    rule: RouteRule,
    sets: Seq<RuleSet>,
    decides: bool,
    compiled: CompiledRule,
    c: RouteContext,
)
    requires
        compile::rule_error(rule, sets, decides) is None,
        compile::compiled_as(rule, sets, decides, compiled),
    ensures
        compiled.client_ok(c) <==> {
            &&& rule.network@.len() > 0 ==> (c.network matches Some(v) && exists|i: int|
                0 <= i < rule.network@.len() && text::lower((#[trigger] rule.network@[i])@)
                    == text::lower(v@))
            &&& rule.protocol@.len() > 0 ==> (c.protocol matches Some(v) && exists|i: int|
                0 <= i < rule.protocol@.len() && text::lower((#[trigger] rule.protocol@[i])@)
                    == text::lower(v@))
            &&& rule.client@.len() > 0 ==> (c.client matches Some(v) && exists|i: int|
                0 <= i < rule.client@.len() && text::lower((#[trigger] rule.client@[i])@)
                    == text::lower(v@))
            &&& rule.inbound@.len() > 0 ==> (c.inbound matches Some(v) && exists|i: int|
                0 <= i < rule.inbound@.len() && (#[trigger] rule.inbound@[i])@ == v@)
            &&& rule.auth_user@.len() > 0 ==> (c.auth_user matches Some(v) && exists|i: int|
                0 <= i < rule.auth_user@.len() && text::lower((#[trigger] rule.auth_user@[i])@)
                    == text::lower(v@))
            &&& rule.process_name@.len() > 0 ==> (c.process_name matches Some(v) && exists|i: int|
                0 <= i < rule.process_name@.len() && text::lower((#[trigger] rule.process_name@[i])@)
                    == text::lower(v@))
            &&& rule.process_path@.len() > 0 ==> (c.process_path matches Some(v) && exists|i: int|
                0 <= i < rule.process_path@.len() && (#[trigger] rule.process_path@[i])@ == v@)
            &&& rule.process_path_regex@.len() > 0 ==> (c.process_path matches Some(v) && exists|i: int|
                0 <= i < rule.process_path_regex@.len() && pattern::pattern_finds(
                    (#[trigger] rule.process_path_regex@[i])@,
                    v@,
                ))
            &&& rule.package_name@.len() > 0 ==> (c.package_name matches Some(v) && exists|i: int|
                0 <= i < rule.package_name@.len() && text::lower((#[trigger] rule.package_name@[i])@)
                    == text::lower(v@))
            &&& rule.package_name_regex@.len() > 0 ==> (c.package_name matches Some(v) && exists|i: int|
                0 <= i < rule.package_name_regex@.len() && pattern::pattern_finds(
                    (#[trigger] rule.package_name_regex@[i])@,
                    v@,
                ))
            &&& rule.user@.len() > 0 ==> (c.user matches Some(v) && exists|i: int|
                0 <= i < rule.user@.len() && text::lower((#[trigger] rule.user@[i])@)
                    == text::lower(v@))
            &&& rule.user_id@.len() > 0 ==> (c.user_id matches Some(id) && rule.user_id@.contains(
                id,
            ))
        },
{
    lemma_folded(compiled.networks@, rule.network@, words(c.network));
    lemma_folded(compiled.protocols@, rule.protocol@, words(c.protocol));
    lemma_folded(compiled.clients@, rule.client@, words(c.client));
    lemma_folded(compiled.auth_users@, rule.auth_user@, words(c.auth_user));
    lemma_folded(compiled.process_names@, rule.process_name@, words(c.process_name));
    lemma_folded(compiled.package_names@, rule.package_name@, words(c.package_name));
    lemma_folded(compiled.users@, rule.user@, words(c.user));
    lemma_same(compiled.inbounds@, rule.inbound@, words(c.inbound));
    lemma_same(compiled.process_paths@, rule.process_path@, words(c.process_path));
    lemma_found(compiled.process_path_regexes@, rule.process_path_regex@, words(c.process_path));
    lemma_found(compiled.package_name_regexes@, rule.package_name_regex@, words(c.package_name));
}

/// The host and the network that a rule asks for.
pub proof fn a_rule_names_networks(
    rule: RouteRule,
    sets: Seq<RuleSet>,
    decides: bool,
    compiled: CompiledRule,
    c: RouteContext,
)
    requires
        compile::rule_error(rule, sets, decides) is None,
        compile::compiled_as(rule, sets, decides, compiled),
    ensures
        compiled.host_ok(c) <==> {
            &&& rule.clash_mode matches Some(m) ==> (c.clash_mode matches Some(v) && text::lower(m@)
                == text::lower(v@))
            &&& rule.network_type@.len() > 0 ==> (c.network_type matches Some(v) && exists|i: int|
                0 <= i < rule.network_type@.len() && text::lower((#[trigger] rule.network_type@[i])@)
                    == text::lower(v@))
            &&& rule.network_is_expensive ==> c.network_is_expensive
            &&& rule.network_is_constrained ==> c.network_is_constrained
            &&& rule.wifi_ssid@.len() > 0 ==> (c.wifi_ssid matches Some(v) && exists|i: int|
                0 <= i < rule.wifi_ssid@.len() && text::lower((#[trigger] rule.wifi_ssid@[i])@)
                    == text::lower(v@))
            &&& rule.wifi_bssid@.len() > 0 ==> (c.wifi_bssid matches Some(v) && exists|i: int|
                0 <= i < rule.wifi_bssid@.len() && text::lower((#[trigger] rule.wifi_bssid@[i])@)
                    == text::lower(v@))
            &&& rule.interface_address@.len() > 0 ==> (c.interface_addresses matches Some(a) && exists|
                i: int,
                j: int,
                k: int,
                m: int,
            |
                0 <= i < rule.interface_address@.len() && 0 <= j < a@.len() && 0 <= k
                    < a@[j].addresses@.len() && 0 <= m < rule.interface_address@[i].values@.len()
                    && a@[j].name@ == text::lower(rule.interface_address@[i].name@) && (net::net_text(
                    (#[trigger] rule.interface_address@[i].values@[m])@,
                )->0).holds(#[trigger] a@[j].addresses@[k]))
            &&& rule.network_interface_address@.len() > 0 ==> (c.network_interface_addresses matches Some(a) && exists|
                i: int,
                j: int,
                k: int,
                m: int,
            |
                0 <= i < rule.network_interface_address@.len() && 0 <= j < a@.len() && 0 <= k
                    < a@[j].addresses@.len() && 0 <= m < rule.network_interface_address@[i].values@.len()
                    && a@[j].name@ == text::lower(rule.network_interface_address@[i].name@) && (net::net_text(
                    (#[trigger] rule.network_interface_address@[i].values@[m])@,
                )->0).holds(#[trigger] a@[j].addresses@[k]))
            &&& rule.source_mac_address@.len() > 0 ==> (c.source_mac_address matches Some(v) && exists|i: int|
                0 <= i < rule.source_mac_address@.len() && text::lower((#[trigger] rule.source_mac_address@[i])@)
                    == text::lower(v@))
            &&& rule.source_hostname@.len() > 0 ==> (c.source_hostname matches Some(v) && exists|i: int|
                0 <= i < rule.source_hostname@.len() && text::lower((#[trigger] rule.source_hostname@[i])@)
                    == text::lower(v@))
            &&& rule.default_interface_address@.len() > 0 ==> (c.default_interface_addresses
                matches Some(a) && exists|k: int, i: int|
                0 <= k < a@.len() && 0 <= i < rule.default_interface_address@.len() && (
                net::net_text((#[trigger] rule.default_interface_address@[i])@)->0).holds(
                    #[trigger] a@[k],
                ))
        },
{
    assert(rule.preferred_by@.len() == 0);
    assert(text::texts(rule.preferred_by@).len() == 0);
    assert(text::texts(compiled.preferred_by@).len() == compiled.preferred_by@.len());
    lemma_folded(compiled.network_types@, rule.network_type@, words(c.network_type));
    lemma_folded(compiled.wifi_ssids@, rule.wifi_ssid@, words(c.wifi_ssid));
    lemma_folded(compiled.wifi_bssids@, rule.wifi_bssid@, words(c.wifi_bssid));
    lemma_folded(compiled.source_mac_addresses@, rule.source_mac_address@, words(c.source_mac_address));
    lemma_folded(compiled.source_hostnames@, rule.source_hostname@, words(c.source_hostname));
    if c.interface_addresses is Some {
        lemma_named(
            compiled.interface_addresses@,
            rule.interface_address@,
            c.interface_addresses->0@,
        );
    }
    if c.network_interface_addresses is Some {
        lemma_named(
            compiled.network_interface_addresses@,
            rule.network_interface_address@,
            c.network_interface_addresses->0@,
        );
    }
    if c.default_interface_addresses is Some {
        lemma_any_address(
            rule.default_interface_address@,
            c.default_interface_addresses->0@,
        );
    }
    if rule.clash_mode is Some {
        text::lemma_lower_idempotent(rule.clash_mode->0@);
    }
}

/// A plain rule without rule sets matches exactly where its names, its addresses,
/// its clients and its networks do, and an inverted one exactly where they do not.
pub proof fn a_rule_matches_where_all_that_it_says_holds(
    rule: RouteRule,
    sets: Seq<RuleSet>,
    decides: bool,
    compiled: CompiledRule,
    c: RouteContext,
)
    requires
        compile::rule_error(rule, sets, decides) is None,
        compile::compiled_as(rule, sets, decides, compiled),
        rule.kind@.len() == 0 || rule.kind@ == "default"@,
        rule.rule_set@.len() == 0,
    ensures
        !rule.invert ==> (compiled.matched(c) <==> compiled.domain_ok(text::opt_str(c.domain))
            && compiled.address_ok(c) && compiled.client_ok(c) && compiled.host_ok(c)),
        rule.invert ==> (compiled.matched(c) <==> !(compiled.domain_ok(text::opt_str(c.domain))
            && compiled.address_ok(c) && compiled.client_ok(c) && compiled.host_ok(c))),
{
    lemma_plain(rule);
}

/// Where the rest of a rule holds, its one suffix decides: the rule matches a name
/// exactly where the labels of the name end with all the labels of the suffix.
pub proof fn a_suffix_is_matched_by_whole_labels(
    rule: RouteRule,
    sets: Seq<RuleSet>,
    decides: bool,
    compiled: CompiledRule,
    c: RouteContext,
)
    requires
        compile::rule_error(rule, sets, decides) is None,
        compile::compiled_as(rule, sets, decides, compiled),
        rule.kind@.len() == 0 || rule.kind@ == "default"@,
        rule.domain_suffix@.len() == 1,
        rule.domain@.len() == 0,
        rule.domain_keyword@.len() == 0,
        rule.domain_regex@.len() == 0,
        rule.rule_set@.len() == 0,
        !rule.invert,
        compiled.address_ok(c),
        compiled.client_ok(c),
        compiled.host_ok(c),
    ensures
        compiled.matched(c) <==> (c.domain matches Some(d) && {
            let name = text::split(text::lower(text::trim_end(d@, '.')), '.');
            let suffix = text::split(
                text::lower(text::trim_end(rule.domain_suffix@[0]@, '.')),
                '.',
            );
            suffix.len() <= name.len() && name.subrange(
                name.len() - suffix.len(),
                name.len() as int,
            ) == suffix
        }),
{
    a_rule_matches_where_all_that_it_says_holds(rule, sets, decides, compiled, c);
    a_rule_names_hosts(rule, sets, decides, compiled, c);
    if c.domain is Some {
        let name = text::split(text::lower(text::trim_end(c.domain->0@, '.')), '.');
        let suffix = text::split(text::lower(text::trim_end(rule.domain_suffix@[0]@, '.')), '.');
        if suffix.len() <= name.len() {
            assert(name.subrange(name.len() - suffix.len(), name.len() as int) =~= name.skip(
                name.len() - suffix.len(),
            ));
        }
        assert(compiled.matched(c) <==> text::ends_with(name, suffix));
    }
}

/// A suffix does not match a name that only goes on in its first label, and
/// matches every name below it.
pub proof fn a_suffix_cuts_no_label(
    rule: RouteRule,
    sets: Seq<RuleSet>,
    decides: bool,
    compiled: CompiledRule,
    longer: RouteContext,
    below: RouteContext,
    front: Seq<char>,
)
    requires
        compile::rule_error(rule, sets, decides) is None,
        compile::compiled_as(rule, sets, decides, compiled),
        rule.kind@.len() == 0 || rule.kind@ == "default"@,
        rule.domain_suffix@.len() == 1,
        rule.domain@.len() == 0,
        rule.domain_keyword@.len() == 0,
        rule.domain_regex@.len() == 0,
        rule.rule_set@.len() == 0,
        !rule.invert,
        front.len() > 0,
        !front.contains('.'),
        longer.domain matches Some(d) && text::lower(text::trim_end(d@, '.')) == front + text::lower(
            text::trim_end(rule.domain_suffix@[0]@, '.'),
        ),
        below.domain matches Some(d) && text::lower(text::trim_end(d@, '.')) == front + seq!['.']
            + text::lower(text::trim_end(rule.domain_suffix@[0]@, '.')),
        compiled.address_ok(below),
        compiled.client_ok(below),
        compiled.host_ok(below),
    ensures
        !compiled.matched(longer),
        compiled.matched(below),
{
    let suffix = text::lower(text::trim_end(rule.domain_suffix@[0]@, '.'));
    a_rule_matches_where_all_that_it_says_holds(rule, sets, decides, compiled, longer);
    a_rule_matches_where_all_that_it_says_holds(rule, sets, decides, compiled, below);
    a_rule_names_hosts(rule, sets, decides, compiled, longer);
    a_rule_names_hosts(rule, sets, decides, compiled, below);
    text::pieces_at_the_end(front + suffix, suffix, '.');
    text::pieces_at_the_end(front + seq!['.'] + suffix, suffix, '.');
    let tail = seq!['.'] + suffix;
    if text::ends_with(front + suffix, tail) {
        let s = front + suffix;
        assert(s.skip(s.len() - tail.len())[0] == front.last());
        assert(front.contains(front.last()));
    }
    let b = front + seq!['.'] + suffix;
    assert(b.skip(b.len() - tail.len()) =~= tail);
}

/// Names are matched whatever the case of their letters, and with or without a dot
/// at their end.
pub proof fn case_and_final_dots_do_not_matter(
    rule: CompiledRule,
    one: RouteContext,
    other: RouteContext,
)
    requires
        one.domain is Some,
        other.domain is Some,
        matching::same_facts(RouteContext { domain: other.domain, ..one }, other),
        text::lower(other.domain->0@) == text::lower(one.domain->0@) || other.domain->0@
            == one.domain->0@ + seq!['.'],
        rule.logical_mode is None,
        rule.rule_sets@.len() == 0,
    ensures
        rule.matched(one) == rule.matched(other),
{
    let a = one.domain->0@;
    let b = other.domain->0@;
    if text::lower(b) == text::lower(a) {
        lemma_trimmed_in_lower_case(a);
        lemma_trimmed_in_lower_case(b);
    } else {
        assert(b.drop_last() =~= a);
        assert(text::trim_end(b, '.') == text::trim_end(a, '.'));
    }
    assert(message::normalized(a) == message::normalized(b));
    let moved = RouteContext { domain: other.domain, ..one };
    matching::matching_depends_on_facts_alone(rule, moved, other);
    assert(rule.domain_ok(text::opt_str(one.domain)) == rule.domain_ok(
        text::opt_str(moved.domain),
    ));
    assert(rule.address_ok(one) == rule.address_ok(moved));
    assert(rule.client_ok(one) == rule.client_ok(moved));
    assert(rule.host_ok(one) == rule.host_ok(moved));
}

proof fn lemma_trimmed_in_lower_case(s: Seq<char>)
    ensures
        text::lower(text::trim_end(s, '.')) == text::trim_end(text::lower(s), '.'),
    decreases s.len(),
{
    if s.len() > 0 {
        assert(text::lower(s).last() == text::lower_char(s.last()));
        assert(text::lower(s).drop_last() =~= text::lower(s.drop_last()));
        lemma_trimmed_in_lower_case(s.drop_last());
    }
}

/// The private addresses: 10/8, 172.16/12, 192.168/16, 127/8, 169.254/16 and the
/// unspecified one; of the newer family the unspecified and the loopback address,
/// fc00::/7 and fe80::/10.
pub proof fn private_addresses(ip: IpAddr)
    ensures
        matching::private_ip(ip) <==> match ip {
            IpAddr::V4(n) => {
                ||| n == 0
                ||| 0x0a00_0000 <= n <= 0x0aff_ffff
                ||| 0xac10_0000 <= n <= 0xac1f_ffff
                ||| 0xc0a8_0000 <= n <= 0xc0a8_ffff
                ||| 0x7f00_0000 <= n <= 0x7fff_ffff
                ||| 0xa9fe_0000 <= n <= 0xa9fe_ffff
            },
            IpAddr::V6(n) => {
                ||| n == 0
                ||| n == 1
                ||| 0xfc00_0000_0000_0000_0000_0000_0000_0000 <= n
                    <= 0xfdff_ffff_ffff_ffff_ffff_ffff_ffff_ffff
                ||| 0xfe80_0000_0000_0000_0000_0000_0000_0000 <= n
                    <= 0xfebf_ffff_ffff_ffff_ffff_ffff_ffff_ffff
            },
        },
{
}

/// A range of ports is written as two numbers with a colon between, or as one
/// number that is both ends.
pub proof fn ranges_are_read_as_written(first: u16, last: u16)
    ensures
        compile::port_range(
            text::decimal(first as nat) + seq![':'] + text::decimal(last as nat),
        ) == Some(PortRange { first, last }),
        compile::port_range(text::decimal(first as nat)) == Some(PortRange { first, last: first }),
{
    let a = text::decimal(first as nat);
    let b = text::decimal(last as nat);
    text::decimal_reads_back(first as nat, 0xffff);
    text::decimal_reads_back(last as nat, 0xffff);
    text::lemma_decimal_number(first as nat);
    text::lemma_decimal_number(last as nat);
    let s = a + seq![':'] + b;
    assert forall|i: int| 0 <= i < a.len() implies a[i] != ':' by {
        assert(text::is_digit(a[i]));
    }
    text::lemma_span(s, ':', a.len() as int);
    text::lemma_span(a, ':', a.len() as int);
    assert(s.take(a.len() as int) =~= a);
    assert(s.skip(a.len() as int + 1) =~= b);
}

/// A logical rule joins its parts, each compiled by itself: by default and in the
/// mode `and` it matches where all of them do, in the mode `or` where one does; an
/// inverted one the other way round.
pub proof fn a_logical_rule_joins_its_parts(
    rule: RouteRule,
    sets: Seq<RuleSet>,
    decides: bool,
    compiled: CompiledRule,
    c: RouteContext,
)
    requires
        compile::rule_error(rule, sets, decides) is None,
        compile::compiled_as(rule, sets, decides, compiled),
        rule.kind@ == "logical"@,
    ensures
        compiled.logical_rules@.len() == rule.rules@.len() > 0,
        forall|i: int|
            0 <= i < rule.rules@.len() ==> compile::compiled_as(
                #[trigger] rule.rules@[i],
                sets,
                false,
                compiled.logical_rules@[i],
            ),
        rule.mode is None || rule.mode->0@ == "and"@ ==> (compiled.matched(c) != rule.invert <==> (
        forall|i: int|
            0 <= i < rule.rules@.len() ==> (#[trigger] compiled.logical_rules@[i]).matched(c))),
        rule.mode is Some && rule.mode->0@ == "or"@ ==> (compiled.matched(c) != rule.invert <==> (
        exists|i: int|
            0 <= i < rule.rules@.len() && (#[trigger] compiled.logical_rules@[i]).matched(c))),
        rule.mode matches Some(m) ==> m@ == "and"@ || m@ == "or"@,
{
    reveal_strlit("and");
    reveal_strlit("or");
    assert("and"@.len() != "or"@.len());
}

proof fn lemma_first_set(sets: Seq<RuleSet>, tag: Seq<char>) -> (k: int)
    requires
        compile::has_set(sets, tag),
    ensures
        0 <= k < sets.len(),
        sets[k].tag@ == tag,
        forall|j: int| 0 <= j < k ==> (#[trigger] sets[j]).tag@ != tag,
        compile::set_named(sets, tag) == sets[k].rules,
    decreases sets.len(),
{
    if sets[0].tag@ == tag {
        0
    } else {
        let i = choose|i: int| 0 <= i < sets.len() && (#[trigger] sets[i]).tag@ == tag;
        assert(sets.skip(1)[i - 1] == sets[i]);
        let k = lemma_first_set(sets.skip(1), tag);
        assert(sets.skip(1)[k] == sets[k + 1]);
        assert forall|j: int| 0 <= j < k + 1 implies (#[trigger] sets[j]).tag@ != tag by {
            if j > 0 {
                assert(sets.skip(1)[j - 1] == sets[j]);
            }
        }
        k + 1
    }
}

/// A rule that names rule sets asks for one of them besides what else it says: a
/// rule of the first set with one of the tags matches, with the source of the
/// connection in place of its destination where the rule wants that.
pub proof fn a_rule_asks_for_one_of_its_sets(
    rule: RouteRule,
    sets: Seq<RuleSet>,
    decides: bool,
    compiled: CompiledRule,
    c: RouteContext,
    seen: RouteContext,
)
    requires
        compile::rule_error(rule, sets, decides) is None,
        compile::compiled_as(rule, sets, decides, compiled),
        rule.kind@.len() == 0 || rule.kind@ == "default"@,
        rule.rule_set@.len() > 0,
        !rule.invert,
        compiled.domain_ok(text::opt_str(c.domain)),
        compiled.address_ok(c),
        compiled.client_ok(c),
        compiled.host_ok(c),
        seen == (if rule.rule_set_ip_cidr_match_source {
            RouteContext { destination_ip: c.source_ip, ..c }
        } else {
            c
        }),
    ensures
        compiled.matched(c) <==> exists|t: int, k: int, j: int|
            0 <= t < rule.rule_set@.len() && 0 <= k < sets.len() && sets[k].tag@
                == #[trigger] rule.rule_set@[t]@ && (forall|e: int|
                0 <= e < k ==> (#[trigger] sets[e]).tag@ != sets[k].tag@) && 0 <= j
                < sets[k].rules@.len() && (#[trigger] sets[k].rules@[j]).matched(seen),
{
    lemma_plain(rule);
    let chosen = compiled.rule_sets@;
    assert(chosen == compile::sets_named(sets, rule.rule_set@));
    if compiled.matched(c) {
        let (i, j) = choose|i: int, j: int|
            0 <= i < chosen.len() && 0 <= j < chosen[i]@.len() && (
            #[trigger] chosen[i]@[j]).matched(seen);
        assert(compile::has_set(sets, rule.rule_set@[i]@));
        let k = lemma_first_set(sets, rule.rule_set@[i]@);
        assert(chosen[i] == sets[k].rules);
        assert(sets[k].rules@[j].matched(seen));
        assert(sets[k].tag@ == rule.rule_set@[i]@);
    }
    if exists|t: int, k: int, j: int|
        0 <= t < rule.rule_set@.len() && 0 <= k < sets.len() && sets[k].tag@
            == #[trigger] rule.rule_set@[t]@ && (forall|e: int|
            0 <= e < k ==> (#[trigger] sets[e]).tag@ != sets[k].tag@) && 0 <= j
            < sets[k].rules@.len() && (#[trigger] sets[k].rules@[j]).matched(seen) {
        let (t, k, j) = choose|t: int, k: int, j: int|
            0 <= t < rule.rule_set@.len() && 0 <= k < sets.len() && sets[k].tag@
                == #[trigger] rule.rule_set@[t]@ && (forall|e: int|
                0 <= e < k ==> (#[trigger] sets[e]).tag@ != sets[k].tag@) && 0 <= j
                < sets[k].rules@.len() && (#[trigger] sets[k].rules@[j]).matched(seen);
        assert(compile::has_set(sets, rule.rule_set@[t]@));
        let first = lemma_first_set(sets, rule.rule_set@[t]@);
        assert(first == k) by {
            if first < k {
                assert(sets[first].tag@ != sets[k].tag@);
            }
            if k < first {
                assert(sets[k].tag@ != rule.rule_set@[t]@);
            }
        }
        assert(chosen[t] == sets[k].rules);
        assert(chosen[t]@[j].matched(seen));
    }
}

// ---- what a rule does ----

proof fn lemma_action_words()
    ensures
        "reject"@ != "hijack-dns"@,
        "reject"@ != "direct"@,
        "reject"@ != "bypass"@,
        "reject"@ != "route"@,
        "reject"@ != "route-options"@,
        "reject"@ != "sniff"@,
        "reject"@ != "resolve"@,
        "hijack-dns"@ != "direct"@,
        "hijack-dns"@ != "bypass"@,
        "hijack-dns"@ != "route"@,
        "hijack-dns"@ != "route-options"@,
        "hijack-dns"@ != "sniff"@,
        "hijack-dns"@ != "resolve"@,
        "direct"@ != "bypass"@,
        "direct"@ != "route"@,
        "direct"@ != "route-options"@,
        "direct"@ != "sniff"@,
        "direct"@ != "resolve"@,
        "bypass"@ != "route"@,
        "bypass"@ != "route-options"@,
        "bypass"@ != "sniff"@,
        "bypass"@ != "resolve"@,
        "route"@ != "route-options"@,
        "route"@ != "sniff"@,
        "route"@ != "resolve"@,
        "route-options"@ != "sniff"@,
        "route-options"@ != "resolve"@,
        "sniff"@ != "resolve"@,
{
    reveal_strlit("reject");
    reveal_strlit("hijack-dns");
    reveal_strlit("direct");
    reveal_strlit("bypass");
    reveal_strlit("route");
    reveal_strlit("route-options");
    reveal_strlit("sniff");
    reveal_strlit("resolve");
    assert("reject"@[0] == 'r' && "reject"@[2] == 'j');
    assert("hijack-dns"@[0] == 'h');
    assert("direct"@[0] == 'd');
    assert("bypass"@[0] == 'b');
    assert("route"@[0] == 'r' && "route"@[1] == 'o');
    assert("route-options"@.len() == 13);
    assert("sniff"@[0] == 's');
    assert("resolve"@[0] == 'r' && "resolve"@[2] == 's');
    assert("reject"@.len() == 6 && "route"@.len() == 5 && "resolve"@.len() == 7);
}

/// A rule at the top level does what its action says: without one, or with `route`,
/// it sends to the outbound that it names, which it has to; `reject` and
/// `hijack-dns` decide by themselves, `direct` sends to the outbound of that name,
/// `bypass` to the outbound that the rule names or else there; `route-options`,
/// `sniff` and `resolve` decide nothing.
pub proof fn a_rule_does_what_its_action_says(
    rule: RouteRule,
    sets: Seq<RuleSet>,
    compiled: CompiledRule,
)
    requires
        compile::rule_error(rule, sets, true) is None,
        compile::compiled_as(rule, sets, true, compiled),
    ensures
        match compiled.action@ {
            ActionView::Route { decision, .. } => match rule.action {
                None => rule.outbound is Some && decision == DecisionView::Outbound(
                    rule.outbound->0@,
                ),
                Some(a) => {
                    ||| a@ == "route"@ && rule.outbound is Some && decision
                        == DecisionView::Outbound(rule.outbound->0@)
                    ||| a@ == "reject"@ && decision is Reject
                    ||| a@ == "hijack-dns"@ && decision is HijackDns
                    ||| a@ == "direct"@ && decision == DecisionView::Outbound("direct"@)
                    ||| a@ == "bypass"@ && rule.outbound is Some && decision
                        == DecisionView::Outbound(rule.outbound->0@)
                    ||| a@ == "bypass"@ && rule.outbound is None && decision
                        == DecisionView::Outbound("direct"@)
                },
            },
            ActionView::RouteOptions(_) => rule.action matches Some(a) && a@ == "route-options"@,
            ActionView::Sniff { sniffers, timeout } => (rule.action matches Some(a) && a@
                == "sniff"@) && timeout == text::opt_text(rule.timeout) && sniffers.len()
                == rule.sniffer@.len() && (forall|i: int|
                0 <= i < sniffers.len() ==> #[trigger] sniffers[i] == text::lower(
                    rule.sniffer@[i]@,
                )),
            ActionView::Resolve {
                server,
                timeout,
                strategy,
                disable_cache,
                rewrite_ttl,
                client_subnet,
            } => (rule.action matches Some(a) && a@ == "resolve"@) && server == text::opt_text(
                rule.server,
            ) && timeout == text::opt_text(rule.timeout) && strategy == text::opt_text(
                rule.strategy,
            ) && disable_cache == rule.disable_cache && rewrite_ttl == rule.rewrite_ttl
                && client_subnet == text::opt_text(rule.client_subnet),
        },
{
    lemma_action_words();
}

/// The options that a rule carries are those written in it, each in its own place;
/// a connection hijacked for the resolver has none.
pub proof fn a_rule_carries_its_own_options(
    rule: RouteRule,
    sets: Seq<RuleSet>,
    compiled: CompiledRule,
)
    requires
        compile::rule_error(rule, sets, true) is None,
        compile::compiled_as(rule, sets, true, compiled),
        compiled.action@ is Route || compiled.action@ is RouteOptions,
    ensures
        ({
            let o = match compiled.action@ {
                ActionView::Route { options, .. } => options,
                ActionView::RouteOptions(options) => options,
                _ => RouteOptionsView::unset(),
            };
            if rule.action matches Some(a) && a@ == "hijack-dns"@ {
                o == RouteOptionsView::unset()
            } else {
                &&& o.override_address == text::opt_text(rule.override_address)
                &&& o.override_port == rule.override_port
                &&& o.network_strategy == text::opt_text(rule.network_strategy)
                &&& o.fallback_delay == text::opt_text(rule.fallback_delay)
                &&& o.udp_disable_domain_unmapping == rule.udp_disable_domain_unmapping
                &&& o.udp_connect == rule.udp_connect
                &&& o.udp_timeout == text::opt_text(rule.udp_timeout)
                &&& o.tls_fragment == rule.tls_fragment
                &&& o.tls_fragment_fallback_delay == text::opt_text(
                    rule.tls_fragment_fallback_delay,
                )
                &&& o.tls_record_fragment == rule.tls_record_fragment
                &&& !(o.tls_fragment && o.tls_record_fragment)
                &&& o.tls_spoof is None
                &&& !o.tcp_multi_path
                &&& o.bind_interface == text::opt_text(rule.bind_interface)
                &&& o.inet4_bind_address == text::opt_text(rule.inet4_bind_address)
                &&& o.inet6_bind_address == text::opt_text(rule.inet6_bind_address)
                &&& o.routing_mark == rule.routing_mark
                &&& o.reuse_addr == rule.reuse_addr
                &&& o.connect_timeout == text::opt_text(rule.connect_timeout)
                &&& o.tcp_fast_open == rule.tcp_fast_open
                &&& o.udp_fragment == rule.udp_fragment
                &&& o.domain_strategy == text::opt_text(rule.domain_strategy)
                &&& o.reject_method == text::opt_text(rule.method)
                &&& o.reject_no_drop == rule.no_drop
            }
        }),
{
    lemma_action_words();
}

/// A router sends a connection where the first rule of its configuration says that
/// matches and decides; without such a rule to the last outbound of the
/// configuration, or the default one where it names none. Its options start from
/// the defaults of the configuration.
pub proof fn a_router_decides_by_its_configuration(
    config: RouteConfig,
    default_outbound: Seq<char>,
    loaded: Seq<LoadedSet>,
    fetch_remote: bool,
    r: Router,
    c: RouteContext,
    i: int,
)
    requires
        router::router_of(config, default_outbound, loaded, fetch_remote, r),
        0 <= i <= config.rules@.len(),
        forall|j: int|
            0 <= j < i ==> !((#[trigger] r.rules@[j]).matched(c) && !(config.rules@[j].action
                matches Some(a) && (a@ == "route-options"@ || a@ == "sniff"@ || a@ == "resolve"@))),
        i < config.rules@.len() ==> r.rules@[i].matched(c),
        i < config.rules@.len() ==> !(config.rules@[i].action matches Some(a) && (a@
            == "route-options"@ || a@ == "sniff"@ || a@ == "resolve"@)),
    ensures
        r.rules@.len() == config.rules@.len(),
        i < config.rules@.len() ==> match config.rules@[i].action {
            None => config.rules@[i].outbound is Some && r.decision(c) == DecisionView::Outbound(
                config.rules@[i].outbound->0@,
            ),
            Some(a) => {
                ||| a@ == "route"@ && r.decision(c) == DecisionView::Outbound(
                    config.rules@[i].outbound->0@,
                )
                ||| a@ == "reject"@ && r.decision(c) == DecisionView::Reject
                ||| a@ == "hijack-dns"@ && r.decision(c) == DecisionView::HijackDns
                ||| a@ == "direct"@ && r.decision(c) == DecisionView::Outbound("direct"@)
                ||| a@ == "bypass"@ && r.decision(c) == DecisionView::Outbound(
                    match config.rules@[i].outbound {
                        Some(tag) => tag@,
                        None => "direct"@,
                    },
                )
            },
        },
        i == config.rules@.len() && config.final_outbound is Some ==> r.decision(c)
            == DecisionView::Outbound(config.final_outbound->0@),
        i == config.rules@.len() && config.final_outbound is None ==> r.decision(c)
            == DecisionView::Outbound(default_outbound),
        r.defaults@.bind_interface == text::opt_text(config.default_interface),
        r.defaults@.routing_mark == config.default_mark,
        r.defaults@.network_strategy == text::opt_text(config.default_network_strategy),
        r.defaults@.fallback_delay == text::opt_text(config.default_fallback_delay),
        r.defaults@.override_address is None && r.defaults@.override_port is None,
{
    lemma_action_words();
    let n = config.rules@.len();
    assert forall|j: int| 0 <= j < n implies compile::rule_error(
        config.rules@[j],
        r.rule_sets@,
        true,
    ) is None && compile::compiled_as(config.rules@[j], r.rule_sets@, true, #[trigger] r.rules@[j]) by {
        lemma_each_rule_is_in_order(config.rules@, r.rule_sets@, n, j);
    }
    assert forall|j: int| 0 <= j < i implies !((#[trigger] r.rules@[j]).matched(c)
        && r.rules@[j].action@ is Route) by {
        a_rule_does_what_its_action_says(config.rules@[j], r.rule_sets@, r.rules@[j]);
    }
    if i < n {
        a_rule_does_what_its_action_says(config.rules@[i], r.rule_sets@, r.rules@[i]);
        router::first_matching_rule_decides(r, c, i);
    } else {
        router::undecided_goes_to_fallback(r, c);
    }
}

proof fn lemma_each_rule_is_in_order(rules: Seq<RouteRule>, sets: Seq<RuleSet>, n: nat, j: int)
    requires
        n <= rules.len(),
        0 <= j < n,
        router::rules_error(rules, sets, true, n) is None,
    ensures
        compile::rule_error(rules[j], sets, true) is None,
    decreases n,
{
    if j < n - 1 {
        lemma_each_rule_is_in_order(rules, sets, (n - 1) as nat, j);
    }
}

// ---- what is in order ----

/// A plain rule at the top level is in order exactly where it asks for nothing that
/// is not there, its action is known and has what it needs, its options do not
/// exclude one another, its sets are there, and all that it lists can be read.
pub proof fn rules_are_in_order(rule: RouteRule, sets: Seq<RuleSet>)
    requires
        rule.kind@.len() == 0,
        rule.rules@.len() == 0,
    ensures
        compile::rule_error(rule, sets, true) is None <==> {
            &&& rule.geosite@.len() == 0 && rule.geoip@.len() == 0 && rule.source_geoip@.len() == 0
            &&& rule.preferred_by@.len() == 0
            &&& !rule.network_is_constrained
            &&& match rule.action {
                None => rule.outbound is Some,
                Some(a) => {
                    ||| a@ == "route"@ && rule.outbound is Some
                    ||| a@ == "reject"@ && (rule.method matches Some(m) ==> m@ == ""@ || m@
                        == "drop"@ || m@ == "reply"@)
                    ||| a@ == "direct"@
                    ||| a@ == "bypass"@
                    ||| a@ == "route-options"@
                    ||| a@ == "hijack-dns"@
                    ||| a@ == "sniff"@
                    ||| a@ == "resolve"@
                },
            }
            &&& !(rule.action is Some && (rule.action->0@ == "hijack-dns"@ || rule.action->0@
                == "sniff"@ || rule.action->0@ == "resolve"@)) ==> !(rule.tls_fragment
                && rule.tls_record_fragment) && rule.tls_spoof is None && !rule.tcp_multi_path
            &&& forall|i: int|
                0 <= i < rule.rule_set@.len() ==> compile::has_set(
                    sets,
                    (#[trigger] rule.rule_set@[i])@,
                )
            &&& compile::all_patterns(rule.domain_regex@) && compile::all_patterns(
                rule.process_path_regex@,
            ) && compile::all_patterns(rule.package_name_regex@)
            &&& compile::all_nets(rule.ip_cidr@) && compile::all_nets(rule.source_ip_cidr@)
                && compile::all_nets(rule.default_interface_address@)
            &&& compile::all_named_nets(rule.interface_address@) && compile::all_named_nets(
                rule.network_interface_address@,
            )
            &&& compile::all_ranges(rule.port_range@) && compile::all_ranges(
                rule.source_port_range@,
            )
        },
{
    lemma_action_words();
    lemma_plain(rule);
    assert(compile::nested_error(rule, sets, 0) is None);
    assert(compile::rule_error(rule, sets, true) == (match compile::head_error(rule, sets, true) {
        Some(e) => Some(e),
        None => compile::conditions_error(rule),
    }));
    reveal_strlit("");
    reveal_strlit("drop");
    reveal_strlit("reply");
    assert(compile::options_error(rule) is None <==> {
        &&& !(rule.tls_fragment && rule.tls_record_fragment)
        &&& rule.tls_spoof is None
        &&& !rule.tcp_multi_path
        &&& rule.action is Some && rule.action->0@ == "reject"@ ==> (rule.method matches Some(m)
            ==> m@ == ""@ || m@ == "drop"@ || m@ == "reply"@)
    });
    assert(compile::mode_of(rule)->Ok_0 is None);
}

/// The sets of a configuration in order all have tags of their own, and each holds
/// the rules that stand in the configuration, or the first ones that were read for
/// its tag.
pub proof fn sets_have_tags_of_their_own(
    config: RouteConfig,
    default_outbound: Seq<char>,
    loaded: Seq<LoadedSet>,
    fetch_remote: bool,
    r: Router,
    i: int,
    j: int,
)
    requires
        router::router_of(config, default_outbound, loaded, fetch_remote, r),
        0 <= i < j < config.rule_set@.len(),
    ensures
        config.rule_set@[i].tag@ != config.rule_set@[j].tag@,
        r.rule_sets@.len() == config.rule_set@.len(),
        r.rule_sets@[i].tag@ == config.rule_set@[i].tag@,
        config.rule_set@[i].tag@.len() > 0,
        config.rule_set@[i].kind@ == "inline"@ ==> r.rule_sets@[i].rules@.len()
            == config.rule_set@[i].rules@.len(),
        config.rule_set@[i].kind@ == "remote"@ && !fetch_remote ==> r.rule_sets@[i].rules@.len()
            == 0,
{
    let sets = config.rule_set@;
    lemma_set_in_order(sets, loaded, fetch_remote, sets.len(), j);
    assert(!router::tag_taken(sets, sets[j].tag@, j as nat));
    assert(router::set_compiled(sets[i], loaded, fetch_remote, r.rule_sets@[i]));
    reveal_strlit("inline");
    reveal_strlit("remote");
    reveal_strlit("local");
    reveal_strlit("");
    assert("inline"@[0] == 'i' && "remote"@[0] == 'r' && "local"@[0] == 'l');
    assert("remote"@.len() == 6 && "local"@.len() == 5 && ""@.len() == 0);
    if sets[i].kind@ == "remote"@ && !fetch_remote {
        assert(router::origin_of(sets[i], fetch_remote) == Ok::<
            router::SetOrigin,
            compile::RouteError,
        >(router::SetOrigin::Skipped));
        assert(router::rules_of(sets[i], loaded, fetch_remote)->Ok_0.len() == 0);
    }
}

proof fn lemma_set_in_order(
    sets: Seq<RuleSetConfig>,
    loaded: Seq<LoadedSet>,
    fetch_remote: bool,
    n: nat,
    j: int,
)
    requires
        0 <= j < n <= sets.len(),
        router::sets_error(sets, loaded, fetch_remote, n) is None,
    ensures
        router::set_error(sets[j], loaded, fetch_remote) is None,
        !router::tag_taken(sets, sets[j].tag@, j as nat),
    decreases n,
{
    if j < n - 1 {
        lemma_set_in_order(sets, loaded, fetch_remote, (n - 1) as nat, j);
    }
}

/// Of the rules that were read for a tag the first count.
pub proof fn the_first_rules_read_for_a_tag_count(
    loaded: Seq<LoadedSet>,
    tag: Seq<char>,
    i: int,
)
    requires
        0 <= i <= loaded.len(),
        i < loaded.len() ==> loaded[i].tag@ == tag,
        forall|j: int| 0 <= j < i ==> (#[trigger] loaded[j]).tag@ != tag,
    ensures
        i < loaded.len() ==> router::loaded_for(loaded, tag) == Some(loaded[i].rules@),
        i == loaded.len() ==> router::loaded_for(loaded, tag) is None,
    decreases i,
{
    if i > 0 {
        assert(loaded[0].tag@ != tag);
        assert forall|j: int| 0 <= j < i - 1 implies (#[trigger] loaded.skip(1)[j]).tag@
            != tag by {
            assert(loaded.skip(1)[j] == loaded[j + 1]);
        }
        the_first_rules_read_for_a_tag_count(loaded.skip(1), tag, i - 1);
    }
}

} // verus!
