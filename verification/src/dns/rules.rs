//! DNS rules: what they match and whether they are in order.
use crate::dns::message;
use crate::dns::message::DnsError;
use crate::dns::record;
use crate::json::Value;
use crate::net;
use crate::net::IpAddr;
use crate::routing::compile;
use crate::routing::compile::RuleSet;
use crate::routing::matching;
use crate::routing::matching::{CompiledRule, RouteContext};
use crate::singbox::DnsRule;
use crate::text;
use vstd::prelude::*;

verus! {

// ---- rules of rule sets, seen from the name system ----

impl CompiledRule {
    /// Whether the rule or one of its nested rules has a destination network.
    pub open spec fn has_cidr(&self) -> bool
        decreases self,
    {
        ||| self.cidrs@.len() > 0
        ||| exists|i: int|
            0 <= i < self.logical_rules@.len() && (#[trigger] self.logical_rules@[i]).has_cidr()
    }

    /// Whether the rule matches a connection of which only the name is known.
    pub fn dns_matches_domain(&self, name: &str) -> (r: bool)
        ensures
            r == name_matches(*self, name),
    {
        let mut c = RouteContext::default();
        c.domain = Some(name);
        self.matches(&c)
    }

    /// Whether the rule or one of its nested rules has a destination network.
    pub fn dns_contains_ip_cidr(&self) -> (r: bool)
        ensures
            r == self.has_cidr(),
        decreases self,
    {
        if self.cidrs.len() > 0 {
            return true;
        }
        let mut i: usize = 0;
        while i < self.logical_rules.len()
            invariant
                i <= self.logical_rules@.len(),
                self.cidrs@.len() == 0,
                forall|j: int| 0 <= j < i ==> !(#[trigger] self.logical_rules@[j]).has_cidr(),
            decreases self.logical_rules@.len() - i,
        {
            if self.logical_rules[i].dns_contains_ip_cidr() {
                return true;
            }
            i = i + 1;
        }
        false
    }

    /// Whether the rule matches a connection of which only the name and one
    /// address are known.
    pub fn dns_matches_address(&self, address: IpAddr, name: &str) -> (r: bool)
        ensures
            r == address_matches(*self, address, name),
    {
        let mut c = RouteContext::default();
        c.domain = Some(name);
        c.destination_ip = Some(address);
        self.matches(&c)
    }
}

/// The context in which nothing is known but a name, and an address where one
/// is given.
pub open spec fn name_context<'a>(name: &'a str, address: Option<IpAddr>) -> RouteContext<'a> {
    RouteContext {
        domain: Some(name),
        destination_ip: address,
        destination_port: None,
        source_ip: None,
        source_port: None,
        network: None,
        protocol: None,
        client: None,
        inbound: None,
        auth_user: None,
        process_name: None,
        process_path: None,
        package_name: None,
        user: None,
        user_id: None,
        clash_mode: None,
        network_type: None,
        network_is_expensive: false,
        network_is_constrained: false,
        wifi_ssid: None,
        wifi_bssid: None,
        interface_addresses: None,
        network_interface_addresses: None,
        source_mac_address: None,
        source_hostname: None,
        default_interface_addresses: None,
        preferred_by: None,
    }
}

/// The rule matches a name alone.
pub open spec fn name_matches(rule: CompiledRule, name: &str) -> bool {
    rule.matched(name_context(name, None))
}

/// The rule matches a name with an address.
pub open spec fn address_matches(rule: CompiledRule, address: IpAddr, name: &str) -> bool {
    rule.matched(name_context(name, Some(address)))
}

// ---- matching ----

/// One of the configured types is the asked one.
pub open spec fn any_type(list: Seq<Value>, qtype: u16) -> bool {
    exists|i: int|
        0 <= i < list.len() && record::query_type(#[trigger] list[i]) == Ok::<u16, DnsError>(qtype)
}

/// One of the configured names is the asked one.
pub open spec fn any_name(list: Seq<String>, name: Seq<char>) -> bool {
    exists|i: int| 0 <= i < list.len() && message::normalized((#[trigger] list[i])@) == name
}

/// The asked name is one of the configured names or below it.
pub open spec fn any_suffix(list: Seq<String>, name: Seq<char>) -> bool {
    exists|i: int|
        0 <= i < list.len() && matching::name_under(
            name,
            message::normalized((#[trigger] list[i])@),
        )
}

/// One of the configured words stands in the asked name.
pub open spec fn any_word(list: Seq<String>, name: Seq<char>) -> bool {
    exists|i: int| 0 <= i < list.len() && text::has_part(name, text::lower((#[trigger] list[i])@))
}

/// A rule of the set matches the name, or asks for an address.
pub open spec fn set_admits(rules: Seq<CompiledRule>, name: &str) -> bool {
    exists|i: int|
        0 <= i < rules.len() && (name_matches(#[trigger] rules[i], name) || rules[i].has_cidr())
}

/// One of the named sets is there and admits the name.
pub open spec fn any_set_admits(sets: Seq<RuleSet>, tags: Seq<String>, name: &str) -> bool {
    exists|i: int|
        0 <= i < tags.len() && compile::has_set(sets, (#[trigger] tags[i])@) && set_admits(
            compile::set_named(sets, tags[i]@)@,
            name,
        )
}

/// Whether a rule matches a query: all conditions that it sets hold, or for a
/// logical rule all or any of its parts match; the other way round where it is
/// inverted.
pub open spec fn rule_matches(
    r: DnsRule,
    name: &str,
    qtype: u16,
    sets: Option<Seq<RuleSet>>,
) -> bool
    decreases r,
{
    let plain = if r.kind@ == "logical"@ {
        if r.mode is None || r.mode->0@ == "and"@ {
            forall|i: int|
                0 <= i < r.rules@.len() ==> rule_matches(#[trigger] r.rules@[i], name, qtype, sets)
        } else if r.mode->0@ == "or"@ {
            exists|i: int|
                0 <= i < r.rules@.len() && rule_matches(#[trigger] r.rules@[i], name, qtype, sets)
        } else {
            false
        }
    } else {
        &&& r.query_type@.len() == 0 || any_type(r.query_type@, qtype)
        &&& r.domain@.len() == 0 || any_name(r.domain@, name@)
        &&& r.domain_suffix@.len() == 0 || any_suffix(r.domain_suffix@, name@)
        &&& r.domain_keyword@.len() == 0 || any_word(r.domain_keyword@, name@)
        &&& r.domain_regex@.len() == 0 || matching::any_found(r.domain_regex@, name@)
        &&& r.rule_set@.len() == 0 || (sets matches Some(s) && any_set_admits(
            s,
            r.rule_set@,
            name,
        ))
    };
    plain != r.invert
}

/// Whether a rule matches a query depends on nothing but the text of its name.
pub proof fn matching_depends_on_the_text_of_a_name(
    r: DnsRule,
    one: &str,
    two: &str,
    qtype: u16,
    sets: Option<Seq<RuleSet>>,
)
    requires
        one@ == two@,
    ensures
        rule_matches(r, one, qtype, sets) == rule_matches(r, two, qtype, sets),
    decreases r,
{
    assert forall|i: int| 0 <= i < r.rules@.len() implies rule_matches(
        #[trigger] r.rules@[i],
        one,
        qtype,
        sets,
    ) == rule_matches(r.rules@[i], two, qtype, sets) by {
        matching_depends_on_the_text_of_a_name(r.rules@[i], one, two, qtype, sets);
    }
    if let Some(s) = sets {
        assert forall|i: int| 0 <= i < r.rule_set@.len() implies set_admits(
            compile::set_named(s, (#[trigger] r.rule_set@[i])@)@,
            one,
        ) == set_admits(compile::set_named(s, r.rule_set@[i]@)@, two) by {
            let rules = compile::set_named(s, r.rule_set@[i]@)@;
            assert forall|k: int| 0 <= k < rules.len() implies name_matches(
                #[trigger] rules[k],
                one,
            ) == name_matches(rules[k], two) by {
                matching::matching_depends_on_facts_alone(
                    rules[k],
                    name_context(one, None),
                    name_context(two, None),
                );
            }
        }
    }
}

/// The rule sets behind an optional reference.
pub open spec fn opt_sets(sets: Option<&Vec<RuleSet>>) -> Option<Seq<RuleSet>> {
    match sets {
        Some(s) => Some(s@),
        None => None,
    }
}

fn has_type(list: &Vec<Value>, qtype: u16) -> (r: bool)
    ensures
        r == any_type(list@, qtype),
{
    let mut i: usize = 0;
    while i < list.len()
        invariant
            i <= list@.len(),
            forall|j: int|
                0 <= j < i ==> record::query_type(#[trigger] list@[j]) != Ok::<u16, DnsError>(
                    qtype,
                ),
        decreases list@.len() - i,
    {
        match record::parse_query_type(&list[i]) {
            Ok(t) => {
                if t == qtype {
                    proof {
                        assert(record::query_type(list@[i as int]) == Ok::<u16, DnsError>(qtype));
                    }
                    return true;
                }
            },
            Err(_) => {},
        }
        i = i + 1;
    }
    false
}

fn has_name(list: &Vec<String>, name: &str) -> (r: bool)
    ensures
        r == any_name(list@, name@),
{
    let mut i: usize = 0;
    while i < list.len()
        invariant
            i <= list@.len(),
            forall|j: int| 0 <= j < i ==> message::normalized((#[trigger] list@[j])@) != name@,
        decreases list@.len() - i,
    {
        let v = message::normalize(list[i].as_str());
        if text::same_text(v.as_str(), name) {
            proof {
                assert(message::normalized(list@[i as int]@) == name@);
            }
            return true;
        }
        i = i + 1;
    }
    false
}

fn has_suffix(list: &Vec<String>, name: &str) -> (r: bool)
    ensures
        r == any_suffix(list@, name@),
{
    let mut i: usize = 0;
    while i < list.len()
        invariant
            i <= list@.len(),
            forall|j: int|
                0 <= j < i ==> !matching::name_under(
                    name@,
                    message::normalized((#[trigger] list@[j])@),
                ),
        decreases list@.len() - i,
    {
        let v = message::normalize(list[i].as_str());
        if matching::is_under(name, v.as_str()) {
            proof {
                assert(matching::name_under(name@, message::normalized(list@[i as int]@)));
            }
            return true;
        }
        i = i + 1;
    }
    false
}

fn has_word(list: &Vec<String>, name: &str) -> (r: bool)
    ensures
        r == any_word(list@, name@),
{
    let mut i: usize = 0;
    while i < list.len()
        invariant
            i <= list@.len(),
            forall|j: int|
                0 <= j < i ==> !text::has_part(name@, text::lower((#[trigger] list@[j])@)),
        decreases list@.len() - i,
    {
        let v = text::to_lower(list[i].as_str());
        if text::text_contains(name, v.as_str()) {
            proof {
                assert(text::has_part(name@, text::lower(list@[i as int]@)));
            }
            return true;
        }
        i = i + 1;
    }
    false
}

fn is_admitted(rules: &Vec<CompiledRule>, name: &str) -> (r: bool)
    ensures
        r == set_admits(rules@, name),
{
    let mut i: usize = 0;
    while i < rules.len()
        invariant
            i <= rules@.len(),
            forall|j: int|
                0 <= j < i ==> !(name_matches(#[trigger] rules@[j], name) || rules@[j].has_cidr()),
        decreases rules@.len() - i,
    {
        if rules[i].dns_matches_domain(name) || rules[i].dns_contains_ip_cidr() {
            proof {
                assert(name_matches(rules@[i as int], name) || rules@[i as int].has_cidr());
            }
            return true;
        }
        i = i + 1;
    }
    false
}

fn sets_admit(sets: &Vec<RuleSet>, tags: &Vec<String>, name: &str) -> (r: bool)
    ensures
        r == any_set_admits(sets@, tags@, name),
{
    let mut i: usize = 0;
    while i < tags.len()
        invariant
            i <= tags@.len(),
            forall|j: int|
                0 <= j < i ==> !(compile::has_set(sets@, (#[trigger] tags@[j])@) && set_admits(
                    compile::set_named(sets@, tags@[j]@)@,
                    name,
                )),
        decreases tags@.len() - i,
    {
        match compile::find_set(sets, tags[i].as_str()) {
            Some(rules) => {
                if is_admitted(&rules, name) {
                    proof {
                        assert(compile::has_set(sets@, tags@[i as int]@));
                    }
                    return true;
                }
            },
            None => {},
        }
        i = i + 1;
    }
    false
}

fn matches_plain(r: &DnsRule, name: &str, qtype: u16, rule_sets: Option<&Vec<RuleSet>>) -> (out:
    bool)
    requires
        r.kind@ != "logical"@,
    ensures
        out == (rule_matches(*r, name, qtype, opt_sets(rule_sets)) != r.invert),
{
    (r.query_type.len() == 0 || has_type(&r.query_type, qtype)) && (r.domain.len() == 0 || has_name(
        &r.domain,
        name,
    )) && (r.domain_suffix.len() == 0 || has_suffix(&r.domain_suffix, name)) && (
    r.domain_keyword.len() == 0 || has_word(&r.domain_keyword, name)) && (r.domain_regex.len() == 0
        || matching::has_found(&r.domain_regex, name)) && (r.rule_set.len() == 0
        || match rule_sets {
        Some(sets) => sets_admit(sets, &r.rule_set, name),
        None => false,
    })
}

/// Whether a rule matches a query.
pub fn dns_rule_matches(
    r: &DnsRule,
    name: &str,
    qtype: u16,
    rule_sets: Option<&Vec<RuleSet>>,
) -> (out: bool)
    ensures
        out == rule_matches(*r, name, qtype, opt_sets(rule_sets)),
    decreases r,
{
    if !text::same_text(r.kind.as_str(), "logical") {
        return matches_plain(r, name, qtype, rule_sets) != r.invert;
    }
    let all = r.mode.is_none() || text::opt_is(&r.mode, "and");
    if !all && !text::opt_is(&r.mode, "or") {
        return r.invert;
    }
    let mut i: usize = 0;
    while i < r.rules.len()
        invariant
            i <= r.rules@.len(),
            r.kind@ == "logical"@,
            all == (r.mode is None || r.mode->0@ == "and"@),
            all || r.mode->0@ == "or"@,
            forall|j: int|
                0 <= j < i ==> rule_matches(
                    #[trigger] r.rules@[j],
                    name,
                    qtype,
                    opt_sets(rule_sets),
                ) == all,
        decreases r.rules@.len() - i,
    {
        if dns_rule_matches(&r.rules[i], name, qtype, rule_sets) != all {
            return all == r.invert;
        }
        i = i + 1;
    }
    all != r.invert
}

// ---- address limits ----

/// A rule of the set has a destination network.
pub open spec fn set_has_cidr(rules: Seq<CompiledRule>) -> bool {
    exists|i: int| 0 <= i < rules.len() && (#[trigger] rules[i]).has_cidr()
}

/// One of the named sets is there and has a destination network.
pub open spec fn any_set_cidr(sets: Seq<RuleSet>, tags: Seq<String>) -> bool {
    exists|i: int|
        0 <= i < tags.len() && compile::has_set(sets, (#[trigger] tags[i])@) && set_has_cidr(
            compile::set_named(sets, tags[i]@)@,
        )
}

/// Whether the answers to a query are limited by the networks of a rule set.
pub open spec fn has_limit(r: DnsRule, sets: Option<Seq<RuleSet>>) -> bool
    decreases r,
{
    if r.kind@ == "logical"@ {
        exists|i: int| 0 <= i < r.rules@.len() && has_limit(#[trigger] r.rules@[i], sets)
    } else {
        sets matches Some(s) && any_set_cidr(s, r.rule_set@)
    }
}

fn with_cidr(rules: &Vec<CompiledRule>) -> (r: bool)
    ensures
        r == set_has_cidr(rules@),
{
    let mut i: usize = 0;
    while i < rules.len()
        invariant
            i <= rules@.len(),
            forall|j: int| 0 <= j < i ==> !(#[trigger] rules@[j]).has_cidr(),
        decreases rules@.len() - i,
    {
        if rules[i].dns_contains_ip_cidr() {
            return true;
        }
        i = i + 1;
    }
    false
}

fn sets_with_cidr(sets: &Vec<RuleSet>, tags: &Vec<String>) -> (r: bool)
    ensures
        r == any_set_cidr(sets@, tags@),
{
    let mut i: usize = 0;
    while i < tags.len()
        invariant
            i <= tags@.len(),
            forall|j: int|
                0 <= j < i ==> !(compile::has_set(sets@, (#[trigger] tags@[j])@) && set_has_cidr(
                    compile::set_named(sets@, tags@[j]@)@,
                )),
        decreases tags@.len() - i,
    {
        match compile::find_set(sets, tags[i].as_str()) {
            Some(rules) => {
                if with_cidr(&rules) {
                    proof {
                        assert(compile::has_set(sets@, tags@[i as int]@));
                    }
                    return true;
                }
            },
            None => {},
        }
        i = i + 1;
    }
    false
}

/// Whether the rule limits the addresses of answers.
pub fn dns_rule_has_address_limit(r: &DnsRule, rule_sets: Option<&Vec<RuleSet>>) -> (out: bool)
    ensures
        out == has_limit(*r, opt_sets(rule_sets)),
    decreases r,
{
    if !text::same_text(r.kind.as_str(), "logical") {
        return match rule_sets {
            Some(sets) => sets_with_cidr(sets, &r.rule_set),
            None => false,
        };
    }
    let mut i: usize = 0;
    while i < r.rules.len()
        invariant
            i <= r.rules@.len(),
            r.kind@ == "logical"@,
            forall|j: int| 0 <= j < i ==> !has_limit(#[trigger] r.rules@[j], opt_sets(rule_sets)),
        decreases r.rules@.len() - i,
    {
        if dns_rule_has_address_limit(&r.rules[i], rule_sets) {
            return true;
        }
        i = i + 1;
    }
    false
}

/// A rule of the set matches the address.
pub open spec fn set_accepts(rules: Seq<CompiledRule>, address: IpAddr, name: &str) -> bool {
    exists|i: int| 0 <= i < rules.len() && address_matches(#[trigger] rules[i], address, name)
}

/// One of the named sets is there and accepts the address.
pub open spec fn any_set_accepts(
    sets: Seq<RuleSet>,
    tags: Seq<String>,
    address: IpAddr,
    name: &str,
) -> bool {
    exists|i: int|
        0 <= i < tags.len() && compile::has_set(sets, (#[trigger] tags[i])@) && set_accepts(
            compile::set_named(sets, tags[i]@)@,
            address,
            name,
        )
}

/// Every address is accepted by one of the named sets.
pub open spec fn sets_accept_all(
    sets: Seq<RuleSet>,
    tags: Seq<String>,
    addresses: Seq<IpAddr>,
    name: &str,
) -> bool {
    forall|i: int|
        0 <= i < addresses.len() ==> any_set_accepts(sets, tags, #[trigger] addresses[i], name)
}

/// Whether an answer is within the limits of a rule: every address of it has to be.
pub open spec fn limit_matches(
    r: DnsRule,
    name: &str,
    addresses: Seq<IpAddr>,
    sets: Option<Seq<RuleSet>>,
) -> bool
    decreases r,
{
    let plain = if r.kind@ == "logical"@ {
        if r.mode is None || r.mode->0@ == "and"@ {
            forall|i: int|
                0 <= i < r.rules@.len() ==> limit_matches(
                    #[trigger] r.rules@[i],
                    name,
                    addresses,
                    sets,
                )
        } else if r.mode->0@ == "or"@ {
            exists|i: int|
                0 <= i < r.rules@.len() && limit_matches(
                    #[trigger] r.rules@[i],
                    name,
                    addresses,
                    sets,
                )
        } else {
            false
        }
    } else {
        sets matches Some(s) ==> sets_accept_all(s, r.rule_set@, addresses, name)
    };
    plain != r.invert
}

fn is_accepted(rules: &Vec<CompiledRule>, address: IpAddr, name: &str) -> (r: bool)
    ensures
        r == set_accepts(rules@, address, name),
{
    let mut i: usize = 0;
    while i < rules.len()
        invariant
            i <= rules@.len(),
            forall|j: int| 0 <= j < i ==> !address_matches(#[trigger] rules@[j], address, name),
        decreases rules@.len() - i,
    {
        if rules[i].dns_matches_address(address, name) {
            proof {
                assert(address_matches(rules@[i as int], address, name));
            }
            return true;
        }
        i = i + 1;
    }
    false
}

fn sets_accept(sets: &Vec<RuleSet>, tags: &Vec<String>, address: IpAddr, name: &str) -> (r: bool)
    ensures
        r == any_set_accepts(sets@, tags@, address, name),
{
    let mut i: usize = 0;
    while i < tags.len()
        invariant
            i <= tags@.len(),
            forall|j: int|
                0 <= j < i ==> !(compile::has_set(sets@, (#[trigger] tags@[j])@) && set_accepts(
                    compile::set_named(sets@, tags@[j]@)@,
                    address,
                    name,
                )),
        decreases tags@.len() - i,
    {
        match compile::find_set(sets, tags[i].as_str()) {
            Some(rules) => {
                if is_accepted(&rules, address, name) {
                    proof {
                        assert(compile::has_set(sets@, tags@[i as int]@));
                    }
                    return true;
                }
            },
            None => {},
        }
        i = i + 1;
    }
    false
}

fn all_accepted(sets: &Vec<RuleSet>, tags: &Vec<String>, addresses: &Vec<IpAddr>, name: &str) -> (r:
    bool)
    ensures
        r == sets_accept_all(sets@, tags@, addresses@, name),
{
    let mut i: usize = 0;
    while i < addresses.len()
        invariant
            i <= addresses@.len(),
            forall|j: int|
                0 <= j < i ==> any_set_accepts(sets@, tags@, #[trigger] addresses@[j], name),
        decreases addresses@.len() - i,
    {
        if !sets_accept(sets, tags, addresses[i], name) {
            return false;
        }
        i = i + 1;
    }
    true
}

/// Whether an answer is within the limits of the rule's sets.
pub fn dns_rule_address_limit_matches(
    r: &DnsRule,
    name: &str,
    addresses: &Vec<IpAddr>,
    rule_sets: Option<&Vec<RuleSet>>,
) -> (out: bool)
    ensures
        out == limit_matches(*r, name, addresses@, opt_sets(rule_sets)),
    decreases r,
{
    if !text::same_text(r.kind.as_str(), "logical") {
        let plain = match rule_sets {
            Some(sets) => all_accepted(sets, &r.rule_set, addresses, name),
            None => true,
        };
        return plain != r.invert;
    }
    let all = r.mode.is_none() || text::opt_is(&r.mode, "and");
    if !all && !text::opt_is(&r.mode, "or") {
        return r.invert;
    }
    let mut i: usize = 0;
    while i < r.rules.len()
        invariant
            i <= r.rules@.len(),
            r.kind@ == "logical"@,
            all == (r.mode is None || r.mode->0@ == "and"@),
            all || r.mode->0@ == "or"@,
            forall|j: int|
                0 <= j < i ==> limit_matches(
                    #[trigger] r.rules@[j],
                    name,
                    addresses@,
                    opt_sets(rule_sets),
                ) == all,
        decreases r.rules@.len() - i,
    {
        if dns_rule_address_limit_matches(&r.rules[i], name, addresses, rule_sets) != all {
            return all == r.invert;
        }
        i = i + 1;
    }
    all != r.invert
}

// ---- validation ----

/// What is wrong with the first `n` query types.
pub open spec fn types_error(list: Seq<Value>, n: nat) -> Option<DnsError>
    decreases n,
{
    if n == 0 {
        None
    } else {
        match types_error(list, (n - 1) as nat) {
            Some(e) => Some(e),
            None => match record::query_type(list[n - 1]) {
                Ok(_) => None,
                Err(e) => Some(e),
            },
        }
    }
}

proof fn lemma_types_error(list: Seq<Value>, m: nat, n: nat)
    requires
        m <= n,
        types_error(list, m) is Some,
    ensures
        types_error(list, n) == types_error(list, m),
    decreases n,
{
    if m < n {
        lemma_types_error(list, m, (n - 1) as nat);
    }
}

fn check_types(list: &Vec<Value>) -> (r: Option<DnsError>)
    ensures
        r == types_error(list@, list@.len()),
{
    let mut i: usize = 0;
    while i < list.len()
        invariant
            i <= list@.len(),
            types_error(list@, i as nat) is None,
        decreases list@.len() - i,
    {
        match record::parse_query_type(&list[i]) {
            Ok(_) => {},
            Err(e) => {
                proof {
                    lemma_types_error(list@, (i + 1) as nat, list@.len());
                }
                return Some(e);
            },
        }
        i = i + 1;
    }
    None
}

/// What is wrong with the first `n` records.
pub open spec fn records_error(list: Seq<String>, n: nat) -> Option<DnsError>
    decreases n,
{
    if n == 0 {
        None
    } else {
        match records_error(list, (n - 1) as nat) {
            Some(e) => Some(e),
            None => match record::record_text(list[n - 1]@) {
                Ok(_) => None,
                Err(e) => Some(e),
            },
        }
    }
}

proof fn lemma_records_error(list: Seq<String>, m: nat, n: nat)
    requires
        m <= n,
        records_error(list, m) is Some,
    ensures
        records_error(list, n) == records_error(list, m),
    decreases n,
{
    if m < n {
        lemma_records_error(list, m, (n - 1) as nat);
    }
}

/// The records that were read from the texts.
pub open spec fn records_read(list: Seq<String>) -> Seq<record::PredefinedView> {
    Seq::new(list.len(), |i: int| record::record_text(list[i]@)->Ok_0)
}

/// Reads records; the first that is wrong decides.
pub fn parse_records(list: &Vec<String>) -> (r: Result<Vec<record::PredefinedRecord>, DnsError>)
    ensures
        match r {
            Ok(out) => records_error(list@, list@.len()) is None && record::predefined_views(out@)
                == records_read(list@),
            Err(e) => records_error(list@, list@.len()) == Some(e),
        },
{
    let mut out: Vec<record::PredefinedRecord> = Vec::new();
    let mut i: usize = 0;
    while i < list.len()
        invariant
            i <= list@.len(),
            out@.len() == i,
            records_error(list@, i as nat) is None,
            forall|j: int|
                0 <= j < i ==> record::record_text(list@[j]@) == Ok::<
                    record::PredefinedView,
                    DnsError,
                >((#[trigger] out@[j])@),
        decreases list@.len() - i,
    {
        match record::parse_dns_record(list[i].as_str()) {
            Ok(r) => out.push(r),
            Err(e) => {
                proof {
                    lemma_records_error(list@, (i + 1) as nat, list@.len());
                }
                return Err(e);
            },
        }
        i = i + 1;
    }
    proof {
        assert(record::predefined_views(out@) =~= records_read(list@));
    }
    Ok(out)
}

/// All records of a rule, in the order of its three sections.
pub open spec fn rule_records(rule: DnsRule) -> Seq<Seq<char>> {
    text::texts(rule.answer@) + text::texts(rule.ns@) + text::texts(rule.extra@)
}

/// All records of a rule, as one list.
pub fn all_records(rule: &DnsRule) -> (r: Vec<String>)
    ensures
        text::texts(r@) == rule_records(*rule),
{
    let mut out = text::copy_texts(&rule.answer);
    let mut ns = text::copy_texts(&rule.ns);
    let mut extra = text::copy_texts(&rule.extra);
    let ghost a = out@;
    let ghost b = ns@;
    let ghost c = extra@;
    out.append(&mut ns);
    out.append(&mut extra);
    proof {
        assert(text::texts(a + b + c) =~= text::texts(a) + text::texts(b) + text::texts(c));
    }
    out
}

/// What is wrong with records given as texts.
pub open spec fn texts_error(list: Seq<Seq<char>>, n: nat) -> Option<DnsError>
    decreases n,
{
    if n == 0 {
        None
    } else {
        match texts_error(list, (n - 1) as nat) {
            Some(e) => Some(e),
            None => match record::record_text(list[n - 1]) {
                Ok(_) => None,
                Err(e) => Some(e),
            },
        }
    }
}

/// Records given as texts are wrong as the texts are.
pub proof fn texts_and_records(list: Seq<String>, n: nat)
    requires
        n <= list.len(),
    ensures
        texts_error(text::texts(list), n) == records_error(list, n),
    decreases n,
{
    if n > 0 {
        texts_and_records(list, (n - 1) as nat);
    }
}

/// The known actions of a rule.
pub open spec fn known_action(action: Option<Seq<char>>) -> bool {
    action is None || action == Some(""@) || action == Some("route"@) || action == Some("reject"@)
        || action == Some("predefined"@)
}

/// The known ways to refuse a query.
pub open spec fn known_method(method: Option<Seq<char>>) -> bool {
    method is None || method == Some(""@) || method == Some("default"@) || method == Some("drop"@)
}

/// What is wrong with the shape of a rule, apart from its nested rules.
pub open spec fn shape_error(rule: DnsRule) -> Option<DnsError> {
    if rule.kind@ == "logical"@ {
        if rule.mode is None || rule.mode->0@ != "and"@ && rule.mode->0@ != "or"@ {
            Some(DnsError::LogicalMode)
        } else if rule.rules@.len() == 0 {
            Some(DnsError::LogicalEmpty)
        } else {
            None
        }
    } else if rule.kind@ == ""@ || rule.kind@ == "default"@ {
        None
    } else {
        Some(DnsError::UnsupportedRuleType)
    }
}

/// What is wrong with the action of a rule and what belongs to it.
pub open spec fn action_error(rule: DnsRule, top_level: bool) -> Option<DnsError> {
    let action = text::opt_text(rule.action);
    if !top_level && rule.action is Some && rule.action->0@.len() > 0 {
        Some(DnsError::NestedAction)
    } else if !known_action(action) {
        Some(DnsError::UnsupportedAction)
    } else if action == Some("predefined"@) && record::rcode(rule.rcode) is Err {
        Some(record::rcode(rule.rcode)->Err_0)
    } else if action == Some("predefined"@) && texts_error(
        rule_records(rule),
        rule_records(rule).len(),
    ) is Some {
        texts_error(rule_records(rule), rule_records(rule).len())
    } else if action == Some("reject"@) && !known_method(text::opt_text(rule.method)) {
        Some(DnsError::UnsupportedRejectMethod)
    } else if rule.client_subnet is Some && net::net_or_ip_text(rule.client_subnet->0@) is None {
        Some(DnsError::InvalidClientSubnet)
    } else if !record::known_strategy(text::opt_text(rule.strategy)) {
        Some(DnsError::UnsupportedStrategy)
    } else {
        None
    }
}

/// What is wrong with a rule: its shape first, then its nested rules, then its
/// conditions and its action.
pub open spec fn dns_rule_error(rule: DnsRule, top_level: bool) -> Option<DnsError>
    decreases rule, rule.rules@.len() + 1,
{
    if shape_error(rule) is Some {
        shape_error(rule)
    } else if rule.kind@ == "logical"@ && nested_rule_error(rule, rule.rules@.len()) is Some {
        nested_rule_error(rule, rule.rules@.len())
    } else if !compile::all_patterns(rule.domain_regex@) {
        Some(DnsError::InvalidRegex)
    } else if types_error(rule.query_type@, rule.query_type@.len()) is Some {
        types_error(rule.query_type@, rule.query_type@.len())
    } else {
        action_error(rule, top_level)
    }
}

/// What is wrong with the first `n` nested rules.
pub open spec fn nested_rule_error(rule: DnsRule, n: nat) -> Option<DnsError>
    decreases rule, n,
{
    if n == 0 || n > rule.rules@.len() {
        None
    } else {
        match nested_rule_error(rule, (n - 1) as nat) {
            Some(e) => Some(e),
            None => dns_rule_error(rule.rules@[n - 1], false),
        }
    }
}

proof fn lemma_nested_rule_error(rule: DnsRule, m: nat, n: nat)
    requires
        m <= n <= rule.rules@.len(),
        nested_rule_error(rule, m) is Some,
    ensures
        nested_rule_error(rule, n) == nested_rule_error(rule, m),
    decreases n,
{
    if m < n {
        lemma_nested_rule_error(rule, m, (n - 1) as nat);
    }
}

fn check_shape(rule: &DnsRule) -> (r: Option<DnsError>)
    ensures
        r == shape_error(*rule),
{
    if text::same_text(rule.kind.as_str(), "logical") {
        if !text::opt_is(&rule.mode, "and") && !text::opt_is(&rule.mode, "or") {
            Some(DnsError::LogicalMode)
        } else if rule.rules.len() == 0 {
            Some(DnsError::LogicalEmpty)
        } else {
            None
        }
    } else if text::same_text(rule.kind.as_str(), "") || text::same_text(
        rule.kind.as_str(),
        "default",
    ) {
        None
    } else {
        Some(DnsError::UnsupportedRuleType)
    }
}

fn check_action(rule: &DnsRule, top_level: bool) -> (r: Option<DnsError>)
    ensures
        r == action_error(*rule, top_level),
{
    let acts = match &rule.action {
        Some(action) => !action.as_str().is_empty(),
        None => false,
    };
    if !top_level && acts {
        return Some(DnsError::NestedAction);
    }
    let predefined = text::opt_is(&rule.action, "predefined");
    let reject = text::opt_is(&rule.action, "reject");
    if !(rule.action.is_none() || text::opt_is(&rule.action, "") || text::opt_is(
        &rule.action,
        "route",
    ) || reject || predefined) {
        return Some(DnsError::UnsupportedAction);
    }
    if predefined {
        match record::parse_rcode(&rule.rcode) {
            Ok(_) => {},
            Err(e) => {
                return Some(e);
            },
        }
        let records = all_records(rule);
        proof {
            texts_and_records(records@, records@.len());
            assert(text::texts(records@).len() == records@.len());
        }
        match parse_records(&records) {
            Ok(_) => {},
            Err(e) => {
                return Some(e);
            },
        }
    }
    if reject && !(rule.method.is_none() || text::opt_is(&rule.method, "") || text::opt_is(
        &rule.method,
        "default",
    ) || text::opt_is(&rule.method, "drop")) {
        return Some(DnsError::UnsupportedRejectMethod);
    }
    match &rule.client_subnet {
        Some(subnet) => match message::parse_client_subnet(subnet.as_str()) {
            Ok(_) => {},
            Err(e) => {
                return Some(e);
            },
        },
        None => {},
    }
    match record::validate_strategy(text::as_opt_str(&rule.strategy)) {
        Ok(_) => None,
        Err(e) => Some(e),
    }
}

/// Checks a rule; nested rules may not act.
pub fn validate_dns_rule(rule: &DnsRule, top_level: bool) -> (r: Result<(), DnsError>)
    ensures
        match r {
            Ok(_) => dns_rule_error(*rule, top_level) is None,
            Err(e) => dns_rule_error(*rule, top_level) == Some(e),
        },
    decreases rule,
{
    match check_shape(rule) {
        Some(e) => {
            return Err(e);
        },
        None => {},
    }
    if text::same_text(rule.kind.as_str(), "logical") {
        let mut i: usize = 0;
        while i < rule.rules.len()
            invariant
                i <= rule.rules@.len(),
                rule.kind@ == "logical"@,
                shape_error(*rule) is None,
                nested_rule_error(*rule, i as nat) is None,
            decreases rule.rules@.len() - i,
        {
            match validate_dns_rule(&rule.rules[i], false) {
                Ok(_) => {},
                Err(e) => {
                    proof {
                        lemma_nested_rule_error(*rule, (i + 1) as nat, rule.rules@.len());
                    }
                    return Err(e);
                },
            }
            i = i + 1;
        }
    }
    match compile::compile_regexes(&rule.domain_regex) {
        Ok(_) => {},
        Err(_) => {
            return Err(DnsError::InvalidRegex);
        },
    }
    match check_types(&rule.query_type) {
        Some(e) => {
            return Err(e);
        },
        None => {},
    }
    match check_action(rule, top_level) {
        Some(e) => Err(e),
        None => Ok(()),
    }
}

/// An inverted rule matches exactly the queries that the same rule, not
/// inverted, does not match.
pub proof fn dns_invert_negates(
    plain: DnsRule,
    inverted: DnsRule,
    name: &str,
    qtype: u16,
    sets: Option<Seq<RuleSet>>,
)
    requires
        inverted == (DnsRule { invert: !plain.invert, ..plain }),
    ensures
        rule_matches(inverted, name, qtype, sets) == !rule_matches(plain, name, qtype, sets),
{
    assert(inverted.rules@ == plain.rules@);
}

} // verus!
