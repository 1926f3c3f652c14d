//! The router: all rules in order, the rule sets they refer to, and what holds
//! where no rule decides.
use crate::linux_route::LinuxMetadataScope;
use crate::net;
use crate::net::{IpAddr, IpNet};
use crate::routing::compile;
use crate::routing::compile::{compiled_as, rule_error, RouteError, RuleSet};
use crate::routing::matching;
use crate::routing::matching::{CompiledRule, RouteContext};
use crate::routing::options::{
    DecisionView, RouteDecision, RouteOptions, RouteOptionsView, RuleAction,
};
use crate::singbox::{RouteConfig, RouteRule, RuleSetConfig};
use crate::text;
use std::sync::Arc;
use vstd::prelude::*;

verus! {

// ---- where the rules of a set come from ----

/// Rules that were read for a rule set.
#[derive(Debug)]
pub struct LoadedSet {
    pub tag: String,
    pub rules: Vec<RouteRule>,
}

/// How a rule set is written down.
#[derive(Clone, Copy, Debug, PartialEq, Eq, Structural)]
pub enum SetFormat {
    Source,
    Binary,
}

/// Where the rules of a set are.
#[derive(Clone, Copy, Debug, PartialEq, Eq, Structural)]
pub enum SetOrigin {
    /// In the configuration.
    Inline,
    /// In a file of the given format.
    File(SetFormat),
    /// At an address, in the given format.
    Remote(SetFormat),
    /// At an address that is not asked.
    Skipped,
}

/// A location up to its query or fragment.
pub open spec fn location_path(s: Seq<char>) -> Seq<char> {
    let n = text::span(s, '?');
    let m = text::span(s, '#');
    s.take(
        if n <= m {
            n as int
        } else {
            m as int
        },
    )
}

/// The format of a rule set: the configured one, or by the name of its location.
pub open spec fn format_of(set: RuleSetConfig, location: Seq<char>) -> Result<
    SetFormat,
    RouteError,
> {
    match set.format {
        Some(f) => if f@ == "source"@ {
            Ok(SetFormat::Source)
        } else if f@ == "binary"@ {
            Ok(SetFormat::Binary)
        } else {
            Err(RouteError::UnsupportedFormat)
        },
        None => if text::ends_with(location_path(location), ".srs"@) {
            Ok(SetFormat::Binary)
        } else {
            Ok(SetFormat::Source)
        },
    }
}

/// The format of a rule set at a location.
pub fn rule_set_format(set: &RuleSetConfig, location: &str) -> (r: Result<SetFormat, RouteError>)
    ensures
        r == format_of(*set, location@),
{
    match &set.format {
        Some(f) => if text::same_text(f.as_str(), "source") {
            Ok(SetFormat::Source)
        } else if text::same_text(f.as_str(), "binary") {
            Ok(SetFormat::Binary)
        } else {
            Err(RouteError::UnsupportedFormat)
        },
        None => {
            let v = text::to_chars(location);
            let n = text::span_of(v.as_slice(), '?');
            let m = text::span_of(v.as_slice(), '#');
            let end: usize = if n <= m {
                n
            } else {
                m
            };
            proof {
                assert(v@.subrange(0, end as int) =~= location_path(location@));
            }
            let path = text::to_text(&v[0..end]);
            if text::text_ends_with(path.as_str(), ".srs") {
                Ok(SetFormat::Binary)
            } else {
                Ok(SetFormat::Source)
            }
        },
    }
}

/// Where the rules of a set are, or what its configuration lacks.
pub open spec fn origin_of(set: RuleSetConfig, fetch_remote: bool) -> Result<
    SetOrigin,
    RouteError,
> {
    if set.tag@.len() == 0 {
        Err(RouteError::EmptyTag)
    } else if set.kind@ == "inline"@ {
        Ok(SetOrigin::Inline)
    } else if set.kind@ == "local"@ || set.kind@ == ""@ {
        match set.path {
            None => Err(RouteError::MissingPath),
            Some(path) => match format_of(set, path@) {
                Ok(f) => Ok(SetOrigin::File(f)),
                Err(e) => Err(e),
            },
        }
    } else if set.kind@ == "remote"@ {
        if !fetch_remote {
            Ok(SetOrigin::Skipped)
        } else if set.download_detour is Some && set.download_detour->0@.len() > 0 {
            Err(RouteError::DownloadDetour)
        } else {
            match set.url {
                None => Err(RouteError::MissingUrl),
                Some(url) => match format_of(set, url@) {
                    Ok(f) => Ok(SetOrigin::Remote(f)),
                    Err(e) => Err(e),
                },
            }
        }
    } else {
        Err(RouteError::UnsupportedSetType)
    }
}

/// Where the rules of a set are to be read from.
pub fn rule_set_origin(set: &RuleSetConfig, fetch_remote: bool) -> (r: Result<
    SetOrigin,
    RouteError,
>)
    ensures
        r == origin_of(*set, fetch_remote),
{
    let kind = set.kind.as_str();
    if set.tag.as_str().is_empty() {
        Err(RouteError::EmptyTag)
    } else if text::same_text(kind, "inline") {
        Ok(SetOrigin::Inline)
    } else if text::same_text(kind, "local") || text::same_text(kind, "") {
        match &set.path {
            None => Err(RouteError::MissingPath),
            Some(path) => match rule_set_format(set, path.as_str()) {
                Ok(f) => Ok(SetOrigin::File(f)),
                Err(e) => Err(e),
            },
        }
    } else if text::same_text(kind, "remote") {
        let detoured = match &set.download_detour {
            Some(tag) => !tag.as_str().is_empty(),
            None => false,
        };
        if !fetch_remote {
            Ok(SetOrigin::Skipped)
        } else if detoured {
            Err(RouteError::DownloadDetour)
        } else {
            match &set.url {
                None => Err(RouteError::MissingUrl),
                Some(url) => match rule_set_format(set, url.as_str()) {
                    Ok(f) => Ok(SetOrigin::Remote(f)),
                    Err(e) => Err(e),
                },
            }
        }
    } else {
        Err(RouteError::UnsupportedSetType)
    }
}

/// The rules that were read for a tag, if any were.
pub open spec fn loaded_for(loaded: Seq<LoadedSet>, tag: Seq<char>) -> Option<Seq<RouteRule>>
    decreases loaded.len(),
{
    if loaded.len() == 0 {
        None
    } else if loaded[0].tag@ == tag {
        Some(loaded[0].rules@)
    } else {
        loaded_for(loaded.skip(1), tag)
    }
}

/// The rules of a set.
pub open spec fn rules_of(
    set: RuleSetConfig,
    loaded: Seq<LoadedSet>,
    fetch_remote: bool,
) -> Result<Seq<RouteRule>, RouteError> {
    match origin_of(set, fetch_remote) {
        Err(e) => Err(e),
        Ok(SetOrigin::Inline) => Ok(set.rules@),
        Ok(SetOrigin::Skipped) => Ok(Seq::empty()),
        Ok(_) => match loaded_for(loaded, set.tag@) {
            Some(rules) => Ok(rules),
            None => Err(RouteError::NotLoaded),
        },
    }
}

fn find_loaded<'a>(loaded: &'a Vec<LoadedSet>, tag: &str) -> (r: Option<&'a Vec<RouteRule>>)
    ensures
        match r {
            Some(rules) => loaded_for(loaded@, tag@) == Some(rules@),
            None => loaded_for(loaded@, tag@) is None,
        },
{
    let mut i: usize = 0;
    proof {
        assert(loaded@.skip(0) =~= loaded@);
    }
    while i < loaded.len()
        invariant
            i <= loaded@.len(),
            loaded_for(loaded@, tag@) == loaded_for(loaded@.skip(i as int), tag@),
        decreases loaded@.len() - i,
    {
        proof {
            assert(loaded@.skip(i as int)[0] == loaded@[i as int]);
            assert(loaded@.skip(i as int).skip(1) =~= loaded@.skip(i + 1));
        }
        if text::same_text(loaded[i].tag.as_str(), tag) {
            return Some(&loaded[i].rules);
        }
        i = i + 1;
    }
    None
}

// ---- compiling lists of rules ----

/// What is wrong with the first `n` rules.
pub open spec fn rules_error(
    rules: Seq<RouteRule>,
    sets: Seq<RuleSet>,
    require_decision: bool,
    n: nat,
) -> Option<RouteError>
    decreases n,
{
    if n == 0 {
        None
    } else {
        match rules_error(rules, sets, require_decision, (n - 1) as nat) {
            Some(e) => Some(e),
            None => rule_error(rules[n - 1], sets, require_decision),
        }
    }
}

proof fn lemma_rules_error(
    rules: Seq<RouteRule>,
    sets: Seq<RuleSet>,
    require_decision: bool,
    m: nat,
    n: nat,
)
    requires
        m <= n,
        rules_error(rules, sets, require_decision, m) is Some,
    ensures
        rules_error(rules, sets, require_decision, n) == rules_error(
            rules,
            sets,
            require_decision,
            m,
        ),
    decreases n,
{
    if m < n {
        lemma_rules_error(rules, sets, require_decision, m, (n - 1) as nat);
    }
}

/// Each rule ready for matching, in the same order.
pub open spec fn all_compiled(
    rules: Seq<RouteRule>,
    sets: Seq<RuleSet>,
    require_decision: bool,
    out: Seq<CompiledRule>,
) -> bool {
    &&& out.len() == rules.len()
    &&& forall|i: int|
        0 <= i < rules.len() ==> compiled_as(#[trigger] rules[i], sets, require_decision, out[i])
}

fn compile_rules(rules: &Vec<RouteRule>, sets: &Vec<RuleSet>, require_decision: bool) -> (r: Result<
    Vec<CompiledRule>,
    RouteError,
>)
    ensures
        match r {
            Ok(out) => rules_error(rules@, sets@, require_decision, rules@.len()) is None
                && all_compiled(rules@, sets@, require_decision, out@),
            Err(e) => rules_error(rules@, sets@, require_decision, rules@.len()) == Some(e),
        },
{
    let mut out: Vec<CompiledRule> = Vec::new();
    let mut i: usize = 0;
    while i < rules.len()
        invariant
            i <= rules@.len(),
            out@.len() == i,
            rules_error(rules@, sets@, require_decision, i as nat) is None,
            forall|j: int|
                0 <= j < i ==> compiled_as(
                    #[trigger] rules@[j],
                    sets@,
                    require_decision,
                    out@[j],
                ),
        decreases rules@.len() - i,
    {
        match CompiledRule::compile(&rules[i], sets, require_decision) {
            Ok(c) => out.push(c),
            Err(e) => {
                proof {
                    lemma_rules_error(
                        rules@,
                        sets@,
                        require_decision,
                        (i + 1) as nat,
                        rules@.len(),
                    );
                }
                return Err(e);
            },
        }
        i = i + 1;
    }
    Ok(out)
}

// ---- rule sets ----

/// What is wrong with one rule set. The rules of a set refer to no other set.
pub open spec fn set_error(
    set: RuleSetConfig,
    loaded: Seq<LoadedSet>,
    fetch_remote: bool,
) -> Option<RouteError> {
    match rules_of(set, loaded, fetch_remote) {
        Err(e) => Some(e),
        Ok(rules) => rules_error(rules, Seq::empty(), false, rules.len()),
    }
}

/// Whether one of the first `n` sets has the tag.
pub open spec fn tag_taken(sets: Seq<RuleSetConfig>, tag: Seq<char>, n: nat) -> bool {
    exists|i: int| 0 <= i < n && i < sets.len() && (#[trigger] sets[i]).tag@ == tag
}

/// What is wrong with the first `n` rule sets.
pub open spec fn sets_error(
    sets: Seq<RuleSetConfig>,
    loaded: Seq<LoadedSet>,
    fetch_remote: bool,
    n: nat,
) -> Option<RouteError>
    decreases n,
{
    if n == 0 {
        None
    } else {
        match sets_error(sets, loaded, fetch_remote, (n - 1) as nat) {
            Some(e) => Some(e),
            None => match set_error(sets[n - 1], loaded, fetch_remote) {
                Some(e) => Some(e),
                None => if tag_taken(sets, sets[n - 1].tag@, (n - 1) as nat) {
                    Some(RouteError::DuplicateTag)
                } else {
                    None
                },
            },
        }
    }
}

proof fn lemma_sets_error(
    sets: Seq<RuleSetConfig>,
    loaded: Seq<LoadedSet>,
    fetch_remote: bool,
    m: nat,
    n: nat,
)
    requires
        m <= n,
        sets_error(sets, loaded, fetch_remote, m) is Some,
    ensures
        sets_error(sets, loaded, fetch_remote, n) == sets_error(sets, loaded, fetch_remote, m),
    decreases n,
{
    if m < n {
        lemma_sets_error(sets, loaded, fetch_remote, m, (n - 1) as nat);
    }
}

/// `out` is the set ready for matching.
pub open spec fn set_compiled(
    set: RuleSetConfig,
    loaded: Seq<LoadedSet>,
    fetch_remote: bool,
    out: RuleSet,
) -> bool {
    &&& out.tag@ == set.tag@
    &&& rules_of(set, loaded, fetch_remote) is Ok
    &&& all_compiled(
        rules_of(set, loaded, fetch_remote)->Ok_0,
        Seq::empty(),
        false,
        out.rules@,
    )
}

/// Each set ready for matching, in the same order.
pub open spec fn sets_compiled(
    sets: Seq<RuleSetConfig>,
    loaded: Seq<LoadedSet>,
    fetch_remote: bool,
    out: Seq<RuleSet>,
) -> bool {
    &&& out.len() == sets.len()
    &&& forall|i: int|
        0 <= i < sets.len() ==> set_compiled(#[trigger] sets[i], loaded, fetch_remote, out[i])
}

fn load_rule_set(set: &RuleSetConfig, loaded: &Vec<LoadedSet>, fetch_remote: bool) -> (r: Result<
    RuleSet,
    RouteError,
>)
    ensures
        match r {
            Ok(out) => set_error(*set, loaded@, fetch_remote) is None && set_compiled(
                *set,
                loaded@,
                fetch_remote,
                out,
            ),
            Err(e) => set_error(*set, loaded@, fetch_remote) == Some(e),
        },
{
    let nothing: Vec<RouteRule> = Vec::new();
    let origin = match rule_set_origin(set, fetch_remote) {
        Ok(origin) => origin,
        Err(e) => {
            return Err(e);
        },
    };
    let rules = match origin {
        SetOrigin::Inline => &set.rules,
        SetOrigin::Skipped => &nothing,
        _ => match find_loaded(loaded, set.tag.as_str()) {
            Some(rules) => rules,
            None => {
                return Err(RouteError::NotLoaded);
            },
        },
    };
    let none: Vec<RuleSet> = Vec::new();
    proof {
        assert(none@ =~= Seq::<RuleSet>::empty());
        assert(nothing@ =~= Seq::<RouteRule>::empty());
    }
    match compile_rules(rules, &none, false) {
        Ok(out) => Ok(RuleSet { tag: text::copy_text(set.tag.as_str()), rules: Arc::new(out) }),
        Err(e) => Err(e),
    }
}

fn is_tag_taken(sets: &Vec<RuleSetConfig>, tag: &str, n: usize) -> (r: bool)
    requires
        n <= sets@.len(),
    ensures
        r == tag_taken(sets@, tag@, n as nat),
{
    let mut i: usize = 0;
    while i < n
        invariant
            i <= n <= sets@.len(),
            forall|j: int| 0 <= j < i ==> (#[trigger] sets@[j]).tag@ != tag@,
        decreases n - i,
    {
        if text::same_text(sets[i].tag.as_str(), tag) {
            proof {
                assert(sets@[i as int].tag@ == tag@);
            }
            return true;
        }
        i = i + 1;
    }
    false
}

/// Compiles all rule sets. Those of a file or an address take the rules that
/// were read for them.
pub fn load_rule_sets(config: &RouteConfig, loaded: &Vec<LoadedSet>, fetch_remote: bool) -> (r:
    Result<Vec<RuleSet>, RouteError>)
    ensures
        match r {
            Ok(out) => sets_error(config.rule_set@, loaded@, fetch_remote, config.rule_set@.len())
                is None && sets_compiled(config.rule_set@, loaded@, fetch_remote, out@),
            Err(e) => sets_error(
                config.rule_set@,
                loaded@,
                fetch_remote,
                config.rule_set@.len(),
            ) == Some(e),
        },
{
    let sets = &config.rule_set;
    let mut out: Vec<RuleSet> = Vec::new();
    let mut i: usize = 0;
    while i < sets.len()
        invariant
            i <= sets@.len(),
            *sets == config.rule_set,
            out@.len() == i,
            sets_error(sets@, loaded@, fetch_remote, i as nat) is None,
            forall|j: int|
                0 <= j < i ==> set_compiled(#[trigger] sets@[j], loaded@, fetch_remote, out@[j]),
        decreases sets@.len() - i,
    {
        let ghost n = (i + 1) as nat;
        match load_rule_set(&sets[i], loaded, fetch_remote) {
            Err(e) => {
                proof {
                    lemma_sets_error(sets@, loaded@, fetch_remote, n, sets@.len());
                }
                return Err(e);
            },
            Ok(set) => {
                if is_tag_taken(sets, sets[i].tag.as_str(), i) {
                    proof {
                        lemma_sets_error(sets@, loaded@, fetch_remote, n, sets@.len());
                    }
                    return Err(RouteError::DuplicateTag);
                }
                out.push(set);
            },
        }
        i = i + 1;
    }
    Ok(out)
}

// ---- networks of rule sets ----

/// The destination networks of a rule: its own, unless it is inverted, then
/// those of its nested rules.
pub open spec fn destination_cidrs(rule: CompiledRule) -> Seq<IpNet>
    decreases rule, rule.logical_rules@.len() + 1,
{
    (if rule.invert {
        Seq::empty()
    } else {
        rule.cidrs@
    }) + nested_cidrs(rule, rule.logical_rules@.len())
}

/// The destination networks of the first `n` nested rules.
pub open spec fn nested_cidrs(rule: CompiledRule, n: nat) -> Seq<IpNet>
    decreases rule, n,
{
    if n == 0 || n > rule.logical_rules@.len() {
        Seq::empty()
    } else {
        nested_cidrs(rule, (n - 1) as nat) + destination_cidrs(rule.logical_rules@[n - 1])
    }
}

/// The destination networks of all rules of a set.
pub open spec fn set_cidrs(rules: Seq<CompiledRule>) -> Seq<IpNet>
    decreases rules.len(),
{
    if rules.len() == 0 {
        Seq::empty()
    } else {
        set_cidrs(rules.drop_last()) + destination_cidrs(rules.last())
    }
}

/// The destination networks of the sets that the tags name.
pub open spec fn tagged_cidrs(sets: Seq<RuleSet>, tags: Seq<String>) -> Seq<IpNet>
    decreases tags.len(),
{
    if tags.len() == 0 {
        Seq::empty()
    } else {
        tagged_cidrs(sets, tags.drop_last()) + set_cidrs(
            compile::set_named(sets, tags.last()@)@,
        )
    }
}

fn push_nets(out: &mut Vec<IpNet>, more: &Vec<IpNet>)
    ensures
        final(out)@ == old(out)@ + more@,
{
    out.extend_from_slice(more.as_slice());
    proof {
        assert(out@ =~= old(out)@ + more@);
    }
}

fn collect_destination_cidrs(rule: &CompiledRule, cidrs: &mut Vec<IpNet>)
    ensures
        final(cidrs)@ == old(cidrs)@ + destination_cidrs(*rule),
    decreases rule,
{
    if !rule.invert {
        push_nets(cidrs, &rule.cidrs);
    }
    let ghost own = if rule.invert {
        Seq::<IpNet>::empty()
    } else {
        rule.cidrs@
    };
    proof {
        assert(cidrs@ =~= old(cidrs)@ + own);
        assert(nested_cidrs(*rule, 0) =~= Seq::<IpNet>::empty());
        assert(cidrs@ =~= old(cidrs)@ + (own + nested_cidrs(*rule, 0)));
    }
    let mut i: usize = 0;
    while i < rule.logical_rules.len()
        invariant
            i <= rule.logical_rules@.len(),
            cidrs@ == old(cidrs)@ + (own + nested_cidrs(*rule, i as nat)),
        decreases rule.logical_rules@.len() - i,
    {
        collect_destination_cidrs(&rule.logical_rules[i], cidrs);
        proof {
            assert(cidrs@ =~= old(cidrs)@ + (own + nested_cidrs(*rule, (i + 1) as nat)));
        }
        i = i + 1;
    }
}

/// How `ipnet` writes a network down.
pub uninterp spec fn net_display(net: IpNet) -> Seq<char>;

/// Writes a network down: `to_string` of `ipnet::Ipv4Net` or `ipnet::Ipv6Net`.
/// The text depends on the address and the prefix alone, and `ipnet` reads the same
/// network out of it again; where the prefix is longer than the address, there is no
/// such network and the text is empty.
#[verifier::external_body]
fn net_to_text(net: &IpNet) -> (r: String)
    ensures
        r@ == net_display(*net),
        net.wf() ==> net::net_text(r@) == Some(*net),
{
    match net.address {
        IpAddr::V4(n) => ipnet::Ipv4Net::new(n.into(), net.prefix).map(|v| v.to_string()),
        IpAddr::V6(n) => ipnet::Ipv6Net::new(n.into(), net.prefix).map(|v| v.to_string()),
    }.unwrap_or_default()
}

/// Bytes in the order of a dictionary.
pub open spec fn before(a: Seq<u8>, b: Seq<u8>) -> bool
    decreases b.len(),
{
    b.len() > 0 && (a.len() == 0 || a[0] < b[0] || a[0] == b[0] && before(a.skip(1), b.skip(1)))
}

proof fn lemma_before(a: Seq<u8>, b: Seq<u8>, c: Seq<u8>)
    ensures
        before(a, b) ==> !before(b, a),
        before(a, b) && !before(c, b) ==> !before(c, a),
    decreases a.len() + b.len() + c.len(),
{
    if a.len() > 0 && b.len() > 0 && c.len() > 0 {
        lemma_before(a.skip(1), b.skip(1), c.skip(1));
    } else if a.len() > 0 && b.len() > 0 {
        lemma_before(a.skip(1), b.skip(1), c);
    }
}

fn is_before(a: &[u8], b: &[u8]) -> (r: bool)
    ensures
        r == before(a@, b@),
{
    let mut i: usize = 0;
    proof {
        assert(a@.skip(0) =~= a@);
        assert(b@.skip(0) =~= b@);
    }
    while i < b.len()
        invariant
            i <= a@.len(),
            i <= b@.len(),
            before(a@, b@) == before(a@.skip(i as int), b@.skip(i as int)),
        decreases b@.len() - i,
    {
        proof {
            assert(b@.skip(i as int)[0] == b@[i as int]);
        }
        if i >= a.len() {
            return true;
        }
        proof {
            assert(a@.skip(i as int)[0] == a@[i as int]);
            assert(a@.skip(i as int).skip(1) =~= a@.skip(i + 1));
            assert(b@.skip(i as int).skip(1) =~= b@.skip(i + 1));
        }
        if a[i] != b[i] {
            return a[i] < b[i];
        }
        i = i + 1;
    }
    false
}

/// The bytes by which networks are ordered.
pub open spec fn net_key(net: IpNet) -> Seq<u8> {
    vstd::utf8::encode_utf8(net_display(net))
}

/// In the order of their texts.
pub open spec fn in_text_order(list: Seq<IpNet>) -> bool {
    forall|i: int, j: int|
        0 <= i < j < list.len() ==> !before(net_key(#[trigger] list[j]), net_key(#[trigger] list[i]))
}

/// Each text comes before the next.
pub open spec fn in_strict_order(list: Seq<IpNet>) -> bool {
    forall|i: int, j: int|
        0 <= i < j < list.len() ==> before(net_key(#[trigger] list[i]), net_key(#[trigger] list[j]))
}

/// The same networks, each once, in the order of their texts, of which no two are the
/// same where all of them are networks.
pub open spec fn ordered_once(list: Seq<IpNet>, out: Seq<IpNet>) -> bool {
    &&& in_text_order(out)
    &&& (forall|i: int| 0 <= i < list.len() ==> (#[trigger] list[i]).wf()) ==> in_strict_order(out)
    &&& out.no_duplicates()
    &&& forall|n: IpNet| out.contains(n) <==> list.contains(n)
}

fn has_same_net(list: &Vec<IpNet>, net: &IpNet) -> (r: bool)
    ensures
        r == list@.contains(*net),
{
    let mut i: usize = 0;
    while i < list.len()
        invariant
            i <= list@.len(),
            forall|j: int| 0 <= j < i ==> list@[j] != *net,
        decreases list@.len() - i,
    {
        if list[i] == *net {
            return true;
        }
        i = i + 1;
    }
    false
}

/// The networks of a list read back from their texts.
spec fn all_read_back(list: Seq<IpNet>) -> bool {
    forall|i: int|
        0 <= i < list.len() && (#[trigger] list[i]).wf() ==> net::net_text(net_display(list[i]))
            == Some(list[i])
}

/// Of two different texts one comes first.
proof fn lemma_one_is_before(a: Seq<u8>, b: Seq<u8>)
    requires
        a != b,
    ensures
        before(a, b) || before(b, a),
    decreases a.len(),
{
    if a.len() > 0 && b.len() > 0 && a[0] == b[0] {
        if a.skip(1) == b.skip(1) {
            assert(a =~= seq![a[0]] + a.skip(1));
            assert(b =~= seq![b[0]] + b.skip(1));
        }
        lemma_one_is_before(a.skip(1), b.skip(1));
    } else if a.len() == 0 && b.len() == 0 {
        assert(a =~= b);
    }
}

/// Networks that read back from their texts have different texts.
proof fn lemma_strict(list: Seq<IpNet>)
    requires
        in_text_order(list),
        list.no_duplicates(),
        all_read_back(list),
        forall|i: int| 0 <= i < list.len() ==> (#[trigger] list[i]).wf(),
    ensures
        in_strict_order(list),
{
    assert forall|i: int, j: int| 0 <= i < j < list.len() implies before(
        net_key(#[trigger] list[i]),
        net_key(#[trigger] list[j]),
    ) by {
        assert(list[i] != list[j]);
        vstd::utf8::encode_utf8_decode_utf8(net_display(list[i]));
        vstd::utf8::encode_utf8_decode_utf8(net_display(list[j]));
        assert(net_display(list[i]) != net_display(list[j]));
        lemma_one_is_before(net_key(list[i]), net_key(list[j]));
    }
}

fn insert_net(out: &mut Vec<IpNet>, net: IpNet)
    requires
        in_text_order(old(out)@),
        old(out)@.no_duplicates(),
        all_read_back(old(out)@),
    ensures
        in_text_order(final(out)@),
        all_read_back(final(out)@),
        final(out)@.no_duplicates(),
        forall|n: IpNet| final(out)@.contains(n) <==> old(out)@.contains(n) || n == net,
{
    if has_same_net(out, &net) {
        return ;
    }
    let key = net_to_text(&net);
    let mut at: usize = 0;
    while at < out.len()
        invariant_except_break
            at <= out@.len(),
        invariant
            out@ == old(out)@,
            key@ == net_display(net),
            at <= out@.len(),
            forall|j: int| 0 <= j < at ==> !before(net_key(net), net_key(#[trigger] out@[j])),
        ensures
            at <= out@.len(),
            at < out@.len() ==> before(net_key(net), net_key(out@[at as int])),
        decreases out@.len() - at,
    {
        let other = net_to_text(&out[at]);
        if is_before(key.as_str().as_bytes(), other.as_str().as_bytes()) {
            break;
        }
        at = at + 1;
    }
    let ghost a = out@;
    out.insert(at, net);
    proof {
        let b = out@;
        assert forall|i: int, j: int| 0 <= i < j < b.len() implies !before(
            net_key(#[trigger] b[j]),
            net_key(#[trigger] b[i]),
        ) by {
            if i == at {
                lemma_before(net_key(net), net_key(a[at as int]), net_key(a[j - 1]));
                if j - 1 > at {
                    assert(!before(net_key(a[j - 1]), net_key(a[at as int])));
                } else {
                    lemma_before(net_key(net), net_key(a[at as int]), net_key(net));
                }
            } else if j == at {
                assert(b[i] == a[i]);
            } else {
                let i1 = if i < at {
                    i
                } else {
                    i - 1
                };
                let j1 = if j < at {
                    j
                } else {
                    j - 1
                };
                assert(b[i] == a[i1] && b[j] == a[j1]);
            }
        }
        assert forall|n: IpNet| b.contains(n) <==> a.contains(n) || n == net by {
            if a.contains(n) {
                let k = choose|k: int| 0 <= k < a.len() && a[k] == n;
                if k < at {
                    assert(b[k] == n);
                } else {
                    assert(b[k + 1] == n);
                }
            }
            if n == net {
                assert(b[at as int] == n);
            }
            if b.contains(n) {
                let k = choose|k: int| 0 <= k < b.len() && b[k] == n;
                if k < at {
                    assert(a[k] == n);
                } else if k > at {
                    assert(a[k - 1] == n);
                }
            }
        }
    }
}

fn order_once(list: &Vec<IpNet>) -> (r: Vec<IpNet>)
    ensures
        ordered_once(list@, r@),
{
    let mut out: Vec<IpNet> = Vec::new();
    let mut i: usize = 0;
    while i < list.len()
        invariant
            i <= list@.len(),
            in_text_order(out@),
            out@.no_duplicates(),
            all_read_back(out@),
            forall|n: IpNet| out@.contains(n) <==> list@.take(i as int).contains(n),
        decreases list@.len() - i,
    {
        let ghost before_push = out@;
        insert_net(&mut out, list[i]);
        proof {
            let now = list@.take(i + 1);
            assert(now =~= list@.take(i as int).push(list@[i as int]));
            assert forall|n: IpNet| out@.contains(n) <==> now.contains(n) by {
                if list@.take(i as int).contains(n) {
                    let k = choose|k: int| 0 <= k < i && list@.take(i as int)[k] == n;
                    assert(now[k] == n);
                }
                if n == list@[i as int] {
                    assert(now[i as int] == n);
                }
                if now.contains(n) {
                    let k = choose|k: int| 0 <= k < now.len() && now[k] == n;
                    if k < i {
                        assert(list@.take(i as int)[k] == n);
                    }
                }
            }
        }
        i = i + 1;
    }
    proof {
        assert(list@.take(list@.len() as int) =~= list@);
        if forall|i: int| 0 <= i < list@.len() ==> (#[trigger] list@[i]).wf() {
            assert forall|i: int| 0 <= i < out@.len() implies (#[trigger] out@[i]).wf() by {
                assert(out@.contains(out@[i]));
                let k = choose|k: int| 0 <= k < list@.len() && list@[k] == out@[i];
                assert(list@[k].wf());
            }
            lemma_strict(out@);
        }
    }
    out
}

/// The destination networks of the named rule sets, each once, in the order of
/// their texts.
pub fn extract_rule_set_ip_cidrs(sets: &Vec<RuleSet>, tags: &Vec<String>) -> (r: Result<
    Vec<IpNet>,
    RouteError,
>)
    ensures
        match r {
            Ok(out) => compile::all_sets(sets@, tags@) && ordered_once(
                tagged_cidrs(sets@, tags@),
                out@,
            ),
            Err(e) => !compile::all_sets(sets@, tags@) && e == RouteError::UnknownRuleSet,
        },
{
    let mut cidrs: Vec<IpNet> = Vec::new();
    let mut i: usize = 0;
    proof {
        assert(tags@.take(0) =~= Seq::<String>::empty());
    }
    while i < tags.len()
        invariant
            i <= tags@.len(),
            forall|j: int| 0 <= j < i ==> compile::has_set(sets@, (#[trigger] tags@[j])@),
            cidrs@ == tagged_cidrs(sets@, tags@.take(i as int)),
        decreases tags@.len() - i,
    {
        let rules = match compile::find_set(sets, tags[i].as_str()) {
            Some(rules) => rules,
            None => {
                proof {
                    assert(!compile::has_set(sets@, tags@[i as int]@));
                }
                return Err(RouteError::UnknownRuleSet);
            },
        };
        let ghost start = cidrs@;
        let mut k: usize = 0;
        proof {
            assert(rules@.take(0) =~= Seq::<CompiledRule>::empty());
            assert(start + set_cidrs(rules@.take(0)) =~= start);
        }
        while k < rules.len()
            invariant
                k <= rules@.len(),
                cidrs@ == start + set_cidrs(rules@.take(k as int)),
            decreases rules@.len() - k,
        {
            collect_destination_cidrs(&rules[k], &mut cidrs);
            proof {
                assert(rules@.take(k + 1).drop_last() =~= rules@.take(k as int));
                assert(rules@.take(k + 1).last() == rules@[k as int]);
                assert(cidrs@ =~= start + set_cidrs(rules@.take(k + 1)));
            }
            k = k + 1;
        }
        proof {
            assert(rules@.take(rules@.len() as int) =~= rules@);
            assert(tags@.take(i + 1).drop_last() =~= tags@.take(i as int));
            assert(tags@.take(i + 1).last() == tags@[i as int]);
        }
        i = i + 1;
    }
    proof {
        assert(tags@.take(tags@.len() as int) =~= tags@);
    }
    Ok(order_once(&cidrs))
}

/// Compiles the rule sets and gives the destination networks of the named ones.
pub fn load_rule_set_ip_cidrs(
    config: &RouteConfig,
    tags: &Vec<String>,
    loaded: &Vec<LoadedSet>,
) -> (r: Result<Vec<IpNet>, RouteError>)
    ensures
        match r {
            Ok(out) => exists|sets: Seq<RuleSet>|
                #![trigger sets_compiled(config.rule_set@, loaded@, true, sets)]
                {
                    &&& sets_compiled(config.rule_set@, loaded@, true, sets)
                    &&& compile::all_sets(sets, tags@)
                    &&& ordered_once(tagged_cidrs(sets, tags@), out@)
                },
            Err(e) => {
                ||| sets_error(config.rule_set@, loaded@, true, config.rule_set@.len()) == Some(e)
                ||| e == RouteError::UnknownRuleSet && exists|i: int|
                    0 <= i < tags@.len() && !tag_taken(
                        config.rule_set@,
                        (#[trigger] tags@[i])@,
                        config.rule_set@.len(),
                    )
            },
        },
{
    match load_rule_sets(config, loaded, true) {
        Err(e) => Err(e),
        Ok(sets) => {
            let r = extract_rule_set_ip_cidrs(&sets, tags);
            proof {
                if r is Err {
                    let i = choose|i: int|
                        0 <= i < tags@.len() && !compile::has_set(sets@, (#[trigger] tags@[i])@);
                    assert(!tag_taken(config.rule_set@, tags@[i]@, config.rule_set@.len())) by {
                        if tag_taken(config.rule_set@, tags@[i]@, config.rule_set@.len()) {
                            let k = choose|k: int|
                                0 <= k < config.rule_set@.len() && (#[trigger] config.rule_set@[k]).tag@
                                    == tags@[i]@;
                            assert(set_compiled(config.rule_set@[k], loaded@, true, sets@[k]));
                            assert(sets@[k].tag@ == tags@[i]@);
                        }
                    }
                }
            }
            r
        },
    }
}

// ---- what the rules ask of the host ----

/// A fact about the host or the process behind a connection.
#[derive(Clone, Copy, Debug, PartialEq, Eq, Structural)]
pub enum Fact {
    Process,
    User,
    Interface,
    Network,
    Mac,
    Hostname,
}

impl CompiledRule {
    /// Whether a condition of this rule itself needs the fact.
    pub open spec fn needs(&self, fact: Fact) -> bool {
        match fact {
            Fact::Process => self.process_names@.len() > 0 || self.process_paths@.len() > 0
                || self.process_path_regexes@.len() > 0 || self.package_names@.len() > 0
                || self.package_name_regexes@.len() > 0,
            Fact::User => self.users@.len() > 0 || self.user_ids@.len() > 0,
            Fact::Interface => self.interface_addresses@.len() > 0
                || self.network_interface_addresses@.len() > 0,
            Fact::Network => self.network_types@.len() > 0 || self.network_is_expensive
                || self.network_is_constrained || self.wifi_ssids@.len() > 0
                || self.wifi_bssids@.len() > 0 || self.default_interface_addresses@.len() > 0,
            Fact::Mac => self.source_mac_addresses@.len() > 0,
            Fact::Hostname => self.source_hostnames@.len() > 0,
        }
    }

    /// Whether this rule, one of its nested rules or a rule of its sets needs
    /// the fact.
    pub open spec fn asks(&self, fact: Fact) -> bool
        decreases self,
    {
        ||| self.needs(fact)
        ||| exists|i: int|
            0 <= i < self.logical_rules@.len() && (#[trigger] self.logical_rules@[i]).asks(fact)
        ||| exists|i: int, j: int|
            0 <= i < self.rule_sets@.len() && 0 <= j < self.rule_sets@[i]@.len() && (
            #[trigger] self.rule_sets@[i]@[j]).asks(fact)
    }

    fn own_scope(&self) -> (r: LinuxMetadataScope)
        ensures
            forall|fact: Fact| scope_has(r, fact) == self.needs(fact),
    {
        LinuxMetadataScope {
            process: self.process_names.len() > 0 || self.process_paths.len() > 0
                || self.process_path_regexes.len() > 0 || self.package_names.len() > 0
                || self.package_name_regexes.len() > 0,
            user: self.users.len() > 0 || self.user_ids.len() > 0,
            interface: self.interface_addresses.len() > 0 || self.network_interface_addresses.len()
                > 0,
            network: self.network_types.len() > 0 || self.network_is_expensive
                || self.network_is_constrained || self.wifi_ssids.len() > 0
                || self.wifi_bssids.len() > 0 || self.default_interface_addresses.len() > 0,
            mac: self.source_mac_addresses.len() > 0,
            hostname: self.source_hostnames.len() > 0,
        }
    }

    /// The facts that matching this rule needs.
    pub fn metadata_scope(&self) -> (r: LinuxMetadataScope)
        ensures
            forall|fact: Fact| scope_has(r, fact) == self.asks(fact),
        decreases self,
    {
        let mut scope = self.own_scope();
        let mut i: usize = 0;
        while i < self.logical_rules.len()
            invariant
                i <= self.logical_rules@.len(),
                forall|fact: Fact| #[trigger]
                    scope_has(scope, fact) == (self.needs(fact) || exists|k: int|
                        0 <= k < i && (#[trigger] self.logical_rules@[k]).asks(fact)),
            decreases self.logical_rules@.len() - i,
        {
            let ghost before_union = scope;
            scope = scope.union(self.logical_rules[i].metadata_scope());
            proof {
                assert forall|fact: Fact| #[trigger]
                    scope_has(scope, fact) == (self.needs(fact) || exists|k: int|
                        0 <= k < i + 1 && (#[trigger] self.logical_rules@[k]).asks(fact)) by {
                    assert(scope_has(scope, fact) == (scope_has(before_union, fact)
                        || self.logical_rules@[i as int].asks(fact)));
                }
            }
            i = i + 1;
        }
        let ghost own = scope;
        let mut i: usize = 0;
        while i < self.rule_sets.len()
            invariant
                i <= self.rule_sets@.len(),
                forall|fact: Fact| #[trigger]
                    scope_has(scope, fact) == (scope_has(own, fact) || exists|k: int, j: int|
                        0 <= k < i && 0 <= j < self.rule_sets@[k]@.len() && (
                        #[trigger] self.rule_sets@[k]@[j]).asks(fact)),
            decreases self.rule_sets@.len() - i,
        {
            let set = &self.rule_sets[i];
            let ghost so_far = scope;
            let mut j: usize = 0;
            while j < set.len()
                invariant
                    i < self.rule_sets@.len(),
                    *set == self.rule_sets@[i as int],
                    j <= set@.len(),
                    forall|fact: Fact| #[trigger]
                        scope_has(scope, fact) == (scope_has(so_far, fact) || exists|m: int|
                            0 <= m < j && (#[trigger] self.rule_sets@[i as int]@[m]).asks(fact)),
                decreases set@.len() - j,
            {
                let ghost before_union = scope;
                scope = scope.union(set[j].metadata_scope());
                proof {
                    assert forall|fact: Fact| #[trigger]
                        scope_has(scope, fact) == (scope_has(so_far, fact) || exists|m: int|
                            0 <= m < j + 1 && (#[trigger] self.rule_sets@[i as int]@[m]).asks(
                                fact,
                            )) by {
                        assert(scope_has(scope, fact) == (scope_has(before_union, fact)
                            || self.rule_sets@[i as int]@[j as int].asks(fact)));
                    }
                }
                j = j + 1;
            }
            proof {
                assert forall|fact: Fact| #[trigger]
                    scope_has(scope, fact) == (scope_has(own, fact) || exists|k: int, m: int|
                        0 <= k < i + 1 && 0 <= m < self.rule_sets@[k]@.len() && (
                        #[trigger] self.rule_sets@[k]@[m]).asks(fact)) by {
                    assert(scope_has(so_far, fact) == (scope_has(own, fact) || exists|
                        k: int,
                        j: int,
                    |
                        0 <= k < i && 0 <= j < self.rule_sets@[k]@.len() && (
                        #[trigger] self.rule_sets@[k]@[j]).asks(fact)));
                }
            }
            i = i + 1;
        }
        scope
    }
}

/// Whether a scope asks for a fact.
pub open spec fn scope_has(scope: LinuxMetadataScope, fact: Fact) -> bool {
    match fact {
        Fact::Process => scope.process,
        Fact::User => scope.user,
        Fact::Interface => scope.interface,
        Fact::Network => scope.network,
        Fact::Mac => scope.mac,
        Fact::Hostname => scope.hostname,
    }
}

// ---- the router ----

impl RuleAction {
    /// A copy with the same contents.
    pub fn copy(&self) -> (r: RuleAction)
        ensures
            r@ == self@,
    {
        match self {
            RuleAction::Route { decision, options } => RuleAction::Route {
                decision: decision.copy(),
                options: options.copy(),
            },
            RuleAction::RouteOptions(options) => RuleAction::RouteOptions(options.copy()),
            RuleAction::Sniff { sniffers, timeout } => RuleAction::Sniff {
                sniffers: text::copy_texts(sniffers),
                timeout: text::copy_opt(timeout),
            },
            RuleAction::Resolve {
                server,
                timeout,
                strategy,
                disable_cache,
                rewrite_ttl,
                client_subnet,
            } => RuleAction::Resolve {
                server: text::copy_opt(server),
                timeout: text::copy_opt(timeout),
                strategy: text::copy_opt(strategy),
                disable_cache: *disable_cache,
                rewrite_ttl: *rewrite_ttl,
                client_subnet: text::copy_opt(client_subnet),
            },
        }
    }
}

/// All rules in order, the rule sets, and what holds where no rule decides.
#[derive(Debug)]
pub struct Router {
    pub rules: Vec<CompiledRule>,
    pub rule_sets: Vec<RuleSet>,
    pub fallback: String,
    pub defaults: RouteOptions,
}

/// The options that hold before any rule.
pub open spec fn defaults_of(config: RouteConfig) -> RouteOptionsView {
    RouteOptionsView {
        bind_interface: text::opt_text(config.default_interface),
        routing_mark: config.default_mark,
        network_strategy: text::opt_text(config.default_network_strategy),
        fallback_delay: text::opt_text(config.default_fallback_delay),
        ..RouteOptionsView::unset()
    }
}

/// What is wrong with a route configuration: its rule sets first, then its
/// rules against the compiled sets.
pub open spec fn config_error(
    config: RouteConfig,
    loaded: Seq<LoadedSet>,
    fetch_remote: bool,
    sets: Seq<RuleSet>,
) -> Option<RouteError> {
    match sets_error(config.rule_set@, loaded, fetch_remote, config.rule_set@.len()) {
        Some(e) => Some(e),
        None => rules_error(config.rules@, sets, true, config.rules@.len()),
    }
}

/// `r` is the router of a configuration.
pub open spec fn router_of(
    config: RouteConfig,
    default_outbound: Seq<char>,
    loaded: Seq<LoadedSet>,
    fetch_remote: bool,
    r: Router,
) -> bool {
    &&& config_error(config, loaded, fetch_remote, r.rule_sets@) is None
    &&& sets_compiled(config.rule_set@, loaded, fetch_remote, r.rule_sets@)
    &&& all_compiled(config.rules@, r.rule_sets@, true, r.rules@)
    &&& r.fallback@ == (match config.final_outbound {
        Some(tag) => tag@,
        None => default_outbound,
    })
    &&& r.defaults@ == defaults_of(config)
}

/// `e` is what is wrong with a configuration: of its sets, or of its rules with
/// the sets compiled.
pub open spec fn refused(
    config: RouteConfig,
    loaded: Seq<LoadedSet>,
    fetch_remote: bool,
    e: RouteError,
) -> bool {
    ||| sets_error(config.rule_set@, loaded, fetch_remote, config.rule_set@.len()) == Some(e)
    ||| exists|sets: Seq<RuleSet>|
        #![trigger sets_compiled(config.rule_set@, loaded, fetch_remote, sets)]
        sets_compiled(config.rule_set@, loaded, fetch_remote, sets) && config_error(
            config,
            loaded,
            fetch_remote,
            sets,
        ) == Some(e)
}

/// The first rule from `from` on that matches.
pub open spec fn next_match(rules: Seq<CompiledRule>, c: RouteContext, from: int) -> Option<int>
    decreases rules.len() - from,
{
    if from < 0 || from >= rules.len() {
        None
    } else if rules[from].matched(c) {
        Some(from)
    } else {
        next_match(rules, c, from + 1)
    }
}

/// The next matching rule depends on nothing but what is known of a connection.
pub proof fn lookup_depends_on_facts_alone(
    rules: Seq<CompiledRule>,
    a: RouteContext,
    b: RouteContext,
    from: int,
)
    requires
        matching::same_facts(a, b),
    ensures
        next_match(rules, a, from) == next_match(rules, b, from),
    decreases rules.len() - from,
{
    if 0 <= from < rules.len() {
        matching::matching_depends_on_facts_alone(rules[from], a, b);
        lookup_depends_on_facts_alone(rules, a, b, from + 1);
    }
}

/// The decision of the first rule from `from` on that matches and decides.
pub open spec fn first_decision(
    rules: Seq<CompiledRule>,
    c: RouteContext,
    from: int,
) -> Option<DecisionView>
    decreases rules.len() - from,
{
    if from < 0 || from >= rules.len() {
        None
    } else if rules[from].matched(c) && rules[from].action@ is Route {
        Some(rules[from].action@->Route_decision)
    } else {
        first_decision(rules, c, from + 1)
    }
}

impl Router {
    /// The decision for a connection: that of the first matching rule that
    /// decides, else the outbound that holds where no rule decides.
    pub open spec fn decision(&self, c: RouteContext) -> DecisionView {
        match first_decision(self.rules@, c, 0) {
            Some(d) => d,
            None => DecisionView::Outbound(self.fallback@),
        }
    }

    /// Compiles a configuration whose rule sets are all given in place; sets at
    /// an address are left empty.
    pub fn compile(config: &RouteConfig, default_outbound: &str) -> (r: Result<Router, RouteError>)
        ensures
            match r {
                Ok(router) => router_of(*config, default_outbound@, Seq::empty(), false, router),
                Err(e) => refused(*config, Seq::empty(), false, e),
            },
    {
        let none: Vec<LoadedSet> = Vec::new();
        proof {
            assert(none@ =~= Seq::<LoadedSet>::empty());
        }
        Router::compile_inner(config, default_outbound, &none, false)
    }

    /// Compiles a configuration with the rules that were read for its sets.
    pub fn compile_runtime(
        config: &RouteConfig,
        default_outbound: &str,
        loaded: &Vec<LoadedSet>,
    ) -> (r: Result<Router, RouteError>)
        ensures
            match r {
                Ok(router) => router_of(*config, default_outbound@, loaded@, true, router),
                Err(e) => refused(*config, loaded@, true, e),
            },
    {
        Router::compile_inner(config, default_outbound, loaded, true)
    }

    fn compile_inner(
        config: &RouteConfig,
        default_outbound: &str,
        loaded: &Vec<LoadedSet>,
        fetch_remote: bool,
    ) -> (r: Result<Router, RouteError>)
        ensures
            match r {
                Ok(router) => router_of(*config, default_outbound@, loaded@, fetch_remote, router),
                Err(e) => refused(*config, loaded@, fetch_remote, e),
            },
    {
        let fallback = match &config.final_outbound {
            Some(tag) => text::copy_text(tag.as_str()),
            None => text::copy_text(default_outbound),
        };
        let rule_sets = match load_rule_sets(config, loaded, fetch_remote) {
            Ok(sets) => sets,
            Err(e) => {
                return Err(e);
            },
        };
        match compile_rules(&config.rules, &rule_sets, true) {
            Err(e) => {
                proof {
                    assert(sets_compiled(config.rule_set@, loaded@, fetch_remote, rule_sets@));
                    assert(config_error(*config, loaded@, fetch_remote, rule_sets@) == Some(e));
                }
                Err(e)
            },
            Ok(rules) => {
                let mut defaults = RouteOptions::default();
                defaults.bind_interface = text::copy_opt(&config.default_interface);
                defaults.routing_mark = config.default_mark;
                defaults.network_strategy = text::copy_opt(&config.default_network_strategy);
                defaults.fallback_delay = text::copy_opt(&config.default_fallback_delay);
                Ok(Router { rules, rule_sets, fallback, defaults })
            },
        }
    }

    /// Where a connection goes.
    pub fn route(&self, context: &RouteContext) -> (r: RouteDecision)
        ensures
            r@ == self.decision(*context),
    {
        let mut i: usize = 0;
        while i < self.rules.len()
            invariant
                i <= self.rules@.len(),
                first_decision(self.rules@, *context, 0) == first_decision(
                    self.rules@,
                    *context,
                    i as int,
                ),
            decreases self.rules@.len() - i,
        {
            if self.rules[i].matches(context) {
                match &self.rules[i].action {
                    RuleAction::Route { decision, .. } => {
                        return decision.copy();
                    },
                    _ => {},
                }
            }
            i = i + 1;
        }
        RouteDecision::Outbound(text::copy_text(self.fallback.as_str()))
    }

    /// The first rule from `from` on that matches, and what it does.
    pub fn next_action(&self, context: &RouteContext, from: usize) -> (r: Option<
        (usize, RuleAction),
    >)
        ensures
            match r {
                Some((index, action)) => next_match(self.rules@, *context, from as int) == Some(
                    index as int,
                ) && from <= index < self.rules@.len() && action@ == self.rules@[index as int].action@,
                None => next_match(self.rules@, *context, from as int) is None,
            },
    {
        let mut i: usize = from;
        while i < self.rules.len()
            invariant
                from <= i,
                next_match(self.rules@, *context, from as int) == next_match(
                    self.rules@,
                    *context,
                    i as int,
                ),
            decreases self.rules@.len() - i,
        {
            if self.rules[i].matches(context) {
                return Some((i, self.rules[i].action.copy()));
            }
            i = i + 1;
        }
        None
    }

    /// The outbound that holds where no rule decides.
    pub fn final_outbound(&self) -> (r: &str)
        ensures
            r@ == self.fallback@,
    {
        self.fallback.as_str()
    }

    /// Sets the outbound that holds where no rule decides; nothing else changes.
    pub fn set_final_outbound(&mut self, tag: &str)
        ensures
            final(self).fallback@ == tag@,
            final(self).rules == old(self).rules,
            final(self).rule_sets == old(self).rule_sets,
            final(self).defaults == old(self).defaults,
    {
        self.fallback = text::copy_text(tag);
    }

    /// The options that hold before any rule.
    pub fn default_options(&self) -> (r: RouteOptions)
        ensures
            r@ == self.defaults@,
    {
        self.defaults.copy()
    }

    /// Takes the rules, the sets and the options of another router; the outbound
    /// that holds where no rule decides is kept.
    pub fn replace_from(&mut self, updated: Router)
        ensures
            final(self).rules == updated.rules,
            final(self).rule_sets == updated.rule_sets,
            final(self).defaults == updated.defaults,
            final(self).fallback == old(self).fallback,
    {
        self.rules = updated.rules;
        self.rule_sets = updated.rule_sets;
        self.defaults = updated.defaults;
    }

    /// The destination networks of the named rule sets.
    pub fn rule_set_ip_cidrs(&self, tags: &Vec<String>) -> (r: Result<Vec<IpNet>, RouteError>)
        ensures
            match r {
                Ok(out) => compile::all_sets(self.rule_sets@, tags@) && ordered_once(
                    tagged_cidrs(self.rule_sets@, tags@),
                    out@,
                ),
                Err(e) => !compile::all_sets(self.rule_sets@, tags@) && e
                    == RouteError::UnknownRuleSet,
            },
    {
        extract_rule_set_ip_cidrs(&self.rule_sets, tags)
    }

    /// The facts about the host that the rules need.
    pub fn linux_metadata_scope(&self) -> (r: LinuxMetadataScope)
        ensures
            forall|fact: Fact|
                scope_has(r, fact) == exists|i: int|
                    0 <= i < self.rules@.len() && (#[trigger] self.rules@[i]).asks(fact),
    {
        let mut scope = LinuxMetadataScope::default();
        let mut i: usize = 0;
        while i < self.rules.len()
            invariant
                i <= self.rules@.len(),
                forall|fact: Fact| #[trigger]
                    scope_has(scope, fact) == exists|k: int|
                        0 <= k < i && (#[trigger] self.rules@[k]).asks(fact),
            decreases self.rules@.len() - i,
        {
            let ghost before_union = scope;
            scope = scope.union(self.rules[i].metadata_scope());
            proof {
                assert forall|fact: Fact| #[trigger]
                    scope_has(scope, fact) == exists|k: int|
                        0 <= k < i + 1 && (#[trigger] self.rules@[k]).asks(fact) by {
                    assert(scope_has(scope, fact) == (scope_has(before_union, fact)
                        || self.rules@[i as int].asks(fact)));
                }
            }
            i = i + 1;
        }
        scope
    }
}

// ---- laws of routing ----

/// The first rule that matches and decides wins: what stands behind it has no
/// say.
pub proof fn first_matching_rule_decides(router: Router, c: RouteContext, i: int)
    requires
        0 <= i < router.rules@.len(),
        router.rules@[i].matched(c),
        router.rules@[i].action@ is Route,
        forall|j: int|
            0 <= j < i ==> !((#[trigger] router.rules@[j]).matched(c)
                && router.rules@[j].action@ is Route),
    ensures
        router.decision(c) == router.rules@[i].action@->Route_decision,
{
    lemma_first_decision(router.rules@, c, 0, i);
}

proof fn lemma_first_decision(rules: Seq<CompiledRule>, c: RouteContext, from: int, i: int)
    requires
        0 <= from <= i < rules.len(),
        rules[i].matched(c),
        rules[i].action@ is Route,
        forall|j: int|
            from <= j < i ==> !((#[trigger] rules[j]).matched(c) && rules[j].action@ is Route),
    ensures
        first_decision(rules, c, from) == Some(rules[i].action@->Route_decision),
    decreases i - from,
{
    if from < i {
        lemma_first_decision(rules, c, from + 1, i);
    }
}

/// A router that took over from another decides as that one does, from any rule on.
pub proof fn a_router_that_took_over_decides_alike(
    after: Router,
    updated: Router,
    context: RouteContext,
    from: int,
)
    requires
        after.rules == updated.rules,
    ensures
        next_match(after.rules@, context, from) == next_match(updated.rules@, context, from),
        next_match(after.rules@, context, from) matches Some(i) ==> after.rules@[i].action@
            == updated.rules@[i].action@,
{
}

/// Where no rule both matches and decides, the fallback holds.
pub proof fn undecided_goes_to_fallback(router: Router, c: RouteContext)
    requires
        forall|j: int|
            0 <= j < router.rules@.len() ==> !((#[trigger] router.rules@[j]).matched(c)
                && router.rules@[j].action@ is Route),
    ensures
        router.decision(c) == DecisionView::Outbound(router.fallback@),
{
    lemma_no_decision(router.rules@, c, 0);
}

proof fn lemma_no_decision(rules: Seq<CompiledRule>, c: RouteContext, from: int)
    requires
        0 <= from,
        forall|j: int|
            from <= j < rules.len() ==> !((#[trigger] rules[j]).matched(c)
                && rules[j].action@ is Route),
    ensures
        first_decision(rules, c, from) is None,
    decreases rules.len() - from,
{
    if from < rules.len() {
        lemma_no_decision(rules, c, from + 1);
    }
}

/// Walking through the matching rules in order and stopping at the first that
/// decides gives the decision of the router: the next matching rule either
/// decides, or can be passed over.
pub proof fn walking_actions_gives_decision(rules: Seq<CompiledRule>, c: RouteContext, from: int)
    requires
        0 <= from,
    ensures
        match next_match(rules, c, from) {
            None => first_decision(rules, c, from) is None,
            Some(i) => {
                &&& from <= i < rules.len()
                &&& first_decision(rules, c, from) == (if rules[i].action@ is Route {
                    Some(rules[i].action@->Route_decision)
                } else {
                    first_decision(rules, c, i + 1)
                })
            },
        },
    decreases rules.len() - from,
{
    if from < rules.len() && !rules[from].matched(c) {
        walking_actions_gives_decision(rules, c, from + 1);
    }
}

/// An inverted rule matches exactly where the same rule, not inverted, does not.
pub proof fn invert_negates(plain: CompiledRule, inverted: CompiledRule, c: RouteContext)
    requires
        inverted == (CompiledRule { invert: !plain.invert, ..plain }),
    ensures
        inverted.matched(c) == !plain.matched(c),
{
    assert(inverted.logical_rules@ == plain.logical_rules@);
    assert(inverted.rule_sets@ == plain.rule_sets@);
    assert(inverted.domain_ok(text::opt_str(c.domain)) == plain.domain_ok(text::opt_str(c.domain)));
    assert(inverted.address_ok(c) == plain.address_ok(c));
    assert(inverted.client_ok(c) == plain.client_ok(c));
    assert(inverted.host_ok(c) == plain.host_ok(c));
}

// ---- laws of sets and facts ----

/// Two connections are alike but for a fact about the host or the process.
pub open spec fn alike_but_for(a: RouteContext, b: RouteContext, fact: Fact) -> bool {
    match fact {
        Fact::Process => b == (RouteContext {
            process_name: b.process_name,
            process_path: b.process_path,
            package_name: b.package_name,
            ..a
        }),
        Fact::User => b == (RouteContext { user: b.user, user_id: b.user_id, ..a }),
        Fact::Interface => b == (RouteContext {
            interface_addresses: b.interface_addresses,
            network_interface_addresses: b.network_interface_addresses,
            ..a
        }),
        Fact::Network => b == (RouteContext {
            network_type: b.network_type,
            network_is_expensive: b.network_is_expensive,
            network_is_constrained: b.network_is_constrained,
            wifi_ssid: b.wifi_ssid,
            wifi_bssid: b.wifi_bssid,
            default_interface_addresses: b.default_interface_addresses,
            ..a
        }),
        Fact::Mac => b == (RouteContext { source_mac_address: b.source_mac_address, ..a }),
        Fact::Hostname => b == (RouteContext { source_hostname: b.source_hostname, ..a }),
    }
}

/// A fact that a rule does not ask for does not matter to it: the rule matches
/// connections alike that differ in that fact alone.
pub proof fn unasked_facts_do_not_matter(
    rule: CompiledRule,
    a: RouteContext,
    b: RouteContext,
    fact: Fact,
)
    requires
        !rule.asks(fact),
        alike_but_for(a, b, fact),
    ensures
        rule.matched(a) == rule.matched(b),
    decreases rule,
{
    let (x, y) = if rule.rule_set_ip_cidr_match_source {
        (a.by_source(), b.by_source())
    } else {
        (a, b)
    };
    assert(!rule.needs(fact));
    assert(alike_but_for(x, y, fact));
    assert forall|i: int| 0 <= i < rule.logical_rules@.len() implies (
    #[trigger] rule.logical_rules@[i]).matched(a) == rule.logical_rules@[i].matched(b) by {
        unasked_facts_do_not_matter(rule.logical_rules@[i], a, b, fact);
    }
    assert forall|i: int, j: int|
        0 <= i < rule.rule_sets@.len() && 0 <= j < rule.rule_sets@[i]@.len() implies (
    #[trigger] rule.rule_sets@[i]@[j]).matched(x) == rule.rule_sets@[i]@[j].matched(y) by {
        unasked_facts_do_not_matter(rule.rule_sets@[i]@[j], x, y, fact);
    }
    assert(rule.domain_ok(text::opt_str(a.domain)) == rule.domain_ok(text::opt_str(b.domain)));
    assert(rule.address_ok(a) == rule.address_ok(b));
    assert(rule.client_ok(a) == rule.client_ok(b));
    assert(rule.host_ok(a) == rule.host_ok(b));
}

/// The rules of a set stand in the configuration, in a file, or at an address that
/// is asked only where that is wanted; a set needs a tag, a file a path and an
/// address a URL.
pub proof fn sets_come_from_where_they_say(set: RuleSetConfig, fetch_remote: bool)
    ensures
        origin_of(set, fetch_remote) matches Ok(o) ==> set.tag@.len() > 0 && match o {
            SetOrigin::Inline => set.kind@ == "inline"@,
            SetOrigin::File(f) => (set.kind@ == "local"@ || set.kind@ == ""@) && set.path is Some
                && format_of(set, set.path->0@) == Ok::<SetFormat, RouteError>(f),
            SetOrigin::Remote(f) => set.kind@ == "remote"@ && fetch_remote && set.url is Some
                && format_of(set, set.url->0@) == Ok::<SetFormat, RouteError>(f),
            SetOrigin::Skipped => set.kind@ == "remote"@ && !fetch_remote,
        },
        set.tag@.len() > 0 && set.kind@ == "inline"@ ==> origin_of(set, fetch_remote) == Ok::<
            SetOrigin,
            RouteError,
        >(SetOrigin::Inline),
        set.format matches Some(f) && f@ == "binary"@ ==> forall|at: Seq<char>| #[trigger]
            format_of(set, at) == Ok::<SetFormat, RouteError>(SetFormat::Binary),
        set.format matches Some(f) && f@ == "source"@ ==> forall|at: Seq<char>| #[trigger]
            format_of(set, at) == Ok::<SetFormat, RouteError>(SetFormat::Source),
{
    reveal_strlit("source");
    reveal_strlit("binary");
    assert("source"@[0] != "binary"@[0]);
}

/// Where no format is written, a location that ends in `.srs`, up to a question mark
/// or a hash, is read as binary, and any other as source.
pub proof fn formats_go_by_the_ending(set: RuleSetConfig, front: Seq<char>, behind: Seq<char>)
    requires
        set.format is None,
        !front.contains('?'),
        !front.contains('#'),
        behind.len() == 0 || behind[0] == '?' || behind[0] == '#',
    ensures
        format_of(set, front + ".srs"@ + behind) == Ok::<SetFormat, RouteError>(SetFormat::Binary),
        format_of(set, front + ".json"@ + behind) == Ok::<SetFormat, RouteError>(SetFormat::Source),
{
    reveal_strlit(".srs");
    reveal_strlit(".json");
    lemma_location_path(front + ".srs"@, behind);
    lemma_location_path(front + ".json"@, behind);
    let a = front + ".srs"@;
    assert(a.skip(a.len() - ".srs"@.len()) =~= ".srs"@);
    let b = front + ".json"@;
    if text::ends_with(b, ".srs"@) {
        assert(b.skip(b.len() - ".srs"@.len()).last() == b.last());
        assert(b.last() == ".json"@.last());
        assert(".json"@.last() == 'n' && ".srs"@.last() == 's');
    }
}

proof fn lemma_location_path(s: Seq<char>, behind: Seq<char>)
    requires
        !s.contains('?'),
        !s.contains('#'),
        behind.len() == 0 || behind[0] == '?' || behind[0] == '#',
    ensures
        location_path(s + behind) == s,
{
    let whole = s + behind;
    let n = s.len() as int;
    assert forall|i: int| 0 <= i < n implies whole[i] != '?' && whole[i] != '#' by {
        assert(s.contains(whole[i]));
    }
    text::lemma_span_bounds(whole, '?');
    text::lemma_span_bounds(whole, '#');
    if behind.len() > 0 {
        assert(whole[n] == behind[0]);
        text::lemma_span(whole, behind[0], n);
        let p = text::span(whole, '?') as int;
        let q = text::span(whole, '#') as int;
        assert(p >= n) by {
            if p < n {
                assert(whole[p] != '?');
            }
        }
        assert(q >= n) by {
            if q < n {
                assert(whole[q] != '#');
            }
        }
    } else {
        text::lemma_span(whole, '?', n);
        text::lemma_span(whole, '#', n);
    }
    assert(whole.take(n) =~= s);
}

/// The networks of a set without nested rules are those of its rules that are not
/// inverted, all of them and no other.
pub proof fn networks_of_a_set(rules: Seq<CompiledRule>, net: IpNet)
    requires
        forall|i: int| 0 <= i < rules.len() ==> (#[trigger] rules[i]).logical_rules@.len() == 0,
    ensures
        set_cidrs(rules).contains(net) <==> exists|i: int|
            0 <= i < rules.len() && !(#[trigger] rules[i]).invert && rules[i].cidrs@.contains(net),
    decreases rules.len(),
{
    if rules.len() > 0 {
        let front = rules.drop_last();
        let last = rules.last();
        assert forall|i: int| 0 <= i < front.len() implies (#[trigger] front[i]).logical_rules@.len()
            == 0 by {
            assert(front[i] == rules[i]);
        }
        networks_of_a_set(front, net);
        let own = if last.invert {
            Seq::empty()
        } else {
            last.cidrs@
        };
        assert(nested_cidrs(last, 0) =~= Seq::<IpNet>::empty());
        assert(rules[rules.len() - 1].logical_rules@.len() == 0);
        assert(destination_cidrs(last) =~= own);
        let before = set_cidrs(front);
        assert(set_cidrs(rules) == before + own);
        if (before + own).contains(net) {
            let k = choose|k: int| 0 <= k < (before + own).len() && (before + own)[k] == net;
            if k < before.len() {
                assert(before[k] == net);
                assert(before.contains(net));
                let i = choose|i: int|
                    0 <= i < front.len() && !(#[trigger] front[i]).invert
                        && front[i].cidrs@.contains(net);
                assert(rules[i] == front[i]);
            } else {
                assert(own[k - before.len()] == net);
                assert(rules[rules.len() - 1].cidrs@.contains(net));
            }
        }
        if exists|i: int|
            0 <= i < rules.len() && !(#[trigger] rules[i]).invert && rules[i].cidrs@.contains(net) {
            let i = choose|i: int|
                0 <= i < rules.len() && !(#[trigger] rules[i]).invert && rules[i].cidrs@.contains(
                    net,
                );
            if i < front.len() {
                assert(front[i] == rules[i]);
                assert(before.contains(net));
                let k = choose|k: int| 0 <= k < before.len() && before[k] == net;
                assert((before + own)[k] == net);
            } else {
                let k = choose|k: int| 0 <= k < own.len() && own[k] == net;
                assert((before + own)[before.len() + k] == net);
            }
        }
    }
}

} // verus!
