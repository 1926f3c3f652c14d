//! Where questions go: which rule a name falls under, which server is asked by it,
//! and how the lookups of addresses and whole messages agree.
use crate::dns::answer;
use crate::dns::cache::KeyView;
use crate::dns::message::{self, DnsError};
use crate::dns::record;
use crate::dns::resolver::{
    self, DnsResolver, Families, LookupOptions, LookupView, PlanView, ResolverError,
};
use crate::dns::rules;
use crate::dns::transport;
use crate::json::Value;
use crate::net::{self, IpAddr};
use crate::pattern;
use crate::routing::compile::{self, RuleSet};
use crate::routing::matching::{self, CompiledRule, RouteContext};
use crate::singbox::{DnsConfig, DnsRule, DnsServer};
use crate::text;
use crate::time;
use crate::wire;
use vstd::prelude::*;

verus! {

// ---- the rule for a question ----

/// The first rule that matches a question is the rule for it, whatever stands
/// behind it.
pub proof fn the_first_matching_rule_counts(
    list: Seq<DnsRule>,
    name: &str,
    qtype: u16,
    sets: Option<Seq<RuleSet>>,
    i: int,
)
    requires
        0 <= i < list.len(),
        rules::rule_matches(list[i], name, qtype, sets),
        forall|j: int| 0 <= j < i ==> !rules::rule_matches(#[trigger] list[j], name, qtype, sets),
    ensures
        resolver::rule_for(list, name, qtype, sets) == Some(list[i]),
    decreases i,
{
    if i > 0 {
        assert(!rules::rule_matches(list[0], name, qtype, sets));
        assert forall|j: int| 0 <= j < i - 1 implies !rules::rule_matches(
            #[trigger] list.skip(1)[j],
            name,
            qtype,
            sets,
        ) by {
            assert(list.skip(1)[j] == list[j + 1]);
        }
        the_first_matching_rule_counts(list.skip(1), name, qtype, sets, i - 1);
    }
}

/// A question that no rule matches has no rule.
pub proof fn no_matching_rule_counts_for_none(
    list: Seq<DnsRule>,
    name: &str,
    qtype: u16,
    sets: Option<Seq<RuleSet>>,
)
    requires
        forall|j: int|
            0 <= j < list.len() ==> !rules::rule_matches(#[trigger] list[j], name, qtype, sets),
    ensures
        resolver::rule_for(list, name, qtype, sets) is None,
    decreases list.len(),
{
    if list.len() > 0 {
        assert(!rules::rule_matches(list[0], name, qtype, sets));
        assert forall|j: int| 0 <= j < list.skip(1).len() implies !rules::rule_matches(
            #[trigger] list.skip(1)[j],
            name,
            qtype,
            sets,
        ) by {
            assert(list.skip(1)[j] == list[j + 1]);
        }
        no_matching_rule_counts_for_none(list.skip(1), name, qtype, sets);
    }
}

/// A plain rule matches a question exactly where each condition that is written in
/// it holds, and an inverted one exactly where one does not; a suffix is matched by
/// whole labels.
pub proof fn a_rule_matches_questions_as_written(
    rule: DnsRule,
    name: &str,
    qtype: u16,
    sets: Option<Seq<RuleSet>>,
)
    requires
        rule.kind@ != "logical"@,
        rule.rule_set@.len() == 0,
        forall|i: int|
            0 <= i < rule.domain_regex@.len() ==> pattern::pattern_valid(
                (#[trigger] rule.domain_regex@[i])@,
            ),
    ensures
        (rules::rule_matches(rule, name, qtype, sets) != rule.invert) <==> {
            &&& rule.query_type@.len() > 0 ==> exists|i: int|
                0 <= i < rule.query_type@.len() && record::query_type(
                    #[trigger] rule.query_type@[i],
                ) == Ok::<u16, DnsError>(qtype)
            &&& rule.domain@.len() > 0 ==> exists|i: int|
                0 <= i < rule.domain@.len() && text::lower(
                    text::trim_end((#[trigger] rule.domain@[i])@, '.'),
                ) == name@
            &&& rule.domain_suffix@.len() > 0 ==> exists|i: int|
                0 <= i < rule.domain_suffix@.len() && text::ends_with(
                    text::split(name@, '.'),
                    text::split(
                        text::lower(text::trim_end((#[trigger] rule.domain_suffix@[i])@, '.')),
                        '.',
                    ),
                )
            &&& rule.domain_keyword@.len() > 0 ==> exists|i: int|
                0 <= i < rule.domain_keyword@.len() && text::has_part(
                    name@,
                    text::lower((#[trigger] rule.domain_keyword@[i])@),
                )
            &&& rule.domain_regex@.len() > 0 ==> exists|i: int|
                0 <= i < rule.domain_regex@.len() && pattern::pattern_finds(
                    (#[trigger] rule.domain_regex@[i])@,
                    name@,
                )
        },
{
    assert forall|i: int| 0 <= i < rule.domain_suffix@.len() implies (text::ends_with(
        text::split(name@, '.'),
        text::split(text::lower(text::trim_end((#[trigger] rule.domain_suffix@[i])@, '.')), '.'),
    ) <==> matching::name_under(
        name@,
        message::normalized(rule.domain_suffix@[i]@),
    )) by {
        text::pieces_at_the_end(
            name@,
            text::lower(text::trim_end(rule.domain_suffix@[i]@, '.')),
            '.',
        );
    }
    assert forall|i: int| 0 <= i < rule.domain_regex@.len() implies (pattern::pattern_finds(
        (#[trigger] rule.domain_regex@[i])@,
        name@,
    ) <==> matching::found(rule.domain_regex@[i]@, name@)) by {
    }
}

/// A logical rule joins its parts: by default and in the mode `and` all of them
/// have to match, in the mode `or` one; an inverted one the other way round.
pub proof fn a_logical_rule_joins_its_parts(
    rule: DnsRule,
    name: &str,
    qtype: u16,
    sets: Option<Seq<RuleSet>>,
)
    requires
        rule.kind@ == "logical"@,
    ensures
        rule.mode is None || rule.mode->0@ == "and"@ ==> ((rules::rule_matches(
            rule,
            name,
            qtype,
            sets,
        ) != rule.invert) <==> forall|i: int|
            0 <= i < rule.rules@.len() ==> rules::rule_matches(
                #[trigger] rule.rules@[i],
                name,
                qtype,
                sets,
            )),
        rule.mode is Some && rule.mode->0@ == "or"@ ==> ((rules::rule_matches(
            rule,
            name,
            qtype,
            sets,
        ) != rule.invert) <==> exists|i: int|
            0 <= i < rule.rules@.len() && rules::rule_matches(
                #[trigger] rule.rules@[i],
                name,
                qtype,
                sets,
            )),
{
    reveal_strlit("and");
    reveal_strlit("or");
    assert("and"@.len() != "or"@.len());
}

// ---- the server of a question ----

/// The server with a tag is the last one that has it; a tag that no server has
/// names none.
pub proof fn the_last_server_with_a_tag_counts(list: Seq<DnsServer>, tag: Seq<char>)
    ensures
        match resolver::server_place(list, tag) {
            Some(i) => 0 <= i < list.len() && list[i].tag@ == tag && forall|j: int|
                i < j < list.len() ==> (#[trigger] list[j]).tag@ != tag,
            None => forall|j: int| 0 <= j < list.len() ==> (#[trigger] list[j]).tag@ != tag,
        },
    decreases list.len(),
{
    if list.len() > 0 && list.last().tag@ != tag {
        let front = list.drop_last();
        the_last_server_with_a_tag_counts(front, tag);
        assert forall|j: int| 0 <= j < front.len() implies front[j] == list[j] by {
        }
        match resolver::server_place(list, tag) {
            Some(i) => {
                assert forall|j: int| i < j < list.len() implies (#[trigger] list[j]).tag@
                    != tag by {
                    if j < front.len() {
                        assert(front[j] == list[j]);
                    }
                }
            },
            None => {
                assert forall|j: int| 0 <= j < list.len() implies (#[trigger] list[j]).tag@
                    != tag by {
                    if j < front.len() {
                        assert(front[j] == list[j]);
                    }
                }
            },
        }
    }
}

/// A lookup without a server of its own goes by the first rule that matches: it is
/// put to the server that the rule names and is kept under that server, with the
/// subnet, the time limit and the lifetime of the rule where the lookup has none of
/// its own; a rule that keeps no answers, or a lookup that wants none kept, keeps
/// none.
pub proof fn a_lookup_goes_to_the_server_of_its_rule(
    s: DnsResolver,
    name: &str,
    qtype: u16,
    options: LookupOptions,
    sets: Option<Seq<RuleSet>>,
    i: int,
)
    requires
        options.server is None,
        0 <= i < s.rules@.len(),
        rules::rule_matches(s.rules@[i], name, qtype, sets),
        forall|j: int|
            0 <= j < i ==> !rules::rule_matches(#[trigger] s.rules@[j], name, qtype, sets),
        text::opt_text(s.rules@[i].action) != Some("reject"@),
        text::opt_text(s.rules@[i].action) != Some("predefined"@),
    ensures
        ({
            let rule = s.rules@[i];
            match resolver::lookup_plan(s, name, qtype, options, sets) {
                Ok(
                    LookupView::Ask { server, client_subnet, key, timeout, rewrite_ttl, use_cache },
                ) => {
                    &&& rule.server matches Some(t) ==> server == Some(t@)
                    &&& rule.server is None ==> server is None
                    &&& options.client_subnet matches Some(n) ==> client_subnet == Some(n@)
                    &&& options.client_subnet is None && rule.client_subnet is Some
                        ==> client_subnet == Some(rule.client_subnet->0@)
                    &&& options.client_subnet is None && rule.client_subnet is None
                        && s.client_subnet is Some ==> client_subnet == Some(s.client_subnet->0@)
                    &&& options.client_subnet is None && rule.client_subnet is None
                        && s.client_subnet is None ==> client_subnet is None
                    &&& key == (KeyView::Lookup { name: name@, qtype, server, client_subnet })
                    &&& options.timeout matches Some(t) ==> timeout == t.millis
                    &&& options.timeout is None && rule.timeout is Some
                        ==> time::duration_millis(rule.timeout->0@) == Some(timeout)
                    &&& options.timeout is None && rule.timeout is None ==> timeout
                        == s.timeout.millis
                    &&& options.rewrite_ttl is Some ==> rewrite_ttl == options.rewrite_ttl
                    &&& options.rewrite_ttl is None ==> rewrite_ttl == rule.rewrite_ttl
                    &&& use_cache <==> !options.disable_cache && !rule.disable_cache
                },
                Ok(LookupView::Addresses(_)) => false,
                Err(ResolverError::Dns(e)) => e == DnsError::InvalidClientSubnet,
                Err(ResolverError::Timeout(_)) => rule.timeout is Some && time::duration_millis(
                    rule.timeout->0@,
                ) is None,
                Err(_) => false,
            }
        }),
{
    the_first_matching_rule_counts(s.rules@, name, qtype, sets, i);
}

/// A lookup that no rule matches is put to no server in particular, which stands
/// for the default one.
pub proof fn a_lookup_without_a_rule_goes_to_the_default_server(
    s: DnsResolver,
    name: &str,
    qtype: u16,
    options: LookupOptions,
    sets: Option<Seq<RuleSet>>,
)
    requires
        options.server is None,
        forall|j: int|
            0 <= j < s.rules@.len() ==> !rules::rule_matches(
                #[trigger] s.rules@[j],
                name,
                qtype,
                sets,
            ),
    ensures
        match resolver::lookup_plan(s, name, qtype, options, sets) {
            Ok(LookupView::Ask { server, client_subnet, timeout, rewrite_ttl, use_cache, .. }) => {
                &&& server is None
                &&& options.client_subnet is None ==> client_subnet == text::opt_text(
                    s.client_subnet,
                )
                &&& options.timeout is None ==> timeout == s.timeout.millis
                &&& rewrite_ttl == options.rewrite_ttl
                &&& use_cache <==> !options.disable_cache
            },
            Ok(LookupView::Addresses(_)) => false,
            Err(e) => e == ResolverError::Dns(DnsError::InvalidClientSubnet),
        },
{
    no_matching_rule_counts_for_none(s.rules@, name, qtype, sets);
}

/// A lookup at a server of its own is put to that server, whatever the rules are.
pub proof fn a_lookup_at_its_own_server_knows_no_rules(
    s: DnsResolver,
    other: DnsResolver,
    name: &str,
    qtype: u16,
    options: LookupOptions,
    sets: Option<Seq<RuleSet>>,
    more: Option<Seq<RuleSet>>,
)
    requires
        options.server is Some,
        s.client_subnet == other.client_subnet,
        s.timeout == other.timeout,
    ensures
        resolver::lookup_plan(s, name, qtype, options, sets) == resolver::lookup_plan(
            other,
            name,
            qtype,
            options,
            more,
        ),
        resolver::lookup_plan(s, name, qtype, options, sets) matches Ok(plan) ==> (plan matches
            LookupView::Ask { server, .. } && server == Some(options.server->0@)),
        resolver::lookup_plan(s, name, qtype, options, sets) matches Err(e) ==> e
            == ResolverError::Dns(DnsError::InvalidClientSubnet),
{
}

/// A lookup with nothing asked for beyond the name and a whole message with the
/// same question go the same way: to the same server, waiting as long, with the same
/// subnet, lifetime and use of what is kept. Both are rejected, or answered with the
/// records of a rule, or neither is.
pub proof fn lookups_and_messages_go_the_same_way(
    s: DnsResolver,
    request: Seq<u8>,
    name: &str,
    qtype: u16,
    end: int,
    options: LookupOptions,
    sets: Option<Seq<RuleSet>>,
)
    requires
        options.blank(),
        request.len() >= 12,
    ensures
        ({
            let lookup = resolver::lookup_plan(s, name, qtype, options, sets);
            let whole = resolver::exchange_plan(s, request, name, qtype, end, sets);
            &&& lookup matches Ok(LookupView::Ask {
                server,
                client_subnet,
                key,
                timeout,
                rewrite_ttl,
                use_cache,
            }) ==> match whole {
                Ok(PlanView::Ask(a)) => {
                    &&& a.server == (match server {
                        Some(t) => t,
                        None => s.final_tag@,
                    })
                    &&& resolver::server_place(s.servers@, a.server) matches Some(i) && a.local == (
                    s.servers@[i].kind@ == "local"@)
                    &&& a.timeout == Some(timeout)
                    &&& a.rewrite_ttl == rewrite_ttl
                    &&& a.use_cache == use_cache
                    &&& client_subnet is None ==> a.wire == request
                    &&& client_subnet matches Some(n) ==> message::with_subnet(request, n) == Ok::<
                        Seq<u8>,
                        DnsError,
                    >(a.wire)
                    &&& a.key == (KeyView::Wire { query: message::canonical(a.wire), server: a.server })
                },
                Ok(PlanView::Answer(_)) => false,
                Err(ResolverError::UnknownServer) => resolver::server_place(
                    s.servers@,
                    match server {
                        Some(t) => t,
                        None => s.final_tag@,
                    },
                ) is None,
                Err(ResolverError::Dns(_)) => client_subnet is Some,
                Err(_) => false,
            }
            &&& lookup == Err::<LookupView, _>(ResolverError::Rejected) ==> whole
                == Err::<PlanView, _>(ResolverError::Dropped) || (whole is Ok && whole->Ok_0 is Answer
                && whole->Ok_0->Answer_0[2] >= 0x80 && whole->Ok_0->Answer_0[3] % 16 == 5)
            &&& lookup matches Ok(LookupView::Addresses(_)) ==> !(whole matches Ok(PlanView::Ask(_)))
            &&& whole matches Ok(PlanView::Ask(_)) ==> !(lookup matches Ok(LookupView::Addresses(_)))
                && lookup != Err::<LookupView, _>(ResolverError::Rejected)
        }),
{
    let low = request[3];
    let high = request[2];
    assert(((low & 0xf0) | 5) % 16 == 5) by (bit_vector);
    assert((high | 0x80) >= 0x80) by (bit_vector);
}

// ---- the addresses of a lookup ----

proof fn lemma_of_family(s: Seq<IpAddr>, six: bool)
    ensures
        forall|i: int|
            0 <= i < resolver::of_family(s, six).len() ==> ((#[trigger] resolver::of_family(
                s,
                six,
            )[i]) is V6) == six,
        forall|x: IpAddr| #[trigger]
            resolver::of_family(s, six).contains(x) <==> s.contains(x) && (x is V6) == six,
    decreases s.len(),
{
    if s.len() > 0 {
        let front = s.drop_last();
        let kept = resolver::of_family(front, six);
        lemma_of_family(front, six);
        assert forall|x: IpAddr| #[trigger]
            resolver::of_family(s, six).contains(x) <==> s.contains(x) && (x is V6) == six by {
            assert(s =~= front.push(s.last()));
            if s.contains(x) && (x is V6) == six {
                let i = choose|i: int| 0 <= i < s.len() && s[i] == x;
                if i < front.len() {
                    assert(front[i] == x);
                    assert(kept.contains(x));
                    let j = choose|j: int| 0 <= j < kept.len() && kept[j] == x;
                    assert(resolver::of_family(s, six)[j] == x);
                } else {
                    assert(resolver::of_family(s, six)[kept.len() as int] == x);
                }
            }
            if resolver::of_family(s, six).contains(x) {
                let j = choose|j: int|
                    0 <= j < resolver::of_family(s, six).len() && resolver::of_family(s, six)[j]
                        == x;
                if j < kept.len() {
                    assert(kept[j] == x);
                    assert(kept.contains(x));
                    let i = choose|i: int| 0 <= i < front.len() && front[i] == x;
                    assert(s[i] == x);
                } else {
                    assert(s[s.len() - 1] == x);
                }
            }
        }
    }
}

/// Two lookups come to the addresses that one of them gave and to no other; to
/// nothing only where neither gave any. Where a family is preferred, none of the
/// other stands before one of it.
pub proof fn both_lookups_count(
    a: Option<Seq<IpAddr>>,
    b: Option<Seq<IpAddr>>,
    strategy: Option<Seq<char>>,
)
    ensures
        ({
            let given = |x: IpAddr|
                (a is Some && a->0.contains(x)) || (b is Some && b->0.contains(x));
            match resolver::combined(a, b, strategy) {
                None => forall|x: IpAddr| !#[trigger] given(x),
                Some(list) => {
                    &&& list.len() > 0
                    &&& forall|x: IpAddr| #[trigger] list.contains(x) <==> given(x)
                    &&& strategy == Some("prefer_ipv6"@) ==> forall|i: int, j: int|
                        0 <= i < j < list.len() && (#[trigger] list[j]) is V6 ==> (
                        #[trigger] list[i]) is V6
                    &&& strategy == Some("prefer_ipv4"@) ==> forall|i: int, j: int|
                        0 <= i < j < list.len() && (#[trigger] list[j]) is V4 ==> (
                        #[trigger] list[i]) is V4
                    &&& strategy is None ==> resolver::is_ascending(list)
                },
            }
        }),
{
    reveal_strlit("prefer_ipv6");
    reveal_strlit("prefer_ipv4");
    assert("prefer_ipv4"@[10] != "prefer_ipv6"@[10]);
    let one = match a {
        Some(s) => s,
        None => Seq::empty(),
    };
    let two = match b {
        Some(s) => s,
        None => Seq::empty(),
    };
    let all = resolver::ordered(one + two);
    resolver::ordering_keeps_the_addresses(one + two);
    lemma_of_family(all, true);
    lemma_of_family(all, false);
    assert forall|x: IpAddr| (#[trigger] (one + two).contains(x)) <==> one.contains(x)
        || two.contains(x) by {
        if one.contains(x) {
            let i = choose|i: int| 0 <= i < one.len() && one[i] == x;
            assert((one + two)[i] == x);
        }
        if two.contains(x) {
            let i = choose|i: int| 0 <= i < two.len() && two[i] == x;
            assert((one + two)[one.len() + i] == x);
        }
        if (one + two).contains(x) {
            let i = choose|i: int| 0 <= i < (one + two).len() && (one + two)[i] == x;
            if i < one.len() {
                assert(one[i] == x);
            } else {
                assert(two[i - one.len()] == x);
            }
        }
    }
    let given = |x: IpAddr| (a is Some && a->0.contains(x)) || (b is Some && b->0.contains(x));
    assert forall|x: IpAddr| #[trigger] given(x) <==> all.contains(x) by {
        assert(all.contains(x) <==> (one + two).contains(x));
    }
    if all.len() > 0 {
        let list = resolver::combined(a, b, strategy)->0;
        let first = resolver::of_family(all, strategy == Some("prefer_ipv6"@));
        let last = resolver::of_family(all, strategy != Some("prefer_ipv6"@));
        assert(all.contains(all[0]));
        if strategy == Some("prefer_ipv6"@) || strategy == Some("prefer_ipv4"@) {
            assert(list == first + last);
            assert forall|x: IpAddr| #[trigger] list.contains(x) <==> given(x) by {
                if first.contains(x) {
                    let i = choose|i: int| 0 <= i < first.len() && first[i] == x;
                    assert(list[i] == x);
                }
                if last.contains(x) {
                    let i = choose|i: int| 0 <= i < last.len() && last[i] == x;
                    assert(list[first.len() + i] == x);
                }
                if list.contains(x) {
                    let i = choose|i: int| 0 <= i < list.len() && list[i] == x;
                    if i < first.len() {
                        assert(first[i] == x);
                    } else {
                        assert(last[i - first.len()] == x);
                    }
                }
            }
            assert(given(all[0]));
            assert(list.contains(all[0]));
        }
    }
}

/// A strategy for one family asks for that family alone, and every other asks for
/// both.
pub proof fn families_by_strategy(strategy: Option<Seq<char>>)
    ensures
        resolver::families(strategy) == Families::OnlyV4 <==> strategy == Some("ipv4_only"@),
        resolver::families(strategy) == Families::OnlyV6 <==> strategy == Some("ipv6_only"@),
{
    reveal_strlit("ipv4_only");
    reveal_strlit("ipv6_only");
    assert("ipv4_only"@[3] != "ipv6_only"@[3]);
}

/// The strategy of a lookup is its own where it has one; else that of the rule for
/// addresses of the older family, or where there is none of the rule for the newer;
/// else that of the section.
pub proof fn strategies_come_from_the_rule(
    s: DnsResolver,
    name: &str,
    own: Option<Seq<char>>,
    sets: Option<Seq<RuleSet>>,
    i: int,
    qtype: u16,
)
    requires
        0 <= i < s.rules@.len(),
        qtype == 1 || (qtype == 28 && forall|j: int|
            0 <= j < s.rules@.len() ==> !rules::rule_matches(#[trigger] s.rules@[j], name, 1, sets)),
        rules::rule_matches(s.rules@[i], name, qtype, sets),
        forall|j: int|
            0 <= j < i ==> !rules::rule_matches(#[trigger] s.rules@[j], name, qtype, sets),
    ensures
        own is Some ==> resolver::chosen_strategy(s, name, own, sets) == own,
        own is None && s.rules@[i].strategy is Some ==> resolver::chosen_strategy(
            s,
            name,
            own,
            sets,
        ) == Some(s.rules@[i].strategy->0@),
        own is None && s.rules@[i].strategy is None ==> resolver::chosen_strategy(
            s,
            name,
            own,
            sets,
        ) == text::opt_text(s.strategy),
{
    if qtype == 28 {
        no_matching_rule_counts_for_none(s.rules@, name, 1, sets);
    }
    the_first_matching_rule_counts(s.rules@, name, qtype, sets, i);
}

/// An answer is kept for its lifetime, but for a second at least and for a day at
/// most.
pub proof fn answers_are_kept_for_a_second_to_a_day(ttl: u32, more: u32)
    ensures
        1 <= resolver::kept_seconds(ttl) <= 24 * 60 * 60,
        1 <= ttl <= 24 * 60 * 60 ==> resolver::kept_seconds(ttl) == ttl,
        ttl <= more ==> resolver::kept_seconds(ttl) <= resolver::kept_seconds(more),
{
}

/// An answer is within the limits of a plain rule where a rule of one of its sets
/// matches each of its addresses; without sets there are none.
pub proof fn limits_hold_for_every_address(
    rule: DnsRule,
    name: &str,
    addresses: Seq<IpAddr>,
    sets: Seq<RuleSet>,
)
    requires
        rule.kind@ != "logical"@,
    ensures
        (rules::limit_matches(rule, name, addresses, Some(sets)) != rule.invert) <==> forall|k: int|
            0 <= k < addresses.len() ==> rules::any_set_accepts(
                sets,
                rule.rule_set@,
                #[trigger] addresses[k],
                name,
            ),
        rules::limit_matches(rule, name, Seq::empty(), Some(sets)) != rule.invert,
        rules::limit_matches(rule, name, addresses, None) != rule.invert,
{
}

// ---- what is in order ----

proof fn lemma_types(list: Seq<Value>, n: nat)
    requires
        n <= list.len(),
    ensures
        rules::types_error(list, n) is None <==> forall|i: int|
            0 <= i < n ==> record::query_type(#[trigger] list[i]) is Ok,
    decreases n,
{
    if n > 0 {
        lemma_types(list, (n - 1) as nat);
    }
}

proof fn lemma_texts(list: Seq<Seq<char>>, n: nat)
    requires
        n <= list.len(),
    ensures
        rules::texts_error(list, n) is None <==> forall|i: int|
            0 <= i < n ==> record::record_text(#[trigger] list[i]) is Ok,
    decreases n,
{
    if n > 0 {
        lemma_texts(list, (n - 1) as nat);
    }
}

/// A plain rule at the top level is in order exactly where its patterns and types
/// can be read, its action is known, the code and all records of a rule with records
/// of its own can be read, a rejection is made in a known way, and its subnet and its
/// strategy are ones.
pub proof fn rules_are_in_order(rule: DnsRule)
    requires
        rule.kind@.len() == 0,
    ensures
        rules::dns_rule_error(rule, true) is None <==> {
            &&& forall|i: int|
                0 <= i < rule.domain_regex@.len() ==> pattern::pattern_valid(
                    (#[trigger] rule.domain_regex@[i])@,
                )
            &&& forall|i: int|
                0 <= i < rule.query_type@.len() ==> record::query_type(
                    #[trigger] rule.query_type@[i],
                ) is Ok
            &&& rule.action matches Some(a) ==> a@ == ""@ || a@ == "route"@ || a@ == "reject"@ || a@
                == "predefined"@
            &&& rule.action is Some && rule.action->0@ == "predefined"@ ==> record::rcode(rule.rcode)
                is Ok && (forall|i: int|
                0 <= i < rule.answer@.len() ==> record::record_text((#[trigger] rule.answer@[i])@)
                    is Ok) && (forall|i: int|
                0 <= i < rule.ns@.len() ==> record::record_text((#[trigger] rule.ns@[i])@) is Ok)
                && (forall|i: int|
                0 <= i < rule.extra@.len() ==> record::record_text((#[trigger] rule.extra@[i])@)
                    is Ok)
            &&& rule.action is Some && rule.action->0@ == "reject"@ ==> (rule.method matches Some(m)
                ==> m@ == ""@ || m@ == "default"@ || m@ == "drop"@)
            &&& rule.client_subnet matches Some(n) ==> net::net_or_ip_text(n@) is Some
            &&& rule.strategy matches Some(t) ==> t@ == ""@ || t@ == "prefer_ipv4"@ || t@
                == "prefer_ipv6"@ || t@ == "ipv4_only"@ || t@ == "ipv6_only"@
        },
{
    reveal_strlit("");
    reveal_strlit("logical");
    reveal_strlit("reject");
    reveal_strlit("predefined");
    assert("reject"@.len() != "predefined"@.len());
    assert(rule.kind@ =~= ""@);
    lemma_types(rule.query_type@, rule.query_type@.len());
    let all = rules::rule_records(rule);
    lemma_texts(all, all.len());
    let a = text::texts(rule.answer@);
    let b = text::texts(rule.ns@);
    let c = text::texts(rule.extra@);
    assert(all == a + b + c);
    assert((forall|i: int| 0 <= i < all.len() ==> record::record_text(#[trigger] all[i]) is Ok)
        <==> (forall|i: int|
        0 <= i < rule.answer@.len() ==> record::record_text((#[trigger] rule.answer@[i])@) is Ok)
        && (forall|i: int|
        0 <= i < rule.ns@.len() ==> record::record_text((#[trigger] rule.ns@[i])@) is Ok) && (
    forall|i: int|
        0 <= i < rule.extra@.len() ==> record::record_text((#[trigger] rule.extra@[i])@) is Ok)) by {
        if forall|i: int| 0 <= i < all.len() ==> record::record_text(#[trigger] all[i]) is Ok {
            assert forall|i: int| 0 <= i < rule.answer@.len() implies record::record_text(
                (#[trigger] rule.answer@[i])@,
            ) is Ok by {
                assert(all[i] == rule.answer@[i]@);
            }
            assert forall|i: int| 0 <= i < rule.ns@.len() implies record::record_text(
                (#[trigger] rule.ns@[i])@,
            ) is Ok by {
                assert(all[a.len() + i] == rule.ns@[i]@);
            }
            assert forall|i: int| 0 <= i < rule.extra@.len() implies record::record_text(
                (#[trigger] rule.extra@[i])@,
            ) is Ok by {
                assert(all[a.len() + b.len() + i] == rule.extra@[i]@);
            }
        }
        if (forall|i: int|
            0 <= i < rule.answer@.len() ==> record::record_text((#[trigger] rule.answer@[i])@)
                is Ok) && (forall|i: int|
            0 <= i < rule.ns@.len() ==> record::record_text((#[trigger] rule.ns@[i])@) is Ok) && (
        forall|i: int|
            0 <= i < rule.extra@.len() ==> record::record_text((#[trigger] rule.extra@[i])@)
                is Ok) {
            assert forall|i: int| 0 <= i < all.len() implies record::record_text(
                #[trigger] all[i],
            ) is Ok by {
                if i < a.len() {
                    assert(all[i] == rule.answer@[i]@);
                } else if i < a.len() + b.len() {
                    assert(all[i] == rule.ns@[i - a.len()]@);
                } else {
                    assert(all[i] == rule.extra@[i - a.len() - b.len()]@);
                }
            }
        }
    }
}

/// A section can be set up exactly where its strategy and its subnet are ones, it
/// asks for nothing that is not there, all its rules and servers are in order, its
/// time limit is one, and it has a server to ask by default: the one it names, or
/// else the first.
pub proof fn sections_are_in_order(config: DnsConfig)
    ensures
        resolver::setup_fault(config) is None <==> {
            &&& config.strategy matches Some(t) ==> t@ == ""@ || t@ == "prefer_ipv4"@ || t@
                == "prefer_ipv6"@ || t@ == "ipv4_only"@ || t@ == "ipv6_only"@
            &&& config.client_subnet matches Some(n) ==> net::net_or_ip_text(n@) is Some
            &&& !config.reverse_mapping
            &&& config.optimistic matches Some(v) ==> !record::optimistic(v)
            &&& forall|i: int|
                0 <= i < config.rules@.len() ==> rules::dns_rule_error(
                    #[trigger] config.rules@[i],
                    true,
                ) is None
            &&& config.timeout matches Some(t) ==> time::duration_millis(t@) is Some
            &&& forall|i: int|
                0 <= i < config.servers@.len() ==> transport::upstream_fault(
                    #[trigger] config.servers@[i],
                ) is None
            &&& match config.final_server {
                Some(tag) => exists|i: int|
                    0 <= i < config.servers@.len() && (#[trigger] config.servers@[i]).tag@ == tag@,
                None => config.servers@.len() > 0,
            }
        },
        config.final_server matches Some(tag) ==> resolver::final_server(config) == Some(tag@),
        config.final_server is None && config.servers@.len() > 0 ==> resolver::final_server(config)
            == Some(config.servers@[0].tag@),
{
    lemma_rules(config.rules@, config.rules@.len());
    lemma_servers(config.servers@, config.servers@.len());
    match resolver::final_server(config) {
        Some(tag) => {
            the_last_server_with_a_tag_counts(config.servers@, tag);
            if config.final_server is None {
                assert(config.servers@[0].tag@ == tag);
            }
        },
        None => {},
    }
}

proof fn lemma_rules(list: Seq<DnsRule>, n: nat)
    requires
        n <= list.len(),
    ensures
        resolver::rules_fault(list, n) is None <==> forall|i: int|
            0 <= i < n ==> rules::dns_rule_error(#[trigger] list[i], true) is None,
    decreases n,
{
    if n > 0 {
        lemma_rules(list, (n - 1) as nat);
    }
}

proof fn lemma_servers(list: Seq<DnsServer>, n: nat)
    requires
        n <= list.len(),
    ensures
        resolver::servers_fault(list, n) is None <==> forall|i: int|
            0 <= i < n ==> transport::upstream_fault(#[trigger] list[i]) is None,
    decreases n,
{
    if n > 0 {
        lemma_servers(list, (n - 1) as nat);
    }
}

// ---- sets and records of their own ----

/// A rule set admits a name where one of its rules matches a connection of which
/// nothing but the name is known, or asks for an address; and it accepts an address
/// where one of its rules matches with that address known too.
pub proof fn sets_see_nothing_but_names_and_addresses(
    list: Seq<CompiledRule>,
    name: &str,
    address: IpAddr,
    nothing: RouteContext,
)
    requires
        nothing.unknown(),
    ensures
        rules::set_admits(list, name) <==> exists|i: int|
            0 <= i < list.len() && ((#[trigger] list[i]).matched(
                RouteContext { domain: Some(name), ..nothing },
            ) || list[i].has_cidr()),
        rules::set_accepts(list, address, name) <==> exists|i: int|
            0 <= i < list.len() && (#[trigger] list[i]).matched(
                RouteContext { domain: Some(name), destination_ip: Some(address), ..nothing },
            ),
{
    let alone = RouteContext { domain: Some(name), ..nothing };
    let both = RouteContext { domain: Some(name), destination_ip: Some(address), ..nothing };
    assert forall|i: int| 0 <= i < list.len() implies (#[trigger] list[i]).matched(alone)
        == rules::name_matches(list[i], name) by {
        matching::matching_depends_on_facts_alone(
            list[i],
            alone,
            rules::name_context(name, None),
        );
    }
    assert forall|i: int| 0 <= i < list.len() implies (#[trigger] list[i]).matched(both)
        == rules::address_matches(list[i], address, name) by {
        matching::matching_depends_on_facts_alone(
            list[i],
            both,
            rules::name_context(name, Some(address)),
        );
    }
}

/// A rule has a network where it lists one, or one of its parts has.
pub proof fn networks_of_a_rule(rule: CompiledRule)
    ensures
        rule.cidrs@.len() > 0 ==> rule.has_cidr(),
        rule.logical_rules@.len() == 0 ==> (rule.has_cidr() <==> rule.cidrs@.len() > 0),
        (exists|i: int|
            0 <= i < rule.logical_rules@.len() && (#[trigger] rule.logical_rules@[i]).has_cidr())
            ==> rule.has_cidr(),
{
}

proof fn lemma_among(list: Seq<record::PredefinedView>, qtype: u16, ip: IpAddr)
    requires
        resolver::addresses_among(list, qtype) is Some,
    ensures
        resolver::addresses_among(list, qtype)->0.contains(ip) <==> exists|i: int|
            0 <= i < list.len() && (#[trigger] list[i]).kind == qtype && ((qtype == 1
                && list[i].rdata.len() == 4 && ip == IpAddr::V4(
                wire::be32(list[i].rdata, 0) as u32,
            )) || (qtype == 28 && ip == IpAddr::V6(wire::be128(list[i].rdata, 0) as u128))),
    decreases list.len(),
{
    if list.len() > 0 {
        let front = list.drop_last();
        let last = list.last();
        lemma_among(front, qtype, ip);
        let before = resolver::addresses_among(front, qtype)->0;
        let all = resolver::addresses_among(list, qtype)->0;
        assert forall|i: int| 0 <= i < front.len() implies front[i] == list[i] by {
        }
        assert(list[list.len() - 1] == last);
        if all.contains(ip) {
            let k = choose|k: int| 0 <= k < all.len() && all[k] == ip;
            if k < before.len() {
                assert(before[k] == ip);
                assert(before.contains(ip));
                let i = choose|i: int|
                    0 <= i < front.len() && (#[trigger] front[i]).kind == qtype && ((qtype == 1
                        && front[i].rdata.len() == 4 && ip == IpAddr::V4(
                        wire::be32(front[i].rdata, 0) as u32,
                    )) || (qtype == 28 && ip == IpAddr::V6(
                        wire::be128(front[i].rdata, 0) as u128,
                    )));
                assert(list[i] == front[i]);
            }
        }
        if exists|i: int|
            0 <= i < list.len() && (#[trigger] list[i]).kind == qtype && ((qtype == 1
                && list[i].rdata.len() == 4 && ip == IpAddr::V4(
                wire::be32(list[i].rdata, 0) as u32,
            )) || (qtype == 28 && ip == IpAddr::V6(wire::be128(list[i].rdata, 0) as u128))) {
            let i = choose|i: int|
                0 <= i < list.len() && (#[trigger] list[i]).kind == qtype && ((qtype == 1
                    && list[i].rdata.len() == 4 && ip == IpAddr::V4(
                    wire::be32(list[i].rdata, 0) as u32,
                )) || (qtype == 28 && ip == IpAddr::V6(wire::be128(list[i].rdata, 0) as u128)));
            if i < front.len() {
                assert(front[i] == list[i]);
                assert(before.contains(ip));
                let k = choose|k: int| 0 <= k < before.len() && before[k] == ip;
                assert(all[k] == ip);
            } else {
                assert(all[before.len() as int] == ip);
            }
        }
    }
}

/// A rule with records of its own gives the addresses that those of the asked type
/// hold, each of them and no other; where it has a code of its own it gives that in
/// their place.
pub proof fn rules_give_the_addresses_of_their_records(rule: DnsRule, qtype: u16, ip: IpAddr)
    ensures
        ({
            let texts = rules::rule_records(rule);
            match resolver::predefined_addresses(rule, qtype) {
                Ok(list) => record::rcode(rule.rcode) == Ok::<u8, DnsError>(0) && (list.contains(ip)
                    <==> exists|i: int|
                    0 <= i < texts.len() && ({
                        let r = record::record_text(#[trigger] texts[i])->Ok_0;
                        r.kind == qtype && ((qtype == 1 && r.rdata.len() == 4 && ip == IpAddr::V4(
                            wire::be32(r.rdata, 0) as u32,
                        )) || (qtype == 28 && ip == IpAddr::V6(wire::be128(r.rdata, 0) as u128)))
                    })),
                Err(ResolverError::Rcode(code)) => code != 0 && record::rcode(rule.rcode) == Ok::<
                    u8,
                    DnsError,
                >(code),
                Err(_) => true,
            }
        }),
{
    let texts = rules::rule_records(rule);
    let records = resolver::read_records(texts);
    match resolver::predefined_addresses(rule, qtype) {
        Ok(list) => {
            let found = resolver::addresses_among(records, qtype)->0;
            lemma_among(records, qtype, ip);
            resolver::ordering_keeps_the_addresses(found);
            assert(list.contains(ip) <==> found.contains(ip));
            if found.contains(ip) {
                let i = choose|i: int|
                    0 <= i < records.len() && (#[trigger] records[i]).kind == qtype && ((qtype == 1
                        && records[i].rdata.len() == 4 && ip == IpAddr::V4(
                        wire::be32(records[i].rdata, 0) as u32,
                    )) || (qtype == 28 && ip == IpAddr::V6(
                        wire::be128(records[i].rdata, 0) as u128,
                    )));
                assert(records[i] == record::record_text(texts[i])->Ok_0);
            }
            if exists|i: int|
                0 <= i < texts.len() && ({
                    let r = record::record_text(#[trigger] texts[i])->Ok_0;
                    r.kind == qtype && ((qtype == 1 && r.rdata.len() == 4 && ip == IpAddr::V4(
                        wire::be32(r.rdata, 0) as u32,
                    )) || (qtype == 28 && ip == IpAddr::V6(wire::be128(r.rdata, 0) as u128)))
                }) {
                let i = choose|i: int|
                    0 <= i < texts.len() && ({
                        let r = record::record_text(#[trigger] texts[i])->Ok_0;
                        r.kind == qtype && ((qtype == 1 && r.rdata.len() == 4 && ip == IpAddr::V4(
                            wire::be32(r.rdata, 0) as u32,
                        )) || (qtype == 28 && ip == IpAddr::V6(wire::be128(r.rdata, 0) as u128)))
                    });
                assert(records[i] == record::record_text(texts[i])->Ok_0);
            }
        },
        Err(_) => {},
    }
}

/// The addresses of a lookup are refused only by the first rule that matches, where
/// one of its sets holds networks, and then exactly where one of them is in none of
/// the sets; a lookup at a server of its own, or without a rule, refuses none.
pub proof fn addresses_are_refused_by_the_limits_of_their_rule(
    s: DnsResolver,
    name: &str,
    qtype: u16,
    options: LookupOptions,
    addresses: Seq<IpAddr>,
    sets: Seq<RuleSet>,
    i: int,
)
    requires
        0 <= i <= s.rules@.len(),
        i < s.rules@.len() ==> rules::rule_matches(s.rules@[i], name, qtype, Some(sets))
            && s.rules@[i].kind@ != "logical"@ && !s.rules@[i].invert,
        forall|j: int|
            0 <= j < i ==> !rules::rule_matches(#[trigger] s.rules@[j], name, qtype, Some(sets)),
    ensures
        options.server is Some || i == s.rules@.len() ==> !resolver::limited(
            s,
            name,
            qtype,
            options,
            addresses,
            Some(sets),
        ),
        options.server is None && i < s.rules@.len() ==> (resolver::limited(
            s,
            name,
            qtype,
            options,
            addresses,
            Some(sets),
        ) <==> rules::has_limit(s.rules@[i], Some(sets)) && exists|k: int|
            0 <= k < addresses.len() && !rules::any_set_accepts(
                sets,
                s.rules@[i].rule_set@,
                #[trigger] addresses[k],
                name,
            )),
{
    if i < s.rules@.len() {
        the_first_matching_rule_counts(s.rules@, name, qtype, Some(sets), i);
        limits_hold_for_every_address(s.rules@[i], name, addresses, sets);
    } else {
        no_matching_rule_counts_for_none(s.rules@, name, qtype, Some(sets));
    }
}

/// An answer is kept where it answers the question or says that the name is not
/// there, for its lifetime, and else not at all; with a lifetime that a rule gives it,
/// for that one.
pub proof fn answers_without_errors_are_kept(b: Seq<u8>, ttl: u32)
    ensures
        b[3] & 0x0f == 0 || b[3] & 0x0f == 3 ==> 1000 <= resolver::answer_millis(b) <= 24 * 60 * 60
            * 1000,
        b[3] & 0x0f != 0 && b[3] & 0x0f != 3 ==> resolver::answer_millis(b) == 0,
        (b[3] & 0x0f == 0 || b[3] & 0x0f == 3) && 1 <= answer::message_ttl(b) <= 24 * 60 * 60
            ==> resolver::answer_millis(b) == answer::message_ttl(b) * 1000,
        resolver::rewritten(b, None) == b,
        answer::message_records(b) is Ok && answer::least_ttl(answer::message_records(b)->Ok_0)
            is Some ==> answer::message_ttl(resolver::rewritten(b, Some(ttl))) == ttl,
{
    if answer::message_records(b) is Ok && answer::least_ttl(answer::message_records(b)->Ok_0)
        is Some {
        answer::rewriting_sets_response_ttl(b, ttl);
    }
}

/// The answers of a plain rule are limited exactly where one of its sets is there and
/// holds a rule with a network.
pub proof fn rules_are_limited_by_the_networks_of_their_sets(rule: DnsRule, sets: Seq<RuleSet>)
    requires
        rule.kind@ != "logical"@,
    ensures
        rules::has_limit(rule, Some(sets)) <==> exists|i: int|
            0 <= i < rule.rule_set@.len() && compile::has_set(
                sets,
                (#[trigger] rule.rule_set@[i])@,
            ) && rules::set_has_cidr(
                compile::set_named(sets, rule.rule_set@[i]@)@,
            ),
        !rules::has_limit(rule, None),
{
}

} // verus!
