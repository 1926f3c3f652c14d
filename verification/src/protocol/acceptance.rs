//! What a client sends is what a server takes: padding, session, number and token
//! stand side by side in one request.
use crate::config::{self, Placement, TransportConfig};
use crate::header;
use crate::location::Pairs;
use crate::protocol::metadata::{
    cookie_in, first_value, sequence_in, session_in, Fields,
};
use crate::protocol::request::{is_authorized, padded_pairs, padding_in, padding_place};
use crate::protocol::round_trip::{
    self, apart, at_path, fits_place, is_cookie_name, is_cookie_text, with_both, with_value,
    Request,
};
use crate::text;
use vstd::prelude::*;

verus! {

/// The padding, the session, the number and the token go by names of their own.
pub open spec fn separate(config: TransportConfig) -> bool {
    let (placement, key, name) = padding_place(config);
    let n = text::lower(name);
    &&& placement == Placement::Header || placement == Placement::QueryInHeader ==> {
        &&& n != "cookie"@
        &&& config.session_placement == Placement::Header ==> n != text::lower(config.session_key@)
        &&& config.sequence_placement == Placement::Header ==> n != text::lower(
            config.sequence_key@,
        )
        &&& config.token is Some ==> n != "authorization"@
    }
    &&& placement == Placement::Cookie ==> {
        &&& config.session_placement == Placement::Cookie ==> key != config.session_key@
        &&& config.sequence_placement == Placement::Cookie ==> key != config.sequence_key@
    }
    &&& config.token is Some ==> {
        &&& config.session_placement == Placement::Header ==> text::lower(config.session_key@)
            != "authorization"@
        &&& config.sequence_placement == Placement::Header ==> text::lower(config.sequence_key@)
            != "authorization"@
    }
}

/// The fields of a request with a padding put in.
pub open spec fn padded_fields(config: TransportConfig, url: Seq<char>, value: Seq<char>, m: Fields) -> Fields {
    crate::protocol::request::with_padding(padding_place(config), value, url, m).1
}

/// The place of the padding in the fields is free.
pub open spec fn padding_place_free(config: TransportConfig, m: Fields) -> bool {
    let (placement, key, _) = padding_place(config);
    placement == Placement::Cookie ==> is_cookie_name(key) && cookie_in(m, key) is None
}

proof fn lemma_words()
    ensures
        text::lower("cookie"@) == "cookie"@,
        text::lower("authorization"@) == "authorization"@,
        "cookie"@ != "authorization"@,
{
    reveal_strlit("cookie");
    reveal_strlit("authorization");
    assert(text::lower("cookie"@) =~= "cookie"@);
    assert(text::lower("authorization"@) =~= "authorization"@);
    assert("cookie"@.len() != "authorization"@.len());
}

/// A padding changes no cookie but its own.
proof fn lemma_padding_keeps_cookies(
    config: TransportConfig,
    url: Seq<char>,
    value: Seq<char>,
    m: Fields,
    other: Seq<char>,
)
    requires
        separate(config),
        padding_place_free(config, m),
        is_cookie_text(value),
        padding_place(config).0 == Placement::Cookie ==> other != padding_place(config).1,
    ensures
        cookie_in(padded_fields(config, url, value, m), other) == cookie_in(m, other),
{
    let (placement, key, name) = padding_place(config);
    if placement == Placement::Cookie {
        round_trip::cookie_reads_back(m, key, value);
    } else {
        let n = padded_fields(config, url, value, m);
        assert(header::values_under(n, "cookie"@) == header::values_under(m, "cookie"@));
    }
}

/// A padding changes no token.
proof fn lemma_padding_keeps_token(config: TransportConfig, url: Seq<char>, value: Seq<char>, m: Fields)
    requires
        separate(config),
        config.token is Some,
    ensures
        header::text_under(padded_fields(config, url, value, m), "authorization"@)
            == header::text_under(m, "authorization"@),
{
    lemma_words();
}

/// A session or a number changes neither the token nor the padding.
proof fn lemma_value_keeps(
    config: TransportConfig,
    r: Request,
    placement: Placement,
    key: Seq<char>,
    value: Seq<char>,
)
    requires
        placement == Placement::Header ==> text::lower(key) != "cookie"@,
        placement == Placement::Cookie ==> is_cookie_name(key) && is_cookie_text(value)
            && cookie_in(r.fields, key) is None,
        placement == Placement::Header && (padding_place(config).0 == Placement::Header
            || padding_place(config).0 == Placement::QueryInHeader) ==> text::lower(key)
            != text::lower(padding_place(config).2),
        placement == Placement::Cookie && padding_place(config).0 == Placement::Cookie ==> key
            != padding_place(config).1,
        placement == Placement::Header && config.token is Some ==> text::lower(key)
            != "authorization"@,
        padding_place(config).0 == Placement::Header || padding_place(config).0
            == Placement::QueryInHeader ==> text::lower(padding_place(config).2) != "cookie"@,
        padding_in(config, r.pairs, r.fields) is Some,
    ensures
        ({
            let t = with_value(r, placement, key, value);
            &&& padding_in(config, t.pairs, t.fields) == padding_in(config, r.pairs, r.fields)
            &&& config.token is Some ==> header::text_under(t.fields, "authorization"@)
                == header::text_under(r.fields, "authorization"@)
        }),
{
    lemma_words();
    let t = with_value(r, placement, key, value);
    let (place, pad_key, name) = padding_place(config);
    if placement == Placement::Cookie {
        round_trip::cookie_reads_back(r.fields, key, value);
    }
    if placement == Placement::Query && place == Placement::Query {
        lemma_first_stays(r.pairs, pad_key, (key, value));
    }
    if placement == Placement::Header {
        assert(header::values_under(t.fields, "cookie"@) == header::values_under(
            r.fields,
            "cookie"@,
        ));
    }
}

proof fn lemma_first_stays(pairs: Pairs, key: Seq<char>, more: (Seq<char>, Seq<char>))
    requires
        first_value(pairs, key) is Some,
    ensures
        first_value(pairs.push(more), key) == first_value(pairs, key),
    decreases pairs.len(),
{
    let all = pairs.push(more);
    if pairs[0].0 != key {
        assert(all.skip(1) =~= pairs.skip(1).push(more));
        lemma_first_stays(pairs.skip(1), key, more);
    }
}

/// A session placed in a request leaves the place of the number free.
proof fn lemma_next_free(config: TransportConfig, r: Request, session: Seq<char>)
    requires
        apart(config, r),
        config.session_placement == Placement::Cookie ==> is_cookie_text(session),
    ensures
        config.sequence_placement == Placement::Cookie ==> cookie_in(
            with_value(r, config.session_placement, config.session_key@, session).fields,
            config.sequence_key@,
        ) is None,
{
    let s = with_value(r, config.session_placement, config.session_key@, session);
    if config.sequence_placement == Placement::Cookie {
        if config.session_placement == Placement::Cookie {
            round_trip::cookie_reads_back(r.fields, config.session_key@, session);
        } else if config.session_placement == Placement::Header {
            assert(header::values_under(s.fields, "cookie"@) == header::values_under(
                r.fields,
                "cookie"@,
            ));
        }
    }
}

/// A request with padding put in.
pub open spec fn with_padding_in(
    config: TransportConfig,
    url: Seq<char>,
    r: Request,
    value: Seq<char>,
) -> Request {
    Request {
        path: r.path,
        pairs: padded_pairs(padding_place(config), value, r.pairs),
        fields: padded_fields(config, url, value, r.fields),
    }
}

/// A request that carries padding and a session is taken by a server with the same
/// settings: the padding is the one that was put in, the session is read back, and
/// the token is still there.
pub proof fn openings_are_accepted(
    config: TransportConfig,
    url: Seq<char>,
    r: Request,
    value: Seq<char>,
    session: Seq<char>,
)
    requires
        config::holds_metadata(config.sequence_placement),
        fits_place(config.session_placement, session),
        at_path(config, r.path),
        apart(config, r),
        separate(config),
        padding_place_free(config, r.fields),
        is_cookie_text(value),
        ({
            let p = with_padding_in(config, url, r, value);
            padding_in(config, p.pairs, p.fields) is Some
        }),
        is_authorized(config, r.fields),
    ensures
        ({
            let p = with_padding_in(config, url, r, value);
            let t = with_value(p, config.session_placement, config.session_key@, session);
            &&& apart(config, p)
            &&& padding_in(config, t.pairs, t.fields) == padding_in(config, p.pairs, p.fields)
            &&& session_in(config, t.path, t.pairs, t.fields) == Some(session)
            &&& is_authorized(config, t.fields)
        }),
{
    let p = with_padding_in(config, url, r, value);
    if config.session_placement == Placement::Cookie {
        lemma_padding_keeps_cookies(config, url, value, r.fields, config.session_key@);
    }
    if config.sequence_placement == Placement::Cookie {
        lemma_padding_keeps_cookies(config, url, value, r.fields, config.sequence_key@);
    }
    if config.token is Some {
        lemma_padding_keeps_token(config, url, value, r.fields);
    }
    assert(apart(config, p));
    round_trip::session_round_trip(config, p, session);
    lemma_value_keeps(config, p, config.session_placement, config.session_key@, session);
}

/// A request that carries padding, a session and a number is taken by a server
/// with the same settings: the padding is the one that was put in, the session and
/// the number are read back, and the token is still there.
pub proof fn requests_are_accepted(
    config: TransportConfig,
    url: Seq<char>,
    r: Request,
    value: Seq<char>,
    session: Seq<char>,
    sequence: u64,
)
    requires
        config::holds_metadata(config.sequence_placement),
        fits_place(config.session_placement, session),
        at_path(config, r.path),
        apart(config, r),
        separate(config),
        padding_place_free(config, r.fields),
        is_cookie_text(value),
        ({
            let p = with_padding_in(config, url, r, value);
            padding_in(config, p.pairs, p.fields) is Some
        }),
        is_authorized(config, r.fields),
    ensures
        ({
            let p = with_padding_in(config, url, r, value);
            let t = with_both(config, p, session, sequence);
            &&& apart(config, p)
            &&& padding_in(config, t.pairs, t.fields) == padding_in(config, p.pairs, p.fields)
            &&& session_in(config, t.path, t.pairs, t.fields) == Some(session)
            &&& sequence_in(config, t.path, t.pairs, t.fields) == Some(
                text::decimal(sequence as nat),
            )
            &&& text::number(text::decimal(sequence as nat), u64::MAX as nat) == Some(
                sequence as nat,
            )
            &&& is_authorized(config, t.fields)
        }),
{
    let p = with_padding_in(config, url, r, value);
    let number = text::decimal(sequence as nat);
    openings_are_accepted(config, url, r, value, session);
    round_trip::metadata_round_trip(config, p, session, sequence);
    round_trip::decimal_is_id(sequence as nat);
    round_trip::id_is_plain(number);
    let s = with_value(p, config.session_placement, config.session_key@, session);
    lemma_next_free(config, p, session);
    lemma_value_keeps(config, s, config.sequence_placement, config.sequence_key@, number);
}

} // verus!
