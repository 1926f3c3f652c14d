//! Requests that start with nothing in them: to the configured path, without a query
//! and without fields. With the names that hold where none is set, whatever is placed in
//! them is read back.
use crate::config::{self, Placement, TransportConfig};
use crate::encoding;
use crate::header;
use crate::location;
use crate::protocol::metadata::{self, cookie_in, Fields};
use crate::protocol::payload::{self, Pieces};
use crate::protocol::request;
use crate::protocol::round_trip;
use crate::text;
use vstd::prelude::*;

verus! {

/// A URL of the web with a path and without a query.
pub open spec fn is_bare(url: Seq<char>, path: Seq<char>) -> bool {
    location::is_web(url) && location::url_path(url) == Some(path) && location::url_pairs(url)
        == Some(Seq::<(Seq<char>, Seq<char>)>::empty())
}

proof fn lemma_no_fields(key: Seq<char>)
    ensures
        cookie_in(header::nothing(), key) is None,
        header::text_under(header::nothing(), key) is None,
{
    assert(header::values_under(header::nothing(), "cookie"@).len() == 0);
    assert(header::values_under(header::nothing(), text::lower(key)).len() == 0);
}

proof fn lemma_cookie_word(s: Seq<char>)
    requires
        s.len() > 0,
        forall|i: int|
            0 <= i < s.len() ==> encoding::is_url_safe(#[trigger] s[i]),
    ensures
        round_trip::is_cookie_name(s),
        s.len() <= 65535 ==> header::is_name(s),
{
    round_trip::id_is_plain(s);
    if s.contains('=') {
        let i = choose|i: int| 0 <= i < s.len() && s[i] == '=';
        assert(encoding::is_url_safe(s[i]));
    }
    assert(encoding::is_url_safe(s[0]));
    assert forall|i: int| 0 <= i < s.len() implies header::is_token_char(#[trigger] s[i]) by {
        assert(encoding::is_url_safe(s[i]));
    }
}

/// A text of letters, digits, `-` and `_` can be placed under such a name.
proof fn lemma_is_placed(placement: Placement, key: Seq<char>, value: Seq<char>, url: Seq<char>, m: Fields)
    requires
        config::holds_metadata(placement),
        round_trip::is_id(key),
        key.len() <= 65535,
        round_trip::is_id(value),
    ensures
        metadata::placed(placement, key, value, url, m) is Ok,
{
    lemma_cookie_word(key);
    round_trip::id_is_plain(key);
    round_trip::id_is_plain(value);
    round_trip::plain_text_is_a_value(value);
    let c = metadata::cookie(key, value);
    assert forall|k: int| 0 <= k < c.len() implies ' ' <= (#[trigger] c[k]) <= '~' || c[k]
        == '\t' by {
        if k < key.len() {
            assert(c[k] == key[k]);
        } else if k > key.len() {
            assert(c[k] == value[k - key.len() - 1]);
        }
    }
    round_trip::plain_text_is_a_value(c);
}

/// Wherever the session and the number are placed, with their usual names and path: a
/// session of letters, digits, `-` and `_` is placed and carried by a request that starts
/// with nothing in it, so that both are read back as `apply_metadata` says.
pub proof fn bare_requests_carry_sessions(config: TransportConfig, url: Seq<char>, session: Seq<char>)
    requires
        config.path@ == "/xhttp"@,
        config.session_key@ == "x_session"@,
        config.sequence_key@ == "x_seq"@,
        config::holds_metadata(config.session_placement),
        config::holds_metadata(config.sequence_placement),
        round_trip::is_id(session),
        is_bare(url, "/xhttp"@),
    ensures
        round_trip::carries(config, url, header::nothing(), session),
        metadata::placed(
            config.session_placement,
            config.session_key@,
            session,
            url,
            header::nothing(),
        ) is Ok,
        forall|sequence: u64, u: Seq<char>, m: Fields| #[trigger]
            metadata::placed(
                config.sequence_placement,
                config.sequence_key@,
                text::decimal(sequence as nat),
                u,
                m,
            ) is Ok,
{
    reveal_strlit("/xhttp");
    reveal_strlit("x_session");
    reveal_strlit("x_seq");
    reveal_strlit("cookie");
    round_trip::id_is_plain(session);
    lemma_cookie_word("x_session"@);
    lemma_cookie_word("x_seq"@);
    lemma_no_fields("x_session"@);
    lemma_no_fields("x_seq"@);
    assert(text::lower("x_session"@).len() == 9);
    assert(text::lower("x_seq"@).len() == 5);
    assert("cookie"@.len() == 6);
    lemma_is_placed(
        config.session_placement,
        config.session_key@,
        session,
        url,
        header::nothing(),
    );
    assert forall|sequence: u64, u: Seq<char>, m: Fields| #[trigger]
        metadata::placed(
            config.sequence_placement,
            config.sequence_key@,
            text::decimal(sequence as nat),
            u,
            m,
        ) is Ok by {
        round_trip::decimal_is_id(sequence as nat);
        lemma_is_placed(
            config.sequence_placement,
            config.sequence_key@,
            text::decimal(sequence as nat),
            u,
            m,
        );
    }
}

/// Wherever a packet is placed, with its usual name: it is read back out of a request
/// that starts without fields, as `put_payload` says.
pub proof fn bare_requests_take_packets(config: TransportConfig, bytes: Seq<u8>)
    requires
        config.data_key@ == "X-Data"@,
    ensures
        payload::is_piece_key(config.data_key@),
        payload::takes_payload(config, header::nothing(), bytes),
        bytes.len() <= 1_000_000 ==> payload::payload_room(
            config.data_placement,
            header::nothing(),
            bytes.len(),
        ),
{
    reveal_strlit("X-Data");
    lemma_cookie_word("X-Data"@);
    assert forall|place: Pieces, i: nat| #[trigger]
        payload::piece(place, header::nothing(), config.data_key@, i) is None by {
        lemma_no_fields(payload::piece_name(place, config.data_key@, i));
    }
    assert(header::nothing().dom() =~= Set::empty());
}

/// Wherever the padding is placed, with its usual names: a request that starts with
/// nothing in it takes it, so that it is accepted as `apply_padding` says.
pub proof fn bare_requests_take_padding(config: TransportConfig, url: Seq<char>, path: Seq<char>)
    requires
        config.padding_key@ == "x_padding"@,
        config.padding_header@ == "X-Padding"@,
        config.padding_obfs ==> config.padding_placement == Placement::Query
            || config.padding_placement == Placement::Header || config.padding_placement
            == Placement::Cookie || config.padding_placement == Placement::QueryInHeader,
        is_bare(url, path),
    ensures
        request::padding_fits(config, url, header::nothing()),
{
    reveal_strlit("x_padding");
    reveal_strlit("X-Padding");
    reveal_strlit("Referer");
    lemma_cookie_word("x_padding"@);
    lemma_cookie_word("X-Padding"@);
    lemma_cookie_word("Referer"@);
    lemma_no_fields("x_padding"@);
    let none = Seq::<(Seq<char>, Seq<char>)>::empty();
    assert(metadata::first_value(none, "x_padding"@) is None);
}

} // verus!
