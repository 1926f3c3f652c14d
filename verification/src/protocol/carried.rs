//! What every request of a client carries: the fields of its settings, whatever
//! else is written into it.
use crate::client;
use crate::config::{self, HeaderField, Placement, TransportConfig};
use crate::header;
use crate::location::{self, Pairs};
use crate::protocol::metadata::{self, Fields, ProtocolError};
use crate::protocol::padding;
use crate::protocol::payload::{self, Pieces};
use crate::protocol::request;
use crate::protocol::round_trip;
use crate::text;
use vstd::prelude::*;

verus! {

/// The padding, the session or the number of a request may be written into the
/// field with this name.
pub open spec fn written(config: TransportConfig, name: Seq<char>) -> bool {
    let (placement, _, field) = request::padding_place(config);
    ||| (placement == Placement::Header || placement == Placement::QueryInHeader) && text::lower(
        field,
    ) == name
    ||| config.session_placement == Placement::Header && text::lower(config.session_key@) == name
    ||| config.sequence_placement == Placement::Header && text::lower(config.sequence_key@) == name
    ||| name == "cookie"@ && (placement == Placement::Cookie || config.session_placement
        == Placement::Cookie || config.sequence_placement == Placement::Cookie)
}

proof fn lemma_placing_keeps(
    placement: Placement,
    key: Seq<char>,
    value: Option<Seq<char>>,
    url: Seq<char>,
    m: Fields,
    name: Seq<char>,
)
    requires
        placement == Placement::Header ==> text::lower(key) != name,
        placement == Placement::Cookie ==> name != "cookie"@,
        metadata::placed_opt(placement, key, value, url, m) is Ok,
    ensures
        header::values_under(
            metadata::placed_opt(placement, key, value, url, m)->Ok_0.1,
            name,
        ) == header::values_under(m, name),
{
}

/// A request carries every field of the client as it stands, but for those that
/// the padding, the session and the number are written into.
pub proof fn requests_carry_the_fields_of_the_client(
    config: TransportConfig,
    length: nat,
    base: (Seq<char>, Fields),
    session: Option<Seq<char>>,
    sequence: Option<u64>,
    name: Seq<char>,
)
    requires
        client::sent(config, length, base, session, sequence) is Ok,
        !written(config, name),
    ensures
        header::values_under(client::sent(config, length, base, session, sequence)->Ok_0.1, name)
            == header::values_under(base.1, name),
{
    let value = padding::padding(config.padding_method@, length);
    let (u, m) = request::with_padding(request::padding_place(config), value, base.0, base.1);
    assert(header::values_under(m, name) == header::values_under(base.1, name));
    lemma_placing_keeps(config.session_placement, config.session_key@, session, u, m, name);
    let (v, n) = metadata::placed_opt(
        config.session_placement,
        config.session_key@,
        session,
        u,
        m,
    )->Ok_0;
    lemma_placing_keeps(
        config.sequence_placement,
        config.sequence_key@,
        metadata::sequence_text(sequence),
        v,
        n,
        name,
    );
}

proof fn lemma_pieces_keep(
    place: Pieces,
    m: Fields,
    key: Seq<char>,
    pieces: Seq<Seq<char>>,
    i: nat,
    name: Seq<char>,
)
    requires
        place == Pieces::Fields ==> !name.contains('-'),
        place == Pieces::Cookies ==> name != "cookie"@,
    ensures
        header::values_under(payload::with_pieces(place, m, key, pieces, i).0, name)
            == header::values_under(m, name),
    decreases pieces.len(),
{
    if pieces.len() > 0 {
        let own = payload::piece_name(place, key, i);
        if place == Pieces::Fields {
            assert(own[key.len() as int] == '-');
            assert(text::lower(own)[key.len() as int] == '-');
            assert(text::lower(own).contains('-'));
        }
        match payload::with_piece(place, m, own, pieces[0]) {
            Ok(n) => {
                lemma_pieces_keep(place, n, key, pieces.skip(1), i + 1, name);
            },
            Err(_) => {},
        }
    }
}

/// The pieces of a packet are written into fields whose names have a hyphen, or
/// into cookies: every other field stays.
pub proof fn packets_leave_the_other_fields(
    config: TransportConfig,
    m: Fields,
    bytes: Seq<u8>,
    name: Seq<char>,
)
    requires
        config.data_placement == Placement::Header ==> !name.contains('-'),
        config.data_placement == Placement::Cookie ==> name != "cookie"@,
    ensures
        header::values_under(payload::with_payload(config, m, bytes).0, name)
            == header::values_under(m, name),
{
    match payload::pieces_of(config.data_placement) {
        Some(place) => {
            lemma_pieces_keep(
                place,
                m,
                config.data_key@,
                payload::chunks(crate::encoding::url_safe(bytes), payload::piece_size(place)),
                0,
                name,
            );
        },
        None => {},
    }
}

proof fn lemma_other_names()
    ensures
        "host"@ != "authorization"@,
        "host"@ != "cookie"@,
        text::lower("host"@) == "host"@,
        text::lower("authorization"@) == "authorization"@,
        !"host"@.contains('-'),
{
    reveal_strlit("host");
    reveal_strlit("authorization");
    reveal_strlit("cookie");
    assert("host"@.len() != "authorization"@.len());
    assert("host"@.len() != "cookie"@.len());
    assert(text::lower("host"@) =~= "host"@);
    assert(text::lower("authorization"@) =~= "authorization"@);
}

/// Whatever list of fields is put in, a field that is in the list has the last
/// value under its name, and a field that is not keeps what it had.
proof fn lemma_last_of_a_name(m: Fields, list: Seq<HeaderField>, name: Seq<char>)
    requires
        request::with_fields(m, list).1 is None,
    ensures
        forall|i: int|
            0 <= i < list.len() && text::lower((#[trigger] list[i]).name@) == name && (forall|j: int|
                i < j < list.len() ==> text::lower((#[trigger] list[j]).name@) != name)
                ==> request::with_fields(m, list).0.dom().contains(name) && request::with_fields(
                m,
                list,
            ).0[name] == seq![vstd::utf8::encode_utf8(list[i].value@)],
        (forall|j: int| 0 <= j < list.len() ==> text::lower((#[trigger] list[j]).name@) != name)
            ==> header::values_under(request::with_fields(m, list).0, name)
            == header::values_under(m, name) && request::with_fields(m, list).0.dom().contains(name)
            == m.dom().contains(name),
    decreases list.len(),
{
    if list.len() > 0 {
        let k = text::lower(list[0].name@);
        let v = seq![vstd::utf8::encode_utf8(list[0].value@)];
        let rest = list.skip(1);
        let n = m.insert(k, v);
        lemma_last_of_a_name(n, rest, name);
        assert(request::with_fields(m, list) == request::with_fields(n, rest));
        assert forall|j: int| 0 <= j < rest.len() implies rest[j] == list[j + 1] by {
        }
        assert forall|i: int|
            0 <= i < list.len() && text::lower((#[trigger] list[i]).name@) == name && (forall|j: int|
                i < j < list.len() ==> text::lower((#[trigger] list[j]).name@)
                    != name) implies request::with_fields(m, list).0.dom().contains(name)
            && request::with_fields(m, list).0[name] == seq![
            vstd::utf8::encode_utf8(list[i].value@),
        ] by {
            if i == 0 {
                assert forall|j: int| 0 <= j < rest.len() implies text::lower(
                    (#[trigger] rest[j]).name@,
                ) != name by {
                    assert(rest[j] == list[j + 1]);
                }
            } else {
                assert(rest[i - 1] == list[i]);
                assert forall|j: int| i - 1 < j < rest.len() implies text::lower(
                    (#[trigger] rest[j]).name@,
                ) != name by {
                    assert(rest[j] == list[j + 1]);
                }
            }
        }
        if forall|j: int| 0 <= j < list.len() ==> text::lower((#[trigger] list[j]).name@) != name {
            assert(list[0].name@ == list[0].name@);
            assert forall|j: int| 0 <= j < rest.len() implies text::lower(
                (#[trigger] rest[j]).name@,
            ) != name by {
                assert(rest[j] == list[j + 1]);
            }
        }
    }
}

/// A client whose settings name a host has that host, and nothing else, in the
/// field `host` of its requests; one whose settings have a token has it in the field
/// `authorization`, behind the word `Bearer`.
pub proof fn the_host_and_the_token_are_carried(transport: TransportConfig)
    requires
        client::base_fields(transport) is Ok,
    ensures
        ({
            let m = client::base_fields(transport)->Ok_0;
            &&& transport.host matches Some(h) ==> {
                &&& header::values_under(m, "host"@) == seq![vstd::utf8::encode_utf8(h@)]
                &&& round_trip::is_plain_text(h@) ==> header::text_under(m, "host"@) == Some(h@)
            }
            &&& transport.token matches Some(t) ==> {
                &&& header::values_under(m, "authorization"@) == seq![
                    vstd::utf8::encode_utf8("Bearer "@ + t@),
                ]
                &&& round_trip::is_plain_text(t@) ==> header::text_under(m, "authorization"@)
                    == Some("Bearer "@ + t@)
            }
        }),
{
    lemma_other_names();
    let m = client::base_fields(transport)->Ok_0;
    if transport.host is Some && round_trip::is_plain_text(transport.host->0@) {
        round_trip::plain_text_is_a_value(transport.host->0@);
    }
    if transport.token is Some && round_trip::is_plain_text(transport.token->0@) {
        reveal_strlit("Bearer ");
        assert(round_trip::is_plain_text("Bearer "@ + transport.token->0@));
        round_trip::plain_text_is_a_value("Bearer "@ + transport.token->0@);
    }
}

/// The host and the token are written over only where the settings say so by name:
/// as the field of the padding, of the session or of the number.
pub proof fn the_host_is_written_over_only_by_name(config: TransportConfig, name: Seq<char>)
    requires
        name == "host"@ || name == "authorization"@,
        config.padding_obfs ==> text::lower(config.padding_header@) != name,
        config.session_placement == Placement::Header ==> text::lower(config.session_key@) != name,
        config.sequence_placement == Placement::Header ==> text::lower(config.sequence_key@)
            != name,
    ensures
        !written(config, name),
{
    reveal_strlit("host");
    reveal_strlit("authorization");
    reveal_strlit("cookie");
    reveal_strlit("Referer");
    assert("host"@.len() == 4 && "authorization"@.len() == 13 && "cookie"@.len() == 6);
    assert(text::lower("Referer"@).len() == 7);
}

/// A client carries each field of its settings, the last one of a name, and no
/// other field but the host and the token.
pub proof fn the_configured_fields_are_carried(transport: TransportConfig, name: Seq<char>)
    requires
        client::base_fields(transport) is Ok,
        transport.host is Some ==> name != "host"@,
        transport.token is Some ==> name != "authorization"@,
    ensures
        ({
            let m = client::base_fields(transport)->Ok_0;
            &&& forall|i: int|
                0 <= i < transport.headers@.len() && text::lower(
                    (#[trigger] transport.headers@[i]).name@,
                ) == name && (forall|j: int|
                    i < j < transport.headers@.len() ==> text::lower(
                        (#[trigger] transport.headers@[j]).name@,
                    ) != name) ==> header::values_under(m, name) == seq![
                    vstd::utf8::encode_utf8(transport.headers@[i].value@),
                ]
            &&& (forall|j: int|
                0 <= j < transport.headers@.len() ==> text::lower(
                    (#[trigger] transport.headers@[j]).name@,
                ) != name) ==> !m.dom().contains(name)
        }),
{
    lemma_last_of_a_name(header::nothing(), transport.headers@, name);
}

// ---- where the parts of a request stand ----

/// A value is written where its placement says and nowhere else: behind the path,
/// as a pair behind those of the query, as the one value of the field, or as a
/// cookie behind those that are there.
pub proof fn values_stand_where_they_are_placed(
    placement: Placement,
    key: Seq<char>,
    value: Seq<char>,
    url: Seq<char>,
    m: Fields,
)
    requires
        metadata::placed_opt(placement, key, Some(value), url, m) is Ok,
    ensures
        ({
            let (u, n) = metadata::placed_opt(placement, key, Some(value), url, m)->Ok_0;
            match placement {
                Placement::Path => n == m && u == location::moved(
                    url,
                    text::trim_end(location::path_of(url), '/') + seq!['/'] + value,
                ),
                Placement::Query => n == m && u == location::extended(url, key, value),
                Placement::Header => {
                    &&& u == url
                    &&& header::values_under(n, text::lower(key)) == seq![
                        vstd::utf8::encode_utf8(value),
                    ]
                    &&& round_trip::is_plain_text(value) ==> header::text_under(n, key) == Some(
                        value,
                    )
                    &&& forall|name: Seq<char>|
                        name != text::lower(key) ==> #[trigger] header::values_under(n, name)
                            == header::values_under(m, name)
                },
                Placement::Cookie => {
                    &&& u == url
                    &&& header::values_under(n, "cookie"@) == header::values_under(
                        m,
                        "cookie"@,
                    ).push(vstd::utf8::encode_utf8(key + seq!['='] + value))
                    &&& forall|name: Seq<char>|
                        name != "cookie"@ ==> #[trigger] header::values_under(n, name)
                            == header::values_under(m, name)
                },
                _ => false,
            }
        }),
        metadata::placed_opt(placement, key, None, url, m) == Ok::<
            (Seq<char>, Fields),
            ProtocolError,
        >((url, m)),
{
    if placement == Placement::Header && round_trip::is_plain_text(value) {
        round_trip::plain_text_is_a_value(value);
    }
}

/// The number of a request is written in decimal digits.
pub proof fn numbers_are_written_in_digits(n: u64)
    ensures
        metadata::sequence_text(Some(n)) matches Some(t) && text::is_digits(t)
            && text::digits_value(t) == n,
        metadata::sequence_text(None) is None,
{
    text::lemma_decimal_number(n as nat);
}

proof fn lemma_slash_behind(a: Seq<char>, b: Seq<char>)
    requires
        !a.contains('/'),
        !b.contains('/'),
        a.len() > 0,
        b.len() > 0,
    ensures
        metadata::non_empty(text::split(seq!['/'] + a + seq!['/'] + b, '/')) == seq![a, b],
        metadata::non_empty(text::split(seq!['/'] + a, '/')) == seq![a],
        metadata::non_empty(text::split(a + seq!['/'] + b, '/')) == seq![a, b],
        metadata::non_empty(text::split(a, '/')) == seq![a],
{
    let none = Seq::<char>::empty();
    lemma_one_piece(none);
    lemma_one_piece(a);
    lemma_one_piece(b);
    text::split_at_a_separator(none, '/', a);
    assert(none + seq!['/'] + a =~= seq!['/'] + a);
    text::split_at_a_separator(seq!['/'] + a, '/', b);
    text::split_at_a_separator(a, '/', b);
    assert(text::split(seq!['/'] + a, '/') =~= seq![none, a]);
    assert(text::split(seq!['/'] + a + seq!['/'] + b, '/') =~= seq![none, a, b]);
    assert(text::split(a + seq!['/'] + b, '/') =~= seq![a, b]);
    lemma_non_empty_three(none, a, b);
    lemma_non_empty_two(none, a);
    lemma_non_empty_two(a, b);
    lemma_non_empty_one(none);
    lemma_non_empty_one(a);
    lemma_non_empty_one(b);
    let e = Seq::<Seq<char>>::empty();
    assert(e + seq![a] + seq![b] =~= seq![a, b]);
    assert(e + seq![a] =~= seq![a]);
    assert(seq![a] + seq![b] =~= seq![a, b]);
}

proof fn lemma_one_piece(a: Seq<char>)
    requires
        !a.contains('/'),
    ensures
        text::split(a, '/') == seq![a],
{
    assert forall|i: int| 0 <= i < a.len() implies a[i] != '/' by {
        assert(a.contains(a[i]));
    }
    text::lemma_span(a, '/', a.len() as int);
}

proof fn lemma_non_empty_one(a: Seq<char>)
    ensures
        metadata::non_empty(seq![a]) == (if a.len() > 0 {
            seq![a]
        } else {
            Seq::empty()
        }),
{
    reveal_with_fuel(metadata::non_empty, 2);
    assert(seq![a].skip(1) =~= Seq::<Seq<char>>::empty());
    assert(seq![a].drop_last() =~= Seq::<Seq<char>>::empty());
    assert(metadata::non_empty(seq![a]) =~= (if a.len() > 0 {
        seq![a]
    } else {
        Seq::empty()
    }));
}

proof fn lemma_non_empty_two(a: Seq<char>, b: Seq<char>)
    ensures
        metadata::non_empty(seq![a, b]) == metadata::non_empty(seq![a]) + metadata::non_empty(
            seq![b],
        ),
{
    reveal_with_fuel(metadata::non_empty, 2);
    lemma_non_empty_one(a);
    lemma_non_empty_one(b);
    assert(seq![a, b].skip(1) =~= seq![b]);
    assert(seq![a, b].drop_last() =~= seq![a]);
    assert(metadata::non_empty(seq![a, b]) =~= metadata::non_empty(seq![a]) + metadata::non_empty(
        seq![b],
    ));
}

proof fn lemma_non_empty_three(a: Seq<char>, b: Seq<char>, c: Seq<char>)
    ensures
        metadata::non_empty(seq![a, b, c]) == metadata::non_empty(seq![a]) + metadata::non_empty(
            seq![b],
        ) + metadata::non_empty(seq![c]),
{
    reveal_with_fuel(metadata::non_empty, 2);
    lemma_non_empty_one(a);
    lemma_non_empty_one(c);
    lemma_non_empty_two(a, b);
    lemma_non_empty_two(b, c);
    assert(seq![a, b, c].skip(1) =~= seq![b, c]);
    assert(seq![a, b, c].drop_last() =~= seq![a, b]);
    assert(metadata::non_empty(seq![a, b, c]) =~= metadata::non_empty(seq![a])
        + metadata::non_empty(seq![b]) + metadata::non_empty(seq![c]));
}

/// Behind the configured path the session stands first and the number second,
/// where both are in the path; the first is the number where only it is. A request
/// to another path has neither there.
pub proof fn sessions_and_numbers_are_read_from_the_path(
    config: TransportConfig,
    first: Seq<char>,
    second: Seq<char>,
    pairs: Pairs,
    m: Fields,
)
    requires
        !first.contains('/'),
        !second.contains('/'),
        first.len() > 0,
        second.len() > 0,
    ensures
        ({
            let both = config.path@ + seq!['/'] + first + seq!['/'] + second;
            let one = config.path@ + seq!['/'] + first;
            &&& config.session_placement == Placement::Path ==> {
                &&& metadata::session_in(config, both, pairs, m) == Some(first)
                &&& metadata::session_in(config, one, pairs, m) == Some(first)
                &&& config.sequence_placement == Placement::Path ==> metadata::sequence_in(
                    config,
                    both,
                    pairs,
                    m,
                ) == Some(second)
                &&& config.sequence_placement == Placement::Path ==> metadata::sequence_in(
                    config,
                    one,
                    pairs,
                    m,
                ) is None
            }
            &&& config.session_placement != Placement::Path && config.sequence_placement
                == Placement::Path ==> metadata::sequence_in(config, one, pairs, m) == Some(first)
        }),
        forall|path: Seq<char>|
            config.session_placement == Placement::Path && !text::starts_with(path, config.path@)
                ==> #[trigger] metadata::session_in(config, path, pairs, m) is None,
{
    lemma_slash_behind(first, second);
    let both = config.path@ + seq!['/'] + first + seq!['/'] + second;
    let one = config.path@ + seq!['/'] + first;
    let n = config.path@.len() as int;
    assert(both.take(n) =~= config.path@);
    assert(one.take(n) =~= config.path@);
    assert(both.skip(n) =~= seq!['/'] + first + seq!['/'] + second);
    assert(one.skip(n) =~= seq!['/'] + first);
}

/// In a query, a field or a cookie a value is read by its own key, whatever else
/// the request holds: the last of that name in the query.
pub proof fn values_are_read_by_their_keys(
    config: TransportConfig,
    path: Seq<char>,
    pairs: Pairs,
    m: Fields,
    value: Seq<char>,
)
    ensures
        config.session_placement == Placement::Query ==> metadata::session_in(
            config,
            path,
            pairs.push((config.session_key@, value)),
            m,
        ) == Some(value),
        config.sequence_placement == Placement::Query ==> metadata::sequence_in(
            config,
            path,
            pairs.push((config.sequence_key@, value)),
            m,
        ) == Some(value),
        config.session_placement == Placement::Header ==> metadata::session_in(
            config,
            path,
            pairs,
            m,
        ) == header::text_under(m, config.session_key@),
        config.sequence_placement == Placement::Header ==> metadata::sequence_in(
            config,
            path,
            pairs,
            m,
        ) == header::text_under(m, config.sequence_key@),
        config.session_placement == Placement::Cookie ==> metadata::session_in(
            config,
            path,
            pairs,
            m,
        ) == metadata::cookie_in(m, config.session_key@),
        config.sequence_placement == Placement::Cookie ==> metadata::sequence_in(
            config,
            path,
            pairs,
            m,
        ) == metadata::cookie_in(m, config.sequence_key@),
{
    let a = pairs.push((config.session_key@, value));
    let b = pairs.push((config.sequence_key@, value));
    assert(a.last() == (config.session_key@, value));
    assert(b.last() == (config.sequence_key@, value));
}

// ---- what is refused ----

/// A token lets in the requests that carry it behind the word `Bearer`, and no
/// others: fields that one token lets in no other token does. Without a token every
/// request is let in.
pub proof fn only_the_token_lets_in(config: TransportConfig, other: TransportConfig, m: Fields)
    ensures
        config.token is None ==> request::is_authorized(config, m),
        config.token matches Some(t) ==> (request::is_authorized(config, m) <==> header::text_under(
            m,
            "authorization"@,
        ) == Some("Bearer "@ + t@)),
        config.token is Some && other.token is Some && config.token->0@ != other.token->0@ ==> !(
        request::is_authorized(config, m) && request::is_authorized(other, m)),
{
    if config.token is Some && other.token is Some {
        let a = "Bearer "@ + config.token->0@;
        let b = "Bearer "@ + other.token->0@;
        let n = "Bearer "@.len() as int;
        assert(a.skip(n) =~= config.token->0@);
        assert(b.skip(n) =~= other.token->0@);
    }
}

/// A request is taken only with a padding, and only with one whose length is within
/// the range of the settings, give or take two; the length is that of the bytes, or
/// of their compressed form for the method `tokenish`. Without settings of its own
/// the padding is looked for in the query of the `Referer`, under `x_padding`.
pub proof fn paddings_are_measured(config: TransportConfig, pairs: Pairs, m: Fields)
    ensures
        request::padding_in(config, pairs, m) is None ==> !request::padding_accepted(
            config,
            pairs,
            m,
        ),
        request::padding_in(config, pairs, m) matches Some(v) ==> ({
            let length = if config.padding_method@ == "tokenish"@ {
                padding::coded_length(vstd::utf8::encode_utf8(v))
            } else {
                vstd::utf8::encode_utf8(v).len()
            };
            request::padding_accepted(config, pairs, m) <==> config.padding_min - 2 <= length
                <= config.padding_max + 2
        }),
        !config.padding_obfs ==> request::padding_in(config, pairs, m) == (match header::text_under(
            m,
            "Referer"@,
        ) {
            Some(reference) => match location::url_pairs(reference) {
                Some(list) => metadata::first_value(list, "x_padding"@),
                None => None,
            },
            None => None,
        }),
        config.padding_obfs && config.padding_placement == Placement::Header
            ==> request::padding_in(config, pairs, m) == header::text_under(
            m,
            config.padding_header@,
        ),
        config.padding_obfs && config.padding_placement == Placement::Query
            ==> request::padding_in(config, pairs, m) == metadata::first_value(
            pairs,
            config.padding_key@,
        ),
        config.padding_obfs && config.padding_placement == Placement::Cookie
            ==> request::padding_in(config, pairs, m) == metadata::cookie_in(
            m,
            config.padding_key@,
        ),
{
}

/// The padding of a response stands in the field `x-padding`, or where the settings
/// put it: in their field, or in a cookie for all paths. Every other field stays.
pub proof fn responses_are_padded(config: TransportConfig, value: Seq<char>, m: Fields)
    requires
        round_trip::is_plain_text(value),
    ensures
        ({
            let n = request::with_response_padding(config, value, m);
            &&& !config.padding_obfs ==> header::text_under(n, "x-padding"@) == Some(value)
                && forall|name: Seq<char>|
                name != "x-padding"@ ==> #[trigger] header::values_under(n, name)
                    == header::values_under(m, name)
            &&& config.padding_obfs && config.padding_placement == Placement::Header
                && header::is_name(config.padding_header@) ==> header::text_under(
                n,
                config.padding_header@,
            ) == Some(value) && forall|name: Seq<char>|
                name != text::lower(config.padding_header@) ==> #[trigger] header::values_under(
                    n,
                    name,
                ) == header::values_under(m, name)
            &&& config.padding_obfs && config.padding_placement == Placement::Cookie
                ==> forall|name: Seq<char>|
                name != "set-cookie"@ ==> #[trigger] header::values_under(n, name)
                    == header::values_under(m, name)
            &&& config.padding_obfs && config.padding_placement == Placement::Cookie
                && round_trip::is_plain_text(config.padding_key@) ==> header::values_under(
                n,
                "set-cookie"@,
            ) == header::values_under(m, "set-cookie"@).push(
                vstd::utf8::encode_utf8(config.padding_key@ + seq!['='] + value + "; Path=/"@),
            )
            &&& config.padding_obfs && config.padding_placement != Placement::Header
                && config.padding_placement != Placement::Cookie ==> n == m
        }),
{
    round_trip::plain_text_is_a_value(value);
    reveal_strlit("x-padding");
    assert(text::lower("x-padding"@) =~= "x-padding"@);
    reveal_strlit("; Path=/");
    if round_trip::is_plain_text(config.padding_key@) {
        let whole = config.padding_key@ + seq!['='] + value + "; Path=/"@;
        assert(round_trip::is_plain_text(whole));
        round_trip::plain_text_is_a_value(whole);
    }
}

/// The padding of a request is of a length by chance within the range of the settings,
/// and is as long as that in its own measure.
pub proof fn paddings_are_within_the_range(config: TransportConfig, length: nat)
    ensures
        client::is_length(config, length) <==> config.padding_min <= length <= config.padding_max,
        config.padding_method@ != "tokenish"@ ==> padding::padding(
            config.padding_method@,
            length,
        ).len() == length,
{
    padding::padding_has_its_length(config.padding_method@, length);
}

} // verus!
