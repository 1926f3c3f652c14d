//! What every request and response carries: configured fields, the token that
//! authorizes it, and padding.
use crate::config::{self, HeaderField, Placement, TransportConfig};
use crate::encoding;
use crate::header;
use crate::location::{self, Pairs, RequestTarget, RequestUrl};
use crate::protocol::metadata::{self, Fields, ProtocolError};
use crate::protocol::padding;
use crate::protocol::round_trip;
use crate::text;
use vstd::prelude::*;

verus! {

// ---- configured fields ----

/// The fields with configured ones put in, in order, up to the first that cannot
/// be one; and why it cannot.
pub open spec fn with_fields(m: Fields, list: Seq<HeaderField>) -> (Fields, Option<ProtocolError>)
    decreases list.len(),
{
    if list.len() == 0 {
        (m, None)
    } else if !header::is_name(list[0].name@) {
        (m, Some(ProtocolError::HeaderName))
    } else if !config::is_field_value(list[0].value@) {
        (m, Some(ProtocolError::HeaderValue))
    } else {
        with_fields(
            m.insert(
                text::lower(list[0].name@),
                seq![vstd::utf8::encode_utf8(list[0].value@)],
            ),
            list.skip(1),
        )
    }
}

/// The fields that every request carries: the configured ones and the token.
pub open spec fn common_fields(config: TransportConfig, m: Fields) -> (
    Fields,
    Option<ProtocolError>,
) {
    let (n, e) = with_fields(m, config.headers@);
    match (e, config.token) {
        (Some(e), _) => (n, Some(e)),
        (None, None) => (n, None),
        (None, Some(token)) => if config::is_field_value(config::bearer(token@)) {
            (
                n.insert(
                    "authorization"@,
                    seq![vstd::utf8::encode_utf8(config::bearer(token@))],
                ),
                None,
            )
        } else {
            (n, Some(ProtocolError::HeaderValue))
        },
    }
}

/// Whether the fields of a request carry the token that is asked for.
pub open spec fn is_authorized(config: TransportConfig, m: Fields) -> bool {
    config.token is None || header::text_under(m, "authorization"@) == Some(
        config::bearer(config.token->0@),
    )
}

proof fn lemma_names()
    ensures
        header::is_name("authorization"@),
        text::lower("authorization"@) == "authorization"@,
        header::is_name("x-padding"@),
        text::lower("x-padding"@) == "x-padding"@,
        header::is_name("set-cookie"@),
        text::lower("set-cookie"@) == "set-cookie"@,
        header::is_name("Referer"@),
{
    reveal_strlit("authorization");
    reveal_strlit("x-padding");
    reveal_strlit("set-cookie");
    reveal_strlit("Referer");
    assert(text::lower("authorization"@) =~= "authorization"@);
    assert(text::lower("x-padding"@) =~= "x-padding"@);
    assert(text::lower("set-cookie"@) =~= "set-cookie"@);
}

fn add_fields(list: &Vec<HeaderField>, headers: &mut axum::http::HeaderMap) -> (r: Result<
    (),
    ProtocolError,
>)
    requires
        header::room(header::contents(*old(headers)), list@.len() + 1),
    ensures
        ({
            let (m, e) = with_fields(header::contents(*old(headers)), list@);
            &&& header::contents(*final(headers)) == m
            &&& match e {
                Some(e) => r == Err::<(), ProtocolError>(e),
                None => r is Ok,
            }
        }),
        header::room(header::contents(*final(headers)), 1),
{
    let mut i: usize = 0;
    let ghost start = header::contents(*headers);
    proof {
        assert(list@.skip(0) =~= list@);
    }
    while i < list.len()
        invariant
            i <= list@.len(),
            header::room(header::contents(*headers), (list@.len() + 1 - i) as nat),
            with_fields(start, list@) == with_fields(
                header::contents(*headers),
                list@.skip(i as int),
            ),
            start == header::contents(*old(headers)),
        decreases list@.len() - i,
    {
        proof {
            assert(list@.skip(i as int)[0] == list@[i as int]);
            assert(list@.skip(i as int).skip(1) =~= list@.skip(i + 1));
            header::lemma_room(
                header::contents(*headers),
                (list@.len() + 1 - i) as nat,
                text::lower(list@[i as int].name@),
                seq![vstd::utf8::encode_utf8(list@[i as int].value@)],
            );
        }
        if !header::check_name(list[i].name.as_str()) {
            return Err(ProtocolError::HeaderName);
        }
        let bytes = text::text_bytes(list[i].value.as_str());
        if !header::check_value(bytes.as_slice()) {
            return Err(ProtocolError::HeaderValue);
        }
        header::insert(headers, list[i].name.as_str(), bytes.as_slice());
        i = i + 1;
    }
    Ok(())
}

/// Puts the configured fields and the token into a request. A token of visible
/// letters authorizes the request.
pub fn add_common_headers(config: &TransportConfig, headers: &mut axum::http::HeaderMap) -> (r:
    Result<(), ProtocolError>)
    requires
        header::room(header::contents(*old(headers)), config.headers@.len() + 1),
    ensures
        ({
            let (m, e) = common_fields(*config, header::contents(*old(headers)));
            &&& header::contents(*final(headers)) == m
            &&& match e {
                Some(e) => r == Err::<(), ProtocolError>(e),
                None => r is Ok,
            }
        }),
        r is Ok && (config.token matches Some(token) ==> round_trip::is_plain_text(token@))
            ==> is_authorized(*config, header::contents(*final(headers))),
{
    match add_fields(&config.headers, headers) {
        Err(e) => {
            return Err(e);
        },
        Ok(()) => {},
    }
    match &config.token {
        Some(token) => {
            let value = config::bearer_text(token.as_str());
            let bytes = text::text_bytes(value.as_str());
            if !header::check_value(bytes.as_slice()) {
                return Err(ProtocolError::HeaderValue);
            }
            proof {
                lemma_names();
                if round_trip::is_plain_text(token@) {
                    lemma_bearer_text(token@);
                }
            }
            header::insert(headers, "authorization", bytes.as_slice());
        },
        None => {},
    }
    Ok(())
}

proof fn lemma_bearer_text(token: Seq<char>)
    requires
        round_trip::is_plain_text(token),
    ensures
        header::value_text(vstd::utf8::encode_utf8(config::bearer(token))) == Some(
            config::bearer(token),
        ),
{
    let b = config::bearer(token);
    reveal_strlit("Bearer ");
    assert forall|i: int| 0 <= i < b.len() implies ' ' <= (#[trigger] b[i]) <= '~' || b[i] == '\t' by {
        if i >= 7 {
            assert(b[i] == token[i - 7]);
        }
    }
    round_trip::plain_text_is_a_value(b);
}

/// Whether a request carries the token that is asked for.
pub fn authorized(config: &TransportConfig, headers: &axum::http::HeaderMap) -> (r: bool)
    ensures
        r == is_authorized(*config, header::contents(*headers)),
{
    match &config.token {
        None => true,
        Some(token) => {
            let expected = config::bearer_text(token.as_str());
            match header::get_text(headers, "authorization") {
                Some(value) => text::same_text(value.as_str(), expected.as_str()),
                None => false,
            }
        },
    }
}

// ---- padding of requests ----

/// Where the padding of a request stands: the placement, the name of the pair or
/// cookie, and the name of the field.
pub open spec fn padding_place(config: TransportConfig) -> (Placement, Seq<char>, Seq<char>) {
    if config.padding_obfs {
        (config.padding_placement, config.padding_key@, config.padding_header@)
    } else {
        (Placement::QueryInHeader, "x_padding"@, "Referer"@)
    }
}

/// The URL and the fields with a padding put in; what cannot be put in is left
/// out.
pub open spec fn with_padding(
    place: (Placement, Seq<char>, Seq<char>),
    value: Seq<char>,
    url: Seq<char>,
    m: Fields,
) -> (Seq<char>, Fields) {
    let (placement, key, name) = place;
    match placement {
        Placement::Header => if header::is_name(name) && config::is_field_value(value) {
            (url, m.insert(text::lower(name), seq![vstd::utf8::encode_utf8(value)]))
        } else {
            (url, m)
        },
        Placement::Cookie => match metadata::with_cookie(m, key, value) {
            Ok(n) => (url, n),
            Err(_) => (url, m),
        },
        Placement::Query => (location::extended(url, key, value), m),
        Placement::QueryInHeader => {
            let reference = location::extended(url, key, value);
            if header::is_name(name) && config::is_field_value(reference) {
                (url, m.insert(text::lower(name), seq![vstd::utf8::encode_utf8(reference)]))
            } else {
                (url, m)
            }
        },
        _ => (url, m),
    }
}

/// The pairs of a query with a padding put in.
pub open spec fn padded_pairs(
    place: (Placement, Seq<char>, Seq<char>),
    value: Seq<char>,
    pairs: Pairs,
) -> Pairs {
    if place.0 == Placement::Query {
        pairs.push((place.1, value))
    } else {
        pairs
    }
}

/// The padding that a request carries.
pub open spec fn padding_in(config: TransportConfig, pairs: Pairs, m: Fields) -> Option<Seq<char>> {
    let (placement, key, name) = padding_place(config);
    match placement {
        Placement::Header => header::text_under(m, name),
        Placement::Cookie => metadata::cookie_in(m, key),
        Placement::Query => metadata::first_value(pairs, key),
        Placement::QueryInHeader => match header::text_under(m, name) {
            Some(reference) => match location::url_pairs(reference) {
                Some(list) => metadata::first_value(list, key),
                None => None,
            },
            None => None,
        },
        _ => None,
    }
}

/// The length of a padding: that of its code in a header for the one method, and
/// its own for the other.
pub open spec fn padding_length(config: TransportConfig, value: Seq<char>) -> nat {
    if config.padding_method@ == "tokenish"@ {
        padding::coded_length(vstd::utf8::encode_utf8(value))
    } else {
        vstd::utf8::encode_utf8(value).len()
    }
}

/// Whether a request carries padding of about the length that is asked for: at
/// most two less than the least, and at most two more than the most.
pub open spec fn padding_accepted(config: TransportConfig, pairs: Pairs, m: Fields) -> bool {
    match padding_in(config, pairs, m) {
        Some(value) => padding_length(config, value) + 2 >= config.padding_min && padding_length(
            config,
            value,
        ) <= config.padding_max + 2,
        None => false,
    }
}

/// The place of the padding takes it and is not taken yet.
pub open spec fn padding_fits(config: TransportConfig, url: Seq<char>, m: Fields) -> bool {
    let (placement, key, name) = padding_place(config);
    &&& location::is_web(url)
    &&& match placement {
        Placement::Header => header::is_name(name),
        Placement::Cookie => round_trip::is_cookie_name(key) && metadata::cookie_in(m, key) is None,
        Placement::Query => metadata::first_value(location::url_pairs(url)->0, key) is None,
        Placement::QueryInHeader => header::is_name(name) && metadata::first_value(
            location::url_pairs(url)->0,
            key,
        ) is None,
        _ => false,
    }
}

proof fn lemma_first_value(pairs: Pairs, k: Seq<char>, v: Seq<char>)
    requires
        metadata::first_value(pairs, k) is None,
    ensures
        metadata::first_value(pairs.push((k, v)), k) == Some(v),
    decreases pairs.len(),
{
    let all = pairs.push((k, v));
    if pairs.len() > 0 {
        assert(all.skip(1) =~= pairs.skip(1).push((k, v)));
        lemma_first_value(pairs.skip(1), k, v);
    }
}

/// A padding can stand anywhere.
pub proof fn padding_is_plain(method: Seq<char>, length: nat)
    ensures
        round_trip::is_plain_text(padding::padding(method, length)),
        round_trip::is_cookie_text(padding::padding(method, length)),
        method != "tokenish"@ ==> vstd::utf8::encode_utf8(padding::padding(method, length)).len()
            == length,
{
    let s = padding::padding(method, length);
    padding::padding_has_its_length(method, length);
    assert forall|i: int| 0 <= i < s.len() implies encoding::is_url_safe(#[trigger] s[i]) by {
        if method == "tokenish"@ {
            let value = padding::letters(length, padding::letter_count(length, 1));
            assert(padding::is_letter(value[i]));
        }
    }
    if s.len() > 0 {
        round_trip::id_is_plain(s);
    }
    if method != "tokenish"@ {
        assert(vstd::utf8::is_ascii_chars(s)) by {
            assert forall|i: int| 0 <= i < s.len() implies (#[trigger] s[i]) as nat <= 127 by {}
        }
        vstd::utf8::is_ascii_chars_encode_utf8(s);
    }
}

/// A URL with a padding can be counted, where the padding stands in one.
pub open spec fn can_pad(config: TransportConfig, value: Seq<char>, url: Seq<char>) -> bool {
    let (placement, key, _) = padding_place(config);
    placement == Placement::Query || placement == Placement::QueryInHeader ==> location::can_extend(
        url,
        key,
        value,
    )
}

/// Whether a URL with a padding can be counted.
pub fn takes_padding(config: &TransportConfig, value: &str, url: &RequestUrl) -> (r: bool)
    ensures
        r == can_pad(*config, value@, url@),
{
    if !config.padding_obfs {
        return url.takes_pair("x_padding", value);
    }
    match config.padding_placement {
        Placement::Query => url.takes_pair(config.padding_key.as_str(), value),
        Placement::QueryInHeader => url.takes_pair(config.padding_key.as_str(), value),
        _ => true,
    }
}

/// A padding takes its own letters in a URL, and those are at most half as many again
/// as its length, and eight: so whether a URL can be counted whichever length comes is
/// seen from the settings.
pub proof fn short_paddings_are_counted(config: TransportConfig, url: Seq<char>, length: nat)
    requires
        length <= config.padding_max,
        url.len() + location::form_length(padding_place(config).1) + config.padding_max
            + config.padding_max / 2 + 10 <= u32::MAX,
    ensures
        can_pad(config, padding::padding(config.padding_method@, length), url),
{
    let value = padding::padding(config.padding_method@, length);
    padding::padding_has_its_length(config.padding_method@, length);
    padding::letters_are_few(length);
    assert forall|i: int| 0 <= i < value.len() implies location::is_form_letter(
        #[trigger] value[i],
    ) by {
        if config.padding_method@ == "tokenish"@ {
            let letters = padding::letters(length, padding::letter_count(length, 1));
            assert(padding::is_letter(letters[i]));
        }
    }
    location::lemma_form_length(value);
}

/// Puts padding of a length into a request. It is accepted where the length is
/// one that is asked for and its place takes it.
pub fn place_padding(
    config: &TransportConfig,
    length: usize,
    url: &mut RequestUrl,
    headers: &mut axum::http::HeaderMap,
)
    requires
        length <= usize::MAX / 4,
        header::room(header::contents(*old(headers)), 1),
        can_pad(
            *config,
            padding::padding(config.padding_method@, length as nat),
            old(url)@,
        ),
    ensures
        (final(url)@, header::contents(*final(headers))) == with_padding(
            padding_place(*config),
            padding::padding(config.padding_method@, length as nat),
            old(url)@,
            header::contents(*old(headers)),
        ),
        location::is_web(old(url)@) ==> location::is_web(final(url)@) && location::url_path(
            final(url)@,
        ) == location::url_path(old(url)@) && location::url_pairs(final(url)@)->0 == padded_pairs(
            padding_place(*config),
            padding::padding(config.padding_method@, length as nat),
            location::url_pairs(old(url)@)->0,
        ),
        config.padding_min <= length <= config.padding_max && padding_fits(
            *config,
            old(url)@,
            header::contents(*old(headers)),
        ) ==> padding_accepted(
            *config,
            location::url_pairs(final(url)@)->0,
            header::contents(*final(headers)),
        ),
{
    let value = padding::padding_value(config.padding_method.as_str(), length);
    let ghost u0 = url@;
    let ghost m0 = header::contents(*headers);
    proof {
        lemma_names();
        padding_is_plain(config.padding_method@, length as nat);
        round_trip::plain_text_is_a_value(value@);
        reveal_strlit("x_padding");
    }
    let (placement, key, name) = if config.padding_obfs {
        (config.padding_placement, config.padding_key.as_str(), config.padding_header.as_str())
    } else {
        (Placement::QueryInHeader, "x_padding", "Referer")
    };
    match placement {
        Placement::Header => {
            let bytes = text::text_bytes(value.as_str());
            if header::check_value(bytes.as_slice()) && header::check_name(name) {
                header::insert(headers, name, bytes.as_slice());
            }
        },
        Placement::Cookie => {
            proof {
                if round_trip::is_cookie_name(key@) && metadata::cookie_in(m0, key@) is None {
                    round_trip::cookie_reads_back(m0, key@, value@);
                }
            }
            let _ = metadata::append_cookie(headers, key, value.as_str());
        },
        Placement::Query => {
            proof {
                if metadata::first_value(location::url_pairs(u0)->0, key@) is None {
                    lemma_first_value(location::url_pairs(u0)->0, key@, value@);
                }
            }
            *url = url.with_pair(key, value.as_str());
        },
        Placement::QueryInHeader => {
            let reference = url.with_pair(key, value.as_str());
            let written = reference.as_text();
            let bytes = text::text_bytes(written);
            proof {
                if metadata::first_value(location::url_pairs(u0)->0, key@) is None {
                    lemma_first_value(location::url_pairs(u0)->0, key@, value@);
                }
                round_trip::plain_text_is_a_value(written@);
            }
            if header::check_name(name) && header::check_value(bytes.as_slice()) {
                header::insert(headers, name, bytes.as_slice());
            }
        },
        _ => {},
    }
}

/// A URL and fields are others with a padding put in.
pub open spec fn padded(
    config: TransportConfig,
    value: Seq<char>,
    before: (Seq<char>, Fields),
    after: (Seq<char>, Fields),
) -> bool {
    &&& after == with_padding(padding_place(config), value, before.0, before.1)
    &&& location::is_web(before.0) ==> location::url_path(after.0) == location::url_path(before.0)
        && location::url_pairs(after.0)->0 == padded_pairs(
        padding_place(config),
        value,
        location::url_pairs(before.0)->0,
    )
}

/// A length by chance, out of those asked for.
pub(crate) fn choose_length(config: &TransportConfig) -> (r: usize)
    requires
        config.padding_min <= config.padding_max,
    ensures
        config.padding_min <= r <= config.padding_max,
{
    if config.padding_min == config.padding_max {
        config.padding_min
    } else {
        config::random_between(config.padding_min, config.padding_max)
    }
}

/// Puts padding of a length by chance, out of those asked for, into a request. A URL
/// with it has to be countable, whichever length comes.
pub fn apply_padding(
    config: &TransportConfig,
    url: &mut RequestUrl,
    headers: &mut axum::http::HeaderMap,
)
    requires
        config.padding_min <= config.padding_max <= usize::MAX / 4,
        header::room(header::contents(*old(headers)), 1),
        forall|length: nat|
            config.padding_min <= length <= config.padding_max ==> can_pad(
                *config,
                #[trigger] padding::padding(config.padding_method@, length),
                old(url)@,
            ),
    ensures
        exists|length: nat|
            config.padding_min <= length <= config.padding_max && padded(
                *config,
                #[trigger] padding::padding(config.padding_method@, length),
                (old(url)@, header::contents(*old(headers))),
                (final(url)@, header::contents(*final(headers))),
            ),
        location::is_web(old(url)@) ==> location::is_web(final(url)@),
        padding_fits(*config, old(url)@, header::contents(*old(headers))) ==> padding_accepted(
            *config,
            location::url_pairs(final(url)@)->0,
            header::contents(*final(headers)),
        ),
{
    let length: usize = choose_length(config);
    proof {
        let chosen = padding::padding(config.padding_method@, length as nat);
    }
    place_padding(config, length, url, headers);
}

/// The value of the first pair with a name.
pub(crate) fn find_pair(pairs: &Vec<(String, String)>, key: &str) -> (r: Option<String>)
    ensures
        text::opt_text(r) == metadata::first_value(location::pair_views(pairs@), key@),
{
    let ghost all = location::pair_views(pairs@);
    let mut i: usize = 0;
    proof {
        assert(all.skip(0) =~= all);
    }
    while i < pairs.len()
        invariant
            i <= pairs@.len(),
            all == location::pair_views(pairs@),
            metadata::first_value(all, key@) == metadata::first_value(all.skip(i as int), key@),
        decreases pairs@.len() - i,
    {
        proof {
            assert(all.skip(i as int)[0] == (pairs@[i as int].0@, pairs@[i as int].1@));
            assert(all.skip(i as int).skip(1) =~= all.skip(i + 1));
        }
        let (name, value) = &pairs[i];
        if text::same_text(name.as_str(), key) {
            return Some(text::copy_text(value.as_str()));
        }
        i = i + 1;
    }
    None
}

fn read_padding(config: &TransportConfig, target: &RequestTarget, headers: &axum::http::HeaderMap) -> (r:
    Option<String>)
    ensures
        text::opt_text(r) == padding_in(
            *config,
            location::pairs_of(text::opt_text(target.query)),
            header::contents(*headers),
        ),
{
    let (placement, key, name) = if config.padding_obfs {
        (config.padding_placement, config.padding_key.as_str(), config.padding_header.as_str())
    } else {
        (Placement::QueryInHeader, "x_padding", "Referer")
    };
    match placement {
        Placement::Header => header::get_text(headers, name),
        Placement::Cookie => metadata::cookie_value(headers, key),
        Placement::Query => {
            let pairs = target.pairs();
            find_pair(&pairs, key)
        },
        Placement::QueryInHeader => match header::get_text(headers, name) {
            Some(reference) => match location::pairs_of_url(reference.as_str()) {
                Some(pairs) => find_pair(&pairs, key),
                None => None,
            },
            None => None,
        },
        _ => None,
    }
}

/// Whether a request carries padding of about the length that is asked for.
pub fn valid_padding(
    config: &TransportConfig,
    target: &RequestTarget,
    headers: &axum::http::HeaderMap,
) -> (r: bool)
    ensures
        r == padding_accepted(
            *config,
            location::pairs_of(text::opt_text(target.query)),
            header::contents(*headers),
        ),
{
    let value = match read_padding(config, target, headers) {
        Some(value) => value,
        None => {
            return false;
        },
    };
    let bytes = text::text_bytes(value.as_str());
    let length: usize = if text::same_text(config.padding_method.as_str(), "tokenish") {
        padding::huffman_length(bytes.as_slice())
    } else {
        bytes.len()
    };
    (config.padding_min <= 2 || length >= config.padding_min - 2) && (length <= 2 || length - 2
        <= config.padding_max)
}

// ---- padding of responses ----

/// The fields of a response with a padding put in; what cannot be put in is left
/// out.
pub open spec fn with_response_padding(config: TransportConfig, value: Seq<char>, m: Fields) -> Fields {
    if !config.padding_obfs {
        m.insert("x-padding"@, seq![vstd::utf8::encode_utf8(value)])
    } else if config.padding_placement == Placement::Header {
        if header::is_name(config.padding_header@) {
            m.insert(
                text::lower(config.padding_header@),
                seq![vstd::utf8::encode_utf8(value)],
            )
        } else {
            m
        }
    } else if config.padding_placement == Placement::Cookie {
        let bytes = vstd::utf8::encode_utf8(
            metadata::cookie(config.padding_key@, value) + "; Path=/"@,
        );
        if header::is_value(bytes) {
            m.insert("set-cookie"@, header::values_under(m, "set-cookie"@).push(bytes))
        } else {
            m
        }
    } else {
        m
    }
}

/// Puts padding of a length into a response.
pub fn place_response_padding(
    config: &TransportConfig,
    length: usize,
    headers: &mut axum::http::HeaderMap,
)
    requires
        length <= usize::MAX / 4,
        header::room(header::contents(*old(headers)), 1),
    ensures
        header::contents(*final(headers)) == with_response_padding(
            *config,
            padding::padding(config.padding_method@, length as nat),
            header::contents(*old(headers)),
        ),
{
    let value = padding::padding_value(config.padding_method.as_str(), length);
    proof {
        lemma_names();
        padding_is_plain(config.padding_method@, length as nat);
        round_trip::plain_text_is_a_value(value@);
    }
    if !config.padding_obfs {
        let bytes = text::text_bytes(value.as_str());
        header::insert(headers, "x-padding", bytes.as_slice());
        return;
    }
    match config.padding_placement {
        Placement::Header => {
            if header::check_name(config.padding_header.as_str()) {
                let bytes = text::text_bytes(value.as_str());
                header::insert(headers, config.padding_header.as_str(), bytes.as_slice());
            }
        },
        Placement::Cookie => {
            let mut s = text::copy_text(config.padding_key.as_str());
            proof {
                reveal_strlit("=");
                assert("="@ =~= seq!['=']);
            }
            s.append("=");
            s.append(value.as_str());
            s.append("; Path=/");
            let bytes = text::text_bytes(s.as_str());
            if header::check_value(bytes.as_slice()) {
                header::append(headers, "set-cookie", bytes.as_slice());
            }
        },
        _ => {},
    }
}

/// Puts padding of a length by chance, out of those asked for, into a response.
pub fn apply_response_padding(config: &TransportConfig, headers: &mut axum::http::HeaderMap)
    requires
        config.padding_min <= config.padding_max <= usize::MAX / 4,
        header::room(header::contents(*old(headers)), 1),
    ensures
        exists|length: nat|
            config.padding_min <= length <= config.padding_max && header::contents(*final(headers))
                == with_response_padding(
                *config,
                #[trigger] padding::padding(config.padding_method@, length),
                header::contents(*old(headers)),
            ),
{
    let length: usize = if config.padding_min == config.padding_max {
        config.padding_min
    } else {
        config::random_between(config.padding_min, config.padding_max)
    };
    place_response_padding(config, length, headers);
    proof {
        let chosen = padding::padding(config.padding_method@, length as nat);
    }
}

} // verus!
