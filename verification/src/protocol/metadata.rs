//! The session and the number of a packet, in the path, the query, a header field
//! or a cookie of a request.
use crate::config::{self, Placement, TransportConfig};
use crate::encoding;
use crate::header;
use crate::location::{self, Pairs, RequestTarget, RequestUrl};
use crate::protocol::round_trip;
use crate::text;
use vstd::prelude::*;

verus! {

/// Why something cannot be written into a request or read out of it.
#[derive(Debug, Clone, Copy, PartialEq, Eq, Structural)]
pub enum ProtocolError {
    HeaderName,
    HeaderValue,
    MetadataPlacement,
    PayloadPlacement,
    InvalidPayload,
}

/// The fields of a request: under each name its values.
pub type Fields = Map<Seq<char>, Seq<Seq<u8>>>;

/// A cookie.
pub open spec fn cookie(key: Seq<char>, value: Seq<char>) -> Seq<char> {
    key + seq!['='] + value
}

/// The fields with a cookie more, where it can be the value of one.
pub open spec fn with_cookie(m: Fields, key: Seq<char>, value: Seq<char>) -> Result<
    Fields,
    ProtocolError,
> {
    let bytes = vstd::utf8::encode_utf8(cookie(key, value));
    if header::is_value(bytes) {
        Ok(m.insert("cookie"@, header::values_under(m, "cookie"@).push(bytes)))
    } else {
        Err(ProtocolError::HeaderValue)
    }
}

/// The path with a value behind it.
pub open spec fn longer_path(path: Seq<char>, value: Seq<char>) -> Seq<char> {
    text::trim_end(path, '/') + seq!['/'] + value
}

/// The URL and the fields with a value placed in them.
pub open spec fn placed(
    placement: Placement,
    key: Seq<char>,
    value: Seq<char>,
    url: Seq<char>,
    m: Fields,
) -> Result<(Seq<char>, Fields), ProtocolError> {
    match placement {
        Placement::Path => Ok(
            (
                location::moved(url, longer_path(location::path_of(url), value)),
                m,
            ),
        ),
        Placement::Query => Ok((location::extended(url, key, value), m)),
        Placement::Header => if !header::is_name(key) {
            Err(ProtocolError::HeaderName)
        } else if !config::is_field_value(value) {
            Err(ProtocolError::HeaderValue)
        } else {
            Ok((url, m.insert(text::lower(key), seq![vstd::utf8::encode_utf8(value)])))
        },
        Placement::Cookie => match with_cookie(m, key, value) {
            Ok(fields) => Ok((url, fields)),
            Err(e) => Err(e),
        },
        _ => Err(ProtocolError::MetadataPlacement),
    }
}

/// The value is placed where there is one.
pub open spec fn placed_opt(
    placement: Placement,
    key: Seq<char>,
    value: Option<Seq<char>>,
    url: Seq<char>,
    m: Fields,
) -> Result<(Seq<char>, Fields), ProtocolError> {
    match value {
        Some(v) => placed(placement, key, v, url, m),
        None => Ok((url, m)),
    }
}

/// The number of a packet as a text.
pub open spec fn sequence_text(sequence: Option<u64>) -> Option<Seq<char>> {
    match sequence {
        Some(n) => Some(text::decimal(n as nat)),
        None => None,
    }
}

/// The URL with a value placed in it, if it is placed there.
pub open spec fn placed_url(
    placement: Placement,
    key: Seq<char>,
    value: Option<Seq<char>>,
    url: Seq<char>,
) -> Seq<char> {
    match (placement, value) {
        (Placement::Path, Some(v)) => location::moved(url, longer_path(location::path_of(url), v)),
        (Placement::Query, Some(v)) => location::extended(url, key, v),
        _ => url,
    }
}

/// The URL with a value placed in it can be counted.
pub open spec fn can_place(
    placement: Placement,
    key: Seq<char>,
    value: Option<Seq<char>>,
    url: Seq<char>,
) -> bool {
    match (placement, value) {
        (Placement::Path, Some(v)) => location::can_move(
            url,
            longer_path(location::path_of(url), v),
        ),
        (Placement::Query, Some(v)) => location::can_extend(url, key, v),
        _ => true,
    }
}

/// The URL with a session and a number placed in it can be counted.
pub open spec fn can_carry(
    config: TransportConfig,
    url: Seq<char>,
    session: Option<Seq<char>>,
    sequence: Option<u64>,
) -> bool {
    &&& can_place(config.session_placement, config.session_key@, session, url)
    &&& can_place(
        config.sequence_placement,
        config.sequence_key@,
        sequence_text(sequence),
        placed_url(config.session_placement, config.session_key@, session, url),
    )
}

// ---- writing ----

/// Puts a cookie behind those that the request has.
pub(crate) fn append_cookie(headers: &mut axum::http::HeaderMap, key: &str, value: &str) -> (r:
    Result<(), ProtocolError>)
    requires
        header::room(header::contents(*old(headers)), 1),
    ensures
        match with_cookie(header::contents(*old(headers)), key@, value@) {
            Ok(m) => r is Ok && header::contents(*final(headers)) == m,
            Err(e) => r == Err::<(), ProtocolError>(e) && *final(headers) == *old(headers),
        },
{
    let mut s = text::copy_text(key);
    proof {
        reveal_strlit("=");
        assert("="@ =~= seq!['=']);
        lemma_cookie_name();
    }
    s.append("=");
    s.append(value);
    let bytes = text::text_bytes(s.as_str());
    if !header::check_value(bytes.as_slice()) {
        return Err(ProtocolError::HeaderValue);
    }
    header::append(headers, "cookie", bytes.as_slice());
    Ok(())
}

proof fn lemma_cookie_name()
    ensures
        header::is_name("cookie"@),
        text::lower("cookie"@) == "cookie"@,
{
    reveal_strlit("cookie");
    assert(text::lower("cookie"@) =~= "cookie"@);
}

fn lengthen(url: &RequestUrl, value: &str) -> (r: String)
    ensures
        r@ == longer_path(location::path_of(url@), value@),
        location::url_path(url@) == Some(location::path_of(url@)),
{
    let path = url.path();
    let mut longer = text::trim_end_char(path.as_str(), '/');
    proof {
        text::lemma_trim_end(path@, '/');
        reveal_strlit("/");
        assert("/"@ =~= seq!['/']);
    }
    longer.append("/");
    longer.append(value);
    longer
}

fn takes_value(placement: Placement, key: &str, value: Option<&str>, url: &RequestUrl) -> (r: bool)
    ensures
        r == can_place(placement, key@, text::opt_str(value), url@),
{
    match value {
        Some(v) => match placement {
            Placement::Path => url.takes_path(lengthen(url, v).as_str()),
            Placement::Query => url.takes_pair(key, v),
            _ => true,
        },
        None => true,
    }
}

/// Whether the URL with a session and a number placed in it can be counted.
pub fn takes_metadata(
    config: &TransportConfig,
    url: &RequestUrl,
    session: Option<&str>,
    sequence: Option<u64>,
) -> (r: bool)
    ensures
        r == can_carry(*config, url@, text::opt_str(session), sequence),
{
    let key = config.session_key.as_str();
    if !takes_value(config.session_placement, key, session, url) {
        return false;
    }
    let longer = match session {
        Some(v) => match config.session_placement {
            Placement::Path => url.with_path(lengthen(url, v).as_str()),
            Placement::Query => url.with_pair(key, v),
            _ => url.copy(),
        },
        None => url.copy(),
    };
    let number = match sequence {
        Some(n) => Some(text::to_decimal(n)),
        None => None,
    };
    takes_value(
        config.sequence_placement,
        config.sequence_key.as_str(),
        text::as_opt_str(&number),
        &longer,
    )
}

fn apply_value(
    placement: Placement,
    key: &str,
    value: &str,
    url: &mut RequestUrl,
    headers: &mut axum::http::HeaderMap,
) -> (r: Result<(), ProtocolError>)
    requires
        header::room(header::contents(*old(headers)), 1),
        can_place(placement, key@, Some(value@), old(url)@),
    ensures
        match placed(placement, key@, value@, old(url)@, header::contents(*old(headers))) {
            Ok((u, m)) => r is Ok && final(url)@ == u && header::contents(*final(headers)) == m,
            Err(e) => r == Err::<(), ProtocolError>(e) && final(url)@ == old(url)@ && *final(headers) == *old(headers),
        },
        r is Ok && location::is_web(old(url)@) && (placement == Placement::Path
            ==> location::is_plain_path(longer_path(location::url_path(old(url)@)->0, value@)))
            ==> location::is_web(final(url)@) && round_trip::request_of(
            final(url)@,
            header::contents(*final(headers)),
        ) == round_trip::with_value(
            round_trip::request_of(old(url)@, header::contents(*old(headers))),
            placement,
            key@,
            value@,
        ),
        header::contents(*final(headers)) == header::contents(*old(headers)) || exists|
            k: Seq<char>,
            v: Seq<Seq<u8>>,
        |
            header::contents(*final(headers)) == #[trigger] header::contents(
                *old(headers),
            ).insert(k, v),
{
    match placement {
        Placement::Path => {
            let longer = lengthen(url, value);
            *url = url.with_path(longer.as_str());
        },
        Placement::Query => {
            *url = url.with_pair(key, value);
        },
        Placement::Header => {
            if !header::check_name(key) {
                return Err(ProtocolError::HeaderName);
            }
            let bytes = text::text_bytes(value);
            if !header::check_value(bytes.as_slice()) {
                return Err(ProtocolError::HeaderValue);
            }
            header::insert(headers, key, bytes.as_slice());
        },
        Placement::Cookie => {
            return append_cookie(headers, key, value);
        },
        _ => {
            return Err(ProtocolError::MetadataPlacement);
        },
    }
    Ok(())
}

/// Writes the session and the number of a packet into a request, each where the
/// settings place it. What cannot be placed is refused; a session that was placed
/// before stays.
pub fn apply_metadata(
    config: &TransportConfig,
    url: &mut RequestUrl,
    headers: &mut axum::http::HeaderMap,
    session: Option<&str>,
    sequence: Option<u64>,
) -> (r: Result<(), ProtocolError>)
    requires
        header::room(header::contents(*old(headers)), 2),
        can_carry(*config, old(url)@, text::opt_str(session), sequence),
    ensures
        ({
            let first = placed_opt(
                config.session_placement,
                config.session_key@,
                text::opt_str(session),
                old(url)@,
                header::contents(*old(headers)),
            );
            match first {
                Err(e) => r == Err::<(), ProtocolError>(e) && final(url)@ == old(url)@
                    && header::contents(*final(headers)) == header::contents(*old(headers)),
                Ok((u, m)) => match placed_opt(
                    config.sequence_placement,
                    config.sequence_key@,
                    sequence_text(sequence),
                    u,
                    m,
                ) {
                    Err(e) => r == Err::<(), ProtocolError>(e) && final(url)@ == u
                        && header::contents(*final(headers)) == m,
                    Ok((v, n)) => r is Ok && final(url)@ == v && header::contents(*final(headers))
                        == n,
                },
            }
        }),
        r is Ok && session is Some && sequence is Some && round_trip::carries(
            *config,
            old(url)@,
            header::contents(*old(headers)),
            session->0@,
        ) ==> ({
            let seen = round_trip::request_of(final(url)@, header::contents(*final(headers)));
            &&& location::is_web(final(url)@)
            &&& seen == round_trip::with_both(
                *config,
                round_trip::request_of(old(url)@, header::contents(*old(headers))),
                session->0@,
                sequence->0,
            )
            &&& session_in(*config, seen.path, seen.pairs, seen.fields) == Some(session->0@)
            &&& sequence_in(*config, seen.path, seen.pairs, seen.fields) == sequence_text(sequence)
            &&& text::number(sequence_text(sequence)->0, u64::MAX as nat) == Some(
                sequence->0 as nat,
            )
        }),
        r is Ok && session is Some && sequence is None && round_trip::carries(
            *config,
            old(url)@,
            header::contents(*old(headers)),
            session->0@,
        ) ==> ({
            let before = round_trip::request_of(old(url)@, header::contents(*old(headers)));
            let seen = round_trip::request_of(final(url)@, header::contents(*final(headers)));
            &&& location::is_web(final(url)@)
            &&& seen == round_trip::with_value(
                before,
                config.session_placement,
                config.session_key@,
                session->0@,
            )
            &&& session_in(*config, seen.path, seen.pairs, seen.fields) == Some(session->0@)
            &&& sequence_in(*config, seen.path, seen.pairs, seen.fields) == (
            if config.session_placement == Placement::Path && config.sequence_placement
                == Placement::Path {
                None
            } else {
                sequence_in(*config, before.path, before.pairs, before.fields)
            })
        }),
{
    proof {
        header::lemma_room(header::contents(*headers), 2, seq![], seq![]);
        if session is Some && sequence is None && round_trip::carries(
            *config,
            url@,
            header::contents(*headers),
            session->0@,
        ) {
            let seen = round_trip::request_of(url@, header::contents(*headers));
            if config.session_placement == Placement::Path {
                round_trip::path_stays_plain(*config, seen.path, session->0@, session->0@);
            }
            round_trip::session_round_trip(*config, seen, session->0@);
        }
        if session is Some && sequence is Some && round_trip::carries(
            *config,
            url@,
            header::contents(*headers),
            session->0@,
        ) {
            let seen = round_trip::request_of(url@, header::contents(*headers));
            let number = text::decimal(sequence->0 as nat);
            round_trip::decimal_is_id(sequence->0 as nat);
            if config.session_placement == Placement::Path {
                round_trip::path_stays_plain(*config, seen.path, session->0@, number);
            }
            round_trip::path_stays_plain(*config, seen.path, number, number);
            round_trip::metadata_round_trip(*config, seen, session->0@, sequence->0);
        }
    }
    match session {
        Some(value) => {
            match apply_value(
                config.session_placement,
                config.session_key.as_str(),
                value,
                url,
                headers,
            ) {
                Err(e) => {
                    return Err(e);
                },
                Ok(()) => {},
            }
        },
        None => {},
    }
    proof {
        let before = header::contents(*old(headers));
        let after = header::contents(*headers);
        if after != before {
            let (k, v) = choose|k: Seq<char>, v: Seq<Seq<u8>>|
                after == #[trigger] before.insert(k, v);
            header::lemma_room(before, 2, k, v);
        }
    }
    match sequence {
        Some(n) => {
            let value = text::to_decimal(n);
            apply_value(
                config.sequence_placement,
                config.sequence_key.as_str(),
                value.as_str(),
                url,
                headers,
            )
        },
        None => Ok(()),
    }
}

// ---- reading ----

/// Those of the texts that are not empty.
pub open spec fn non_empty(parts: Seq<Seq<char>>) -> Seq<Seq<char>>
    decreases parts.len(),
{
    if parts.len() == 0 {
        Seq::empty()
    } else if parts.last().len() > 0 {
        non_empty(parts.drop_last()).push(parts.last())
    } else {
        non_empty(parts.drop_last())
    }
}

/// The values that a path holds behind the configured one.
pub open spec fn path_values(configured: Seq<char>, path: Seq<char>) -> Seq<Seq<char>> {
    if text::starts_with(path, configured) {
        non_empty(text::split(path.skip(configured.len() as int), '/'))
    } else {
        Seq::empty()
    }
}

/// The value of the last pair with a name.
pub open spec fn last_value(pairs: Pairs, key: Seq<char>) -> Option<Seq<char>>
    decreases pairs.len(),
{
    if pairs.len() == 0 {
        None
    } else if pairs.last().0 == key {
        Some(pairs.last().1)
    } else {
        last_value(pairs.drop_last(), key)
    }
}

/// The value of the first pair with a name.
pub open spec fn first_value(pairs: Pairs, key: Seq<char>) -> Option<Seq<char>>
    decreases pairs.len(),
{
    if pairs.len() == 0 {
        None
    } else if pairs[0].0 == key {
        Some(pairs[0].1)
    } else {
        first_value(pairs.skip(1), key)
    }
}

/// The value of a part of a cookie field, where its name is the given one.
pub open spec fn part_value(part: Seq<char>, key: Seq<char>) -> Option<Seq<char>> {
    match text::split_once(text::trim_space(part), '=') {
        Some((name, value)) if name == key => Some(value),
        _ => None,
    }
}

/// The first value with a name among parts of a cookie field.
pub open spec fn in_parts(parts: Seq<Seq<char>>, key: Seq<char>) -> Option<Seq<char>>
    decreases parts.len(),
{
    if parts.len() == 0 {
        None
    } else {
        match part_value(parts[0], key) {
            Some(value) => Some(value),
            None => in_parts(parts.skip(1), key),
        }
    }
}

/// The value with a name in one cookie field; a field that is not a text has none.
pub open spec fn in_field(value: Seq<u8>, key: Seq<char>) -> Option<Seq<char>> {
    match header::value_text(value) {
        Some(t) => in_parts(text::split(t, ';'), key),
        None => None,
    }
}

/// The first value with a name in the cookie fields.
pub open spec fn in_fields(values: Seq<Seq<u8>>, key: Seq<char>) -> Option<Seq<char>>
    decreases values.len(),
{
    if values.len() == 0 {
        None
    } else {
        match in_field(values[0], key) {
            Some(value) => Some(value),
            None => in_fields(values.skip(1), key),
        }
    }
}

/// The cookie with a name in the fields of a request.
pub open spec fn cookie_in(m: Fields, key: Seq<char>) -> Option<Seq<char>> {
    in_fields(header::values_under(m, "cookie"@), key)
}

/// The cookie with a name.
pub fn cookie_value(headers: &axum::http::HeaderMap, key: &str) -> (r: Option<String>)
    ensures
        text::opt_text(r) == cookie_in(header::contents(*headers), key@),
{
    proof {
        lemma_cookie_name();
    }
    let values = header::get_all(headers, "cookie");
    let ghost all = header::byte_views(values@);
    let mut i: usize = 0;
    proof {
        assert(all.skip(0) =~= all);
    }
    while i < values.len()
        invariant
            i <= values@.len(),
            all == header::byte_views(values@),
            all == header::values_under(header::contents(*headers), "cookie"@),
            in_fields(all, key@) == in_fields(all.skip(i as int), key@),
        decreases values@.len() - i,
    {
        proof {
            assert(all.skip(i as int)[0] == values@[i as int]@);
            assert(all.skip(i as int).skip(1) =~= all.skip(i + 1));
        }
        match header::to_text(values[i].as_slice()) {
            Some(t) => {
                match find_part(t.as_str(), key) {
                    Some(value) => {
                        return Some(value);
                    },
                    None => {},
                }
            },
            None => {},
        }
        i = i + 1;
    }
    None
}

fn find_part(t: &str, key: &str) -> (r: Option<String>)
    ensures
        text::opt_text(r) == in_parts(text::split(t@, ';'), key@),
{
    let parts = text::split_text(t, ';');
    let ghost all = text::texts(parts@);
    let mut i: usize = 0;
    proof {
        assert(all.skip(0) =~= all);
    }
    while i < parts.len()
        invariant
            i <= parts@.len(),
            all == text::texts(parts@),
            all == text::split(t@, ';'),
            in_parts(all, key@) == in_parts(all.skip(i as int), key@),
        decreases parts@.len() - i,
    {
        proof {
            assert(all.skip(i as int)[0] == parts@[i as int]@);
            assert(all.skip(i as int).skip(1) =~= all.skip(i + 1));
        }
        let trimmed = text::trim_text(parts[i].as_str());
        match text::split_at_char(trimmed.as_str(), '=') {
            Some((name, value)) => {
                if text::same_text(name.as_str(), key) {
                    return Some(value);
                }
            },
            None => {},
        }
        i = i + 1;
    }
    None
}

fn query_value(target: &RequestTarget, key: &str) -> (r: Option<String>)
    ensures
        text::opt_text(r) == last_value(location::pairs_of(text::opt_text(target.query)), key@),
{
    let pairs = target.pairs();
    let ghost all = location::pair_views(pairs@);
    let mut n: usize = pairs.len();
    proof {
        assert(all.take(n as int) =~= all);
    }
    while n > 0
        invariant
            n <= pairs@.len(),
            all == location::pair_views(pairs@),
            all == location::pairs_of(text::opt_text(target.query)),
            last_value(all, key@) == last_value(all.take(n as int), key@),
        decreases n,
    {
        proof {
            assert(all.take(n as int).last() == (pairs@[n - 1].0@, pairs@[n - 1].1@));
            assert(all.take(n as int).drop_last() =~= all.take(n - 1));
        }
        let (name, value) = &pairs[n - 1];
        if text::same_text(name.as_str(), key) {
            return Some(text::copy_text(value.as_str()));
        }
        n = n - 1;
    }
    None
}

fn read_path(configured: &str, path: &str) -> (r: Vec<String>)
    ensures
        text::texts(r@) == path_values(configured@, path@),
{
    let mut r: Vec<String> = Vec::new();
    proof {
        assert(text::texts(r@) =~= Seq::<Seq<char>>::empty());
    }
    if !text::text_starts_with(path, configured) {
        return r;
    }
    let v = text::to_chars(path);
    let c = text::to_chars(configured);
    proof {
        assert(v@.subrange(c@.len() as int, v@.len() as int) =~= v@.skip(c@.len() as int));
    }
    let suffix = text::to_text(&v.as_slice()[c.len()..v.len()]);
    let parts = text::split_text(suffix.as_str(), '/');
    let ghost all = text::texts(parts@);
    let mut i: usize = 0;
    proof {
        assert(all.take(0) =~= Seq::<Seq<char>>::empty());
    }
    while i < parts.len()
        invariant
            i <= parts@.len(),
            all == text::texts(parts@),
            text::texts(r@) == non_empty(all.take(i as int)),
        decreases parts@.len() - i,
    {
        let ghost before = text::texts(r@);
        proof {
            assert(all.take(i + 1).last() == parts@[i as int]@);
            assert(all.take(i + 1).drop_last() =~= all.take(i as int));
        }
        let chars = text::to_chars(parts[i].as_str());
        if chars.len() > 0 {
            r.push(text::copy_text(parts[i].as_str()));
            proof {
                assert(text::texts(r@) =~= before.push(parts@[i as int]@));
            }
        }
        i = i + 1;
    }
    proof {
        assert(all.take(i as int) =~= all);
    }
    r
}

/// The value at a placement; `at` is the place among the values of the path.
pub open spec fn read_at(
    placement: Placement,
    key: Seq<char>,
    values: Seq<Seq<char>>,
    at: int,
    pairs: Pairs,
    m: Fields,
) -> Option<Seq<char>> {
    match placement {
        Placement::Path => if 0 <= at < values.len() {
            Some(values[at])
        } else {
            None
        },
        Placement::Query => last_value(pairs, key),
        Placement::Header => header::text_under(m, key),
        Placement::Cookie => cookie_in(m, key),
        _ => None,
    }
}

/// The session that a request names.
pub open spec fn session_in(
    config: TransportConfig,
    path: Seq<char>,
    pairs: Pairs,
    m: Fields,
) -> Option<Seq<char>> {
    read_at(
        config.session_placement,
        config.session_key@,
        path_values(config.path@, path),
        0,
        pairs,
        m,
    )
}

/// The text of the number that a request names; in the path it stands behind the
/// session, where that stands there too.
pub open spec fn sequence_in(
    config: TransportConfig,
    path: Seq<char>,
    pairs: Pairs,
    m: Fields,
) -> Option<Seq<char>> {
    read_at(
        config.sequence_placement,
        config.sequence_key@,
        path_values(config.path@, path),
        if config.session_placement == Placement::Path {
            1
        } else {
            0
        },
        pairs,
        m,
    )
}

fn read_value(
    placement: Placement,
    key: &str,
    values: &Vec<String>,
    at: usize,
    target: &RequestTarget,
    headers: &axum::http::HeaderMap,
) -> (r: Option<String>)
    ensures
        text::opt_text(r) == read_at(
            placement,
            key@,
            text::texts(values@),
            at as int,
            location::pairs_of(text::opt_text(target.query)),
            header::contents(*headers),
        ),
{
    match placement {
        Placement::Path => {
            proof {
                assert(text::texts(values@).len() == values@.len());
            }
            if at < values.len() {
                proof {
                    assert(text::texts(values@)[at as int] == values@[at as int]@);
                }
                Some(text::copy_text(values[at].as_str()))
            } else {
                None
            }
        },
        Placement::Query => query_value(target, key),
        Placement::Header => header::get_text(headers, key),
        Placement::Cookie => cookie_value(headers, key),
        _ => None,
    }
}

/// Reads the session and the number of a packet out of a request. What is not a
/// number of 64 bits is none.
pub fn extract_metadata(
    config: &TransportConfig,
    target: &RequestTarget,
    headers: &axum::http::HeaderMap,
) -> (r: (Option<String>, Option<u64>))
    ensures
        text::opt_text(r.0) == session_in(
            *config,
            target.path@,
            location::pairs_of(text::opt_text(target.query)),
            header::contents(*headers),
        ),
        match sequence_in(
            *config,
            target.path@,
            location::pairs_of(text::opt_text(target.query)),
            header::contents(*headers),
        ) {
            Some(t) => match r.1 {
                Some(n) => text::number(t, u64::MAX as nat) == Some(n as nat),
                None => text::number(t, u64::MAX as nat) is None,
            },
            None => r.1 is None,
        },
{
    let values = read_path(config.path.as_str(), target.path.as_str());
    let session = read_value(
        config.session_placement,
        config.session_key.as_str(),
        &values,
        0,
        target,
        headers,
    );
    let at: usize = if config.session_placement == Placement::Path {
        1
    } else {
        0
    };
    let sequence = read_value(
        config.sequence_placement,
        config.sequence_key.as_str(),
        &values,
        at,
        target,
        headers,
    );
    let number = match sequence {
        Some(t) => text::parse_number(t.as_str(), 0xffff_ffff_ffff_ffff),
        None => None,
    };
    (session, number)
}

/// Reads any bytes as a cookie field; whether they can be one is the result.
pub fn fuzz_cookie(input: &[u8]) -> (r: bool)
    ensures
        r == header::is_value(input@),
{
    if !header::check_value(input) {
        return false;
    }
    let mut headers = header::no_headers();
    proof {
        lemma_cookie_name();
        assert(header::contents(headers).dom() =~= Set::<Seq<char>>::empty());
    }
    header::append(&mut headers, "cookie", input);
    let _ = cookie_value(&headers, "x_session");
    true
}

/// Reads any bytes, in a text of the URL-safe alphabet, as the session of a request
/// with the highest number, both in its path. They are read back where there are
/// any.
pub fn fuzz_metadata(input: &[u8]) -> (r: (Option<String>, Option<u64>))
    requires
        input@.len() <= usize::MAX / 3,
    ensures
        ({
            let path = "/xhttp"@ + seq!['/'] + encoding::url_safe(input@) + seq!['/']
                + "18446744073709551615"@;
            exists|config: TransportConfig| #[trigger]
                config.standard() && text::opt_text(r.0) == session_in(
                    config,
                    path,
                    Seq::empty(),
                    header::nothing(),
                )
        }),
        input@.len() > 0 ==> text::opt_text(r.0) == Some(encoding::url_safe(input@)) && r.1 == Some(
            u64::MAX,
        ),
{
    let config = TransportConfig::default();
    let session = encoding::encode_url_safe(input);
    let mut path = text::copy_text("/xhttp");
    text::push_char(&mut path, '/');
    path.append(session.as_str());
    text::push_char(&mut path, '/');
    path.append("18446744073709551615");
    let headers = header::no_headers();
    let target = RequestTarget { path, query: None };
    proof {
        reveal_strlit("/xhttp");
        lemma_highest_number();
        let number = text::decimal(u64::MAX as nat);
        let base = "/xhttp"@;
        assert(target.path@ =~= base + seq!['/'] + session@ + seq!['/'] + number);
        if input@.len() > 0 {
            assert(session@.len() > 0);
            let request = round_trip::Request {
                path: base,
                pairs: Seq::empty(),
                fields: header::nothing(),
            };
            assert(text::trim_end(base, '/') == base);
            round_trip::metadata_round_trip(config, request, session@, u64::MAX);
            let one = longer_path(base, session@);
            assert(one =~= base + seq!['/'] + session@);
            assert(encoding::is_url_safe(session@[session@.len() - 1]));
            assert(one.last() == session@.last());
            assert(text::trim_end(one, '/') == one);
            assert(target.path@ =~= longer_path(one, number));
        }
    }
    extract_metadata(&config, &target, &headers)
}

proof fn lemma_highest_number()
    ensures
        "18446744073709551615"@ == text::decimal(u64::MAX as nat),
{
    reveal_strlit("18446744073709551615");
    reveal_with_fuel(text::decimal, 21);
    assert("18446744073709551615"@ =~= text::decimal(u64::MAX as nat));
}

} // verus!
