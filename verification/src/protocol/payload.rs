//! The bytes of a packet, in the body of a request or in numbered pieces in its
//! header fields or cookies.
use crate::config::{Placement, TransportConfig};
use crate::encoding;
use crate::header;
use crate::location::{self, Pairs};
use crate::protocol::metadata::{
    self, cookie_in, first_value, in_field, in_fields, in_parts, part_value, with_cookie, Fields,
    ProtocolError,
};
use crate::protocol::request;
use crate::protocol::round_trip;
use crate::text;
use vstd::prelude::*;

verus! {

/// Where numbered pieces stand.
#[derive(Debug, Clone, Copy, PartialEq, Eq, Structural)]
pub enum Pieces {
    Fields,
    Cookies,
}

/// The name of a piece.
pub open spec fn piece_name(place: Pieces, key: Seq<char>, i: nat) -> Seq<char> {
    key + seq![
        if place == Pieces::Fields {
            '-'
        } else {
            '_'
        },
    ] + text::decimal(i)
}

/// A piece of a request, if it is there.
pub open spec fn piece(place: Pieces, m: Fields, key: Seq<char>, i: nat) -> Option<Seq<char>> {
    match place {
        Pieces::Fields => header::text_under(m, piece_name(place, key, i)),
        Pieces::Cookies => cookie_in(m, piece_name(place, key, i)),
    }
}

/// The first `n` pieces are there, and the next is not.
pub open spec fn is_run(place: Pieces, m: Fields, key: Seq<char>, n: nat) -> bool {
    piece(place, m, key, n) is None && forall|i: nat|
        i < n ==> (#[trigger] piece(place, m, key, i)) is Some
}

/// The first `n` pieces put together.
pub open spec fn joined(place: Pieces, m: Fields, key: Seq<char>, n: nat) -> Seq<char>
    decreases n,
{
    if n == 0 {
        Seq::empty()
    } else {
        joined(place, m, key, (n - 1) as nat) + piece(place, m, key, (n - 1) as nat)->0
    }
}

/// All pieces up to the first that is missing, put together.
pub open spec fn collected(place: Pieces, m: Fields, key: Seq<char>) -> Seq<char> {
    joined(place, m, key, choose|n: nat| is_run(place, m, key, n))
}

/// Pieces end in one place.
pub proof fn run_is_unique(place: Pieces, m: Fields, key: Seq<char>, n: nat)
    requires
        is_run(place, m, key, n),
    ensures
        collected(place, m, key) == joined(place, m, key, n),
{
    let k = choose|k: nat| is_run(place, m, key, k);
    if k < n {
        assert(piece(place, m, key, k) is Some);
    } else if n < k {
        assert(piece(place, m, key, n) is Some);
    }
}

// ---- names ----

/// What a piece is found by: the name of a field in lower case, that of a cookie
/// as it is.
spec fn mark(place: Pieces, key: Seq<char>, i: nat) -> Seq<char> {
    match place {
        Pieces::Fields => text::lower(piece_name(place, key, i)),
        Pieces::Cookies => piece_name(place, key, i),
    }
}

proof fn lemma_marks_differ(place: Pieces, key: Seq<char>, i: nat, j: nat)
    requires
        i != j,
    ensures
        mark(place, key, i) != mark(place, key, j),
{
    if mark(place, key, i) == mark(place, key, j) {
        let a = text::decimal(i);
        let b = text::decimal(j);
        let n = key.len() as int + 1;
        text::lemma_decimal_number(i);
        text::lemma_decimal_number(j);
        assert(mark(place, key, i).len() == n + a.len());
        assert(mark(place, key, j).len() == n + b.len());
        assert forall|k: int| 0 <= k < a.len() implies a[k] == b[k] by {
            assert(text::is_digit(a[k]));
            assert(text::is_digit(b[k]));
            assert(piece_name(place, key, i)[n + k] == a[k]);
            assert(piece_name(place, key, j)[n + k] == b[k]);
            assert(mark(place, key, i)[n + k] == a[k]);
            assert(mark(place, key, j)[n + k] == b[k]);
        }
        assert(a =~= b);
    }
}

proof fn lemma_marks_fit(place: Pieces, key: Seq<char>, names: Set<Seq<char>>, n: nat)
    requires
        names.finite(),
        forall|i: nat| i < n ==> names.contains(#[trigger] mark(place, key, i)),
    ensures
        n <= names.len(),
    decreases n,
{
    if n > 0 {
        let last = mark(place, key, (n - 1) as nat);
        let fewer = names.remove(last);
        assert forall|i: nat| i < n - 1 implies fewer.contains(#[trigger] mark(place, key, i)) by {
            lemma_marks_differ(place, key, i, (n - 1) as nat);
        }
        lemma_marks_fit(place, key, fewer, (n - 1) as nat);
    }
}

// ---- all cookies ----

/// The names and values in parts of a cookie field.
pub open spec fn part_pairs(parts: Seq<Seq<char>>) -> Pairs
    decreases parts.len(),
{
    if parts.len() == 0 {
        Seq::empty()
    } else {
        match text::split_once(text::trim_space(parts[0]), '=') {
            Some(p) => seq![p] + part_pairs(parts.skip(1)),
            None => part_pairs(parts.skip(1)),
        }
    }
}

/// The names and values in one cookie field; a field that is not a text has none.
pub open spec fn field_pairs(value: Seq<u8>) -> Pairs {
    match header::value_text(value) {
        Some(t) => part_pairs(text::split(t, ';')),
        None => Seq::empty(),
    }
}

/// The names and values in cookie fields.
pub open spec fn cookie_pairs(values: Seq<Seq<u8>>) -> Pairs
    decreases values.len(),
{
    if values.len() == 0 {
        Seq::empty()
    } else {
        field_pairs(values[0]) + cookie_pairs(values.skip(1))
    }
}

proof fn lemma_first_of_two(a: Pairs, b: Pairs, key: Seq<char>)
    ensures
        first_value(a + b, key) == (match first_value(a, key) {
            Some(v) => Some(v),
            None => first_value(b, key),
        }),
    decreases a.len(),
{
    if a.len() == 0 {
        assert(a + b =~= b);
    } else {
        assert((a + b).skip(1) =~= a.skip(1) + b);
        lemma_first_of_two(a.skip(1), b, key);
    }
}

proof fn lemma_part_pairs(parts: Seq<Seq<char>>, key: Seq<char>)
    ensures
        in_parts(parts, key) == first_value(part_pairs(parts), key),
    decreases parts.len(),
{
    if parts.len() > 0 {
        lemma_part_pairs(parts.skip(1), key);
        match text::split_once(text::trim_space(parts[0]), '=') {
            Some(p) => {
                let one = seq![p];
                lemma_first_of_two(one, part_pairs(parts.skip(1)), key);
                assert(one.skip(1) =~= Seq::<(Seq<char>, Seq<char>)>::empty());
                assert(first_value(one.skip(1), key) is None);
                assert(part_value(parts[0], key) == first_value(one, key));
            },
            None => {},
        }
    }
}

proof fn lemma_cookie_pairs(values: Seq<Seq<u8>>, key: Seq<char>)
    ensures
        in_fields(values, key) == first_value(cookie_pairs(values), key),
    decreases values.len(),
{
    if values.len() > 0 {
        lemma_cookie_pairs(values.skip(1), key);
        lemma_first_of_two(field_pairs(values[0]), cookie_pairs(values.skip(1)), key);
        match header::value_text(values[0]) {
            Some(t) => {
                lemma_part_pairs(text::split(t, ';'), key);
            },
            None => {},
        }
        assert(in_field(values[0], key) == first_value(field_pairs(values[0]), key));
    }
}

fn add_parts(t: &str, pairs: &mut Vec<(String, String)>)
    ensures
        location::pair_views(final(pairs)@) == location::pair_views(old(pairs)@) + part_pairs(
            text::split(t@, ';'),
        ),
{
    let parts = text::split_text(t, ';');
    let ghost all = text::texts(parts@);
    let ghost start = location::pair_views(pairs@);
    let mut i: usize = 0;
    proof {
        assert(all.skip(0) =~= all);
    }
    while i < parts.len()
        invariant
            i <= parts@.len(),
            all == text::texts(parts@),
            start + part_pairs(all) == location::pair_views(pairs@) + part_pairs(
                all.skip(i as int),
            ),
        decreases parts@.len() - i,
    {
        let ghost before = location::pair_views(pairs@);
        let ghost rest = part_pairs(all.skip(i + 1));
        proof {
            assert(all.skip(i as int)[0] == parts@[i as int]@);
            assert(all.skip(i as int).skip(1) =~= all.skip(i + 1));
        }
        let trimmed = text::trim_text(parts[i].as_str());
        match text::split_at_char(trimmed.as_str(), '=') {
            Some((name, value)) => {
                let ghost p = (name@, value@);
                pairs.push((name, value));
                proof {
                    assert(location::pair_views(pairs@) =~= before.push(p));
                    assert(before.push(p) + rest =~= before + (seq![p] + rest));
                }
            },
            None => {},
        }
        i = i + 1;
    }
    proof {
        assert(location::pair_views(pairs@) + part_pairs(all.skip(i as int))
            =~= location::pair_views(pairs@));
    }
}

fn all_cookies(headers: &axum::http::HeaderMap) -> (r: Vec<(String, String)>)
    ensures
        forall|key: Seq<char>|
            cookie_in(header::contents(*headers), key) == #[trigger] first_value(
                location::pair_views(r@),
                key,
            ),
{
    proof {
        reveal_strlit("cookie");
        assert(text::lower("cookie"@) =~= "cookie"@);
    }
    let values = header::get_all(headers, "cookie");
    let ghost all = header::byte_views(values@);
    let mut r: Vec<(String, String)> = Vec::new();
    let mut i: usize = 0;
    proof {
        assert(all.skip(0) =~= all);
        assert(location::pair_views(r@) + cookie_pairs(all) =~= cookie_pairs(all));
    }
    while i < values.len()
        invariant
            i <= values@.len(),
            all == header::byte_views(values@),
            cookie_pairs(all) == location::pair_views(r@) + cookie_pairs(all.skip(i as int)),
        decreases values@.len() - i,
    {
        let ghost before = location::pair_views(r@);
        let ghost rest = cookie_pairs(all.skip(i + 1));
        proof {
            assert(all.skip(i as int)[0] == values@[i as int]@);
            assert(all.skip(i as int).skip(1) =~= all.skip(i + 1));
        }
        match header::to_text(values[i].as_slice()) {
            Some(t) => {
                add_parts(t.as_str(), &mut r);
            },
            None => {
                proof {
                    assert(before + (field_pairs(all[i as int]) + rest) =~= before + rest);
                }
            },
        }
        proof {
            assert(before + (field_pairs(all[i as int]) + rest) =~= (before + field_pairs(
                all[i as int],
            )) + rest);
        }
        i = i + 1;
    }
    proof {
        assert(location::pair_views(r@) + cookie_pairs(all.skip(i as int))
            =~= location::pair_views(r@));
        assert forall|key: Seq<char>|
            cookie_in(header::contents(*headers), key) == #[trigger] first_value(
                location::pair_views(r@),
                key,
            ) by {
            lemma_cookie_pairs(all, key);
        }
    }
    r
}

spec fn pair_names(pairs: Pairs) -> Seq<Seq<char>> {
    pairs.map_values(|p: (Seq<char>, Seq<char>)| p.0)
}

proof fn lemma_found_name(pairs: Pairs, key: Seq<char>)
    requires
        first_value(pairs, key) is Some,
    ensures
        pair_names(pairs).contains(key),
    decreases pairs.len(),
{
    if pairs[0].0 == key {
        assert(pair_names(pairs)[0] == key);
    } else {
        lemma_found_name(pairs.skip(1), key);
        let i = choose|i: int|
            0 <= i < pair_names(pairs.skip(1)).len() && pair_names(pairs.skip(1))[i] == key;
        assert(pair_names(pairs)[i + 1] == key);
    }
}

// ---- reading ----

fn name_of_piece(place: Pieces, key: &str, i: u64) -> (r: String)
    ensures
        r@ == piece_name(place, key@, i as nat),
{
    let mut r = text::copy_text(key);
    match place {
        Pieces::Fields => {
            text::push_char(&mut r, '-');
        },
        Pieces::Cookies => {
            text::push_char(&mut r, '_');
        },
    }
    r.append(text::to_decimal(i).as_str());
    proof {
        assert(r@ =~= piece_name(place, key@, i as nat));
    }
    r
}

/// Puts all pieces together, up to the first that is missing.
pub fn collect_numbered(place: Pieces, key: &str, headers: &axum::http::HeaderMap) -> (r: String)
    ensures
        r@ == collected(place, header::contents(*headers), key@),
        exists|n: nat| is_run(place, header::contents(*headers), key@, n),
{
    let ghost m = header::contents(*headers);
    let cookies = match place {
        Pieces::Fields => Vec::new(),
        Pieces::Cookies => all_cookies(headers),
    };
    let ghost names: Set<Seq<char>> = match place {
        Pieces::Fields => m.dom(),
        Pieces::Cookies => pair_names(location::pair_views(cookies@)).to_set(),
    };
    let total: usize = cookies.len();
    proof {
        vstd::seq_lib::seq_to_set_is_finite(pair_names(location::pair_views(cookies@)));
        pair_names(location::pair_views(cookies@)).lemma_cardinality_of_set();
        assert(total == pair_names(location::pair_views(cookies@)).len());
    }
    let mut r = String::new();
    let mut i: u64 = 0;
    let mut more: bool = true;
    proof {
        assert(r@ =~= joined(place, m, key@, 0));
    }
    while more
        invariant
            m == header::contents(*headers),
            place == Pieces::Cookies ==> forall|k: Seq<char>|
                cookie_in(m, k) == #[trigger] first_value(location::pair_views(cookies@), k),
            place == Pieces::Fields ==> names == m.dom(),
            place == Pieces::Cookies ==> names == pair_names(
                location::pair_views(cookies@),
            ).to_set() && names.finite() && names.len() <= usize::MAX,
            i > 0 ==> names.finite() && i <= names.len() <= u64::MAX,
            forall|j: nat| j < i ==> names.contains(#[trigger] mark(place, key@, j)),
            forall|j: nat| j < i ==> (#[trigger] piece(place, m, key@, j)) is Some,
            r@ == joined(place, m, key@, i as nat),
            !more ==> piece(place, m, key@, i as nat) is None,
        decreases names.len() - i, if more {
                1int
            } else {
                0
            },
    {
        let name = name_of_piece(place, key, i);
        let value = match place {
            Pieces::Fields => header::get_text(headers, name.as_str()),
            Pieces::Cookies => request::find_pair(&cookies, name.as_str()),
        };
        match value {
            Some(t) => {
                proof {
                    if place == Pieces::Cookies {
                        lemma_found_name(location::pair_views(cookies@), name@);
                    }
                    assert(names.contains(mark(place, key@, i as nat)));
                    assert forall|j: nat| j < i + 1 implies names.contains(
                        #[trigger] mark(place, key@, j),
                    ) by {
                        if j < i {
                        } else {
                            assert(j == i as nat);
                        }
                    }
                    lemma_marks_fit(place, key@, names, (i + 1) as nat);
                }
                r.append(t.as_str());
                i = i + 1;
            },
            None => {
                more = false;
            },
        }
    }
    proof {
        assert(is_run(place, m, key@, i as nat));
        run_is_unique(place, m, key@, i as nat);
    }
    r
}

/// What a text of no letters or of the URL-safe alphabet stands for.
pub open spec fn decoded_or_nothing(s: Seq<char>) -> Option<Seq<u8>> {
    if s.len() == 0 {
        Some(Seq::empty())
    } else {
        encoding::url_safe_decoded(s)
    }
}

/// The bytes that the pieces at a place stand for.
pub open spec fn decoded_pieces(place: Pieces, m: Fields, key: Seq<char>) -> Result<
    Seq<u8>,
    ProtocolError,
> {
    match encoding::url_safe_decoded(collected(place, m, key)) {
        Some(bytes) => Ok(bytes),
        None => Err(ProtocolError::InvalidPayload),
    }
}

/// The bytes of a packet that a request carries.
pub open spec fn payload_in(config: TransportConfig, m: Fields, body: Seq<u8>) -> Result<
    Seq<u8>,
    ProtocolError,
> {
    let key = config.data_key@;
    match config.data_placement {
        Placement::Auto => match (
            decoded_or_nothing(collected(Pieces::Fields, m, key)),
            decoded_or_nothing(collected(Pieces::Cookies, m, key)),
        ) {
            (Some(a), Some(b)) => Ok(a + b + body),
            _ => Err(ProtocolError::InvalidPayload),
        },
        Placement::Body => Ok(body),
        Placement::Header => decoded_pieces(Pieces::Fields, m, key),
        Placement::Cookie => decoded_pieces(Pieces::Cookies, m, key),
        _ => Err(ProtocolError::PayloadPlacement),
    }
}

/// The view of the bytes of a packet.
pub open spec fn payload_view(r: Result<Vec<u8>, ProtocolError>) -> Result<Seq<u8>, ProtocolError> {
    match r {
        Ok(v) => Ok(v@),
        Err(e) => Err(e),
    }
}

fn decode_or_nothing(s: &str) -> (r: Option<Vec<u8>>)
    ensures
        encoding::opt_bytes(r) == decoded_or_nothing(s@),
{
    if text::to_chars(s).len() == 0 {
        Some(Vec::new())
    } else {
        encoding::decode_url_safe(s)
    }
}

fn decode_pieces(place: Pieces, key: &str, headers: &axum::http::HeaderMap) -> (r: Result<
    Vec<u8>,
    ProtocolError,
>)
    ensures
        payload_view(r) == decoded_pieces(place, header::contents(*headers), key@),
{
    let encoded = collect_numbered(place, key, headers);
    match encoding::decode_url_safe(encoded.as_str()) {
        Some(bytes) => Ok(bytes),
        None => Err(ProtocolError::InvalidPayload),
    }
}

/// Reads the bytes of a packet out of a request.
pub fn extract_payload(
    config: &TransportConfig,
    headers: &axum::http::HeaderMap,
    body: &[u8],
) -> (r: Result<Vec<u8>, ProtocolError>)
    ensures
        payload_view(r) == payload_in(*config, header::contents(*headers), body@),
{
    let key = config.data_key.as_str();
    match config.data_placement {
        Placement::Auto => {
            let first = collect_numbered(Pieces::Fields, key, headers);
            let second = collect_numbered(Pieces::Cookies, key, headers);
            match decode_or_nothing(first.as_str()) {
                None => Err(ProtocolError::InvalidPayload),
                Some(mut output) => match decode_or_nothing(second.as_str()) {
                    None => Err(ProtocolError::InvalidPayload),
                    Some(mut more) => {
                        let mut rest = text::copy_bytes(body);
                        output.append(&mut more);
                        output.append(&mut rest);
                        Ok(output)
                    },
                },
            }
        },
        Placement::Body => Ok(text::copy_bytes(body)),
        Placement::Header => decode_pieces(Pieces::Fields, key, headers),
        Placement::Cookie => decode_pieces(Pieces::Cookies, key, headers),
        _ => Err(ProtocolError::PayloadPlacement),
    }
}

/// Reads the bytes of a packet out of a request whose body is handed over.
pub fn extract_payload_bytes(
    config: &TransportConfig,
    headers: &axum::http::HeaderMap,
    body: Vec<u8>,
) -> (r: Result<Vec<u8>, ProtocolError>)
    ensures
        payload_view(r) == payload_in(*config, header::contents(*headers), body@),
{
    match config.data_placement {
        Placement::Body => Ok(body),
        _ => extract_payload(config, headers, body.as_slice()),
    }
}

// ---- writing ----

/// A text cut into pieces of a size; the last may be shorter.
pub open spec fn chunks(s: Seq<char>, size: nat) -> Seq<Seq<char>>
    decreases s.len(),
{
    if s.len() == 0 || size == 0 {
        Seq::empty()
    } else if s.len() <= size {
        seq![s]
    } else {
        seq![s.take(size as int)] + chunks(s.skip(size as int), size)
    }
}

/// The size of the pieces at a place.
pub open spec fn piece_size(place: Pieces) -> nat {
    match place {
        Pieces::Fields => 3000,
        Pieces::Cookies => 2000,
    }
}

/// The fields with a piece put in.
pub open spec fn with_piece(place: Pieces, m: Fields, name: Seq<char>, value: Seq<char>) -> Result<
    Fields,
    ProtocolError,
> {
    match place {
        Pieces::Fields => if header::is_name(name) {
            Ok(m.insert(text::lower(name), seq![vstd::utf8::encode_utf8(value)]))
        } else {
            Err(ProtocolError::HeaderName)
        },
        Pieces::Cookies => with_cookie(m, name, value),
    }
}

/// The fields with pieces put in, numbered from `i` on, up to the first that
/// cannot be; and why it cannot.
pub open spec fn with_pieces(
    place: Pieces,
    m: Fields,
    key: Seq<char>,
    pieces: Seq<Seq<char>>,
    i: nat,
) -> (Fields, Option<ProtocolError>)
    decreases pieces.len(),
{
    if pieces.len() == 0 {
        (m, None)
    } else {
        match with_piece(place, m, piece_name(place, key, i), pieces[0]) {
            Ok(n) => with_pieces(place, n, key, pieces.skip(1), i + 1),
            Err(e) => (m, Some(e)),
        }
    }
}

/// What becomes of the fields when the bytes of a packet are put into them, and
/// whether they can be.
pub open spec fn with_payload(config: TransportConfig, m: Fields, payload: Seq<u8>) -> (
    Fields,
    Option<ProtocolError>,
) {
    match pieces_of(config.data_placement) {
        Some(place) => with_pieces(
            place,
            m,
            config.data_key@,
            chunks(encoding::url_safe(payload), piece_size(place)),
            0,
        ),
        None => if in_body(config.data_placement) {
            (m, None)
        } else {
            (m, Some(ProtocolError::PayloadPlacement))
        },
    }
}

/// Whether the bytes of a packet stand in the body of its request.
pub open spec fn in_body(placement: Placement) -> bool {
    placement == Placement::Body || placement == Placement::Auto
}

/// Where the pieces of a packet stand, for a placement that cuts it into some.
pub open spec fn pieces_of(placement: Placement) -> Option<Pieces> {
    match placement {
        Placement::Header => Some(Pieces::Fields),
        Placement::Cookie => Some(Pieces::Cookies),
        _ => None,
    }
}

/// The fields have room for a packet of a length.
pub open spec fn payload_room(placement: Placement, m: Fields, length: nat) -> bool {
    match pieces_of(placement) {
        Some(Pieces::Fields) => header::room(m, (4 * length + 2) / 3 / 3000 + 1),
        Some(Pieces::Cookies) => header::room(m, 2),
        None => true,
    }
}

/// The places of the pieces are free where `n` pieces are put in: none stands
/// behind them, and no cookie stands where one of them will.
pub open spec fn places_free(place: Pieces, m: Fields, key: Seq<char>, n: nat) -> bool {
    &&& piece(place, m, key, n) is None
    &&& place == Pieces::Cookies ==> round_trip::is_cookie_name(key) && forall|i: nat|
        i < n ==> (#[trigger] piece(place, m, key, i)) is None
}

/// A request with these fields takes a packet so that it is read back.
pub open spec fn takes_payload(config: TransportConfig, m: Fields, payload: Seq<u8>) -> bool {
    let key = config.data_key@;
    match pieces_of(config.data_placement) {
        Some(place) => places_free(
            place,
            m,
            key,
            chunks(encoding::url_safe(payload), piece_size(place)).len(),
        ),
        None => config.data_placement == Placement::Auto ==> piece(Pieces::Fields, m, key, 0)
            is None && piece(Pieces::Cookies, m, key, 0) is None,
    }
}

proof fn lemma_chunk_count(s: Seq<char>, size: nat)
    requires
        size > 0,
    ensures
        chunks(s, size).len() * size < s.len() + size,
    decreases s.len(),
{
    if s.len() > size {
        let rest = s.skip(size as int);
        lemma_chunk_count(rest, size);
        let n = chunks(rest, size).len();
        assert((n + 1) * size == n * size + size) by (nonlinear_arith);
    } else if s.len() == 0 {
        assert(0 * size == 0) by (nonlinear_arith);
    } else {
        assert(1 * size == size) by (nonlinear_arith);
    }
}

proof fn lemma_flat_front(a: Seq<char>, rest: Seq<Seq<char>>)
    ensures
        text::flat(seq![a] + rest) == a + text::flat(rest),
    decreases rest.len(),
{
    let all = seq![a] + rest;
    if rest.len() == 0 {
        assert(all.drop_last() =~= Seq::<Seq<char>>::empty());
        assert(text::flat(all.drop_last()) =~= Seq::<char>::empty());
        assert(all.last() == a);
        assert(text::flat(all) =~= a + text::flat(rest));
    } else {
        assert(all.drop_last() =~= seq![a] + rest.drop_last());
        lemma_flat_front(a, rest.drop_last());
        assert(text::flat(all) =~= a + text::flat(rest));
    }
}

/// The pieces put together are the text, and none is empty.
pub proof fn chunks_are_the_text(s: Seq<char>, size: nat)
    requires
        size > 0,
    ensures
        text::flat(chunks(s, size)) == s,
        forall|i: int|
            0 <= i < chunks(s, size).len() ==> 0 < (#[trigger] chunks(s, size)[i]).len() <= size,
    decreases s.len(),
{
    if s.len() == 0 {
        assert(text::flat(chunks(s, size)) =~= s);
    } else if s.len() <= size {
        let none = Seq::<Seq<char>>::empty();
        lemma_flat_front(s, none);
        assert(chunks(s, size) =~= seq![s] + none);
        assert(s + text::flat(none) =~= s);
    } else {
        let rest = s.skip(size as int);
        chunks_are_the_text(rest, size);
        lemma_flat_front(s.take(size as int), chunks(rest, size));
        assert(s.take(size as int) + rest =~= s);
        assert forall|i: int| 0 <= i < chunks(s, size).len() implies 0 < (#[trigger] chunks(
            s,
            size,
        )[i]).len() <= size by {
            if i > 0 {
                assert(chunks(s, size)[i] == chunks(rest, size)[i - 1]);
            }
        }
    }
}

proof fn lemma_chunks_are_ids(s: Seq<char>, size: nat)
    requires
        size > 0,
        forall|i: int| 0 <= i < s.len() ==> encoding::is_url_safe(#[trigger] s[i]),
    ensures
        forall|i: int|
            0 <= i < chunks(s, size).len() ==> round_trip::is_id(#[trigger] chunks(s, size)[i]),
    decreases s.len(),
{
    if s.len() > size {
        let rest = s.skip(size as int);
        lemma_chunks_are_ids(rest, size);
        assert forall|i: int| 0 <= i < chunks(s, size).len() implies round_trip::is_id(
            #[trigger] chunks(s, size)[i],
        ) by {
            if i > 0 {
                assert(chunks(s, size)[i] == chunks(rest, size)[i - 1]);
            }
        }
    }
}

proof fn lemma_cookie_piece_name(key: Seq<char>, i: nat)
    requires
        round_trip::is_cookie_name(key),
    ensures
        round_trip::is_cookie_name(piece_name(Pieces::Cookies, key, i)),
{
    let name = piece_name(Pieces::Cookies, key, i);
    let d = text::decimal(i);
    let n = key.len() as int;
    text::lemma_decimal_number(i);
    assert forall|k: int| 0 <= k < name.len() implies (' ' <= (#[trigger] name[k]) <= '~' || name[k]
        == '\t') && name[k] != ';' && name[k] != '=' by {
        if k < n {
            assert(name[k] == key[k]);
            assert(key.contains(key[k]));
        } else if k > n {
            assert(name[k] == d[k - n - 1]);
            assert(text::is_digit(d[k - n - 1]));
        }
    }
    if n > 0 {
        assert(name[0] == key[0]);
    }
}

proof fn lemma_piece_put(place: Pieces, m: Fields, key: Seq<char>, i: nat, value: Seq<char>)
    requires
        round_trip::is_id(value),
        with_piece(place, m, piece_name(place, key, i), value) is Ok,
        place == Pieces::Cookies ==> round_trip::is_cookie_name(key) && piece(place, m, key, i)
            is None,
    ensures
        ({
            let n = with_piece(place, m, piece_name(place, key, i), value)->Ok_0;
            &&& piece(place, n, key, i) == Some(value)
            &&& forall|j: nat|
                j != i ==> #[trigger] piece(place, n, key, j) == piece(place, m, key, j)
        }),
{
    let name = piece_name(place, key, i);
    let n = with_piece(place, m, name, value)->Ok_0;
    round_trip::id_is_plain(value);
    round_trip::plain_text_is_a_value(value);
    if place == Pieces::Cookies {
        lemma_cookie_piece_name(key, i);
        round_trip::cookie_reads_back(m, name, value);
    }
    assert forall|j: nat| j != i implies #[trigger] piece(place, n, key, j) == piece(
        place,
        m,
        key,
        j,
    ) by {
        lemma_marks_differ(place, key, i, j);
    }
}

proof fn lemma_pieces_put(
    place: Pieces,
    m: Fields,
    key: Seq<char>,
    pieces: Seq<Seq<char>>,
    i: nat,
)
    requires
        forall|k: int| 0 <= k < pieces.len() ==> round_trip::is_id(#[trigger] pieces[k]),
        with_pieces(place, m, key, pieces, i).1 is None,
        place == Pieces::Cookies ==> round_trip::is_cookie_name(key) && forall|j: nat|
            i <= j < i + pieces.len() ==> (#[trigger] piece(place, m, key, j)) is None,
    ensures
        ({
            let n = with_pieces(place, m, key, pieces, i).0;
            &&& forall|j: nat|
                i <= j < i + pieces.len() ==> #[trigger] piece(place, n, key, j) == Some(
                    pieces[j - i],
                )
            &&& forall|j: nat|
                j < i || j >= i + pieces.len() ==> #[trigger] piece(place, n, key, j) == piece(
                    place,
                    m,
                    key,
                    j,
                )
        }),
    decreases pieces.len(),
{
    if pieces.len() > 0 {
        let next = with_piece(place, m, piece_name(place, key, i), pieces[0])->Ok_0;
        let rest = pieces.skip(1);
        if place == Pieces::Cookies {
            assert(piece(place, m, key, i) is None);
        }
        lemma_piece_put(place, m, key, i, pieces[0]);
        lemma_pieces_put(place, next, key, rest, i + 1);
        let n = with_pieces(place, m, key, pieces, i).0;
        assert forall|j: nat| i <= j < i + pieces.len() implies #[trigger] piece(place, n, key, j)
            == Some(pieces[j - i]) by {
            if j > i {
                assert(rest[j - (i + 1)] == pieces[j - i]);
            }
        }
    }
}

proof fn lemma_joined(place: Pieces, m: Fields, key: Seq<char>, pieces: Seq<Seq<char>>, n: nat)
    requires
        n <= pieces.len(),
        forall|j: nat|
            j < pieces.len() ==> #[trigger] piece(place, m, key, j) == Some(pieces[j as int]),
    ensures
        joined(place, m, key, n) == text::flat(pieces.take(n as int)),
    decreases n,
{
    if n > 0 {
        lemma_joined(place, m, key, pieces, (n - 1) as nat);
        assert(pieces.take(n as int).drop_last() =~= pieces.take(n - 1));
        assert(pieces.take(n as int).last() == pieces[n - 1]);
        assert(piece(place, m, key, (n - 1) as nat) == Some(pieces[n - 1]));
    }
}

/// Pieces of a text that were put into a request are collected to the text again,
/// where their places were free.
pub proof fn pieces_are_collected(place: Pieces, m: Fields, key: Seq<char>, s: Seq<char>)
    requires
        forall|i: int| 0 <= i < s.len() ==> encoding::is_url_safe(#[trigger] s[i]),
        with_pieces(place, m, key, chunks(s, piece_size(place)), 0).1 is None,
        places_free(place, m, key, chunks(s, piece_size(place)).len()),
    ensures
        collected(place, with_pieces(place, m, key, chunks(s, piece_size(place)), 0).0, key) == s,
{
    let pieces = chunks(s, piece_size(place));
    let n = with_pieces(place, m, key, pieces, 0).0;
    lemma_chunks_are_ids(s, piece_size(place));
    chunks_are_the_text(s, piece_size(place));
    lemma_pieces_put(place, m, key, pieces, 0);
    assert forall|j: nat| j < pieces.len() implies #[trigger] piece(place, n, key, j) == Some(
        pieces[j as int],
    ) by {
        assert(pieces[j - 0] == pieces[j as int]);
    }
    assert(is_run(place, n, key, pieces.len()));
    run_is_unique(place, n, key, pieces.len());
    lemma_joined(place, n, key, pieces, pieces.len());
    assert(pieces.take(pieces.len() as int) =~= pieces);
}

spec fn has_room(place: Pieces, m: Fields, pieces: nat) -> bool {
    match place {
        Pieces::Fields => header::room(m, pieces),
        Pieces::Cookies => header::room(m, 1) && (m.dom().contains("cookie"@) || header::room(m, 2)),
    }
}

fn put_piece(place: Pieces, name: &str, value: &str, headers: &mut axum::http::HeaderMap) -> (r:
    Result<(), ProtocolError>)
    requires
        has_room(place, header::contents(*old(headers)), 1),
        round_trip::is_id(value@),
    ensures
        match with_piece(place, header::contents(*old(headers)), name@, value@) {
            Ok(m) => r is Ok && header::contents(*final(headers)) == m,
            Err(e) => r == Err::<(), ProtocolError>(e) && *final(headers) == *old(headers),
        },
{
    match place {
        Pieces::Fields => {
            if !header::check_name(name) {
                return Err(ProtocolError::HeaderName);
            }
            proof {
                round_trip::id_is_plain(value@);
                round_trip::plain_text_is_a_value(value@);
            }
            let bytes = text::text_bytes(value);
            header::insert(headers, name, bytes.as_slice());
            Ok(())
        },
        Pieces::Cookies => metadata::append_cookie(headers, name, value),
    }
}

proof fn lemma_room_left(place: Pieces, m: Fields, name: Seq<char>, value: Seq<char>, pieces: nat)
    requires
        has_room(place, m, pieces),
        pieces > 0,
        with_piece(place, m, name, value) is Ok,
    ensures
        has_room(place, with_piece(place, m, name, value)->Ok_0, (pieces - 1) as nat),
        has_room(place, m, 1),
{
    match place {
        Pieces::Fields => {
            header::lemma_room(
                m,
                pieces,
                text::lower(name),
                seq![vstd::utf8::encode_utf8(value)],
            );
        },
        Pieces::Cookies => {
            let n = with_piece(place, m, name, value)->Ok_0;
            assert(n.dom() =~= m.dom().insert("cookie"@));
        },
    }
}

/// A name that pieces can be numbered behind: letters, digits, `-` and `_`.
pub open spec fn is_piece_key(key: Seq<char>) -> bool {
    round_trip::is_id(key) && key.len() <= 65000
}

spec fn ten_to(k: nat) -> nat
    decreases k,
{
    if k == 0 {
        1
    } else {
        10 * ten_to((k - 1) as nat)
    }
}

proof fn lemma_decimal_short(n: nat, k: nat)
    requires
        n < ten_to(k),
        k > 0,
    ensures
        text::decimal(n).len() <= k,
    decreases k,
{
    if n >= 10 {
        assert(k > 1) by {
            reveal_with_fuel(ten_to, 3);
        }
        assert(n / 10 < ten_to((k - 1) as nat));
        lemma_decimal_short(n / 10, (k - 1) as nat);
    }
}

/// A piece of letters and digits can be put in under such a name.
proof fn lemma_piece_fits(place: Pieces, m: Fields, key: Seq<char>, i: u64, value: Seq<char>)
    requires
        is_piece_key(key),
        round_trip::is_id(value),
    ensures
        with_piece(place, m, piece_name(place, key, i as nat), value) is Ok,
{
    let d = text::decimal(i as nat);
    let name = piece_name(place, key, i as nat);
    round_trip::decimal_is_id(i as nat);
    assert(u64::MAX < ten_to(20)) by {
        reveal_with_fuel(ten_to, 21);
    }
    lemma_decimal_short(i as nat, 20);
    assert forall|k: int| 0 <= k < name.len() implies encoding::is_url_safe(#[trigger] name[k]) by {
        if k < key.len() {
            assert(name[k] == key[k]);
        } else if k > key.len() {
            assert(name[k] == d[k - key.len() - 1]);
        }
    }
    match place {
        Pieces::Fields => {
            assert forall|k: int| 0 <= k < name.len() implies header::is_token_char(
                #[trigger] name[k],
            ) by {
                assert(encoding::is_url_safe(name[k]));
            }
        },
        Pieces::Cookies => {
            let c = metadata::cookie(name, value);
            round_trip::id_is_plain(name);
            round_trip::id_is_plain(value);
            assert forall|k: int| 0 <= k < c.len() implies ' ' <= (#[trigger] c[k]) <= '~' || c[k]
                == '\t' by {
                if k < name.len() {
                    assert(c[k] == name[k]);
                } else if k > name.len() {
                    assert(c[k] == value[k - name.len() - 1]);
                }
            }
            round_trip::plain_text_is_a_value(c);
        },
    }
}

fn put_pieces(place: Pieces, key: &str, encoded: &str, headers: &mut axum::http::HeaderMap) -> (r:
    Result<(), ProtocolError>)
    requires
        has_room(
            place,
            header::contents(*old(headers)),
            chunks(encoded@, piece_size(place)).len(),
        ),
        forall|i: int| 0 <= i < encoded@.len() ==> encoding::is_url_safe(#[trigger] encoded@[i]),
    ensures
        ({
            let (m, e) = with_pieces(
                place,
                header::contents(*old(headers)),
                key@,
                chunks(encoded@, piece_size(place)),
                0,
            );
            &&& header::contents(*final(headers)) == m
            &&& match e {
                Some(e) => r == Err::<(), ProtocolError>(e),
                None => r is Ok,
            }
        }),
        is_piece_key(key@) ==> r is Ok,
{
    let v = text::to_chars(encoded);
    let size: usize = match place {
        Pieces::Fields => 3000,
        Pieces::Cookies => 2000,
    };
    let total: usize = v.len();
    let mut at: usize = 0;
    let mut i: u64 = 0;
    let ghost start = header::contents(*headers);
    proof {
        assert(v@.skip(0) =~= v@);
    }
    while at < total
        invariant
            v@ == encoded@,
            size == piece_size(place),
            total == v@.len(),
            at <= total,
            i <= at,
            forall|k: int| 0 <= k < v@.len() ==> encoding::is_url_safe(#[trigger] v@[k]),
            has_room(
                place,
                header::contents(*headers),
                chunks(v@.skip(at as int), size as nat).len(),
            ),
            with_pieces(place, start, key@, chunks(v@, size as nat), 0) == with_pieces(
                place,
                header::contents(*headers),
                key@,
                chunks(v@.skip(at as int), size as nat),
                i as nat,
            ),
            start == header::contents(*old(headers)),
        decreases total - at,
    {
        let next: usize = if total - at <= size {
            total
        } else {
            at + size
        };
        let ghost rest = v@.skip(at as int);
        let ghost pieces = chunks(rest, size as nat);
        proof {
            if total - at <= size {
                assert(v@.subrange(at as int, next as int) =~= rest);
                assert(pieces.skip(1) =~= Seq::<Seq<char>>::empty());
                assert(chunks(v@.skip(next as int), size as nat) =~= Seq::<Seq<char>>::empty());
            } else {
                assert(v@.subrange(at as int, next as int) =~= rest.take(size as int));
                assert(rest.skip(size as int) =~= v@.skip(next as int));
                assert(pieces.skip(1) =~= chunks(v@.skip(next as int), size as nat));
            }
            assert(pieces[0] == v@.subrange(at as int, next as int));
        }
        let value = text::to_text(&v.as_slice()[at..next]);
        let name = name_of_piece(place, key, i);
        proof {
            assert(round_trip::is_id(value@));
            assert(has_room(place, header::contents(*headers), 1)) by {
                if place == Pieces::Fields {
                    header::lemma_room(header::contents(*headers), pieces.len(), seq![], seq![]);
                }
            }
            if is_piece_key(key@) {
                lemma_piece_fits(place, header::contents(*headers), key@, i, value@);
            }
            if with_piece(place, header::contents(*headers), name@, value@) is Ok {
                lemma_room_left(place, header::contents(*headers), name@, value@, pieces.len());
            }
        }
        match put_piece(place, name.as_str(), value.as_str(), headers) {
            Err(e) => {
                return Err(e);
            },
            Ok(()) => {},
        }
        at = next;
        i = i + 1;
    }
    Ok(())
}

/// Puts the bytes of a packet into a request: into its body, which is handed back,
/// or into numbered pieces in the fields or cookies. They are read back out of a
/// request in which the places for them were free.
pub fn put_payload(
    config: &TransportConfig,
    payload: &[u8],
    headers: &mut axum::http::HeaderMap,
) -> (r: Result<Option<Vec<u8>>, ProtocolError>)
    requires
        payload@.len() <= usize::MAX / 3,
        payload_room(config.data_placement, header::contents(*old(headers)), payload@.len()),
    ensures
        ({
            let (m, e) = with_payload(*config, header::contents(*old(headers)), payload@);
            &&& header::contents(*final(headers)) == m
            &&& match e {
                Some(e) => r == Err::<Option<Vec<u8>>, ProtocolError>(e),
                None => r is Ok && encoding::opt_bytes(r->Ok_0) == (if in_body(
                    config.data_placement,
                ) {
                    Some(payload@)
                } else {
                    None
                }),
            }
        }),
        in_body(config.data_placement) || (pieces_of(config.data_placement) is Some && is_piece_key(
            config.data_key@,
        )) ==> r is Ok,
        r is Ok && takes_payload(*config, header::contents(*old(headers)), payload@) ==> payload_in(
            *config,
            header::contents(*final(headers)),
            match r->Ok_0 {
                Some(body) => body@,
                None => Seq::empty(),
            },
        ) == Ok::<Seq<u8>, ProtocolError>(payload@),
{
    let place = match config.data_placement {
        Placement::Body | Placement::Auto => {
            let body = text::copy_bytes(payload);
            proof {
                let m = header::contents(*headers);
                if config.data_placement == Placement::Auto && takes_payload(*config, m, payload@) {
                    assert(is_run(Pieces::Fields, m, config.data_key@, 0));
                    assert(is_run(Pieces::Cookies, m, config.data_key@, 0));
                    run_is_unique(Pieces::Fields, m, config.data_key@, 0);
                    run_is_unique(Pieces::Cookies, m, config.data_key@, 0);
                    assert(Seq::<u8>::empty() + Seq::<u8>::empty() + payload@ =~= payload@);
                }
            }
            return Ok(Some(body));
        },
        Placement::Header => Pieces::Fields,
        Placement::Cookie => Pieces::Cookies,
        _ => {
            return Err(ProtocolError::PayloadPlacement);
        },
    };
    let encoded = encoding::encode_url_safe(payload);
    let ghost m = header::contents(*headers);
    proof {
        let pieces = chunks(encoded@, piece_size(place));
        lemma_chunk_count(encoded@, piece_size(place));
        match place {
            Pieces::Fields => {
                let n = pieces.len();
                assert(n * 3000 < encoded@.len() + 3000);
                assert(n <= encoded@.len() / 3000 + 1);
            },
            Pieces::Cookies => {},
        }
        if with_pieces(place, m, config.data_key@, pieces, 0).1 is None && takes_payload(
            *config,
            m,
            payload@,
        ) {
            pieces_are_collected(place, m, config.data_key@, encoded@);
        }
    }
    match put_pieces(place, config.data_key.as_str(), encoded.as_str(), headers) {
        Err(e) => Err(e),
        Ok(()) => Ok(None),
    }
}

/// A packet is read where the settings put it: from the body, from the numbered
/// fields or cookies, or from all of them one behind the other where the place is
/// left open; text that stands for no bytes is refused.
pub proof fn packets_are_read_where_they_are_put(config: TransportConfig, m: Fields, body: Seq<u8>)
    ensures
        config.data_placement == Placement::Body ==> payload_in(config, m, body) == Ok::<
            Seq<u8>,
            ProtocolError,
        >(body),
        config.data_placement == Placement::Header ==> (match encoding::url_safe_decoded(
            collected(Pieces::Fields, m, config.data_key@),
        ) {
            Some(b) => payload_in(config, m, body) == Ok::<Seq<u8>, ProtocolError>(b),
            None => payload_in(config, m, body) is Err,
        }),
        config.data_placement == Placement::Cookie ==> (match encoding::url_safe_decoded(
            collected(Pieces::Cookies, m, config.data_key@),
        ) {
            Some(b) => payload_in(config, m, body) == Ok::<Seq<u8>, ProtocolError>(b),
            None => payload_in(config, m, body) is Err,
        }),
        config.data_placement == Placement::Auto && collected(
            Pieces::Fields,
            m,
            config.data_key@,
        ).len() == 0 && collected(Pieces::Cookies, m, config.data_key@).len() == 0 ==> payload_in(
            config,
            m,
            body,
        ) == Ok::<Seq<u8>, ProtocolError>(body),
        config.data_placement != Placement::Body && config.data_placement != Placement::Header
            && config.data_placement != Placement::Cookie && config.data_placement
            != Placement::Auto ==> payload_in(config, m, body) is Err,
{
    let none = Seq::<u8>::empty();
    assert(none + none + body =~= body);
}

} // verus!
