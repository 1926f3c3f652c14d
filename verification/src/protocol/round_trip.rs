//! What is written into a request is read out of it again.
use crate::config::{self, Placement, TransportConfig};
use crate::encoding;
use crate::header;
use crate::location::Pairs;
use crate::protocol::metadata::{
    cookie, cookie_in, in_field, in_fields, in_parts, last_value, longer_path, non_empty, part_value,
    path_values, sequence_in, session_in, with_cookie, Fields,
};
use crate::text;
use vstd::prelude::*;

verus! {

/// A text of visible ASCII letters, spaces and tabs.
pub open spec fn is_plain_text(s: Seq<char>) -> bool {
    forall|i: int| 0 <= i < s.len() ==> ' ' <= (#[trigger] s[i]) <= '~' || s[i] == '\t'
}

/// What can be the name of a cookie: no `;` and no `=` in it, no space in front.
pub open spec fn is_cookie_name(s: Seq<char>) -> bool {
    is_plain_text(s) && !s.contains(';') && !s.contains('=') && (s.len() > 0 ==> !text::is_space(
        s[0],
    ))
}

/// What can be the value of a cookie: no `;` in it and no space at its end.
pub open spec fn is_cookie_text(s: Seq<char>) -> bool {
    is_plain_text(s) && !s.contains(';') && (s.len() > 0 ==> !text::is_space(s.last()))
}

/// One or more letters, digits, `-` or `_`.
pub open spec fn is_id(s: Seq<char>) -> bool {
    s.len() > 0 && forall|i: int| 0 <= i < s.len() ==> encoding::is_url_safe(#[trigger] s[i])
}

/// What a place of a request carries as it is: a path letters, digits, `-` and `_`, a
/// field and a cookie what can stand there, and a query any text.
pub open spec fn fits_place(placement: Placement, s: Seq<char>) -> bool {
    match placement {
        Placement::Path => is_id(s),
        Placement::Query => true,
        Placement::Header => is_plain_text(s),
        Placement::Cookie => is_cookie_text(s),
        _ => false,
    }
}

/// A path, the pairs of a query, and the fields of a request.
pub struct Request {
    pub path: Seq<char>,
    pub pairs: Pairs,
    pub fields: Fields,
}

/// The request with a value placed in it.
pub open spec fn with_value(r: Request, placement: Placement, key: Seq<char>, value: Seq<char>) -> Request {
    match placement {
        Placement::Path => Request { path: longer_path(r.path, value), ..r },
        Placement::Query => Request { pairs: r.pairs.push((key, value)), ..r },
        Placement::Header => Request {
            fields: r.fields.insert(text::lower(key), seq![vstd::utf8::encode_utf8(value)]),
            ..r
        },
        Placement::Cookie => match with_cookie(r.fields, key, value) {
            Ok(fields) => Request { fields, ..r },
            Err(_) => r,
        },
        _ => r,
    }
}

/// The places of the session and the number in a request do not get in each
/// other's way, nor in that of what the request holds already.
pub open spec fn apart(config: TransportConfig, r: Request) -> bool {
    &&& config.session_placement == Placement::Query && config.sequence_placement
        == Placement::Query ==> config.session_key@ != config.sequence_key@
    &&& config.session_placement == Placement::Header ==> text::lower(config.session_key@)
        != "cookie"@ && (config.sequence_placement == Placement::Header ==> text::lower(
        config.session_key@,
    ) != text::lower(config.sequence_key@))
    &&& config.sequence_placement == Placement::Header ==> text::lower(config.sequence_key@)
        != "cookie"@
    &&& config.session_placement == Placement::Cookie ==> is_cookie_name(config.session_key@)
        && cookie_in(r.fields, config.session_key@) is None && (config.sequence_placement
        == Placement::Cookie ==> config.session_key@ != config.sequence_key@)
    &&& config.sequence_placement == Placement::Cookie ==> is_cookie_name(config.sequence_key@)
        && cookie_in(r.fields, config.sequence_key@) is None
}

/// The configured path is in its normal form, of plain letters, and the request is
/// for that path.
pub open spec fn at_path(config: TransportConfig, path: Seq<char>) -> bool {
    let c = config.path@;
    &&& crate::location::is_plain_path(c)
    &&& c.len() > 1 ==> c.last() != '/'
    &&& text::trim_end(path, '/') == text::trim_end(c, '/')
}

// ---- texts ----

/// A text of visible letters can be the value of a field, and is read back as it
/// was.
pub proof fn plain_text_is_a_value(s: Seq<char>)
    requires
        is_plain_text(s),
    ensures
        config::is_field_value(s),
        header::value_text(vstd::utf8::encode_utf8(s)) == Some(s),
{
    assert(vstd::utf8::is_ascii_chars(s)) by {
        assert forall|i: int| 0 <= i < s.len() implies (#[trigger] s[i]) as nat <= 127 by {}
    }
    vstd::utf8::is_ascii_chars_encode_utf8(s);
    let b = vstd::utf8::encode_utf8(s);
    assert forall|i: int| 0 <= i < b.len() implies header::is_value_byte(#[trigger] b[i]) by {
        assert(b[i] == s[i] as u8);
    }
    assert forall|i: int| 0 <= i < b.len() implies header::is_text_byte(#[trigger] b[i]) by {
        assert(b[i] == s[i] as u8);
    }
    assert(header::ascii(b) =~= s);
}

/// Letters and digits can stand in a field, in a cookie and in a path.
pub proof fn id_is_plain(s: Seq<char>)
    requires
        is_id(s),
    ensures
        is_plain_text(s),
        is_cookie_text(s),
        !s.contains('/'),
{
    assert forall|i: int| 0 <= i < s.len() implies ' ' <= (#[trigger] s[i]) <= '~' by {
        assert(encoding::is_url_safe(s[i]));
    }
    if s.contains(';') {
        let i = choose|i: int| 0 <= i < s.len() && s[i] == ';';
        assert(encoding::is_url_safe(s[i]));
    }
    if s.contains('/') {
        let i = choose|i: int| 0 <= i < s.len() && s[i] == '/';
        assert(encoding::is_url_safe(s[i]));
    }
    assert(encoding::is_url_safe(s[s.len() - 1]));
}

/// The digits of a number are letters that stand in a path as they are.
pub proof fn decimal_is_id(n: nat)
    ensures
        is_id(text::decimal(n)),
    decreases n,
{
    if n < 10 {
        assert(text::decimal(n) =~= seq![(n + 48) as char]);
    } else {
        decimal_is_id(n / 10);
        let d = text::decimal(n / 10);
        let c = (n % 10 + 48) as char;
        assert(text::decimal(n) == d.push(c));
        assert forall|i: int| 0 <= i < d.push(c).len() implies encoding::is_url_safe(
            #[trigger] d.push(c)[i],
        ) by {
            if i < d.len() {
                assert(encoding::is_url_safe(d[i]));
            }
        }
    }
}

// ---- pairs ----

proof fn lemma_last_value(pairs: Pairs, k: Seq<char>, v: Seq<char>, other: Seq<char>)
    ensures
        last_value(pairs.push((k, v)), k) == Some(v),
        other != k ==> last_value(pairs.push((k, v)), other) == last_value(pairs, other),
{
    assert(pairs.push((k, v)).last() == (k, v));
    assert(pairs.push((k, v)).drop_last() =~= pairs);
}

// ---- cookies ----

proof fn lemma_cookie_field(key: Seq<char>, value: Seq<char>, other: Seq<char>)
    requires
        is_cookie_name(key),
        is_cookie_text(value),
    ensures
        header::is_value(vstd::utf8::encode_utf8(cookie(key, value))),
        in_field(vstd::utf8::encode_utf8(cookie(key, value)), key) == Some(value),
        other != key ==> in_field(vstd::utf8::encode_utf8(cookie(key, value)), other) is None,
{
    let t = cookie(key, value);
    let n = key.len() as int;
    assert forall|i: int| 0 <= i < t.len() implies ' ' <= (#[trigger] t[i]) <= '~' || t[i] == '\t'
        && t[i] != ';' by {
        if i < n {
            assert(t[i] == key[i]);
        } else if i > n {
            assert(t[i] == value[i - n - 1]);
        }
    }
    plain_text_is_a_value(t);
    assert forall|i: int| 0 <= i < t.len() implies t[i] != ';' by {
        if i < n {
            assert(t[i] == key[i]);
            assert(key.contains(key[i]));
        } else if i > n {
            assert(t[i] == value[i - n - 1]);
            assert(value.contains(value[i - n - 1]));
        }
    }
    text::lemma_span(t, ';', t.len() as int);
    assert(text::split(t, ';') =~= seq![t]);
    assert(!text::is_space(t[0])) by {
        if n > 0 {
            assert(t[0] == key[0]);
        }
    }
    assert(!text::is_space(t.last())) by {
        if value.len() > 0 {
            assert(t.last() == value.last());
        }
    }
    assert(text::trim_space(t) == t);
    assert forall|i: int| 0 <= i < n implies t[i] != '=' by {
        assert(t[i] == key[i]);
        assert(key.contains(key[i]));
    }
    text::lemma_span(t, '=', n);
    assert(t.take(n) =~= key);
    assert(t.skip(n + 1) =~= value);
    let parts = seq![t];
    assert(parts.skip(1) =~= Seq::<Seq<char>>::empty());
    assert(in_parts(parts.skip(1), other) is None);
    assert(part_value(t, key) == Some(value));
    if other != key {
        assert(part_value(t, other) is None);
    }
}

proof fn lemma_in_fields(values: Seq<Seq<u8>>, b: Seq<u8>, key: Seq<char>)
    ensures
        in_fields(values.push(b), key) == (match in_fields(values, key) {
            Some(v) => Some(v),
            None => in_field(b, key),
        }),
    decreases values.len(),
{
    let all = values.push(b);
    if values.len() == 0 {
        assert(all.skip(1) =~= Seq::<Seq<u8>>::empty());
        assert(in_fields(all.skip(1), key) is None);
    } else {
        assert(all.skip(1) =~= values.skip(1).push(b));
        lemma_in_fields(values.skip(1), b, key);
    }
}

/// A cookie that was put behind others is read back, where none of its name was
/// there, and the others stay.
pub proof fn cookie_reads_back(m: Fields, key: Seq<char>, value: Seq<char>)
    requires
        is_cookie_name(key),
        is_cookie_text(value),
        cookie_in(m, key) is None,
    ensures
        with_cookie(m, key, value) matches Ok(n) && cookie_in(n, key) == Some(value) && forall|
            other: Seq<char>,
        |
            other != key ==> #[trigger] cookie_in(n, other) == cookie_in(m, other),
{
    let b = vstd::utf8::encode_utf8(cookie(key, value));
    lemma_cookie_field(key, value, key);
    lemma_in_fields(header::values_under(m, "cookie"@), b, key);
    let n = with_cookie(m, key, value)->Ok_0;
    assert forall|other: Seq<char>| other != key implies #[trigger] cookie_in(n, other)
        == cookie_in(m, other) by {
        lemma_cookie_field(key, value, other);
        lemma_in_fields(header::values_under(m, "cookie"@), b, other);
    }
}

// ---- paths ----

proof fn lemma_split_front(a: Seq<char>, rest: Seq<char>)
    requires
        !a.contains('/'),
    ensures
        text::split(a + seq!['/'] + rest, '/') == seq![a] + text::split(rest, '/'),
{
    let s = a + seq!['/'] + rest;
    let n = a.len() as int;
    assert forall|i: int| 0 <= i < n implies s[i] != '/' by {
        assert(s[i] == a[i]);
        assert(a.contains(a[i]));
    }
    assert(s[n] == '/');
    text::lemma_span(s, '/', n);
    assert(s.take(n) =~= a);
    assert(s.skip(n + 1) =~= rest);
}

proof fn lemma_split_one(a: Seq<char>)
    requires
        !a.contains('/'),
    ensures
        text::split(a, '/') == seq![a],
{
    assert forall|i: int| 0 <= i < a.len() implies a[i] != '/' by {
        assert(a.contains(a[i]));
    }
    text::lemma_span(a, '/', a.len() as int);
}

proof fn lemma_non_empty_front(a: Seq<char>, rest: Seq<Seq<char>>)
    ensures
        non_empty(seq![a] + rest) == (if a.len() > 0 {
            seq![a]
        } else {
            Seq::empty()
        }) + non_empty(rest),
    decreases rest.len(),
{
    let head = if a.len() > 0 {
        seq![a]
    } else {
        Seq::<Seq<char>>::empty()
    };
    if rest.len() == 0 {
        assert((seq![a] + rest).drop_last() =~= Seq::<Seq<char>>::empty());
        assert((seq![a] + rest).last() == a);
        assert(non_empty(Seq::<Seq<char>>::empty()) =~= Seq::<Seq<char>>::empty());
        assert(non_empty(seq![a] + rest) =~= head + non_empty(rest));
    } else {
        lemma_non_empty_front(a, rest.drop_last());
        assert((seq![a] + rest).drop_last() =~= seq![a] + rest.drop_last());
        assert((seq![a] + rest).last() == rest.last());
        assert(non_empty(seq![a] + rest) =~= head + non_empty(rest));
    }
}

/// The values of a text behind a slash, or of a text of one value.
proof fn lemma_segments(v: Seq<char>, w: Seq<char>)
    requires
        v.len() > 0,
        !v.contains('/'),
        w.len() > 0,
        !w.contains('/'),
    ensures
        non_empty(text::split(v, '/')) == seq![v],
        non_empty(text::split(seq!['/'] + v, '/')) == seq![v],
        non_empty(text::split(v + seq!['/'] + w, '/')) == seq![v, w],
        non_empty(text::split(seq!['/'] + v + seq!['/'] + w, '/')) == seq![v, w],
{
    let none = Seq::<char>::empty();
    let empty = Seq::<Seq<char>>::empty();
    assert(non_empty(empty) =~= empty);
    lemma_split_one(v);
    lemma_split_one(w);
    assert(seq![v] =~= seq![v] + empty);
    assert(seq![w] =~= seq![w] + empty);
    lemma_non_empty_front(v, empty);
    lemma_non_empty_front(w, empty);
    assert(seq![v] + empty =~= seq![v]);
    assert(seq![w] + empty =~= seq![w]);
    assert(none + seq!['/'] + v =~= seq!['/'] + v);
    lemma_split_front(none, v);
    lemma_non_empty_front(none, seq![v]);
    assert(empty + seq![v] =~= seq![v]);
    lemma_split_front(v, w);
    lemma_non_empty_front(v, seq![w]);
    assert(seq![v] + seq![w] =~= seq![v, w]);
    let vw = v + seq!['/'] + w;
    assert(none + seq!['/'] + vw =~= seq!['/'] + v + seq!['/'] + w);
    lemma_split_front(none, vw);
    lemma_non_empty_front(none, seq![v] + seq![w]);
    assert(empty + seq![v, w] =~= seq![v, w]);
}

/// The base of a path in its normal form, and what follows it.
proof fn lemma_base(config: TransportConfig, path: Seq<char>, tail: Seq<char>)
    requires
        at_path(config, path),
    ensures
        ({
            let c = config.path@;
            let base = text::trim_end(path, '/');
            let s = base + seq!['/'] + tail;
            &&& text::starts_with(s, c)
            &&& s.skip(c.len() as int) == (if c.len() > 1 {
                seq!['/'] + tail
            } else {
                tail
            })
        }),
{
    let c = config.path@;
    let base = text::trim_end(path, '/');
    let s = base + seq!['/'] + tail;
    if c.len() > 1 {
        assert(text::trim_end(c, '/') == c);
        assert(s.take(c.len() as int) =~= c);
        assert(s.skip(c.len() as int) =~= seq!['/'] + tail);
    } else {
        assert(c =~= seq!['/']);
        assert(text::trim_end(c, '/') =~= Seq::<char>::empty()) by {
            reveal_with_fuel(text::trim_end, 3);
            assert(c.drop_last() =~= Seq::<char>::empty());
        }
        assert(s =~= seq!['/'] + tail);
        assert(s.take(1) =~= c);
        assert(s.skip(1) =~= tail);
    }
}

/// The values of a path behind the configured one, once one or two were placed
/// there.
proof fn lemma_path_values(config: TransportConfig, path: Seq<char>, v: Seq<char>, w: Seq<char>)
    requires
        at_path(config, path),
        is_id(v),
        is_id(w),
    ensures
        path_values(config.path@, longer_path(path, v)) == seq![v],
        path_values(config.path@, longer_path(longer_path(path, v), w)) == seq![v, w],
{
    id_is_plain(v);
    id_is_plain(w);
    let base = text::trim_end(path, '/');
    lemma_base(config, path, v);
    lemma_segments(v, w);
    let one = longer_path(path, v);
    assert(one == base + seq!['/'] + v);
    assert(one.last() == v.last());
    assert(encoding::is_url_safe(v[v.len() - 1]));
    assert(text::trim_end(one, '/') == one);
    let two = longer_path(one, w);
    let tail = v + seq!['/'] + w;
    lemma_base(config, path, tail);
    assert(two =~= base + seq!['/'] + tail);
    assert(seq!['/'] + tail =~= seq!['/'] + v + seq!['/'] + w);
}

// ---- the law ----

proof fn lemma_fields_kept(m: Fields, k: Seq<char>, values: Seq<Seq<u8>>, other: Seq<char>)
    ensures
        header::values_under(m.insert(k, values), k) == values,
        other != k ==> header::values_under(m.insert(k, values), other) == header::values_under(
            m,
            other,
        ),
{
}

proof fn lemma_words()
    ensures
        text::lower("cookie"@) == "cookie"@,
{
    reveal_strlit("cookie");
    assert(text::lower("cookie"@) =~= "cookie"@);
}

/// What one placement changes: the value is read back at its place, and what is
/// read elsewhere stays.
proof fn lemma_reads_back(r: Request, placement: Placement, key: Seq<char>, value: Seq<char>, other: Seq<char>)
    requires
        fits_place(placement, value),
        placement == Placement::Header ==> text::lower(key) != "cookie"@,
        placement == Placement::Cookie ==> is_cookie_name(key) && cookie_in(r.fields, key) is None,
    ensures
        ({
            let s = with_value(r, placement, key, value);
            &&& placement == Placement::Query ==> last_value(s.pairs, key) == Some(value) && (other
                != key ==> last_value(s.pairs, other) == last_value(r.pairs, other))
            &&& placement != Placement::Query ==> s.pairs == r.pairs
            &&& placement == Placement::Header ==> header::text_under(s.fields, key) == Some(value)
                && (text::lower(other) != text::lower(key) ==> header::text_under(s.fields, other)
                == header::text_under(r.fields, other))
            &&& placement != Placement::Cookie ==> cookie_in(s.fields, other) == cookie_in(
                r.fields,
                other,
            )
            &&& placement == Placement::Cookie ==> cookie_in(s.fields, key) == Some(value) && (other
                != key ==> cookie_in(s.fields, other) == cookie_in(r.fields, other))
            &&& placement == Placement::Cookie && text::lower(other) != "cookie"@
                ==> header::text_under(s.fields, other) == header::text_under(r.fields, other)
            &&& placement != Placement::Path ==> s.path == r.path
            &&& (placement == Placement::Path || placement == Placement::Query) ==> s.fields
                == r.fields
        }),
{
    if placement == Placement::Query {
        lemma_last_value(r.pairs, key, value, other);
    } else if placement == Placement::Header {
        plain_text_is_a_value(value);
        lemma_fields_kept(
            r.fields,
            text::lower(key),
            seq![vstd::utf8::encode_utf8(value)],
            text::lower(other),
        );
        lemma_fields_kept(
            r.fields,
            text::lower(key),
            seq![vstd::utf8::encode_utf8(value)],
            "cookie"@,
        );
    } else if placement == Placement::Cookie {
        let b = vstd::utf8::encode_utf8(cookie(key, value));
        let before = header::values_under(r.fields, "cookie"@);
        lemma_cookie_field(key, value, other);
        lemma_in_fields(before, b, key);
        lemma_in_fields(before, b, other);
        lemma_fields_kept(r.fields, "cookie"@, before.push(b), text::lower(other));
    }
}

/// The session that was written into a request is read out of it, wherever the
/// settings place it: its place carries it as it is, and the places do not get in
/// each other's way. A request that named no number still names none, and one that
/// named one elsewhere than in the path still does.
pub proof fn session_round_trip(config: TransportConfig, r: Request, session: Seq<char>)
    requires
        config::holds_metadata(config.sequence_placement),
        fits_place(config.session_placement, session),
        at_path(config, r.path),
        apart(config, r),
    ensures
        ({
            let s = with_value(r, config.session_placement, config.session_key@, session);
            &&& session_in(config, s.path, s.pairs, s.fields) == Some(session)
            &&& sequence_in(config, s.path, s.pairs, s.fields) == (if config.session_placement
                == Placement::Path && config.sequence_placement == Placement::Path {
                None
            } else {
                sequence_in(config, r.path, r.pairs, r.fields)
            })
        }),
{
    let k = config.session_key@;
    let l = config.sequence_key@;
    lemma_words();
    lemma_reads_back(r, config.session_placement, k, session, l);
    if config.session_placement == Placement::Path {
        lemma_path_values(config, r.path, session, session);
    }
}

/// The session and the number of a packet that were written into a request are
/// read out of it, wherever the settings place them: their places carry them as they
/// are, and do not get in each other's way.
pub proof fn metadata_round_trip(config: TransportConfig, r: Request, session: Seq<char>, sequence: u64)
    requires
        config::holds_metadata(config.sequence_placement),
        fits_place(config.session_placement, session),
        at_path(config, r.path),
        apart(config, r),
    ensures
        ({
            let number = text::decimal(sequence as nat);
            let s = with_value(r, config.session_placement, config.session_key@, session);
            let t = with_value(s, config.sequence_placement, config.sequence_key@, number);
            &&& session_in(config, t.path, t.pairs, t.fields) == Some(session)
            &&& sequence_in(config, t.path, t.pairs, t.fields) == Some(number)
            &&& text::number(number, u64::MAX as nat) == Some(sequence as nat)
        }),
{
    let number = text::decimal(sequence as nat);
    decimal_is_id(sequence as nat);
    id_is_plain(number);
    text::decimal_reads_back(sequence as nat, u64::MAX as nat);
    let k = config.session_key@;
    let l = config.sequence_key@;
    let s = with_value(r, config.session_placement, k, session);
    lemma_words();
    lemma_reads_back(r, config.session_placement, k, session, l);
    lemma_reads_back(s, config.sequence_placement, l, number, k);
    if config.session_placement == Placement::Path {
        lemma_path_values(config, r.path, session, number);
    }
    lemma_path_values(config, r.path, number, number);
}

/// What a server sees of a request for a URL.
pub open spec fn request_of(url: Seq<char>, fields: Fields) -> Request {
    Request {
        path: crate::location::url_path(url)->0,
        pairs: crate::location::url_pairs(url)->0,
        fields,
    }
}

/// The request with a session and a number placed in it.
pub open spec fn with_both(config: TransportConfig, r: Request, session: Seq<char>, sequence: u64) -> Request {
    with_value(
        with_value(r, config.session_placement, config.session_key@, session),
        config.sequence_placement,
        config.sequence_key@,
        text::decimal(sequence as nat),
    )
}

/// The path stays plain when letters and digits are placed behind it.
pub proof fn path_stays_plain(config: TransportConfig, path: Seq<char>, v: Seq<char>, w: Seq<char>)
    requires
        at_path(config, path),
        is_id(v),
        is_id(w),
    ensures
        crate::location::is_plain_path(longer_path(path, v)),
        crate::location::is_plain_path(longer_path(longer_path(path, v), w)),
{
    let c = config.path@;
    let base = text::trim_end(path, '/');
    text::lemma_trim_end(c, '/');
    let one = longer_path(path, v);
    assert forall|i: int| 0 <= i < one.len() implies encoding::is_url_safe(#[trigger] one[i])
        || one[i] == '/' by {
        if i < base.len() {
            assert(one[i] == c[i]);
        } else if i > base.len() {
            assert(one[i] == v[i - base.len() - 1]);
        }
    }
    assert(one[0] == '/') by {
        if base.len() > 0 {
            assert(one[0] == c[0]);
        }
    }
    assert(one.last() == v.last());
    assert(encoding::is_url_safe(v[v.len() - 1]));
    assert(text::trim_end(one, '/') == one);
    let two = longer_path(one, w);
    assert forall|i: int| 0 <= i < two.len() implies encoding::is_url_safe(#[trigger] two[i])
        || two[i] == '/' by {
        if i < one.len() {
            assert(two[i] == one[i]);
        } else if i > one.len() {
            assert(two[i] == w[i - one.len() - 1]);
        }
    }
    assert(two[0] == one[0]);
}

/// A session that settings can carry in a request for a URL, alone or with a number.
pub open spec fn carries(config: TransportConfig, url: Seq<char>, fields: Fields, session: Seq<char>) -> bool {
    &&& config::holds_metadata(config.sequence_placement)
    &&& fits_place(config.session_placement, session)
    &&& crate::location::is_web(url)
    &&& at_path(config, request_of(url, fields).path)
    &&& apart(config, request_of(url, fields))
}

} // verus!
