//! Header fields and methods of HTTP.
use crate::text;
use vstd::prelude::*;

verus! {

/// The map of header fields of the crate `http`, as `axum` hands it out.
#[verifier::external_type_specification]
#[verifier::external_body]
#[verifier::reject_recursive_types(T)]
pub struct ExHeaderMap<T>(axum::http::HeaderMap<T>);

/// The value of a header field.
#[verifier::external_type_specification]
#[verifier::external_body]
pub struct ExHeaderValue(axum::http::HeaderValue);

/// What a map of header fields holds: under each name, in lower case, its values
/// in order.
pub uninterp spec fn contents(h: axum::http::HeaderMap) -> Map<Seq<char>, Seq<Seq<u8>>>;

/// What a map without fields holds.
pub open spec fn nothing() -> Map<Seq<char>, Seq<Seq<u8>>> {
    Map::empty()
}

/// The letters of a token: letters, digits and some marks.
pub open spec fn is_token_char(c: char) -> bool {
    'a' <= c <= 'z' || 'A' <= c <= 'Z' || '0' <= c <= '9' || c == '!' || c == '#' || c == '$' || c
        == '%' || c == '&' || c == '\'' || c == '*' || c == '+' || c == '-' || c == '.' || c == '^'
        || c == '_' || c == '`' || c == '|' || c == '~'
}

/// One or more letters of a token and nothing else.
pub open spec fn is_token(s: Seq<char>) -> bool {
    s.len() > 0 && forall|i: int| 0 <= i < s.len() ==> is_token_char(#[trigger] s[i])
}

/// What can be the name of a header field.
pub open spec fn is_name(s: Seq<char>) -> bool {
    is_token(s) && s.len() <= 65535
}

/// A byte of the value of a header field: no control character but the tab.
pub open spec fn is_value_byte(b: u8) -> bool {
    (b >= 32 && b != 127) || b == 9
}

/// What can be the value of a header field.
pub open spec fn is_value(b: Seq<u8>) -> bool {
    forall|i: int| 0 <= i < b.len() ==> is_value_byte(#[trigger] b[i])
}

/// A map with these contents takes that many more names without refusing one.
pub open spec fn room(m: Map<Seq<char>, Seq<Seq<u8>>>, more: nat) -> bool {
    m.dom().finite() && m.dom().len() + more <= 6554
}

/// A name that was put in takes no more than one place.
pub proof fn lemma_room(m: Map<Seq<char>, Seq<Seq<u8>>>, more: nat, k: Seq<char>, v: Seq<Seq<u8>>)
    requires
        room(m, more),
        more > 0,
    ensures
        room(m.insert(k, v), (more - 1) as nat),
        forall|fewer: nat| fewer <= more ==> room(m, fewer),
{
    assert(m.insert(k, v).dom() =~= m.dom().insert(k));
}

/// Calls `HeaderName::from_bytes` of the crate `http`: a name is a token of at
/// most 65535 letters.
#[verifier::external_body]
pub(crate) fn check_name(s: &str) -> (r: bool)
    ensures
        r == is_name(s@),
{
    axum::http::HeaderName::from_bytes(s.as_bytes()).is_ok()
}

/// Calls `HeaderValue::from_bytes` of the crate `http`: a value holds no control
/// character but the tab.
#[verifier::external_body]
pub(crate) fn check_value(b: &[u8]) -> (r: bool)
    ensures
        r == is_value(b@),
{
    axum::http::HeaderValue::from_bytes(b).is_ok()
}

/// Calls `Method::from_bytes` of the crate `http`: a method is a token.
#[verifier::external_body]
pub(crate) fn check_method(s: &str) -> (r: bool)
    ensures
        r == is_token(s@),
{
    axum::http::Method::from_bytes(s.as_bytes()).is_ok()
}

/// Calls `HeaderMap::new` of the crate `http`: the map holds nothing.
#[verifier::external_body]
pub(crate) fn no_headers() -> (r: axum::http::HeaderMap)
    ensures
        contents(r) == nothing(),
{
    axum::http::HeaderMap::new()
}

/// Calls `HeaderMap::clone` of the crate `http`: the copy holds the same.
#[verifier::external_body]
pub(crate) fn copy_headers(h: &axum::http::HeaderMap) -> (r: axum::http::HeaderMap)
    ensures
        contents(r) == contents(*h),
{
    h.clone()
}

/// Calls `HeaderMap::insert` of the crate `http`: the value takes the place of all
/// values under the name. The map takes up to 32768 slots and refuses to grow
/// beyond them, which with few enough names in it never comes up.
#[verifier::external_body]
pub(crate) fn insert(h: &mut axum::http::HeaderMap, name: &str, value: &[u8])
    requires
        is_name(name@),
        is_value(value@),
        room(contents(*old(h)), 1),
    ensures
        contents(*final(h)) == contents(*old(h)).insert(text::lower(name@), seq![value@]),
{
    let name = axum::http::HeaderName::from_bytes(name.as_bytes()).expect("a name");
    let value = axum::http::HeaderValue::from_bytes(value).expect("a value");
    h.insert(name, value);
}

/// Calls `HeaderMap::append` of the crate `http`: the value is put behind those
/// under the name.
#[verifier::external_body]
pub(crate) fn append(h: &mut axum::http::HeaderMap, name: &str, value: &[u8])
    requires
        is_name(name@),
        is_value(value@),
        room(contents(*old(h)), 1),
    ensures
        contents(*final(h)) == contents(*old(h)).insert(
            text::lower(name@),
            values_under(contents(*old(h)), text::lower(name@)).push(value@),
        ),
{
    let name = axum::http::HeaderName::from_bytes(name.as_bytes()).expect("a name");
    let value = axum::http::HeaderValue::from_bytes(value).expect("a value");
    h.append(name, value);
}

/// Calls `HeaderMap::get` of the crate `http`: the first value under the name,
/// whatever its case. A map holds at most 32768 names.
#[verifier::external_body]
pub(crate) fn get(h: &axum::http::HeaderMap, name: &str) -> (r: Option<Vec<u8>>)
    ensures
        match r {
            Some(v) => values_under(contents(*h), text::lower(name@)).len() > 0 && v@
                == values_under(contents(*h), text::lower(name@))[0]
                && contents(*h).dom().finite() && contents(*h).dom().len() <= 32768,
            None => values_under(contents(*h), text::lower(name@)).len() == 0,
        },
{
    h.get(name).map(|v| v.as_bytes().to_vec())
}

/// Calls `HeaderMap::get_all` of the crate `http`: the values under the name, in
/// order, whatever its case.
#[verifier::external_body]
pub(crate) fn get_all(h: &axum::http::HeaderMap, name: &str) -> (r: Vec<Vec<u8>>)
    ensures
        byte_views(r@) == values_under(contents(*h), text::lower(name@)),
{
    h.get_all(name).iter().map(|v| v.as_bytes().to_vec()).collect()
}

/// The values under a name, none where the name is not there.
pub open spec fn values_under(m: Map<Seq<char>, Seq<Seq<u8>>>, name: Seq<char>) -> Seq<Seq<u8>> {
    if m.dom().contains(name) {
        m[name]
    } else {
        Seq::empty()
    }
}

pub open spec fn byte_views(s: Seq<Vec<u8>>) -> Seq<Seq<u8>> {
    s.map_values(|v: Vec<u8>| v@)
}

/// A byte that a text of a header field may have: a visible ASCII letter, a space
/// or a tab.
pub open spec fn is_text_byte(b: u8) -> bool {
    (32 <= b < 127) || b == 9
}

/// The bytes as a text of ASCII letters.
pub open spec fn ascii(b: Seq<u8>) -> Seq<char> {
    b.map_values(|x: u8| x as char)
}

/// The text of the value of a header field, if it is one.
pub open spec fn value_text(b: Seq<u8>) -> Option<Seq<char>> {
    if forall|i: int| 0 <= i < b.len() ==> is_text_byte(#[trigger] b[i]) {
        Some(ascii(b))
    } else {
        None
    }
}

/// The text of the value of a header field.
pub fn to_text(b: &[u8]) -> (r: Option<String>)
    ensures
        text::opt_text(r) == value_text(b@),
{
    let mut chars: Vec<char> = Vec::new();
    let mut i: usize = 0;
    while i < b.len()
        invariant
            i <= b@.len(),
            forall|j: int| 0 <= j < i ==> is_text_byte(#[trigger] b@[j]),
            chars@ =~= ascii(b@).take(i as int),
        decreases b@.len() - i,
    {
        let x = b[i];
        if !((32 <= x && x < 127) || x == 9) {
            proof {
                assert(!is_text_byte(b@[i as int]));
            }
            return None;
        }
        chars.push(x as char);
        i = i + 1;
    }
    proof {
        assert(chars@ =~= ascii(b@));
    }
    Some(text::to_text(chars.as_slice()))
}

/// The first text under a name, where it is one.
pub open spec fn text_under(m: Map<Seq<char>, Seq<Seq<u8>>>, name: Seq<char>) -> Option<Seq<char>> {
    let values = values_under(m, text::lower(name));
    if values.len() > 0 {
        value_text(values[0])
    } else {
        None
    }
}

/// The text of the first value under a name.
pub fn get_text(h: &axum::http::HeaderMap, name: &str) -> (r: Option<String>)
    ensures
        text::opt_text(r) == text_under(contents(*h), name@),
        r is Some ==> contents(*h).dom().finite() && contents(*h).dom().len() <= 32768,
{
    match get(h, name) {
        Some(v) => to_text(v.as_slice()),
        None => None,
    }
}

} // verus!
