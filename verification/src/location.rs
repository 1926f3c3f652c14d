//! URLs, and the targets of requests.
use crate::encoding;
use crate::text;
use vstd::prelude::*;

verus! {

/// Names and values in the order they stand in a query.
pub type Pairs = Seq<(Seq<char>, Seq<char>)>;

/// The normal form of a URL, where a text is one.
pub uninterp spec fn url_text(s: Seq<char>) -> Option<Seq<char>>;

/// The path of a URL, where a text is one.
pub uninterp spec fn url_path(s: Seq<char>) -> Option<Seq<char>>;

/// The query of a URL, if it has one, where a text is a URL.
pub uninterp spec fn url_query(s: Seq<char>) -> Option<Option<Seq<char>>>;

/// A URL with another path, where a text is a URL.
pub uninterp spec fn url_with_path(s: Seq<char>, path: Seq<char>) -> Option<Seq<char>>;

/// A URL with a pair put behind those of its query, where a text is a URL.
pub uninterp spec fn url_with_pair(s: Seq<char>, key: Seq<char>, value: Seq<char>) -> Option<
    Seq<char>,
>;

/// The names and values that a query holds.
pub uninterp spec fn form_pairs(query: Seq<char>) -> Seq<(Seq<char>, Seq<char>)>;

/// A URL of the web.
pub open spec fn is_web(s: Seq<char>) -> bool {
    text::starts_with(s, "http://"@) || text::starts_with(s, "https://"@)
}

/// A path that stands in a URL as it is: a slash, then letters, digits, `-`, `_`
/// and slashes.
pub open spec fn is_plain_path(s: Seq<char>) -> bool {
    s.len() > 0 && s[0] == '/' && forall|i: int|
        0 <= i < s.len() ==> encoding::is_url_safe(#[trigger] s[i]) || s[i] == '/'
}

/// The letters that a URL is written in: printable ASCII letters.
pub open spec fn is_printable(s: Seq<char>) -> bool {
    forall|i: int| 0 <= i < s.len() ==> ' ' <= (#[trigger] s[i]) <= '~'
}

/// How many bytes a letter has in UTF-8.
pub open spec fn byte_count(c: char) -> nat {
    if (c as u32) < 0x80 {
        1
    } else if (c as u32) < 0x800 {
        2
    } else if (c as u32) < 0x1_0000 {
        3
    } else {
        4
    }
}

/// A letter that stands in a path as it is.
pub open spec fn is_path_letter(c: char) -> bool {
    '!' <= c <= '~' && c != '"' && c != '#' && c != '<' && c != '>' && c != '?' && c != '`' && c
        != '{' && c != '}'
}

/// A letter that takes one letter in a query.
pub open spec fn is_form_letter(c: char) -> bool {
    'A' <= c <= 'Z' || 'a' <= c <= 'z' || '0' <= c <= '9' || c == '*' || c == '-' || c == '.' || c
        == '_' || c == ' '
}

/// How many letters a text takes in a path at most: three for each byte of what does
/// not stand there as it is.
pub open spec fn path_length(s: Seq<char>) -> nat
    decreases s.len(),
{
    if s.len() == 0 {
        0
    } else {
        path_length(s.drop_last()) + if is_path_letter(s.last()) {
            1
        } else {
            3 * byte_count(s.last())
        }
    }
}

/// How many letters a text takes in a query: three for each byte of what does not
/// stand there as it is.
pub open spec fn form_length(s: Seq<char>) -> nat
    decreases s.len(),
{
    if s.len() == 0 {
        0
    } else {
        form_length(s.drop_last()) + if is_form_letter(s.last()) {
            1
        } else {
            3 * byte_count(s.last())
        }
    }
}

/// The path of a URL; nothing where a text is none.
pub open spec fn path_of(u: Seq<char>) -> Seq<char> {
    match url_path(u) {
        Some(path) => path,
        None => Seq::empty(),
    }
}

/// The URL with another path can be counted in 32 bits.
pub open spec fn can_move(u: Seq<char>, path: Seq<char>) -> bool {
    u.len() - path_of(u).len() + path_length(path) + 4 <= u32::MAX
}

/// The URL with a pair more can be counted in 32 bits.
pub open spec fn can_extend(u: Seq<char>, key: Seq<char>, value: Seq<char>) -> bool {
    u.len() + form_length(key) + form_length(value) + 2 <= u32::MAX
}

/// The pairs of a query that may be missing.
pub open spec fn pairs_of(query: Option<Seq<char>>) -> Pairs {
    match query {
        Some(q) => form_pairs(q),
        None => Seq::empty(),
    }
}

/// The pairs in the query of a URL, where a text is a URL.
pub open spec fn url_pairs(s: Seq<char>) -> Option<Pairs> {
    match url_query(s) {
        Some(q) => Some(pairs_of(q)),
        None => None,
    }
}

/// A name of a host that stands in a URL as it is: small letters, and dots between.
pub open spec fn is_plain_host(s: Seq<char>) -> bool {
    s.len() > 0 && 'a' <= s[0] <= 'z' && forall|i: int|
        0 <= i < s.len() ==> 'a' <= (#[trigger] s[i]) <= 'z' || s[i] == '.'
}

/// A URL of the web that is made of a plain name of a host and a plain path.
pub open spec fn is_plain_url(s: Seq<char>, host: Seq<char>, path: Seq<char>) -> bool {
    &&& s == "https://"@ + host + path || s == "http://"@ + host + path
    &&& is_plain_host(host)
    &&& is_plain_path(path)
    &&& s.len() <= u32::MAX
}

/// What a text is read as, where it is a plain URL: itself, with its path and without a
/// query.
pub open spec fn reads_plain(s: Seq<char>, r: Option<Seq<char>>) -> bool {
    forall|host: Seq<char>, path: Seq<char>| #[trigger]
        is_plain_url(s, host, path) ==> r == Some(s) && url_path(s) == Some(path) && url_query(s)
            == Some(None::<Seq<char>>)
}

/// Calls `Url::parse` of the crate `url` and gives the URL in its normal form, in
/// printable ASCII letters. That of a URL of the web is one too, with the same path
/// and query. A URL of a plain name of a host and a plain path is in its normal form,
/// with that path and no query.
#[verifier::external_body]
pub(crate) fn parse_url(s: &str) -> (r: Option<String>)
    ensures
        text::opt_text(r) == url_text(s@),
        r matches Some(t) ==> is_printable(t@),
        r matches Some(t) ==> is_web(t@) ==> url_text(t@) == Some(t@) && url_path(t@) == url_path(
            s@,
        ) && url_query(t@) == url_query(s@) && url_path(t@) is Some && url_query(t@) is Some,
        reads_plain(s@, text::opt_text(r)),
{
    url::Url::parse(s).ok().map(String::from)
}

/// Calls `Url::path` of the crate `url` on a URL in its normal form.
#[verifier::external_body]
pub(crate) fn get_path(s: &str) -> (r: Option<String>)
    ensures
        text::opt_text(r) == url_path(s@),
        url_text(s@) is Some ==> r is Some,
        url_text(s@) == Some(s@) ==> r is Some && r->0@.len() <= s@.len(),
{
    url::Url::parse(s).ok().map(|u| u.path().to_owned())
}

/// Calls `Url::query` of the crate `url` on a URL in its normal form.
#[verifier::external_body]
pub(crate) fn get_query(s: &str) -> (r: Option<Option<String>>)
    ensures
        match r {
            Some(q) => url_query(s@) == Some(text::opt_text(q)),
            None => url_query(s@) is None,
        },
        url_text(s@) is Some ==> r is Some,
{
    url::Url::parse(s).ok().map(|u| u.query().map(str::to_owned))
}

/// The host of a URL, if it has one, where a text is a URL.
pub uninterp spec fn url_host(s: Seq<char>) -> Option<Option<Seq<char>>>;

/// The port of a URL, its own or that of its scheme, where a text is a URL.
pub uninterp spec fn url_port(s: Seq<char>) -> Option<Option<u16>>;

/// Calls `Url::host_str` of the crate `url` on the URL that a text is.
#[verifier::external_body]
pub(crate) fn get_host(s: &str) -> (r: Option<Option<String>>)
    ensures
        match r {
            Some(h) => url_host(s@) == Some(text::opt_text(h)),
            None => url_host(s@) is None,
        },
        url_text(s@) is Some ==> r is Some,
{
    url::Url::parse(s).ok().map(|u| u.host_str().map(str::to_owned))
}

/// Calls `Url::port_or_known_default` of the crate `url` on the URL that a text
/// is.
#[verifier::external_body]
pub(crate) fn get_port(s: &str) -> (r: Option<Option<u16>>)
    ensures
        r == url_port(s@),
        url_text(s@) is Some ==> r is Some,
{
    url::Url::parse(s).ok().map(|u| u.port_or_known_default())
}

/// The scheme of a URL, where a text is one.
pub uninterp spec fn url_scheme(s: Seq<char>) -> Option<Seq<char>>;

/// Calls `Url::scheme` of the crate `url` on the URL that a text is.
#[verifier::external_body]
pub(crate) fn get_scheme(s: &str) -> (r: Option<String>)
    ensures
        text::opt_text(r) == url_scheme(s@),
        url_text(s@) is Some <==> r is Some,
{
    url::Url::parse(s).ok().map(|u| u.scheme().to_owned())
}

/// The URL that a reference leads to from a URL, where both can be read.
pub uninterp spec fn url_joined(s: Seq<char>, reference: Seq<char>) -> Option<Seq<char>>;

/// Calls `Url::join` of the crate `url` on the URL that a text is. How a reference
/// is read is not said here.
#[verifier::external_body]
pub(crate) fn join_url(s: &str, reference: &str) -> (r: Option<String>)
    ensures
        text::opt_text(r) == url_joined(s@, reference@),
{
    url::Url::parse(s).ok()?.join(reference).ok().map(String::from)
}

/// The host and the port, if it names one, of what stands for an authority.
pub uninterp spec fn authority_parts(s: Seq<char>) -> Option<(Seq<char>, Option<u16>)>;

pub open spec fn authority_view(r: Option<(String, Option<u16>)>) -> Option<
    (Seq<char>, Option<u16>),
> {
    match r {
        Some((host, port)) => Some((host@, port)),
        None => None,
    }
}

/// Parses an `Authority` of the crate `http` and gives its host and its port. What
/// the text has to look like is not said here.
#[verifier::external_body]
pub(crate) fn parse_authority(s: &str) -> (r: Option<(String, Option<u16>)>)
    ensures
        authority_view(r) == authority_parts(s@),
{
    let authority: axum::http::uri::Authority = s.parse().ok()?;
    Some((authority.host().to_owned(), authority.port_u16()))
}

/// Calls `Url::set_path` of the crate `url` on a URL in its normal form. A URL of the
/// web keeps being one, in its normal form, and keeps its query, and a plain path
/// stands in it as it is. How other paths are written is not said here, nor that
/// another URL is still one. The crate counts the letters of a URL in 32 bits and
/// cannot go on beyond; what does not stand in a path as it is takes three letters for
/// each of its bytes, and a slash may come in front.
#[verifier::external_body]
pub(crate) fn set_path(s: &str, path: &str) -> (r: Option<String>)
    requires
        url_text(s@) == Some(s@),
        can_move(s@, path@),
    ensures
        text::opt_text(r) == url_with_path(s@, path@),
        r is Some,
        r matches Some(t) ==> is_printable(t@) && (is_web(t@) ==> url_text(t@) == Some(t@)),
        r matches Some(t) ==> is_web(s@) ==> is_web(t@) && url_query(t@) == url_query(s@),
        r matches Some(t) ==> is_web(s@) ==> is_plain_path(path@) ==> url_path(t@) == Some(path@),
{
    let mut url = url::Url::parse(s).ok()?;
    url.set_path(path);
    Some(url.into())
}

/// Calls `append_pair` on `Url::query_pairs_mut` of the crate `url` on a URL in its
/// normal form. A URL of the web keeps being one, in its normal form, and keeps its
/// path, and its query holds the pairs it held and the new one behind them. The crate
/// counts the letters of a URL in 32 bits and cannot go on beyond; the pair takes the
/// letters of its name and its value, one in front and one between them.
#[verifier::external_body]
pub(crate) fn append_pair(s: &str, key: &str, value: &str) -> (r: Option<String>)
    requires
        url_text(s@) == Some(s@),
        can_extend(s@, key@, value@),
    ensures
        text::opt_text(r) == url_with_pair(s@, key@, value@),
        r is Some,
        r matches Some(t) ==> is_printable(t@) && (is_web(t@) ==> url_text(t@) == Some(t@)),
        r matches Some(t) ==> is_web(s@) ==> is_web(t@) && url_path(t@) == url_path(s@),
        r matches Some(t) ==> is_web(s@) ==> url_pairs(t@) == Some(
            url_pairs(s@)->0.push((key@, value@)),
        ),
{
    let mut url = url::Url::parse(s).ok()?;
    url.query_pairs_mut().append_pair(key, value);
    Some(url.into())
}

/// Calls `form_urlencoded::parse` of the crate `url`. How names and values are
/// written in a query is not said here, but an empty query holds none.
#[verifier::external_body]
pub(crate) fn parse_pairs(query: &str) -> (r: Vec<(String, String)>)
    ensures
        pair_views(r@) == form_pairs(query@),
        query@.len() == 0 ==> r@.len() == 0,
{
    url::form_urlencoded::parse(query.as_bytes()).into_owned().collect()
}

pub open spec fn pair_views(s: Seq<(String, String)>) -> Pairs {
    s.map_values(|p: (String, String)| (p.0@, p.1@))
}

/// The pairs in the query of a URL, if a text is one.
pub fn pairs_of_url(s: &str) -> (r: Option<Vec<(String, String)>>)
    ensures
        match r {
            Some(list) => url_pairs(s@) == Some(pair_views(list@)),
            None => url_pairs(s@) is None,
        },
{
    match get_query(s) {
        None => None,
        Some(Some(q)) => Some(parse_pairs(q.as_str())),
        Some(None) => {
            let none: Vec<(String, String)> = Vec::new();
            proof {
                assert(pair_views(none@) =~= Seq::<(Seq<char>, Seq<char>)>::empty());
            }
            Some(none)
        },
    }
}

/// A text of letters that stand in a query as they are takes no more than those.
pub(crate) proof fn lemma_form_length(s: Seq<char>)
    requires
        forall|i: int| 0 <= i < s.len() ==> is_form_letter(#[trigger] s[i]),
    ensures
        form_length(s) == s.len(),
    decreases s.len(),
{
    if s.len() > 0 {
        assert(forall|i: int| 0 <= i < s.drop_last().len() ==> #[trigger] s.drop_last()[i] == s[i]);
        lemma_form_length(s.drop_last());
    }
}

/// The normal form of a URL, where a text is one and its normal form is one.
pub open spec fn normal_form(s: Seq<char>) -> Option<Seq<char>> {
    match url_text(s) {
        Some(t) if url_text(t) == Some(t) => Some(t),
        _ => None,
    }
}

/// A URL with another path. It is left as it is where it would not be one in its
/// normal form any more.
pub open spec fn moved(u: Seq<char>, path: Seq<char>) -> Seq<char> {
    match url_with_path(u, path) {
        Some(t) if url_text(t) == Some(t) => t,
        _ => u,
    }
}

/// A URL with a pair put behind those of its query. It is left as it is where it would
/// not be one in its normal form any more.
pub open spec fn extended(u: Seq<char>, key: Seq<char>, value: Seq<char>) -> Seq<char> {
    match url_with_pair(u, key, value) {
        Some(t) if url_text(t) == Some(t) => t,
        _ => u,
    }
}

fn count_byte(c: char) -> (r: u128)
    ensures
        r == byte_count(c),
{
    let n: u32 = c as u32;
    if n < 0x80 {
        1
    } else if n < 0x800 {
        2
    } else if n < 0x1_0000 {
        3
    } else {
        4
    }
}

/// How many letters a text takes in a path at most.
pub fn count_path(s: &str) -> (r: u128)
    ensures
        r == path_length(s@),
        r <= 12 * usize::MAX,
{
    let chars = text::to_chars(s);
    let mut r: u128 = 0;
    let mut i: usize = 0;
    proof {
        assert(chars@.take(0) =~= Seq::<char>::empty());
    }
    while i < chars.len()
        invariant
            i <= chars@.len(),
            chars@ == s@,
            r == path_length(chars@.take(i as int)),
            r <= 12 * i,
        decreases chars@.len() - i,
    {
        let c: char = chars[i];
        proof {
            assert(chars@.take(i + 1).drop_last() =~= chars@.take(i as int));
        }
        let plain = '!' <= c && c <= '~' && c != '"' && c != '#' && c != '<' && c != '>' && c != '?'
            && c != '`' && c != '{' && c != '}';
        r = r + if plain {
            1
        } else {
            3 * count_byte(c)
        };
        i = i + 1;
    }
    proof {
        assert(chars@.take(i as int) =~= s@);
    }
    r
}

/// How many letters a text takes in a query.
pub fn count_form(s: &str) -> (r: u128)
    ensures
        r == form_length(s@),
        r <= 12 * usize::MAX,
{
    let chars = text::to_chars(s);
    let mut r: u128 = 0;
    let mut i: usize = 0;
    proof {
        assert(chars@.take(0) =~= Seq::<char>::empty());
    }
    while i < chars.len()
        invariant
            i <= chars@.len(),
            chars@ == s@,
            r == form_length(chars@.take(i as int)),
            r <= 12 * i,
        decreases chars@.len() - i,
    {
        let c: char = chars[i];
        proof {
            assert(chars@.take(i + 1).drop_last() =~= chars@.take(i as int));
        }
        let plain = ('A' <= c && c <= 'Z') || ('a' <= c && c <= 'z') || ('0' <= c && c <= '9') || c
            == '*' || c == '-' || c == '.' || c == '_' || c == ' ';
        r = r + if plain {
            1
        } else {
            3 * count_byte(c)
        };
        i = i + 1;
    }
    proof {
        assert(chars@.take(i as int) =~= s@);
    }
    r
}

fn is_normal(s: &str) -> (r: bool)
    ensures
        r == (url_text(s@) == Some(s@)),
{
    match parse_url(s) {
        Some(t) => text::same_text(t.as_str(), s),
        None => false,
    }
}

/// A URL in its normal form.
#[derive(Debug)]
pub struct RequestUrl {
    text: String,
}

impl View for RequestUrl {
    type V = Seq<char>;

    closed spec fn view(&self) -> Seq<char> {
        self.text@
    }
}

impl RequestUrl {
    #[verifier::type_invariant]
    spec fn valid(self) -> bool {
        url_text(self.text@) == Some(self.text@) && is_printable(self.text@)
    }

    /// The URL that a text is, if it is one.
    pub fn parse(s: &str) -> (r: Option<RequestUrl>)
        ensures
            match r {
                Some(u) => normal_form(s@) == Some(u@) && (is_web(u@) ==> url_path(u@) == url_path(
                    s@,
                ) && url_query(u@) == url_query(s@)),
                None => normal_form(s@) is None,
            },
            forall|host: Seq<char>, path: Seq<char>| #[trigger]
                is_plain_url(s@, host, path) ==> (r matches Some(u) && u@ == s@ && is_web(u@)
                    && url_path(u@) == Some(path) && url_pairs(u@) == Some(
                    Seq::<(Seq<char>, Seq<char>)>::empty(),
                )),
    {
        proof {
            assert forall|host: Seq<char>, path: Seq<char>| #[trigger]
                is_plain_url(s@, host, path) implies is_web(s@) by {
                assert(("https://"@ + host + path).take("https://"@.len() as int) =~= "https://"@);
                assert(("http://"@ + host + path).take("http://"@.len() as int) =~= "http://"@);
            }
        }
        match parse_url(s) {
            Some(text) => if is_normal(text.as_str()) {
                Some(RequestUrl { text })
            } else {
                None
            },
            None => None,
        }
    }

    /// The URL as a text, in printable ASCII letters.
    pub fn as_text(&self) -> (r: &str)
        ensures
            r@ == self@,
            is_printable(r@),
            url_text(r@) == Some(r@),
    {
        proof {
            use_type_invariant(self);
        }
        self.text.as_str()
    }

    /// The same URL again.
    pub fn copy(&self) -> (r: RequestUrl)
        ensures
            r@ == self@,
    {
        proof {
            use_type_invariant(self);
        }
        RequestUrl { text: text::copy_text(self.text.as_str()) }
    }

    /// The path.
    pub fn path(&self) -> (r: String)
        ensures
            r@ == path_of(self@),
            url_path(self@) == Some(r@),
            r@.len() <= self@.len(),
    {
        proof {
            use_type_invariant(self);
        }
        match get_path(self.text.as_str()) {
            Some(path) => path,
            None => String::new(),
        }
    }

    /// Whether the URL with another path can be counted.
    pub fn takes_path(&self, path: &str) -> (r: bool)
        ensures
            r == can_move(self@, path@),
    {
        let own = self.path();
        text::count_chars(self.text.as_str()) - text::count_chars(own.as_str()) + count_path(path)
            + 4 <= 0xffff_ffff
    }

    /// Whether the URL with a pair more can be counted.
    pub fn takes_pair(&self, key: &str, value: &str) -> (r: bool)
        ensures
            r == can_extend(self@, key@, value@),
    {
        text::count_chars(self.text.as_str()) + count_form(key) + count_form(value) + 2
            <= 0xffff_ffff
    }

    /// The URL with another path.
    pub fn with_path(&self, path: &str) -> (r: RequestUrl)
        requires
            can_move(self@, path@),
        ensures
            r@ == moved(self@, path@),
            is_web(self@) ==> url_with_path(self@, path@) == Some(r@) && is_web(r@) && url_query(r@)
                == url_query(self@),
            is_web(self@) && is_plain_path(path@) ==> url_path(r@) == Some(path@),
    {
        proof {
            use_type_invariant(self);
        }
        match set_path(self.text.as_str(), path) {
            Some(text) => if is_normal(text.as_str()) {
                RequestUrl { text }
            } else {
                self.copy()
            },
            None => self.copy(),
        }
    }

    /// The URL with a pair put behind those of its query.
    pub fn with_pair(&self, key: &str, value: &str) -> (r: RequestUrl)
        requires
            can_extend(self@, key@, value@),
        ensures
            r@ == extended(self@, key@, value@),
            is_web(self@) ==> url_with_pair(self@, key@, value@) == Some(r@) && is_web(r@)
                && url_path(r@) == url_path(self@),
            is_web(self@) ==> url_pairs(r@) == Some(url_pairs(self@)->0.push((key@, value@))),
    {
        proof {
            use_type_invariant(self);
        }
        match append_pair(self.text.as_str(), key, value) {
            Some(text) => if is_normal(text.as_str()) {
                RequestUrl { text }
            } else {
                self.copy()
            },
            None => self.copy(),
        }
    }

    /// What a request to the URL asks the server for.
    pub fn target(&self) -> (r: RequestTarget)
        ensures
            url_path(self@) == Some(r.path@),
            url_query(self@) == Some(text::opt_text(r.query)),
    {
        proof {
            use_type_invariant(self);
        }
        let query = match get_query(self.text.as_str()) {
            Some(q) => q,
            None => None,
        };
        RequestTarget { path: self.path(), query }
    }
}

/// What a request asks for: a path, and a query if there is one.
#[derive(Debug, Clone, PartialEq, Eq)]
pub struct RequestTarget {
    pub path: String,
    pub query: Option<String>,
}

impl RequestTarget {
    /// The names and values of the query.
    pub fn pairs(&self) -> (r: Vec<(String, String)>)
        ensures
            pair_views(r@) == pairs_of(text::opt_text(self.query)),
    {
        match &self.query {
            Some(q) => parse_pairs(q.as_str()),
            None => {
                let none: Vec<(String, String)> = Vec::new();
                proof {
                    assert(pair_views(none@) =~= Seq::<(Seq<char>, Seq<char>)>::empty());
                }
                none
            },
        }
    }
}

} // verus!
