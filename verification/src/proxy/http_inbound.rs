//! The handshake with clients of an HTTP proxy.
use crate::encoding;
use crate::location;
use crate::net;
use crate::proxy::inbound::{authenticate, is_user, Handshake, HandshakeView};
use crate::singbox::User;
use crate::text;
use vstd::prelude::*;

verus! {

/// The end of the head of a request.
pub open spec fn head_end() -> Seq<u8> {
    seq![0x0du8, 0x0a, 0x0d, 0x0a]
}

/// How far the head of a request has been read.
#[derive(Clone, Copy, Debug, PartialEq, Eq, Structural)]
pub enum HeadProgress {
    /// One byte more is to be read.
    More,
    Complete,
    TooLarge,
}

/// How far the head of a request has been read: it ends with an empty line, and is
/// too large where it has not ended with 16 KiB.
pub open spec fn head_progress(b: Seq<u8>) -> HeadProgress {
    if text::ends_with(b, head_end()) {
        HeadProgress::Complete
    } else if b.len() < 16384 {
        HeadProgress::More
    } else {
        HeadProgress::TooLarge
    }
}

/// How far the head of a request has been read.
pub fn read_head(received: &[u8]) -> (r: HeadProgress)
    ensures
        r == head_progress(received@),
{
    let n: usize = received.len();
    if n >= 4 && received[n - 4] == 0x0d && received[n - 3] == 0x0a && received[n - 2] == 0x0d
        && received[n - 1] == 0x0a {
        proof {
            assert(received@.skip(n - 4) =~= head_end());
            assert(text::ends_with(received@, head_end()));
        }
        return HeadProgress::Complete;
    }
    proof {
        if text::ends_with(received@, head_end()) {
            let tail = received@.skip(n - 4);
            assert(tail == head_end());
            assert(tail[0] == received@[n - 4]);
            assert(tail[1] == received@[n - 3]);
            assert(tail[2] == received@[n - 2]);
            assert(tail[3] == received@[n - 1]);
        }
    }
    if n < 16384 {
        HeadProgress::More
    } else {
        HeadProgress::TooLarge
    }
}

/// Why a client of the proxy is turned away.
#[derive(Clone, Copy, Debug, PartialEq, Eq, Structural)]
pub enum HttpFailure {
    NotText,
    /// A name and a password are wanted.
    Unauthenticated,
    NoLine,
    NoMethod,
    NoTarget,
    NoVersion,
    Authority,
    NotAbsolute,
    NoHost,
    NoPort,
}

/// What a client is answered that gave no name and password of a user.
pub open spec fn authentication_reply() -> Seq<char> {
    "HTTP/1.1 407 Proxy Authentication Required\r\nProxy-Authenticate: Basic realm=\"xhttp-rs\"\r\nContent-Length: 0\r\n\r\n"@
}

/// What a client is answered before it is turned away.
pub fn failure_reply(failure: HttpFailure) -> (r: Option<Vec<u8>>)
    ensures
        encoding::opt_bytes(r) == (if failure == HttpFailure::Unauthenticated {
            Some(vstd::utf8::encode_utf8(authentication_reply()))
        } else {
            None
        }),
{
    match failure {
        HttpFailure::Unauthenticated => Some(
            text::text_bytes(
                "HTTP/1.1 407 Proxy Authentication Required\r\nProxy-Authenticate: Basic realm=\"xhttp-rs\"\r\nContent-Length: 0\r\n\r\n",
            ),
        ),
        _ => None,
    }
}

/// The text that bytes are, if they are one.
pub open spec fn text_of(b: Seq<u8>) -> Option<Seq<char>> {
    if vstd::utf8::valid_utf8(b) {
        Some(vstd::utf8::decode_utf8(b))
    } else {
        None
    }
}

/// The name and the password that the lines of a head give.
pub open spec fn given_credentials(ls: Seq<Seq<char>>) -> Option<(Seq<char>, Seq<char>)> {
    match text::header_value(ls, "proxy-authorization"@) {
        Some(value) => match text::split_once(text::trim_space(value), ' ') {
            Some((scheme, encoded)) => if text::lower(scheme) == text::lower("basic"@) {
                match encoding::standard_decoded(encoded) {
                    Some(bytes) => match text_of(bytes) {
                        Some(t) => text::split_once(t, ':'),
                        None => None,
                    },
                    None => None,
                }
            } else {
                None
            },
            None => None,
        },
        None => None,
    }
}

/// The user whose name and password the lines of a head give; none is asked for
/// where there are no users.
pub open spec fn head_user(users: Seq<User>, ls: Seq<Seq<char>>) -> Result<
    Option<Seq<char>>,
    HttpFailure,
> {
    if users.len() == 0 {
        Ok(None)
    } else {
        match given_credentials(ls) {
            Some((name, password)) => if is_user(users, name, password) {
                Ok(Some(name))
            } else {
                Err(HttpFailure::Unauthenticated)
            },
            None => Err(HttpFailure::Unauthenticated),
        }
    }
}

/// A line that is meant for the proxy and not handed on.
pub open spec fn is_for_proxy(line: Seq<char>) -> bool {
    match text::split_once(line, ':') {
        Some((name, _)) => text::lower(name) == text::lower("proxy-authorization"@) || text::lower(
            name,
        ) == text::lower("proxy-connection"@),
        None => false,
    }
}

/// The lines that are handed on: those up to the first empty one that are not
/// meant for the proxy.
pub open spec fn kept_lines(ls: Seq<Seq<char>>) -> Seq<Seq<char>>
    decreases ls.len(),
{
    if ls.len() == 0 || ls[0].len() == 0 {
        Seq::empty()
    } else if is_for_proxy(ls[0]) {
        kept_lines(ls.skip(1))
    } else {
        seq![ls[0]] + kept_lines(ls.skip(1))
    }
}

/// Lines with their ends.
pub open spec fn lines_text(ls: Seq<Seq<char>>) -> Seq<char>
    decreases ls.len(),
{
    if ls.len() == 0 {
        Seq::empty()
    } else {
        ls[0] + seq!['\r', '\n'] + lines_text(ls.skip(1))
    }
}

/// The path of a target with its query.
pub open spec fn origin_form(target: Seq<char>) -> Seq<char> {
    match location::url_query(target) {
        Some(Some(q)) => location::url_path(target)->0 + seq!['?'] + q,
        _ => location::url_path(target)->0,
    }
}

/// The head that is handed on.
pub open spec fn handed_head(words: Seq<Seq<char>>, ls: Seq<Seq<char>>) -> Seq<char> {
    words[0] + seq![' '] + origin_form(words[1]) + seq![' '] + words[2] + seq!['\r', '\n']
        + lines_text(kept_lines(ls.skip(1))) + seq!['\r', '\n']
}

/// What a client asks for whose request line and lines these are.
pub open spec fn requested(
    words: Seq<Seq<char>>,
    ls: Seq<Seq<char>>,
    auth_user: Option<Seq<char>>,
) -> Result<HandshakeView, HttpFailure> {
    if words.len() < 1 {
        Err(HttpFailure::NoMethod)
    } else if words.len() < 2 {
        Err(HttpFailure::NoTarget)
    } else if words.len() < 3 {
        Err(HttpFailure::NoVersion)
    } else if text::lower(words[0]) == text::lower("CONNECT"@) {
        match location::authority_parts(words[1]) {
            Some((host, port)) => Ok(
                HandshakeView::Tcp {
                    destination: net::host_destination(
                        host,
                        match port {
                            Some(port) => port,
                            None => 443,
                        },
                    ),
                    reply: Some(
                        vstd::utf8::encode_utf8(
                            "HTTP/1.1 200 Connection Established\r\n\r\n"@,
                        ),
                    ),
                    initial: Seq::empty(),
                    auth_user,
                },
            ),
            None => Err(HttpFailure::Authority),
        }
    } else if location::url_text(words[1]) is None {
        Err(HttpFailure::NotAbsolute)
    } else {
        match (location::url_host(words[1]), location::url_port(words[1])) {
            (Some(Some(host)), Some(Some(port))) => Ok(
                HandshakeView::Tcp {
                    destination: net::host_destination(host, port),
                    reply: None,
                    initial: vstd::utf8::encode_utf8(handed_head(words, ls)),
                    auth_user,
                },
            ),
            (Some(Some(_)), _) => Err(HttpFailure::NoPort),
            _ => Err(HttpFailure::NoHost),
        }
    }
}

/// What the head of a request leads to.
pub open spec fn http_outcome(users: Seq<User>, b: Seq<u8>) -> Result<HandshakeView, HttpFailure> {
    match text_of(b) {
        None => Err(HttpFailure::NotText),
        Some(t) => {
            let ls = text::lines(t);
            match head_user(users, ls) {
                Err(e) => Err(e),
                Ok(user) => if ls.len() == 0 {
                    Err(HttpFailure::NoLine)
                } else {
                    requested(text::words(ls[0]), ls, user)
                },
            }
        },
    }
}

/// No line that is meant for the proxy is handed on.
pub proof fn nothing_for_the_proxy_is_handed_on(ls: Seq<Seq<char>>)
    ensures
        forall|i: int|
            0 <= i < kept_lines(ls).len() ==> !is_for_proxy(#[trigger] kept_lines(ls)[i]),
    decreases ls.len(),
{
    if ls.len() > 0 && ls[0].len() > 0 {
        let rest = kept_lines(ls.skip(1));
        nothing_for_the_proxy_is_handed_on(ls.skip(1));
        assert forall|i: int| 0 <= i < kept_lines(ls).len() implies !is_for_proxy(
            #[trigger] kept_lines(ls)[i],
        ) by {
            if !is_for_proxy(ls[0]) {
                if i > 0 {
                    assert(kept_lines(ls)[i] == rest[i - 1]);
                }
            }
        }
    }
}

fn read_credentials(ls: &Vec<String>) -> (r: Option<(String, String)>)
    ensures
        match r {
            Some((a, b)) => given_credentials(text::texts(ls@)) == Some((a@, b@)),
            None => given_credentials(text::texts(ls@)) is None,
        },
{
    let value = match text::find_header(ls, "proxy-authorization") {
        Some(value) => value,
        None => {
            return None;
        },
    };
    let trimmed = text::trim_text(value.as_str());
    match text::split_at_char(trimmed.as_str(), ' ') {
        Some((scheme, encoded)) => {
            if !text::same_ignoring_case(scheme.as_str(), "basic") {
                return None;
            }
            match encoding::decode_standard(encoded.as_str()) {
                Some(bytes) => match text::utf8_text(bytes) {
                    Some(t) => text::split_at_char(t.as_str(), ':'),
                    None => None,
                },
                None => None,
            }
        },
        None => None,
    }
}

fn line_is_for_proxy(line: &str) -> (r: bool)
    ensures
        r == is_for_proxy(line@),
{
    match text::split_at_char(line, ':') {
        Some((name, _)) => text::same_ignoring_case(name.as_str(), "proxy-authorization")
            || text::same_ignoring_case(name.as_str(), "proxy-connection"),
        None => false,
    }
}

proof fn lemma_line_end()
    ensures
        "\r\n"@ == seq!['\r', '\n'],
        " "@ == seq![' '],
        "?"@ == seq!['?'],
{
    reveal_strlit("\r\n");
    reveal_strlit(" ");
    reveal_strlit("?");
    assert("\r\n"@ =~= seq!['\r', '\n']);
    assert(" "@ =~= seq![' ']);
    assert("?"@ =~= seq!['?']);
}

fn add_lines(ls: &Vec<String>, head: &mut String)
    requires
        ls@.len() > 0,
    ensures
        final(head)@ == old(head)@ + lines_text(kept_lines(text::texts(ls@).skip(1))),
{
    let ghost all = text::texts(ls@);
    let ghost start = head@;
    let mut i: usize = 1;
    let mut more: bool = true;
    proof {
        lemma_line_end();
    }
    while more && i < ls.len()
        invariant
            1 <= i <= ls@.len(),
            all == text::texts(ls@),
            "\r\n"@ == seq!['\r', '\n'],
            more ==> start + lines_text(kept_lines(all.skip(1))) == head@ + lines_text(
                kept_lines(all.skip(i as int)),
            ),
            !more ==> start + lines_text(kept_lines(all.skip(1))) == head@,
        decreases ls@.len() - i,
    {
        let ghost rest = all.skip(i as int);
        proof {
            assert(rest[0] == ls@[i as int]@);
            assert(rest.skip(1) =~= all.skip(i + 1));
        }
        let line = ls[i].as_str();
        if text::to_chars(line).len() == 0 {
            proof {
                assert(head@ + lines_text(kept_lines(rest)) =~= head@);
            }
            more = false;
        } else if !line_is_for_proxy(line) {
            let ghost before = head@;
            head.append(line);
            head.append("\r\n");
            proof {
                let tail = kept_lines(rest.skip(1));
                let kept = seq![rest[0]] + tail;
                assert(kept.skip(1) =~= tail);
                assert(before + lines_text(kept) =~= head@ + lines_text(tail));
            }
        }
        i = i + 1;
    }
    proof {
        if more {
            assert(all.skip(i as int).len() == 0);
            assert(head@ + lines_text(kept_lines(all.skip(i as int))) =~= head@);
        }
    }
}

fn write_head(method: &str, target: &str, version: &str, ls: &Vec<String>) -> (r: Option<String>)
    requires
        ls@.len() > 0,
        location::url_text(target@) is Some,
    ensures
        r is Some,
        r->0@ == handed_head(seq![method@, target@, version@], text::texts(ls@)),
{
    let path = match location::get_path(target) {
        Some(path) => path,
        None => {
            return None;
        },
    };
    let query = match location::get_query(target) {
        Some(query) => query,
        None => {
            return None;
        },
    };
    proof {
        lemma_line_end();
    }
    let mut head = text::copy_text(method);
    head.append(" ");
    head.append(path.as_str());
    match query {
        Some(q) => {
            head.append("?");
            head.append(q.as_str());
        },
        None => {},
    }
    head.append(" ");
    head.append(version);
    head.append("\r\n");
    add_lines(ls, &mut head);
    head.append("\r\n");
    proof {
        assert(head@ =~= handed_head(seq![method@, target@, version@], text::texts(ls@)));
    }
    Some(head)
}

fn read_request(ls: &Vec<String>, auth_user: Option<String>) -> (r: Result<Handshake, HttpFailure>)
    requires
        ls@.len() > 0,
    ensures
        outcome_view(r) == requested(
            text::words(text::texts(ls@)[0]),
            text::texts(ls@),
            text::opt_text(auth_user),
        ),
{
    let words = text::split_words(ls[0].as_str());
    let ghost w = text::words(text::texts(ls@)[0]);
    proof {
        assert(text::texts(ls@)[0] == ls@[0]@);
        assert(text::texts(words@) == w);
        assert(w.len() == words@.len());
    }
    if words.len() < 1 {
        return Err(HttpFailure::NoMethod);
    }
    if words.len() < 2 {
        return Err(HttpFailure::NoTarget);
    }
    if words.len() < 3 {
        return Err(HttpFailure::NoVersion);
    }
    let method = words[0].as_str();
    let target = words[1].as_str();
    let version = words[2].as_str();
    proof {
        assert(w[0] == words@[0]@);
        assert(w[1] == words@[1]@);
        assert(w[2] == words@[2]@);
    }
    if text::same_ignoring_case(method, "CONNECT") {
        return match location::parse_authority(target) {
            Some((host, port)) => {
                let port: u16 = match port {
                    Some(port) => port,
                    None => 443,
                };
                Ok(
                    Handshake::Tcp {
                        destination: net::parse_destination(host.as_str(), port),
                        reply: Some(
                            text::text_bytes("HTTP/1.1 200 Connection Established\r\n\r\n"),
                        ),
                        initial: Vec::new(),
                        auth_user,
                    },
                )
            },
            None => Err(HttpFailure::Authority),
        };
    }
    if location::parse_url(target).is_none() {
        return Err(HttpFailure::NotAbsolute);
    }
    let host = match location::get_host(target) {
        Some(Some(host)) => host,
        _ => {
            return Err(HttpFailure::NoHost);
        },
    };
    let port: u16 = match location::get_port(target) {
        Some(Some(port)) => port,
        _ => {
            return Err(HttpFailure::NoPort);
        },
    };
    match write_head(method, target, version, ls) {
        Some(head) => {
            proof {
                assert(handed_head(seq![method@, target@, version@], text::texts(ls@))
                    == handed_head(w, text::texts(ls@)));
            }
            Ok(
                Handshake::Tcp {
                    destination: net::parse_destination(host.as_str(), port),
                    reply: None,
                    initial: text::text_bytes(head.as_str()),
                    auth_user,
                },
            )
        },
        None => Err(HttpFailure::NotAbsolute),
    }
}

/// The view of what the head of a request leads to.
pub open spec fn outcome_view(r: Result<Handshake, HttpFailure>) -> Result<HandshakeView, HttpFailure> {
    match r {
        Ok(h) => Ok(h@),
        Err(e) => Err(e),
    }
}

/// Reads the head of a request to the proxy.
pub fn http_handshake(users: &Vec<User>, request: &[u8]) -> (r: Result<Handshake, HttpFailure>)
    ensures
        outcome_view(r) == http_outcome(users@, request@),
{
    let t = match text::utf8_text(text::copy_bytes(request)) {
        Some(t) => t,
        None => {
            return Err(HttpFailure::NotText);
        },
    };
    let ls = text::split_lines(t.as_str());
    let auth_user = if users.len() == 0 {
        None
    } else {
        match read_credentials(&ls) {
            Some((name, password)) => {
                if !authenticate(users, name.as_str(), password.as_str()) {
                    return Err(HttpFailure::Unauthenticated);
                }
                Some(name)
            },
            None => {
                return Err(HttpFailure::Unauthenticated);
            },
        }
    };
    if ls.len() == 0 {
        return Err(HttpFailure::NoLine);
    }
    read_request(&ls, auth_user)
}

} // verus!
