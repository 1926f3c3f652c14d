//! Handshakes as clients write them, and what they come to.
use crate::encoding;
use crate::location;
use crate::net::{self, DestinationView, IpAddr};
use crate::proxy::http_inbound::{self, HeadProgress, HttpFailure};
use crate::proxy::inbound::{self, HandshakeView, SocksFailure, SocksProgressView, Stage};
use crate::proxy::udp;
use crate::singbox::User;
use crate::text;
use crate::wire;
use vstd::prelude::*;

verus! {

// ---- SOCKS ----

/// The greeting of a client: the methods that it offers.
#[verifier::opaque]
pub open spec fn greeting(methods: Seq<u8>) -> Seq<u8> {
    seq![5u8, methods.len() as u8] + methods
}

/// A name and a password, each behind its length.
#[verifier::opaque]
pub open spec fn login(name: Seq<u8>, password: Seq<u8>) -> Seq<u8> {
    seq![1u8, name.len() as u8] + name + seq![password.len() as u8] + password
}

/// A request with a command for a destination.
#[verifier::opaque]
pub open spec fn request(command: u8, d: DestinationView) -> Seq<u8> {
    seq![5u8, command, 0] + udp::address_bytes(d)->0
}

proof fn lemma_greeting_passes(secured: bool, methods: Seq<u8>, rest: Seq<u8>)
    requires
        methods.len() < 256,
    ensures
        greeting(methods).len() == 2 + methods.len(),
        inbound::greeting(secured, greeting(methods) + rest) == (if methods.contains(
            if secured {
                2u8
            } else {
                0u8
            },
        ) {
            Stage::Passed((2 + methods.len()) as usize)
        } else {
            Stage::Failed(SocksFailure::NoMethod)
        }),
{
    reveal(greeting);
    let b = greeting(methods) + rest;
    assert(b[1] == methods.len() as u8);
    assert(b.subrange(2, 2 + methods.len() as int) =~= methods);
}

proof fn lemma_login_reads(
    users: Seq<User>,
    b: Seq<u8>,
    p: int,
    name: Seq<char>,
    password: Seq<char>,
    rest: Seq<u8>,
)
    requires
        0 <= p <= b.len() <= usize::MAX - 1000,
        vstd::utf8::encode_utf8(name).len() < 256,
        vstd::utf8::encode_utf8(password).len() < 256,
        b.skip(p) == login(vstd::utf8::encode_utf8(name), vstd::utf8::encode_utf8(password)) + rest,
    ensures
        login(vstd::utf8::encode_utf8(name), vstd::utf8::encode_utf8(password)).len() == 3
            + vstd::utf8::encode_utf8(name).len() + vstd::utf8::encode_utf8(password).len(),
        vstd::utf8::decode_utf8(inbound::given_name(b, p)) == name,
        inbound::credentials(users, b, p) == (if inbound::is_user(users, name, password) {
            Stage::Passed(
                (p + 3 + vstd::utf8::encode_utf8(name).len() + vstd::utf8::encode_utf8(
                    password,
                ).len()) as usize,
            )
        } else {
            Stage::Failed(SocksFailure::Credentials)
        }),
{
    let n = vstd::utf8::encode_utf8(name);
    let w = vstd::utf8::encode_utf8(password);
    let tail = b.skip(p);
    reveal(login);
    assert(tail.len() == b.len() - p);
    assert(tail.len() == 3 + n.len() + w.len() + rest.len());
    assert(tail[0] == 1u8 && tail[1] == n.len() as u8);
    assert(b[p] == tail[0] && b[p + 1] == tail[1]);
    let q = p + 2 + n.len();
    assert(tail[2 + n.len() as int] == w.len() as u8);
    assert(b[q] == tail[2 + n.len() as int]);
    assert(b.subrange(p + 2, q) =~= tail.subrange(2, 2 + n.len() as int));
    assert(tail.subrange(2, 2 + n.len() as int) =~= n);
    assert(b.subrange(q + 1, q + 1 + w.len()) =~= tail.subrange(
        3 + n.len() as int,
        3 + n.len() + w.len() as int,
    ));
    assert(tail.subrange(3 + n.len() as int, 3 + n.len() + w.len() as int) =~= w);
    vstd::utf8::encode_utf8_valid_utf8(name);
    vstd::utf8::encode_utf8_valid_utf8(password);
    vstd::utf8::encode_utf8_decode_utf8(name);
    vstd::utf8::encode_utf8_decode_utf8(password);
}

proof fn lemma_v4_reads(b: Seq<u8>, p: int, command: u8, n: u32, port: u16, rest: Seq<u8>)
    requires
        0 <= p <= b.len() <= usize::MAX - 1000,
        command == 1 || command == 3,
        b.skip(p) == seq![5u8, command, 0] + (seq![1u8] + wire::bytes32(n as nat) + wire::bytes16(
            port as nat,
        )) + rest,
    ensures
        b[p + 1] == command,
        inbound::socks_request(b, p) is Passed,
        inbound::requested(b, p) == DestinationView::Ip(IpAddr::V4(n), port),
{
    let tail = b.skip(p);
    assert(tail.len() == b.len() - p);
    assert(tail.len() == 10 + rest.len());
    assert(tail[0] == 5u8 && tail[1] == command && tail[3] == 1u8);
    assert(b[p] == tail[0] && b[p + 1] == tail[1] && b[p + 3] == tail[3]);
    assert(b.subrange(p + 4, p + 8) =~= tail.subrange(4, 8));
    assert(tail.subrange(4, 8) =~= wire::bytes32(n as nat));
    wire::lemma_be32(b, p + 4, n as nat);
    assert(b.subrange(p + 8, p + 10) =~= tail.subrange(8, 10));
    assert(tail.subrange(8, 10) =~= wire::bytes16(port as nat));
    wire::lemma_be16(b, p + 8, port as nat);
}

proof fn lemma_v6_reads(b: Seq<u8>, p: int, command: u8, n: u128, port: u16, rest: Seq<u8>)
    requires
        0 <= p <= b.len() <= usize::MAX - 1000,
        command == 1 || command == 3,
        b.skip(p) == seq![5u8, command, 0] + (seq![4u8] + wire::bytes128(n as nat) + wire::bytes16(
            port as nat,
        )) + rest,
    ensures
        b[p + 1] == command,
        inbound::socks_request(b, p) is Passed,
        inbound::requested(b, p) == DestinationView::Ip(IpAddr::V6(n), port),
{
    let tail = b.skip(p);
    let octets = wire::bytes128(n as nat);
    assert(octets.len() == 16);
    assert(tail.len() == b.len() - p);
    assert(tail.len() == 22 + rest.len());
    assert(tail[0] == 5u8 && tail[1] == command && tail[3] == 4u8);
    assert(b[p] == tail[0] && b[p + 1] == tail[1] && b[p + 3] == tail[3]);
    assert(b.subrange(p + 4, p + 20) =~= octets) by {
        assert(b.subrange(p + 4, p + 20) =~= tail.subrange(4, 20));
        assert(tail.subrange(4, 20) =~= octets);
    }
    wire::lemma_be128(b, p + 4, n);
    assert(b.subrange(p + 20, p + 22) =~= wire::bytes16(port as nat)) by {
        assert(b.subrange(p + 20, p + 22) =~= tail.subrange(20, 22));
        assert(tail.subrange(20, 22) =~= wire::bytes16(port as nat));
    }
    wire::lemma_be16(b, p + 20, port as nat);
}

proof fn lemma_name_reads(
    b: Seq<u8>,
    p: int,
    command: u8,
    host: Seq<char>,
    port: u16,
    rest: Seq<u8>,
)
    requires
        0 <= p <= b.len() <= usize::MAX - 1000,
        command == 1 || command == 3,
        vstd::utf8::encode_utf8(host).len() < 256,
        b.skip(p) == seq![5u8, command, 0] + (seq![3u8, vstd::utf8::encode_utf8(host).len() as u8]
            + vstd::utf8::encode_utf8(host) + wire::bytes16(port as nat)) + rest,
    ensures
        b[p + 1] == command,
        inbound::socks_request(b, p) is Passed,
        inbound::requested(b, p) == DestinationView::Domain(host, port),
{
    let tail = b.skip(p);
    let h = vstd::utf8::encode_utf8(host);
    let k = h.len() as int;
    assert(tail.len() == b.len() - p);
    assert(tail.len() == 7 + k + rest.len());
    assert(tail[0] == 5u8 && tail[1] == command && tail[3] == 3u8 && tail[4] == k as u8);
    assert(b[p] == tail[0] && b[p + 1] == tail[1] && b[p + 3] == tail[3] && b[p + 4] == tail[4]);
    assert(b.subrange(p + 5, p + 5 + k) =~= h) by {
        assert(b.subrange(p + 5, p + 5 + k) =~= tail.subrange(5, 5 + k));
        assert(tail.subrange(5, 5 + k) =~= h);
    }
    assert(b.subrange(p + 5 + k, p + 7 + k) =~= wire::bytes16(port as nat)) by {
        assert(b.subrange(p + 5 + k, p + 7 + k) =~= tail.subrange(5 + k, 7 + k));
        assert(tail.subrange(5 + k, 7 + k) =~= wire::bytes16(port as nat));
    }
    wire::lemma_be16(b, p + 5 + k, port as nat);
    vstd::utf8::encode_utf8_valid_utf8(host);
    vstd::utf8::encode_utf8_decode_utf8(host);
}

proof fn lemma_request_reads(
    b: Seq<u8>,
    p: int,
    command: u8,
    d: DestinationView,
    rest: Seq<u8>,
    user: Option<Seq<char>>,
)
    requires
        0 <= p <= b.len() <= usize::MAX - 1000,
        command == 1 || command == 3,
        udp::address_bytes(d) is Some,
        b.skip(p) == request(command, d) + rest,
    ensures
        inbound::request_progress(b, p, user) == SocksProgressView::Done(
            if command == 1 {
                HandshakeView::Tcp {
                    destination: d,
                    reply: Some(seq![5u8, 0, 0, 1, 0, 0, 0, 0, 0, 0]),
                    initial: Seq::empty(),
                    auth_user: user,
                }
            } else {
                HandshakeView::Udp { auth_user: user }
            },
        ),
{
    reveal(request);
    match d {
        DestinationView::Ip(IpAddr::V4(n), port) => {
            lemma_v4_reads(b, p, command, n, port, rest);
        },
        DestinationView::Ip(IpAddr::V6(n), port) => {
            lemma_v6_reads(b, p, command, n, port, rest);
        },
        DestinationView::Domain(host, port) => {
            lemma_name_reads(b, p, command, host, port, rest);
        },
    }
}

/// Without users, a client that offers to go without a login is greeted and gets
/// what it asks for: a connection to the very destination that it writes, or an
/// association, whatever else it offers and whatever it sends behind.
pub proof fn an_open_proxy_serves_every_client(
    methods: Seq<u8>,
    command: u8,
    d: DestinationView,
    rest: Seq<u8>,
)
    requires
        methods.len() < 256,
        methods.contains(0u8),
        command == 1 || command == 3,
        udp::address_bytes(d) is Some,
        (greeting(methods) + request(command, d) + rest).len() <= usize::MAX - 1000,
    ensures
        inbound::socks_progress(Seq::empty(), greeting(methods) + request(command, d) + rest) == (
            seq![5u8, 0],
            SocksProgressView::Done(
                if command == 1 {
                    HandshakeView::Tcp {
                        destination: d,
                        reply: Some(seq![5u8, 0, 0, 1, 0, 0, 0, 0, 0, 0]),
                        initial: Seq::empty(),
                        auth_user: None,
                    }
                } else {
                    HandshakeView::Udp { auth_user: None }
                },
            ),
        ),
{
    let tail = request(command, d) + rest;
    let b = greeting(methods) + tail;
    assert(b =~= greeting(methods) + request(command, d) + rest);
    lemma_greeting_passes(false, methods, tail);
    assert(b.skip(2 + methods.len() as int) =~= tail);
    lemma_request_reads(b, 2 + methods.len() as int, command, d, rest, None);
}

/// With users, a client has to log in: with the name and the password of one of them
/// it gets what it asks for, under that name; with any others it is told so and gets
/// nothing.
pub proof fn a_secured_proxy_serves_its_users(
    users: Seq<User>,
    methods: Seq<u8>,
    name: Seq<char>,
    password: Seq<char>,
    command: u8,
    d: DestinationView,
    rest: Seq<u8>,
)
    requires
        users.len() > 0,
        methods.len() < 256,
        methods.contains(2u8),
        vstd::utf8::encode_utf8(name).len() < 256,
        vstd::utf8::encode_utf8(password).len() < 256,
        command == 1 || command == 3,
        udp::address_bytes(d) is Some,
        (greeting(methods) + login(
            vstd::utf8::encode_utf8(name),
            vstd::utf8::encode_utf8(password),
        ) + request(command, d) + rest).len() <= usize::MAX - 1000,
    ensures
        ({
            let known = exists|i: int|
                0 <= i < users.len() && (#[trigger] users[i]).name is Some && users[i].name->0@
                    == name && users[i].password is Some && users[i].password->0@ == password;
            inbound::socks_progress(
                users,
                greeting(methods) + login(
                    vstd::utf8::encode_utf8(name),
                    vstd::utf8::encode_utf8(password),
                ) + request(command, d) + rest,
            ) == (if known {
                (
                    seq![5u8, 2, 1, 0],
                    SocksProgressView::Done(
                        if command == 1 {
                            HandshakeView::Tcp {
                                destination: d,
                                reply: Some(seq![5u8, 0, 0, 1, 0, 0, 0, 0, 0, 0]),
                                initial: Seq::empty(),
                                auth_user: Some(name),
                            }
                        } else {
                            HandshakeView::Udp { auth_user: Some(name) }
                        },
                    ),
                )
            } else {
                (seq![5u8, 2, 1, 1], SocksProgressView::Failed(SocksFailure::Credentials))
            })
        }),
{
    let n = vstd::utf8::encode_utf8(name);
    let w = vstd::utf8::encode_utf8(password);
    let b = greeting(methods) + login(n, w) + request(command, d) + rest;
    lemma_parts_stand(greeting(methods), login(n, w), request(command, d), rest);
    lemma_greeting_passes(true, methods, login(n, w) + request(command, d) + rest);
    let p = 2 + methods.len() as int;
    lemma_login_reads(users, b, p, name, password, request(command, d) + rest);
    let q = p + 3 + n.len() + w.len();
    lemma_request_reads(b, q, command, d, rest, Some(name));
    lemma_known(users, name, password);
    lemma_second_stage(users, b, p, q, name, password);
}

proof fn lemma_parts_stand(a: Seq<u8>, b: Seq<u8>, c: Seq<u8>, d: Seq<u8>)
    ensures
        a + b + c + d == a + (b + c + d),
        (a + b + c + d).skip(a.len() as int) == b + (c + d),
        (a + b + c + d).skip(a.len() + b.len() as int) == c + d,
        b + c + d == b + (c + d),
{
    assert(a + b + c + d =~= a + (b + c + d));
    assert((a + b + c + d).skip(a.len() as int) =~= b + (c + d));
    assert((a + b + c + d).skip(a.len() + b.len() as int) =~= c + d);
    assert(b + c + d =~= b + (c + d));
}

proof fn lemma_known(users: Seq<User>, name: Seq<char>, password: Seq<char>)
    ensures
        inbound::is_user(users, name, password) == exists|i: int|
            0 <= i < users.len() && (#[trigger] users[i]).name is Some && users[i].name->0@ == name
                && users[i].password is Some && users[i].password->0@ == password,
{
}

proof fn lemma_second_stage(
    users: Seq<User>,
    b: Seq<u8>,
    p: int,
    q: int,
    name: Seq<char>,
    password: Seq<char>,
)
    requires
        users.len() > 0,
        0 <= p <= usize::MAX,
        0 <= q <= usize::MAX,
        inbound::greeting(true, b) == Stage::Passed(p as usize),
        inbound::credentials(users, b, p) == (if inbound::is_user(users, name, password) {
            Stage::Passed(q as usize)
        } else {
            Stage::Failed(SocksFailure::Credentials)
        }),
        vstd::utf8::decode_utf8(inbound::given_name(b, p)) == name,
    ensures
        inbound::socks_progress(users, b) == (if inbound::is_user(users, name, password) {
            (seq![5u8, 2, 1, 0], inbound::request_progress(b, q, Some(name)))
        } else {
            (seq![5u8, 2, 1, 1], SocksProgressView::Failed(SocksFailure::Credentials))
        }),
{
    assert(seq![5u8, 2] + seq![1u8, 0] =~= seq![5u8, 2, 1, 0]);
    assert(seq![5u8, 2] + seq![1u8, 1] =~= seq![5u8, 2, 1, 1]);
}

/// A client that does not offer the method that is wanted is turned away: a login
/// where there are users, none where there are none.
pub proof fn other_methods_are_turned_away(users: Seq<User>, methods: Seq<u8>, rest: Seq<u8>)
    requires
        methods.len() < 256,
        users.len() > 0 ==> !methods.contains(2u8),
        users.len() == 0 ==> !methods.contains(0u8),
    ensures
        inbound::socks_progress(users, greeting(methods) + rest) == (
            seq![5u8, 0xff],
            SocksProgressView::Failed(SocksFailure::NoMethod),
        ),
{
    lemma_greeting_passes(users.len() > 0, methods, rest);
}

// ---- HTTP ----

/// A request to connect asks for the authority that it names, at port 443 where it
/// names none, and is granted before anything is handed on.
pub proof fn connecting_asks_for_the_authority(
    words: Seq<Seq<char>>,
    ls: Seq<Seq<char>>,
    user: Option<Seq<char>>,
    host: Seq<char>,
    port: Option<u16>,
)
    requires
        words.len() >= 3,
        text::lower(words[0]) == text::lower("CONNECT"@),
        location::authority_parts(words[1]) == Some((host, port)),
    ensures
        http_inbound::requested(words, ls, user) == Ok::<HandshakeView, HttpFailure>(
            HandshakeView::Tcp {
                destination: net::host_destination(
                    host,
                    if port is Some {
                        port->0
                    } else {
                        443
                    },
                ),
                reply: Some(
                    vstd::utf8::encode_utf8("HTTP/1.1 200 Connection Established\r\n\r\n"@),
                ),
                initial: Seq::empty(),
                auth_user: user,
            },
        ),
{
}

/// Any other request goes to the host and the port of the URL that it names, with
/// nothing said to the client; its first line is handed on with the path and the
/// query of the URL in place of the whole, and its lines behind it up to an empty
/// one, but for those that are for the proxy.
pub proof fn other_requests_are_handed_on(
    words: Seq<Seq<char>>,
    ls: Seq<Seq<char>>,
    user: Option<Seq<char>>,
    host: Seq<char>,
    port: u16,
    path: Seq<char>,
    query: Option<Seq<char>>,
)
    requires
        words.len() >= 3,
        text::lower(words[0]) != text::lower("CONNECT"@),
        location::url_text(words[1]) is Some,
        location::url_host(words[1]) == Some(Some(host)),
        location::url_port(words[1]) == Some(Some(port)),
        location::url_path(words[1]) == Some(path),
        location::url_query(words[1]) == Some(query),
    ensures
        ({
            let target = match query {
                Some(q) => path + seq!['?'] + q,
                None => path,
            };
            http_inbound::requested(words, ls, user) == Ok::<HandshakeView, HttpFailure>(
                HandshakeView::Tcp {
                    destination: net::host_destination(host, port),
                    reply: None,
                    initial: vstd::utf8::encode_utf8(
                        words[0] + seq![' '] + target + seq![' '] + words[2] + seq!['\r', '\n']
                            + http_inbound::lines_text(http_inbound::kept_lines(ls.skip(1))) + seq![
                            '\r',
                            '\n',
                        ],
                    ),
                    auth_user: user,
                },
            )
        }),
{
}

/// Of the lines up to an empty one those are handed on that are not for the proxy,
/// all of them and in their order.
pub proof fn the_other_lines_are_handed_on(ls: Seq<Seq<char>>, n: int)
    requires
        0 <= n <= ls.len(),
        forall|i: int| 0 <= i < n ==> (#[trigger] ls[i]).len() > 0,
        n < ls.len() ==> ls[n].len() == 0,
    ensures
        http_inbound::kept_lines(ls) == ls.take(n).filter(
            |line: Seq<char>| !http_inbound::is_for_proxy(line),
        ),
    decreases n,
{
    let keep = |line: Seq<char>| !http_inbound::is_for_proxy(line);
    if n > 0 {
        let rest = ls.skip(1);
        assert forall|i: int| 0 <= i < n - 1 implies (#[trigger] rest[i]).len() > 0 by {
            assert(rest[i] == ls[i + 1]);
        }
        assert(n < ls.len() ==> rest[n - 1] == ls[n]);
        the_other_lines_are_handed_on(rest, n - 1);
        assert(ls[0].len() > 0);
        let one = seq![ls[0]];
        assert(ls.take(n) =~= one + rest.take(n - 1));
        Seq::filter_distributes_over_add(one, rest.take(n - 1), keep);
        reveal_with_fuel(Seq::filter, 2);
        assert(one.drop_last() =~= Seq::<Seq<char>>::empty());
        assert(one.filter(keep) =~= (if keep(ls[0]) {
            one
        } else {
            Seq::empty()
        }));
        assert(http_inbound::kept_lines(ls) =~= one.filter(keep) + rest.take(n - 1).filter(keep));
    } else {
        reveal(Seq::filter);
        assert(ls.take(0) =~= Seq::<Seq<char>>::empty());
    }
}

/// A line is for the proxy by its name alone, whatever the case of its letters.
pub proof fn lines_for_the_proxy_go_by_name(name: Seq<char>, value: Seq<char>)
    requires
        !name.contains(':'),
    ensures
        http_inbound::is_for_proxy(name + seq![':'] + value) <==> (text::lower(name)
            == "proxy-authorization"@ || text::lower(name) == "proxy-connection"@),
{
    let line = name + seq![':'] + value;
    assert forall|i: int| 0 <= i < name.len() implies name[i] != ':' by {
        assert(name.contains(name[i]));
    }
    text::lemma_span(line, ':', name.len() as int);
    assert(line.take(name.len() as int) =~= name);
    reveal_strlit("proxy-authorization");
    reveal_strlit("proxy-connection");
    assert(text::lower("proxy-authorization"@) =~= "proxy-authorization"@);
    assert(text::lower("proxy-connection"@) =~= "proxy-connection"@);
}

/// The credentials of a request are those that its field holds behind the word
/// `Basic`: a name up to the first colon, and a password.
pub proof fn basic_credentials_are_read(
    ls: Seq<Seq<char>>,
    scheme: Seq<char>,
    encoded: Seq<char>,
    name: Seq<char>,
    password: Seq<char>,
)
    requires
        text::header_value(ls, "proxy-authorization"@) is Some,
        text::trim_space(text::header_value(ls, "proxy-authorization"@)->0) == scheme + seq![' ']
            + encoded,
        !scheme.contains(' '),
        text::lower(scheme) == "basic"@,
        encoding::standard_decoded(encoded) == Some(
            vstd::utf8::encode_utf8(name + seq![':'] + password),
        ),
        !name.contains(':'),
    ensures
        http_inbound::given_credentials(ls) == Some((name, password)),
{
    let value = scheme + seq![' '] + encoded;
    assert forall|i: int| 0 <= i < scheme.len() implies scheme[i] != ' ' by {
        assert(scheme.contains(scheme[i]));
    }
    text::lemma_span(value, ' ', scheme.len() as int);
    assert(value.take(scheme.len() as int) =~= scheme);
    assert(value.skip(scheme.len() as int + 1) =~= encoded);
    reveal_strlit("basic");
    assert(text::lower("basic"@) =~= "basic"@);
    let both = name + seq![':'] + password;
    vstd::utf8::encode_utf8_valid_utf8(both);
    vstd::utf8::encode_utf8_decode_utf8(both);
    assert forall|i: int| 0 <= i < name.len() implies name[i] != ':' by {
        assert(name.contains(name[i]));
    }
    text::lemma_span(both, ':', name.len() as int);
    assert(both.take(name.len() as int) =~= name);
    assert(both.skip(name.len() as int + 1) =~= password);
}

/// A proxy with users serves a request exactly with the credentials of one of them,
/// and under that name; without credentials, or with others, it asks for them. One
/// without users asks for none.
pub proof fn requests_need_a_user(users: Seq<User>, ls: Seq<Seq<char>>)
    ensures
        users.len() == 0 ==> http_inbound::head_user(users, ls) == Ok::<_, HttpFailure>(
            None::<Seq<char>>,
        ),
        users.len() > 0 && http_inbound::given_credentials(ls) is None ==> http_inbound::head_user(
            users,
            ls,
        ) == Err::<Option<Seq<char>>, _>(HttpFailure::Unauthenticated),
        users.len() > 0 && http_inbound::given_credentials(ls) is Some ==> ({
            let (name, password) = http_inbound::given_credentials(ls)->0;
            let known = exists|i: int|
                0 <= i < users.len() && (#[trigger] users[i]).name is Some && users[i].name->0@
                    == name && users[i].password is Some && users[i].password->0@ == password;
            http_inbound::head_user(users, ls) == (if known {
                Ok(Some(name))
            } else {
                Err(HttpFailure::Unauthenticated)
            })
        }),
{
    if users.len() > 0 && http_inbound::given_credentials(ls) is Some {
        let (name, password) = http_inbound::given_credentials(ls)->0;
        let known = exists|i: int|
            0 <= i < users.len() && (#[trigger] users[i]).name is Some && users[i].name->0@ == name
                && users[i].password is Some && users[i].password->0@ == password;
        assert(known == inbound::is_user(users, name, password));
    }
}

/// A head is whole where it ends with an empty line, and is given up where it does
/// not though it is as long as a head may be.
pub proof fn heads_end_with_an_empty_line(b: Seq<u8>)
    ensures
        http_inbound::head_progress(b) == HeadProgress::Complete <==> b.len() >= 4 && b[b.len() - 4]
            == 13 && b[b.len() - 3] == 10 && b[b.len() - 2] == 13 && b[b.len() - 1] == 10,
        http_inbound::head_progress(b) == HeadProgress::TooLarge ==> b.len() >= 16 * 1024,
        http_inbound::head_progress(b) == HeadProgress::More ==> b.len() < 16 * 1024,
{
    let mark = http_inbound::head_end();
    if b.len() >= 4 {
        let end = b.skip(b.len() - 4);
        assert(end =~= seq![b[b.len() - 4], b[b.len() - 3], b[b.len() - 2], b[b.len() - 1]]);
        if end == mark {
            assert(end[0] == mark[0] && end[1] == mark[1] && end[2] == mark[2] && end[3]
                == mark[3]);
        }
    }
}

/// A request is judged by its user first and then by the words of its first line;
/// what is no text, and a request without a line, is refused.
pub proof fn requests_are_judged_by_user_and_line(users: Seq<User>, t: Seq<char>)
    ensures
        ({
            let b = vstd::utf8::encode_utf8(t);
            let ls = text::lines(t);
            match http_inbound::head_user(users, ls) {
                Err(e) => http_inbound::http_outcome(users, b) == Err::<HandshakeView, _>(e),
                Ok(user) => if ls.len() == 0 {
                    http_inbound::http_outcome(users, b) is Err
                } else {
                    http_inbound::http_outcome(users, b) == http_inbound::requested(
                        text::words(ls[0]),
                        ls,
                        user,
                    )
                },
            }
        }),
        forall|b: Seq<u8>|
            !vstd::utf8::valid_utf8(b) ==> #[trigger] http_inbound::http_outcome(users, b)
                == Err::<HandshakeView, _>(HttpFailure::NotText),
{
    vstd::utf8::encode_utf8_valid_utf8(t);
    vstd::utf8::encode_utf8_decode_utf8(t);
}

} // verus!
