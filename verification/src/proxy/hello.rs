//! Client hellos as they are written, and the names that are told from them.
use crate::proxy::sniff;
use crate::text;
use crate::wire;
use vstd::prelude::*;

verus! {

/// An extension behind its type and its length.
pub open spec fn extension(kind: nat, body: Seq<u8>) -> Seq<u8> {
    wire::bytes16(kind) + wire::bytes16(body.len()) + body
}

/// Extensions one behind the other.
pub open spec fn extensions(list: Seq<(nat, Seq<u8>)>) -> Seq<u8>
    decreases list.len(),
{
    if list.len() == 0 {
        Seq::empty()
    } else {
        extension(list[0].0, list[0].1) + extensions(list.skip(1))
    }
}

/// Extensions of which none is a list of server names that holds one.
pub open spec fn unnamed(list: Seq<(nat, Seq<u8>)>) -> bool {
    forall|i: int| 0 <= i < list.len() ==> is_unnamed(#[trigger] list[i])
}

/// An extension of another type, or too short for a name.
pub open spec fn is_unnamed(extension: (nat, Seq<u8>)) -> bool {
    extension.0 < 0x1_0000 && extension.1.len() < 0x1_0000 && (extension.0 > 0
        || extension.1.len() < 5)
}

/// A list of one server name: its length, the type of a host name, and the name
/// behind its own length.
pub open spec fn server_names(name: Seq<u8>) -> Seq<u8> {
    wire::bytes16(name.len() + 3) + seq![0u8] + wire::bytes16(name.len()) + name
}

/// The message of a client hello behind its type and its length; `said` is how long
/// the extensions are said to be.
#[verifier::opaque]
pub open spec fn hello(
    version: Seq<u8>,
    random: Seq<u8>,
    session: Seq<u8>,
    suites: Seq<u8>,
    methods: Seq<u8>,
    said: nat,
    extensions: Seq<u8>,
) -> Seq<u8> {
    let body = version + random + seq![session.len() as u8] + session + wire::bytes16(suites.len())
        + suites + seq![methods.len() as u8] + methods + wire::bytes16(said)
        + extensions;
    seq![1u8, (body.len() / 0x1_0000) as u8] + wire::bytes16(body.len() % 0x1_0000) + body
}

/// A record of the handshake.
#[verifier::opaque]
pub open spec fn handshake_record(minor: u8, message: Seq<u8>) -> Seq<u8> {
    seq![0x16u8, 3, minor] + wire::bytes16(message.len()) + message
}

proof fn lemma_extension_reads(h: Seq<u8>, p: int, kind: nat, body: Seq<u8>)
    requires
        0 <= p,
        p + 4 + body.len() <= h.len(),
        h.subrange(p, p + 4 + body.len()) == extension(kind, body),
        kind < 0x1_0000,
        body.len() < 0x1_0000,
    ensures
        wire::be16(h, p) == kind,
        wire::be16(h, p + 2) == body.len(),
        h.subrange(p + 4, p + 4 + body.len()) == body,
{
    let e = extension(kind, body);
    let whole = h.subrange(p, p + 4 + body.len());
    assert(h.subrange(p, p + 2) =~= whole.subrange(0, 2));
    assert(e.subrange(0, 2) =~= wire::bytes16(kind));
    wire::lemma_be16(h, p, kind);
    assert(h.subrange(p + 2, p + 4) =~= whole.subrange(2, 4));
    assert(e.subrange(2, 4) =~= wire::bytes16(body.len()));
    wire::lemma_be16(h, p + 2, body.len());
    assert(h.subrange(p + 4, p + 4 + body.len()) =~= whole.subrange(4, 4 + body.len() as int));
    assert(e.subrange(4, 4 + body.len() as int) =~= body);
}

/// Extensions without a name are passed over.
proof fn lemma_passed_over(h: Seq<u8>, p: int, end: int, front: Seq<(nat, Seq<u8>)>)
    requires
        0 <= p,
        p + extensions(front).len() <= end <= h.len(),
        h.subrange(p, p + extensions(front).len()) == extensions(front),
        unnamed(front),
    ensures
        sniff::sni_extension(h, p, end) == sniff::sni_extension(
            h,
            p + extensions(front).len(),
            end,
        ),
    decreases front.len(),
{
    if front.len() > 0 {
        let (kind, body) = front[0];
        let first = extension(kind, body);
        let rest = extensions(front.skip(1));
        let whole = h.subrange(p, p + extensions(front).len());
        assert(whole == first + rest);
        assert(h.subrange(p, p + 4 + body.len()) =~= whole.subrange(0, first.len() as int));
        assert(whole.subrange(0, first.len() as int) =~= first);
        lemma_extension_reads(h, p, kind, body);
        let q = p + 4 + body.len();
        assert(h.subrange(q, q + rest.len()) =~= whole.subrange(
            first.len() as int,
            first.len() + rest.len() as int,
        ));
        assert(whole.subrange(first.len() as int, first.len() + rest.len() as int) =~= rest);
        assert(is_unnamed(front[0]));
        assert forall|i: int| 0 <= i < front.skip(1).len() implies is_unnamed(
            #[trigger] front.skip(1)[i],
        ) by {
            assert(front.skip(1)[i] == front[i + 1]);
        }
        lemma_passed_over(h, q, end, front.skip(1));
    }
}

/// Where the extensions of a hello stand, and what stands there.
proof fn lemma_hello_reads(
    version: Seq<u8>,
    random: Seq<u8>,
    session: Seq<u8>,
    suites: Seq<u8>,
    methods: Seq<u8>,
    said: nat,
    list: Seq<u8>,
)
    requires
        version.len() == 2,
        random.len() == 32,
        session.len() < 0x100,
        suites.len() < 0x1_0000,
        methods.len() < 0x100,
        said < 0x1_0000,
        hello(version, random, session, suites, methods, said, list).len() < 0x1_0000,
    ensures
        ({
            let h = hello(version, random, session, suites, methods, said, list);
            let p = h.len() - list.len();
            &&& 44 <= p
            &&& h.subrange(p, h.len() as int) == list
            &&& sniff::hello_sni(h) == sniff::sni_extension(
                h,
                p,
                if p + said <= h.len() {
                    p + said
                } else {
                    h.len() as int
                },
            )
        }),
{
    let h = hello(version, random, session, suites, methods, said, list);
    reveal(hello);
    let a = 39 + session.len() as int;
    let b = a + 2 + suites.len();
    let c = b + 1 + methods.len();
    assert(h[0] == 1);
    assert(h[38] == session.len() as u8);
    assert(h.subrange(a, a + 2) =~= wire::bytes16(suites.len()));
    wire::lemma_be16(h, a, suites.len());
    assert(h[b] == methods.len() as u8);
    assert(h.subrange(c, c + 2) =~= wire::bytes16(said));
    wire::lemma_be16(h, c, said);
    assert(h.subrange(c + 2, h.len() as int) =~= list);
}

proof fn lemma_record_reads(minor: u8, message: Seq<u8>, rest: Seq<u8>)
    requires
        message.len() < 0x1_0000,
    ensures
        sniff::server_name(handshake_record(minor, message) + rest) == sniff::hello_sni(message),
        text::starts_with(handshake_record(minor, message) + rest, seq![0x16u8, 0x03]),
{
    reveal(handshake_record);
    let data = handshake_record(minor, message) + rest;
    assert(data.subrange(3, 5) =~= wire::bytes16(message.len()));
    wire::lemma_be16(data, 3, message.len());
    assert(data.subrange(5, 5 + message.len() as int) =~= message);
    assert(data.take(2) =~= seq![0x16u8, 0x03]);
}

/// The name among extensions is told, whatever stands before and behind it.
proof fn lemma_name_is_told(
    h: Seq<u8>,
    p: int,
    end: int,
    front: Seq<(nat, Seq<u8>)>,
    name: Seq<u8>,
    behind: Seq<u8>,
)
    requires
        0 <= p <= end <= h.len() < 0x1_0000,
        unnamed(front),
        h.subrange(p, h.len() as int) == extensions(front) + extension(0, server_names(name))
            + behind,
        p + extensions(front).len() + extension(0, server_names(name)).len() <= end,
    ensures
        sniff::sni_extension(h, p, end) == (if vstd::utf8::valid_utf8(name) {
            Some(text::lower(vstd::utf8::decode_utf8(name)))
        } else {
            None
        }),
{
    let body = server_names(name);
    let one = extension(0, body);
    let list = extensions(front) + one + behind;
    let n = extensions(front).len() as int;
    let q = p + n;
    let whole = h.subrange(p, h.len() as int);
    assert(whole.len() == list.len());
    assert(list.len() == n + one.len() + behind.len());
    assert(h.subrange(p, q) =~= whole.subrange(0, n));
    assert(list.subrange(0, n) =~= extensions(front));
    lemma_passed_over(h, p, end, front);
    assert(h.subrange(q, q + one.len()) =~= whole.subrange(n, n + one.len()));
    assert(list.subrange(n, n + one.len()) =~= one);
    lemma_extension_reads(h, q, 0, body);
    let inner = h.subrange(q + 4, q + 4 + body.len());
    assert(inner == body);
    assert(h.subrange(q + 7, q + 9) =~= inner.subrange(3, 5));
    assert(body.subrange(3, 5) =~= wire::bytes16(name.len()));
    wire::lemma_be16(h, q + 7, name.len());
    assert(h.subrange(q + 9, q + 9 + name.len()) =~= inner.subrange(5, 5 + name.len() as int));
    assert(body.subrange(5, 5 + name.len() as int) =~= name);
}

/// The server name that a client writes into its hello is told from it, in lower
/// case: whatever the version, the random bytes, the session, the cipher suites and
/// the compression methods are, whatever other extensions stand before and behind
/// the name, whatever length they are said to have, if it covers the name, and
/// whatever follows the record. A name that is no text is not told.
pub proof fn the_name_of_a_hello_is_told(
    minor: u8,
    version: Seq<u8>,
    random: Seq<u8>,
    session: Seq<u8>,
    suites: Seq<u8>,
    methods: Seq<u8>,
    said: nat,
    front: Seq<(nat, Seq<u8>)>,
    name: Seq<char>,
    bytes: Seq<u8>,
    behind: Seq<u8>,
    rest: Seq<u8>,
    on: Seq<Seq<char>>,
)
    requires
        version.len() == 2,
        random.len() == 32,
        session.len() < 0x100,
        suites.len() < 0x1_0000,
        methods.len() < 0x100,
        unnamed(front),
        bytes == vstd::utf8::encode_utf8(name) || !vstd::utf8::valid_utf8(bytes),
        (extensions(front) + extension(0, server_names(bytes))).len() <= said < 0x1_0000,
        hello(
            version,
            random,
            session,
            suites,
            methods,
            said,
            extensions(front) + extension(0, server_names(bytes)) + behind,
        ).len() < 0x1_0000,
        on.len() == 0 || on.contains("tls"@),
    ensures
        ({
            let list = extensions(front) + extension(0, server_names(bytes)) + behind;
            let data = handshake_record(
                minor,
                hello(version, random, session, suites, methods, said, list),
            ) + rest;
            let told = if bytes == vstd::utf8::encode_utf8(name) {
                Some(text::lower(name))
            } else {
                None
            };
            &&& sniff::server_name(data) == told
            &&& sniff::sniffed(data, false, on) == Some(
                sniff::SniffView { protocol: "tls"@, domain: told, client: None },
            )
        }),
{
    let list = extensions(front) + extension(0, server_names(bytes)) + behind;
    let h = hello(version, random, session, suites, methods, said, list);
    lemma_record_reads(minor, h, rest);
    lemma_hello_reads(version, random, session, suites, methods, said, list);
    let p = h.len() - list.len();
    let end = if p + said <= h.len() {
        p + said
    } else {
        h.len() as int
    };
    lemma_name_is_told(h, p, end, front, bytes, behind);
    vstd::utf8::encode_utf8_valid_utf8(name);
    vstd::utf8::encode_utf8_decode_utf8(name);
}

/// From a hello without a server name no name is told, but that it is one of TLS.
pub proof fn no_name_is_told_where_none_is_given(
    minor: u8,
    version: Seq<u8>,
    random: Seq<u8>,
    session: Seq<u8>,
    suites: Seq<u8>,
    methods: Seq<u8>,
    list: Seq<(nat, Seq<u8>)>,
    rest: Seq<u8>,
)
    requires
        version.len() == 2,
        random.len() == 32,
        session.len() < 0x100,
        suites.len() < 0x1_0000,
        methods.len() < 0x100,
        unnamed(list),
        hello(
            version,
            random,
            session,
            suites,
            methods,
            extensions(list).len(),
            extensions(list),
        ).len() < 0x1_0000,
    ensures
        ({
            let data = handshake_record(
                minor,
                hello(
            version,
            random,
            session,
            suites,
            methods,
            extensions(list).len(),
            extensions(list),
        ),
            ) + rest;
            &&& sniff::server_name(data) is None
            &&& sniff::sniffed(data, false, Seq::empty()) == Some(sniff::just("tls"@))
        }),
{
    let h = hello(
            version,
            random,
            session,
            suites,
            methods,
            extensions(list).len(),
            extensions(list),
        );
    lemma_record_reads(minor, h, rest);
    assert(extensions(list).len() <= h.len()) by {
        reveal(hello);
    }
    lemma_hello_reads(
        version,
        random,
        session,
        suites,
        methods,
        extensions(list).len(),
        extensions(list),
    );
    let p = h.len() - extensions(list).len();
    lemma_passed_over(h, p, h.len() as int, list);
}

} // verus!
