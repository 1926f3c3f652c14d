//! The settings of AnyTLS: protocols, keys, certificates and clients.
use crate::encoding;
use crate::net;
use crate::proxy::udp::Address;
use crate::singbox::{Inbound, Outbound, TlsConfig};
use crate::text;
use crate::time::{self, Duration, InvalidDuration};
use crate::wire;
use sha2::Digest;
use vstd::prelude::*;

verus! {

// ---- protocols ----

/// A protocol is longer than its length can say.
#[derive(Clone, Copy, Debug, PartialEq, Eq, Structural)]
pub struct ProtocolTooLong;

/// The names of protocols as bytes.
pub open spec fn protocol_bytes(protocols: Seq<String>) -> Seq<Seq<u8>> {
    protocols.map_values(|p: String| vstd::utf8::encode_utf8(p@))
}

/// Protocols one behind the other, each with its length in a byte in front.
pub open spec fn protocol_wire(protocols: Seq<Seq<u8>>) -> Seq<u8>
    decreases protocols.len(),
{
    if protocols.len() == 0 {
        Seq::empty()
    } else {
        protocol_wire(protocols.drop_last()) + seq![protocols.last().len() as u8]
            + protocols.last()
    }
}

/// The protocols that bytes hold, up to the first that is cut short.
pub open spec fn protocols_in(b: Seq<u8>) -> Seq<Seq<u8>>
    decreases b.len(),
{
    if b.len() == 0 || b.len() < 1 + b[0] {
        Seq::empty()
    } else {
        seq![b.subrange(1, 1 + b[0])] + protocols_in(b.skip(1 + b[0]))
    }
}

/// Every protocol fits its length.
pub open spec fn protocols_fit(protocols: Seq<Seq<u8>>) -> bool {
    forall|i: int| 0 <= i < protocols.len() ==> (#[trigger] protocols[i]).len() <= 255
}

/// Writes protocols one behind the other.
pub fn encode_alpn(protocols: &Vec<String>) -> (r: Result<Vec<u8>, ProtocolTooLong>)
    ensures
        r is Ok <==> protocols_fit(protocol_bytes(protocols@)),
        r matches Ok(b) ==> b@ == protocol_wire(protocol_bytes(protocols@)),
{
    let ghost all = protocol_bytes(protocols@);
    let mut r: Vec<u8> = Vec::new();
    let mut i: usize = 0;
    proof {
        assert(all.take(0) =~= Seq::<Seq<u8>>::empty());
    }
    while i < protocols.len()
        invariant
            i <= protocols@.len(),
            all == protocol_bytes(protocols@),
            forall|j: int| 0 <= j < i ==> (#[trigger] all[j]).len() <= 255,
            r@ == protocol_wire(all.take(i as int)),
        decreases protocols@.len() - i,
    {
        let bytes = text::text_bytes(protocols[i].as_str());
        proof {
            assert(all[i as int] == bytes@);
            assert(all.take(i + 1).drop_last() =~= all.take(i as int));
            assert(all.take(i + 1).last() == bytes@);
        }
        if bytes.len() > 255 {
            return Err(ProtocolTooLong);
        }
        r.push(bytes.len() as u8);
        wire::push_bytes(&mut r, bytes.as_slice());
        i = i + 1;
    }
    proof {
        assert(all.take(i as int) =~= all);
    }
    Ok(r)
}

proof fn lemma_protocols_front(a: Seq<u8>, b: Seq<u8>)
    requires
        a.len() <= 255,
    ensures
        protocols_in(seq![a.len() as u8] + a + b) == seq![a] + protocols_in(b),
{
    let s = seq![a.len() as u8] + a + b;
    assert(s.subrange(1, 1 + s[0]) =~= a);
    assert(s.skip(1 + s[0]) =~= b);
}

proof fn lemma_protocols_in(protocols: Seq<Seq<u8>>, rest: Seq<u8>)
    requires
        protocols_fit(protocols),
    ensures
        protocols_in(protocol_wire(protocols) + rest) == protocols + protocols_in(rest),
    decreases protocols.len(),
{
    if protocols.len() == 0 {
        assert(protocol_wire(protocols) + rest =~= rest);
        assert(protocols + protocols_in(rest) =~= protocols_in(rest));
    } else {
        let front = protocols.drop_last();
        let last = protocols.last();
        let tail = seq![last.len() as u8] + last + rest;
        assert forall|i: int| 0 <= i < front.len() implies (#[trigger] front[i]).len() <= 255 by {
            assert(front[i] == protocols[i]);
        }
        lemma_protocols_in(front, tail);
        assert(protocols[protocols.len() - 1].len() <= 255);
        lemma_protocols_front(last, rest);
        assert(protocol_wire(protocols) + rest =~= protocol_wire(front) + tail);
        assert(protocols + protocols_in(rest) =~= front + (seq![last] + protocols_in(rest)));
    }
}

/// Protocols that were written one behind the other are read back.
pub proof fn protocols_read_back(protocols: Seq<Seq<u8>>)
    requires
        protocols_fit(protocols),
    ensures
        protocols_in(protocol_wire(protocols)) == protocols,
{
    lemma_protocols_in(protocols, Seq::empty());
    assert(protocol_wire(protocols) + Seq::<u8>::empty() =~= protocol_wire(protocols));
    assert(protocols + protocols_in(Seq::<u8>::empty()) =~= protocols);
}

/// The first of the protocols of the one side that the other has too.
pub open spec fn first_common(client: Seq<Seq<u8>>, server: Seq<Seq<u8>>) -> Option<Seq<u8>>
    decreases client.len(),
{
    if client.len() == 0 {
        None
    } else if server.contains(client[0]) {
        Some(client[0])
    } else {
        first_common(client.skip(1), server)
    }
}

/// The protocol that is chosen is one of both sides, and none that the client
/// would rather have is one of the server.
pub proof fn protocols_go_by_the_client(client: Seq<Seq<u8>>, server: Seq<Seq<u8>>)
    ensures
        match first_common(client, server) {
            Some(p) => exists|i: int|
                0 <= i < client.len() && #[trigger] client[i] == p && server.contains(p) && forall|
                    j: int,
                |
                    0 <= j < i ==> !server.contains(#[trigger] client[j]),
            None => forall|j: int| 0 <= j < client.len() ==> !server.contains(#[trigger] client[j]),
        },
    decreases client.len(),
{
    if client.len() > 0 && !server.contains(client[0]) {
        let rest = client.skip(1);
        protocols_go_by_the_client(rest, server);
        match first_common(rest, server) {
            Some(p) => {
                let i = choose|i: int|
                    0 <= i < rest.len() && #[trigger] rest[i] == p && server.contains(p) && forall|
                        j: int,
                    |
                        0 <= j < i ==> !server.contains(#[trigger] rest[j]);
                assert(client[i + 1] == p);
                assert forall|j: int| 0 <= j < i + 1 implies !server.contains(
                    #[trigger] client[j],
                ) by {
                    if j > 0 {
                        assert(client[j] == rest[j - 1]);
                    }
                }
            },
            None => {
                assert forall|j: int| 0 <= j < client.len() implies !server.contains(
                    #[trigger] client[j],
                ) by {
                    if j > 0 {
                        assert(client[j] == rest[j - 1]);
                    }
                }
            },
        }
    } else if client.len() > 0 {
        assert(client[0] == first_common(client, server)->0);
    }
}

/// Whether bytes hold a protocol.
pub fn alpn_wire_contains(wire: &[u8], expected: &[u8]) -> (r: bool)
    ensures
        r == protocols_in(wire@).contains(expected@),
{
    let total: usize = wire.len();
    let mut at: usize = 0;
    let ghost all = protocols_in(wire@);
    proof {
        assert(wire@.skip(0) =~= wire@);
    }
    while at < total
        invariant
            total == wire@.len(),
            at <= total,
            all == protocols_in(wire@),
            all.contains(expected@) == protocols_in(wire@.skip(at as int)).contains(expected@),
        decreases total - at,
    {
        let ghost rest = wire@.skip(at as int);
        let length: usize = wire[at] as usize;
        if total - at - 1 < length {
            proof {
                assert(protocols_in(rest) =~= Seq::<Seq<u8>>::empty());
            }
            return false;
        }
        let end: usize = at + 1 + length;
        let ghost tail = protocols_in(rest.skip(1 + rest[0]));
        proof {
            assert(rest.subrange(1, 1 + rest[0]) =~= wire@.subrange(at + 1, end as int));
            assert(rest.skip(1 + rest[0]) =~= wire@.skip(end as int));
            assert(protocols_in(rest) =~= seq![rest.subrange(1, 1 + rest[0])] + tail);
        }
        if text::same_bytes(&wire[at + 1..end], expected) {
            proof {
                assert(protocols_in(rest)[0] == expected@);
            }
            return true;
        }
        proof {
            if tail.contains(expected@) {
                let i = choose|i: int| 0 <= i < tail.len() && tail[i] == expected@;
                assert(protocols_in(rest)[i + 1] == expected@);
            }
            if protocols_in(rest).contains(expected@) {
                let i = choose|i: int|
                    0 <= i < protocols_in(rest).len() && protocols_in(rest)[i] == expected@;
                assert(i > 0);
                assert(tail[i - 1] == expected@);
            }
        }
        at = end;
    }
    proof {
        assert(protocols_in(wire@.skip(at as int)) =~= Seq::<Seq<u8>>::empty());
    }
    false
}

/// The first protocol of the client that the server has too.
pub fn select_client_alpn<'a>(server: &[u8], client: &'a [u8]) -> (r: Option<&'a [u8]>)
    ensures
        match r {
            Some(p) => first_common(protocols_in(client@), protocols_in(server@)) == Some(p@),
            None => first_common(protocols_in(client@), protocols_in(server@)) is None,
        },
{
    let total: usize = client.len();
    let mut at: usize = 0;
    let ghost have = protocols_in(server@);
    proof {
        assert(client@.skip(0) =~= client@);
    }
    while at < total
        invariant
            total == client@.len(),
            at <= total,
            have == protocols_in(server@),
            first_common(protocols_in(client@), have) == first_common(
                protocols_in(client@.skip(at as int)),
                have,
            ),
        decreases total - at,
    {
        let ghost rest = client@.skip(at as int);
        let length: usize = client[at] as usize;
        if total - at - 1 < length {
            return None;
        }
        let end: usize = at + 1 + length;
        proof {
            let all = protocols_in(rest);
            assert(rest.subrange(1, 1 + rest[0]) =~= client@.subrange(at + 1, end as int));
            assert(rest.skip(1 + rest[0]) =~= client@.skip(end as int));
            assert(all.skip(1) =~= protocols_in(client@.skip(end as int)));
            assert(all[0] == client@.subrange(at + 1, end as int));
        }
        let protocol = &client[at + 1..end];
        if alpn_wire_contains(server, protocol) {
            return Some(protocol);
        }
        at = end;
    }
    None
}

// ---- keys ----

/// Why a text holds no keys.
#[derive(Clone, Copy, Debug, PartialEq, Eq, Structural)]
pub enum EchKeysError {
    NotText,
    NotPem,
    NotBase64,
    Truncated,
    NoKeys,
}

/// Keys and configurations: each with its length in two bytes in front.
pub type KeyPairs = Seq<(Seq<u8>, Seq<u8>)>;

/// The keys and configurations that bytes hold, if nothing of them is cut short.
pub open spec fn keys_in(b: Seq<u8>) -> Option<KeyPairs>
    decreases b.len(),
{
    if b.len() == 0 {
        Some(Seq::empty())
    } else if b.len() < 2 {
        None
    } else {
        let n = wire::be16(b, 0) as int;
        if b.len() < 4 + n {
            None
        } else {
            let m = wire::be16(b, 2 + n) as int;
            if b.len() < 4 + n + m {
                None
            } else {
                match keys_in(b.skip(4 + n + m)) {
                    Some(rest) => Some(
                        seq![(b.subrange(2, 2 + n), b.subrange(4 + n, 4 + n + m))] + rest,
                    ),
                    None => None,
                }
            }
        }
    }
}

/// Keys and configurations written one behind the other.
pub open spec fn key_wire(pairs: KeyPairs) -> Seq<u8>
    decreases pairs.len(),
{
    if pairs.len() == 0 {
        Seq::empty()
    } else {
        wire::bytes16(pairs[0].0.len()) + pairs[0].0 + wire::bytes16(pairs[0].1.len())
            + pairs[0].1 + key_wire(pairs.skip(1))
    }
}

/// Two pieces with their lengths in front, in front of others, are where they belong.
proof fn lemma_pieces_apart(
    key: Seq<u8>,
    config: Seq<u8>,
    rest: Seq<u8>,
    b: Seq<u8>,
    n: int,
    m: int,
)
    requires
        b == wire::bytes16(key.len()) + key + wire::bytes16(config.len()) + config + rest,
        n == key.len(),
        m == config.len(),
    ensures
        b.len() == 4 + n + m + rest.len(),
        b.subrange(0, 2) == wire::bytes16(key.len()),
        b.subrange(2, 2 + n) == key,
        b.subrange(2 + n, 4 + n) == wire::bytes16(config.len()),
        b.subrange(4 + n, 4 + n + m) == config,
        b.skip(4 + n + m) == rest,
{
    assert(b.subrange(0, 2) =~= wire::bytes16(key.len()));
    assert(b.subrange(2, 2 + n) =~= key);
    assert(b.subrange(2 + n, 4 + n) =~= wire::bytes16(config.len()));
    assert(b.subrange(4 + n, 4 + n + m) =~= config);
    assert(b.skip(4 + n + m) =~= rest);
}

/// Keys and configurations that were written one behind the other are read back.
#[verifier::spinoff_prover]
#[verifier::rlimit(40)]
pub proof fn keys_read_back(pairs: KeyPairs)
    requires
        forall|i: int|
            0 <= i < pairs.len() ==> (#[trigger] pairs[i]).0.len() <= 65535 && pairs[i].1.len()
                <= 65535,
    ensures
        keys_in(key_wire(pairs)) == Some(pairs),
    decreases pairs.len(),
{
    if pairs.len() == 0 {
        assert(pairs =~= Seq::empty());
    } else {
        let b = key_wire(pairs);
        let key = pairs[0].0;
        let config = pairs[0].1;
        let n = key.len() as int;
        assert forall|i: int| 0 <= i < pairs.skip(1).len() implies (#[trigger] pairs.skip(
            1,
        )[i]).0.len() <= 65535 && pairs.skip(1)[i].1.len() <= 65535 by {
            assert(pairs.skip(1)[i] == pairs[i + 1]);
        }
        keys_read_back(pairs.skip(1));
        lemma_pieces_apart(key, config, key_wire(pairs.skip(1)), b, n, config.len() as int);
        wire::lemma_be16(b, 0, key.len());
        wire::lemma_be16(b, 2 + n, config.len());
        assert(seq![(key, config)] + pairs.skip(1) =~= pairs);
    }
}

/// The body of a text between the two marks of keys.
pub open spec fn key_body(t: Seq<char>) -> Option<Seq<char>> {
    match text::cut_once(t, "-----BEGIN ECH KEYS-----"@) {
        Some((_, rest)) => match text::cut_once(rest, "-----END ECH KEYS-----"@) {
            Some((body, _)) => Some(body),
            None => None,
        },
        None => None,
    }
}

/// The keys and configurations that a text holds.
pub open spec fn ech_keys(raw: Seq<u8>) -> Result<KeyPairs, EchKeysError> {
    if !vstd::utf8::valid_utf8(raw) {
        Err(EchKeysError::NotText)
    } else {
        match key_body(vstd::utf8::decode_utf8(raw)) {
            None => Err(EchKeysError::NotPem),
            Some(body) => match encoding::standard_decoded(text::flat(text::words(body))) {
                None => Err(EchKeysError::NotBase64),
                Some(der) => match keys_in(der) {
                    None => Err(EchKeysError::Truncated),
                    Some(pairs) => if pairs.len() == 0 {
                        Err(EchKeysError::NoKeys)
                    } else {
                        Ok(pairs)
                    },
                },
            },
        }
    }
}

/// Keys and configurations with plain values.
pub open spec fn key_views(s: Seq<(Vec<u8>, Vec<u8>)>) -> KeyPairs {
    s.map_values(|p: (Vec<u8>, Vec<u8>)| (p.0@, p.1@))
}

/// Reads the keys and configurations that bytes hold.
pub fn read_keys(der: &[u8]) -> (r: Option<Vec<(Vec<u8>, Vec<u8>)>>)
    ensures
        match r {
            Some(pairs) => keys_in(der@) == Some(key_views(pairs@)),
            None => keys_in(der@) is None,
        },
{
    let total: usize = der.len();
    let mut at: usize = 0;
    let mut r: Vec<(Vec<u8>, Vec<u8>)> = Vec::new();
    proof {
        assert(der@.skip(0) =~= der@);
        assert(key_views(r@) =~= Seq::empty());
        lemma_with_front(Seq::empty(), keys_in(der@));
    }
    while at < total
        invariant
            total == der@.len(),
            at <= total,
            keys_in(der@) == with_front(key_views(r@), keys_in(der@.skip(at as int))),
        decreases total - at,
    {
        let ghost rest = der@.skip(at as int);
        let left: usize = total - at;
        if left < 2 {
            return None;
        }
        let n: usize = wire::read_u16(der, at) as usize;
        proof {
            lemma_same16(der@, at as int, 0);
        }
        if left < 4 + n {
            return None;
        }
        let m: usize = wire::read_u16(der, at + 2 + n) as usize;
        proof {
            lemma_same16(der@, at as int, 2 + n);
        }
        if left - 4 - n < m {
            return None;
        }
        let end: usize = at + 4 + n + m;
        let key = text::copy_bytes(&der[at + 2..at + 2 + n]);
        let config = text::copy_bytes(&der[at + 4 + n..end]);
        let ghost before = key_views(r@);
        let ghost pair = (key@, config@);
        r.push((key, config));
        proof {
            assert(rest.subrange(2, 2 + n) =~= pair.0);
            assert(rest.subrange(4 + n, 4 + n + m) =~= pair.1);
            assert(rest.skip(4 + n + m) =~= der@.skip(end as int));
            assert(key_views(r@) =~= before.push(pair));
            match keys_in(der@.skip(end as int)) {
                Some(more) => {
                    assert(before + (seq![pair] + more) =~= before.push(pair) + more);
                },
                None => {},
            }
        }
        at = end;
    }
    proof {
        assert(der@.skip(at as int).len() == 0);
        assert(key_views(r@) + Seq::<(Seq<u8>, Seq<u8>)>::empty() =~= key_views(r@));
    }
    Some(r)
}

spec fn with_front(front: KeyPairs, rest: Option<KeyPairs>) -> Option<KeyPairs> {
    match rest {
        Some(more) => Some(front + more),
        None => None,
    }
}

proof fn lemma_with_front(front: KeyPairs, rest: Option<KeyPairs>)
    requires
        front.len() == 0,
    ensures
        with_front(front, rest) == rest,
{
    match rest {
        Some(more) => {
            assert(front + more =~= more);
        },
        None => {},
    }
}

proof fn lemma_same16(b: Seq<u8>, at: int, i: int)
    requires
        0 <= at,
        0 <= i,
        at + i + 2 <= b.len(),
    ensures
        wire::be16(b.skip(at), i) == wire::be16(b, at + i),
{
}

/// Reads the keys and configurations that a text holds.
pub fn parse_ech_keys(raw: &[u8]) -> (r: Result<Vec<(Vec<u8>, Vec<u8>)>, EchKeysError>)
    ensures
        match r {
            Ok(pairs) => ech_keys(raw@) == Ok::<KeyPairs, EchKeysError>(key_views(pairs@)),
            Err(e) => ech_keys(raw@) == Err::<KeyPairs, EchKeysError>(e),
        },
{
    let t = match text::utf8_text(text::copy_bytes(raw)) {
        Some(t) => t,
        None => {
            return Err(EchKeysError::NotText);
        },
    };
    let rest = match text::split_at_text(t.as_str(), "-----BEGIN ECH KEYS-----") {
        Some((_, rest)) => rest,
        None => {
            return Err(EchKeysError::NotPem);
        },
    };
    let body = match text::split_at_text(rest.as_str(), "-----END ECH KEYS-----") {
        Some((body, _)) => body,
        None => {
            return Err(EchKeysError::NotPem);
        },
    };
    let encoded = text::without_space(body.as_str());
    let der = match encoding::decode_standard(encoded.as_str()) {
        Some(der) => der,
        None => {
            return Err(EchKeysError::NotBase64);
        },
    };
    match read_keys(der.as_slice()) {
        None => Err(EchKeysError::Truncated),
        Some(pairs) => {
            if pairs.len() == 0 {
                Err(EchKeysError::NoKeys)
            } else {
                Ok(pairs)
            }
        },
    }
}

// ---- certificates of clients ----

/// What is asked of clients: what the settings say, or else nothing, unless they
/// name certificates of clients.
pub open spec fn asked_of_clients(tls: TlsConfig) -> Seq<char> {
    match tls.client_authentication {
        Some(word) => word@,
        None => if tls.client_certificate@.len() == 0 && tls.client_certificate_path is None
            && tls.client_certificate_public_key_sha256@.len() == 0 {
            "no"@
        } else {
            "require-and-verify"@
        },
    }
}

/// What is asked of clients.
pub fn effective_client_authentication(tls: &TlsConfig) -> (r: String)
    ensures
        r@ == asked_of_clients(*tls),
{
    match &tls.client_authentication {
        Some(word) => text::copy_text(word.as_str()),
        None => {
            if tls.client_certificate.len() == 0 && tls.client_certificate_path.is_none()
                && tls.client_certificate_public_key_sha256.len() == 0 {
                text::copy_text("no")
            } else {
                text::copy_text("require-and-verify")
            }
        },
    }
}

/// How the certificates of clients are checked.
#[derive(Clone, Copy, Debug, PartialEq, Eq, Structural)]
pub enum ClientCheck {
    /// They are not asked for.
    Off,
    /// Any certificate will do, or any whose key is one of the pinned ones.
    Direct { mandatory: bool, pinned: bool },
    /// They are checked against the certificates of the authorities.
    Authorities { mandatory: bool },
}

/// How the certificates of clients are checked, where keys may be pinned; nothing
/// for a word that is not known.
pub open spec fn client_check(word: Seq<char>, pinned: bool) -> Option<ClientCheck> {
    if word == "no"@ {
        Some(ClientCheck::Off)
    } else if word == "request"@ || word == "require-any"@ {
        Some(ClientCheck::Direct { mandatory: word == "require-any"@, pinned: false })
    } else if word == "verify-if-given"@ || word == "require-and-verify"@ {
        if pinned {
            Some(ClientCheck::Direct { mandatory: word == "require-and-verify"@, pinned: true })
        } else {
            Some(ClientCheck::Authorities { mandatory: word == "require-and-verify"@ })
        }
    } else {
        None
    }
}

/// How the certificates of clients are checked without encrypted hellos.
pub fn rustls_client_verifier(tls: &TlsConfig, pinned: bool) -> (r: Option<ClientCheck>)
    ensures
        r == client_check(asked_of_clients(*tls), pinned),
{
    let word = effective_client_authentication(tls);
    let w = word.as_str();
    if text::same_text(w, "no") {
        Some(ClientCheck::Off)
    } else if text::same_text(w, "request") || text::same_text(w, "require-any") {
        Some(
            ClientCheck::Direct { mandatory: text::same_text(w, "require-any"), pinned: false },
        )
    } else if text::same_text(w, "verify-if-given") || text::same_text(w, "require-and-verify") {
        let mandatory = text::same_text(w, "require-and-verify");
        if pinned {
            Some(ClientCheck::Direct { mandatory, pinned: true })
        } else {
            Some(ClientCheck::Authorities { mandatory })
        }
    } else {
        None
    }
}

/// How the certificates of clients are checked with encrypted hellos: pinned keys
/// count whatever else is asked.
pub open spec fn ech_client_check(word: Seq<char>, pinned: bool) -> Option<ClientCheck> {
    let mandatory = word == "require-any"@ || word == "require-and-verify"@;
    if word == "no"@ {
        Some(ClientCheck::Off)
    } else if word == "request"@ || word == "require-any"@ || pinned {
        Some(ClientCheck::Direct { mandatory, pinned })
    } else if word == "verify-if-given"@ || word == "require-and-verify"@ {
        Some(ClientCheck::Authorities { mandatory })
    } else {
        None
    }
}

/// How the certificates of clients are checked with encrypted hellos.
pub fn configure_boring_client_auth(tls: &TlsConfig, pinned: bool) -> (r: Option<ClientCheck>)
    ensures
        r == ech_client_check(asked_of_clients(*tls), pinned),
{
    let word = effective_client_authentication(tls);
    let w = word.as_str();
    let mandatory = text::same_text(w, "require-any") || text::same_text(w, "require-and-verify");
    if text::same_text(w, "no") {
        Some(ClientCheck::Off)
    } else if text::same_text(w, "request") || text::same_text(w, "require-any") || pinned {
        Some(ClientCheck::Direct { mandatory, pinned })
    } else if text::same_text(w, "verify-if-given") || text::same_text(w, "require-and-verify") {
        Some(ClientCheck::Authorities { mandatory })
    } else {
        None
    }
}

/// The SHA-256 digest of bytes.
pub uninterp spec fn sha256(b: Seq<u8>) -> Seq<u8>;

/// Calls `Sha256::digest` of the crate `sha2`, whose result is 32 bytes long.
#[verifier::external_body]
pub(crate) fn digest(b: &[u8]) -> (r: Vec<u8>)
    ensures
        r@ == sha256(b@),
        r@.len() == 32,
{
    sha2::Sha256::digest(b).to_vec()
}

/// The public key of a certificate, with what it is for, as the certificate holds
/// it.
pub uninterp spec fn certificate_key(b: Seq<u8>) -> Option<Seq<u8>>;

/// Calls `parse_x509_certificate` of the crate `x509_parser` and gives the bytes
/// of `subject_pki` of the certificate, or nothing where the bytes are none. What
/// a certificate has to look like is not said here.
#[verifier::external_body]
pub(crate) fn parse_certificate_key(b: &[u8]) -> (r: Option<Vec<u8>>)
    ensures
        encoding::opt_bytes(r) == certificate_key(b@),
{
    let (_, certificate) = x509_parser::parse_x509_certificate(b).ok()?;
    Some(certificate.tbs_certificate.subject_pki.raw.to_vec())
}

/// The digest of a key is one of the pinned ones.
pub open spec fn is_pinned(key: Seq<u8>, pins: Seq<Vec<u8>>) -> bool {
    exists|i: int| 0 <= i < pins.len() && (#[trigger] pins[i])@ == sha256(key)
}

/// Whether the digest of a key is one of the pinned ones.
pub fn key_matches_pins(key: &[u8], pins: &Vec<Vec<u8>>) -> (r: bool)
    ensures
        r == is_pinned(key@, pins@),
{
    let found = digest(key);
    let mut i: usize = 0;
    while i < pins.len()
        invariant
            i <= pins@.len(),
            found@ == sha256(key@),
            forall|j: int| 0 <= j < i ==> (#[trigger] pins@[j])@ != sha256(key@),
        decreases pins@.len() - i,
    {
        if text::same_bytes(found.as_slice(), pins[i].as_slice()) {
            return true;
        }
        i = i + 1;
    }
    false
}

/// Whether the key of a certificate is one of the pinned ones.
pub fn certificate_matches_pins(certificate: &[u8], pins: &Vec<Vec<u8>>) -> (r: bool)
    ensures
        r == (match certificate_key(certificate@) {
            Some(key) => is_pinned(key, pins@),
            None => false,
        }),
{
    match parse_certificate_key(certificate) {
        Some(key) => key_matches_pins(key.as_slice(), pins),
        None => false,
    }
}

/// Whether the certificate of a client is taken: any where no key is pinned.
pub fn verify_client_cert(certificate: &[u8], pins: &Vec<Vec<u8>>) -> (r: bool)
    ensures
        r == (pins@.len() == 0 || match certificate_key(certificate@) {
            Some(key) => is_pinned(key, pins@),
            None => false,
        }),
{
    pins.len() == 0 || certificate_matches_pins(certificate, pins)
}

/// Whether a certificate in a chain is taken, with encrypted hellos: only that of
/// the client itself, at the depth 0, has to have a pinned key, where keys are
/// pinned. `key` is its public key, if it could be read.
pub fn chain_certificate_taken(depth: u32, key: Option<&Vec<u8>>, pins: &Vec<Vec<u8>>) -> (r: bool)
    ensures
        r == (depth != 0 || pins@.len() == 0 || (key matches Some(k) && is_pinned(k@, pins@))),
{
    if depth != 0 || pins.len() == 0 {
        return true;
    }
    match key {
        Some(k) => key_matches_pins(k.as_slice(), pins),
        None => false,
    }
}

// ---- clients ----

/// Why an outbound cannot be set up.
#[derive(Clone, Copy, Debug, PartialEq, Eq, Structural)]
pub enum AnyTlsError {
    NoTls,
    Duration(InvalidDuration),
    NoServer,
    NoPassword,
}

/// The settings of TLS are there and on.
pub open spec fn has_tls(tls: Option<TlsConfig>) -> bool {
    tls matches Some(t) && t.enabled
}

/// A text that may be missing is a length of time.
pub open spec fn is_duration(value: Option<Seq<char>>) -> bool {
    value matches Some(s) ==> time::duration_millis(s) is Some
}

/// Why an outbound cannot be set up, if it cannot.
pub open spec fn outbound_fault(outbound: Outbound) -> Option<AnyTlsError> {
    if !has_tls(outbound.tls) {
        Some(AnyTlsError::NoTls)
    } else if !is_duration(text::opt_text(outbound.idle_session_check_interval)) || !is_duration(
        text::opt_text(outbound.idle_session_timeout),
    ) {
        Some(AnyTlsError::Duration(InvalidDuration))
    } else {
        None
    }
}

/// A length of time, or a default where none is given.
pub fn parse_duration(value: Option<&str>, default: Duration) -> (r: Result<
    Duration,
    InvalidDuration,
>)
    ensures
        match value {
            None => r == Ok::<Duration, InvalidDuration>(default),
            Some(s) => match r {
                Ok(d) => time::duration_millis(s@) == Some(d.millis as nat),
                Err(_) => time::duration_millis(s@) is None,
            },
        },
{
    time::parse_duration_or(value, default)
}

/// Checks the settings of an outbound.
pub fn validate_outbound(outbound: &Outbound) -> (r: Result<(), AnyTlsError>)
    ensures
        match outbound_fault(*outbound) {
            Some(e) => r == Err::<(), AnyTlsError>(e),
            None => r is Ok,
        },
{
    let enabled = match &outbound.tls {
        Some(tls) => tls.enabled,
        None => false,
    };
    if !enabled {
        return Err(AnyTlsError::NoTls);
    }
    let default = Duration::from_secs(30);
    match parse_duration(text::as_opt_str(&outbound.idle_session_check_interval), default) {
        Ok(_) => {},
        Err(e) => {
            return Err(AnyTlsError::Duration(e));
        },
    }
    match parse_duration(text::as_opt_str(&outbound.idle_session_timeout), default) {
        Ok(_) => {},
        Err(e) => {
            return Err(AnyTlsError::Duration(e));
        },
    }
    Ok(())
}

/// What a client connects with.
#[derive(Debug)]
pub struct ClientPlan {
    pub server: String,
    pub port: u16,
    pub password: String,
    pub server_name: String,
    /// The name whose records hold the configuration of encrypted hellos.
    pub ech_name: Option<String>,
    pub idle_session_check_interval: Duration,
    pub idle_session_timeout: Duration,
    pub min_idle_session: usize,
    pub disable_reuse: bool,
}

/// The name that the client asks the server for.
pub open spec fn client_name(tls: TlsConfig, server: Seq<char>) -> Seq<char> {
    text::text_or(text::opt_text(tls.server_name), server)
}

/// The name whose records hold the configuration of encrypted hellos: those are
/// looked up where they are on and no configuration is given.
pub open spec fn ech_lookup(tls: TlsConfig, server: Seq<char>, given: bool) -> Option<Seq<char>> {
    match tls.ech {
        Some(ech) if ech.enabled && !given => Some(
            text::text_or(text::opt_text(ech.query_server_name), client_name(tls, server)),
        ),
        _ => None,
    }
}

/// A length of time that is one, or 30 seconds.
pub open spec fn millis_or_half_minute(value: Option<Seq<char>>) -> nat {
    match value {
        Some(s) => time::duration_millis(s)->0,
        None => 30000,
    }
}

/// Plans a client; `given` where a configuration of encrypted hellos is.
pub fn build_client(outbound: &Outbound, given: bool) -> (r: Result<ClientPlan, AnyTlsError>)
    ensures
        match r {
            Ok(plan) => {
                &&& outbound_fault(*outbound) is None
                &&& outbound.server matches Some(s) && plan.server@ == s@
                &&& outbound.password matches Some(p) && plan.password@ == p@
                &&& plan.port == (match outbound.server_port {
                    Some(port) => port,
                    None => 443,
                })
                &&& plan.server_name@ == client_name(outbound.tls->0, plan.server@)
                &&& text::opt_text(plan.ech_name) == ech_lookup(
                    outbound.tls->0,
                    plan.server@,
                    given,
                )
                &&& plan.idle_session_check_interval.millis == millis_or_half_minute(
                    text::opt_text(outbound.idle_session_check_interval),
                )
                &&& plan.idle_session_timeout.millis == millis_or_half_minute(
                    text::opt_text(outbound.idle_session_timeout),
                )
                &&& plan.min_idle_session == (match outbound.min_idle_session {
                    Some(n) => n,
                    None => 0,
                })
                &&& plan.disable_reuse == outbound.disable_reuse
            },
            Err(e) => match outbound_fault(*outbound) {
                Some(f) => e == f,
                None => if outbound.server is None {
                    e == AnyTlsError::NoServer
                } else {
                    outbound.password is None && e == AnyTlsError::NoPassword
                },
            },
        },
{
    match validate_outbound(outbound) {
        Ok(()) => {},
        Err(e) => {
            return Err(e);
        },
    }
    let server = match &outbound.server {
        Some(server) => text::copy_text(server.as_str()),
        None => {
            return Err(AnyTlsError::NoServer);
        },
    };
    let port: u16 = match outbound.server_port {
        Some(port) => port,
        None => 443,
    };
    let password = match &outbound.password {
        Some(password) => text::copy_text(password.as_str()),
        None => {
            return Err(AnyTlsError::NoPassword);
        },
    };
    let tls = match &outbound.tls {
        Some(tls) => tls,
        None => {
            return Err(AnyTlsError::NoTls);
        },
    };
    let server_name = text::or_text(&tls.server_name, server.as_str());
    let ech_name = match &tls.ech {
        Some(ech) => {
            if ech.enabled && !given {
                Some(text::or_text(&ech.query_server_name, server_name.as_str()))
            } else {
                None
            }
        },
        None => None,
    };
    let default = Duration::from_secs(30);
    let idle_session_check_interval = match parse_duration(
        text::as_opt_str(&outbound.idle_session_check_interval),
        default,
    ) {
        Ok(d) => d,
        Err(e) => {
            return Err(AnyTlsError::Duration(e));
        },
    };
    let idle_session_timeout = match parse_duration(
        text::as_opt_str(&outbound.idle_session_timeout),
        default,
    ) {
        Ok(d) => d,
        Err(e) => {
            return Err(AnyTlsError::Duration(e));
        },
    };
    let min_idle_session: usize = match outbound.min_idle_session {
        Some(n) => n,
        None => 0,
    };
    Ok(
        ClientPlan {
            server,
            port,
            password,
            server_name,
            ech_name,
            idle_session_check_interval,
            idle_session_timeout,
            min_idle_session,
            disable_reuse: outbound.disable_reuse,
        },
    )
}

// ---- TLS of the inbound ----

/// Why the inbound cannot speak TLS.
#[derive(Clone, Copy, Debug, PartialEq, Eq, Structural)]
pub enum ServerTlsError {
    NoCertificate,
    NoKey,
    UnknownAuthentication,
    NoAuthorities,
    ProtocolTooLong,
    NoEchKey,
    EchKeys(EchKeysError),
}

/// What was loaded for the inbound, and whether keys of clients are pinned.
#[derive(Debug)]
pub struct ServerMaterial {
    pub certificate: Option<Vec<u8>>,
    pub key: Option<Vec<u8>>,
    pub authorities: Option<Vec<u8>>,
    pub ech_key: Option<Vec<u8>>,
    pub pinned: bool,
}

/// How the inbound speaks TLS.
#[derive(Debug)]
pub enum ServerTls {
    /// Without encrypted hellos.
    Plain { check: ClientCheck },
    /// With encrypted hellos; the protocols are chosen from those on the wire, if
    /// there are any.
    Ech { check: ClientCheck, protocols: Option<Vec<u8>>, keys: Vec<(Vec<u8>, Vec<u8>)> },
}

/// How the inbound speaks TLS, with plain values.
pub enum ServerTlsView {
    Plain { check: ClientCheck },
    Ech { check: ClientCheck, protocols: Option<Seq<u8>>, keys: KeyPairs },
}

impl View for ServerTls {
    type V = ServerTlsView;

    open spec fn view(&self) -> ServerTlsView {
        match *self {
            ServerTls::Plain { check } => ServerTlsView::Plain { check },
            ServerTls::Ech { check, protocols, keys } => ServerTlsView::Ech {
                check,
                protocols: encoding::opt_bytes(protocols),
                keys: key_views(keys@),
            },
        }
    }
}

/// Hellos of clients may be encrypted.
pub open spec fn has_ech(tls: TlsConfig) -> bool {
    tls.ech matches Some(ech) && ech.enabled
}

/// A way to check the certificates of clients that can be followed: one against
/// authorities needs their certificates.
pub open spec fn followed(check: Option<ClientCheck>, authorities: bool) -> Result<
    ClientCheck,
    ServerTlsError,
> {
    match check {
        None => Err(ServerTlsError::UnknownAuthentication),
        Some(ClientCheck::Authorities { .. }) if !authorities => Err(
            ServerTlsError::NoAuthorities,
        ),
        Some(check) => Ok(check),
    }
}

/// How the inbound speaks TLS with what was loaded for it.
pub open spec fn server_tls(tls: TlsConfig, loaded: ServerMaterial) -> Result<
    ServerTlsView,
    ServerTlsError,
> {
    let word = asked_of_clients(tls);
    let authorities = loaded.authorities is Some;
    let protocols = protocol_bytes(tls.alpn@);
    if loaded.certificate is None {
        Err(ServerTlsError::NoCertificate)
    } else if loaded.key is None {
        Err(ServerTlsError::NoKey)
    } else if !has_ech(tls) {
        match followed(client_check(word, loaded.pinned), authorities) {
            Err(e) => Err(e),
            Ok(check) => Ok(ServerTlsView::Plain { check }),
        }
    } else {
        match followed(ech_client_check(word, loaded.pinned), authorities) {
            Err(e) => Err(e),
            Ok(check) => if !protocols_fit(protocols) {
                Err(ServerTlsError::ProtocolTooLong)
            } else {
                match encoding::opt_bytes(loaded.ech_key) {
                    None => Err(ServerTlsError::NoEchKey),
                    Some(raw) => match ech_keys(raw) {
                        Err(e) => Err(ServerTlsError::EchKeys(e)),
                        Ok(keys) => Ok(
                            ServerTlsView::Ech {
                                check,
                                protocols: if protocols.len() == 0 {
                                    None
                                } else {
                                    Some(protocol_wire(protocols))
                                },
                                keys,
                            },
                        ),
                    },
                }
            },
        }
    }
}

fn follow(check: Option<ClientCheck>, authorities: bool) -> (r: Result<ClientCheck, ServerTlsError>)
    ensures
        r == followed(check, authorities),
{
    match check {
        None => Err(ServerTlsError::UnknownAuthentication),
        Some(ClientCheck::Authorities { mandatory }) => if authorities {
            Ok(ClientCheck::Authorities { mandatory })
        } else {
            Err(ServerTlsError::NoAuthorities)
        },
        Some(check) => Ok(check),
    }
}

/// Decides how the inbound speaks TLS with what was loaded for it.
pub fn build_server_tls(tls: &TlsConfig, loaded: &ServerMaterial) -> (r: Result<
    ServerTls,
    ServerTlsError,
>)
    ensures
        match r {
            Ok(plan) => server_tls(*tls, *loaded) == Ok::<ServerTlsView, ServerTlsError>(plan@),
            Err(e) => server_tls(*tls, *loaded) == Err::<ServerTlsView, ServerTlsError>(e),
        },
{
    if loaded.certificate.is_none() {
        return Err(ServerTlsError::NoCertificate);
    }
    if loaded.key.is_none() {
        return Err(ServerTlsError::NoKey);
    }
    let ech = match &tls.ech {
        Some(ech) => ech.enabled,
        None => false,
    };
    let authorities = loaded.authorities.is_some();
    if !ech {
        return match follow(rustls_client_verifier(tls, loaded.pinned), authorities) {
            Err(e) => Err(e),
            Ok(check) => Ok(ServerTls::Plain { check }),
        };
    }
    let check = match follow(configure_boring_client_auth(tls, loaded.pinned), authorities) {
        Err(e) => {
            return Err(e);
        },
        Ok(check) => check,
    };
    let wire = match encode_alpn(&tls.alpn) {
        Err(_) => {
            return Err(ServerTlsError::ProtocolTooLong);
        },
        Ok(wire) => wire,
    };
    let protocols = if tls.alpn.len() == 0 {
        None
    } else {
        Some(wire)
    };
    match &loaded.ech_key {
        None => Err(ServerTlsError::NoEchKey),
        Some(raw) => match parse_ech_keys(raw.as_slice()) {
            Err(e) => Err(ServerTlsError::EchKeys(e)),
            Ok(keys) => Ok(ServerTls::Ech { check, protocols, keys }),
        },
    }
}

// ---- the inbound ----

/// A name and a password.
#[derive(Debug)]
pub struct Credential {
    pub name: String,
    pub password: String,
}

/// The settings of the inbound.
#[derive(Debug)]
pub struct AnyTlsSettings {
    pub listen: String,
    pub tag: String,
    pub tls: bool,
    pub users: Vec<Credential>,
    /// The padding scheme, where it is not the one that goes without saying.
    pub padding: Option<String>,
}

/// The inbound has no port.
#[derive(Clone, Copy, Debug, PartialEq, Eq, Structural)]
pub struct NoListenPort;

/// Reads the settings of the inbound; a user without a name or a password has an
/// empty one.
pub fn inbound_settings(inbound: &Inbound) -> (r: Result<AnyTlsSettings, NoListenPort>)
    ensures
        r is Ok <==> inbound.listen_port is Some,
        r matches Ok(s) ==> {
            &&& s.listen@ == net::socket_text(
                text::text_or(text::opt_text(inbound.listen), "::"@),
                inbound.listen_port->0,
            )
            &&& s.tag@ == text::text_or(text::opt_text(inbound.tag), "anytls-in"@)
            &&& s.tls == has_tls(inbound.tls)
            &&& s.users@.len() == inbound.users@.len()
            &&& forall|i: int|
                0 <= i < s.users@.len() ==> (#[trigger] s.users@[i]).name@ == text::text_or(
                    text::opt_text(inbound.users@[i].name),
                    ""@,
                ) && s.users@[i].password@ == text::text_or(
                    text::opt_text(inbound.users@[i].password),
                    ""@,
                )
            &&& text::opt_text(s.padding) == (if inbound.padding_scheme@.len() == 0 {
                None
            } else {
                Some(text::join(text::texts(inbound.padding_scheme@), '\n'))
            })
        },
{
    let port: u16 = match inbound.listen_port {
        Some(port) => port,
        None => {
            return Err(NoListenPort);
        },
    };
    let host = text::or_text(&inbound.listen, "::");
    let listen = net::socket(host.as_str(), port);
    let tls = match &inbound.tls {
        Some(tls) => tls.enabled,
        None => false,
    };
    let mut users: Vec<Credential> = Vec::new();
    let mut i: usize = 0;
    while i < inbound.users.len()
        invariant
            i <= inbound.users@.len(),
            users@.len() == i,
            forall|j: int|
                0 <= j < i ==> (#[trigger] users@[j]).name@ == text::text_or(
                    text::opt_text(inbound.users@[j].name),
                    ""@,
                ) && users@[j].password@ == text::text_or(
                    text::opt_text(inbound.users@[j].password),
                    ""@,
                ),
        decreases inbound.users@.len() - i,
    {
        users.push(
            Credential {
                name: text::or_text(&inbound.users[i].name, ""),
                password: text::or_text(&inbound.users[i].password, ""),
            },
        );
        i = i + 1;
    }
    let padding = if inbound.padding_scheme.len() == 0 {
        None
    } else {
        Some(text::join_texts(&inbound.padding_scheme, '\n'))
    };
    let tag = text::or_text(&inbound.tag, "anytls-in");
    Ok(AnyTlsSettings { listen, tag, tls, users, padding })
}

/// Whether a stream asks for datagrams: its destination is the name that stands
/// for them.
pub fn asks_for_datagrams(destination: &Address, magic: &str) -> (r: bool)
    ensures
        r == (match *destination {
            Address::Domain(name, _) => name@ == magic@,
            Address::Ip(..) => false,
        }),
{
    match destination {
        Address::Domain(name, _) => text::same_text(name.as_str(), magic),
        Address::Ip(_, _) => false,
    }
}

/// The user that rules see: none where the name is empty.
pub fn stream_user(name: &str) -> (r: Option<&str>)
    ensures
        text::opt_str(r) == (if name@.len() == 0 {
            None
        } else {
            Some(name@)
        }),
{
    if text::to_chars(name).len() == 0 {
        None
    } else {
        Some(name)
    }
}

/// What is asked of clients says whether they have to have a certificate and how it
/// is checked: against pinned keys where there are any, or else against authorities;
/// where nothing is said, certificates are asked for only where there is something
/// to check them against. A word that is not known is refused.
pub proof fn clients_are_checked_as_asked(word: Seq<char>, pinned: bool)
    ensures
        word == "no"@ ==> client_check(word, pinned) == Some(ClientCheck::Off) && ech_client_check(
            word,
            pinned,
        ) == Some(ClientCheck::Off),
        word == "request"@ ==> client_check(word, pinned) == Some(
            ClientCheck::Direct { mandatory: false, pinned: false },
        ),
        word == "require-any"@ ==> client_check(word, pinned) == Some(
            ClientCheck::Direct { mandatory: true, pinned: false },
        ),
        word == "verify-if-given"@ ==> client_check(word, pinned) == Some(
            if pinned {
                ClientCheck::Direct { mandatory: false, pinned: true }
            } else {
                ClientCheck::Authorities { mandatory: false }
            },
        ),
        word == "require-and-verify"@ ==> client_check(word, pinned) == Some(
            if pinned {
                ClientCheck::Direct { mandatory: true, pinned: true }
            } else {
                ClientCheck::Authorities { mandatory: true }
            },
        ),
        word == "verify-if-given"@ || word == "require-and-verify"@ ==> ech_client_check(
            word,
            pinned,
        ) == client_check(word, pinned),
        word == "request"@ || word == "require-any"@ ==> ech_client_check(word, pinned) == Some(
            ClientCheck::Direct { mandatory: word == "require-any"@, pinned },
        ),
        word != "no"@ && word != "request"@ && word != "require-any"@ && word != "verify-if-given"@
            && word != "require-and-verify"@ ==> client_check(word, pinned) is None,
{
    reveal_strlit("no");
    reveal_strlit("request");
    reveal_strlit("require-any");
    reveal_strlit("verify-if-given");
    reveal_strlit("require-and-verify");
    assert("no"@.len() == 2 && "request"@.len() == 7 && "require-any"@.len() == 11
        && "verify-if-given"@.len() == 15 && "require-and-verify"@.len() == 18);
}

/// Clients are asked for nothing where the settings name neither authorities nor
/// keys, for a checked certificate where they do, and for what they say where they
/// say it.
pub proof fn clients_are_asked_by_the_settings(tls: TlsConfig)
    ensures
        tls.client_authentication matches Some(w) ==> asked_of_clients(tls) == w@,
        tls.client_authentication is None && (tls.client_certificate@.len() > 0
            || tls.client_certificate_path is Some
            || tls.client_certificate_public_key_sha256@.len() > 0) ==> asked_of_clients(tls)
            == "require-and-verify"@,
        tls.client_authentication is None && tls.client_certificate@.len() == 0
            && tls.client_certificate_path is None
            && tls.client_certificate_public_key_sha256@.len() == 0 ==> asked_of_clients(tls)
            == "no"@,
{
}

/// A server is set up only with a certificate and its key, checks no client against
/// authorities that it does not have, and offers an encrypted hello only with keys
/// for it.
pub proof fn servers_have_what_they_need(tls: TlsConfig, loaded: ServerMaterial)
    requires
        server_tls(tls, loaded) is Ok,
    ensures
        loaded.certificate is Some && loaded.key is Some,
        match server_tls(tls, loaded)->Ok_0 {
            ServerTlsView::Plain { check } => !(tls.ech is Some && tls.ech->0.enabled) && (
            check is Authorities ==> loaded.authorities is Some) && client_check(
                asked_of_clients(tls),
                loaded.pinned,
            ) == Some(check),
            ServerTlsView::Ech { check, keys, protocols } => tls.ech is Some && tls.ech->0.enabled
                && (check is Authorities ==> loaded.authorities is Some) && keys.len() > 0
                && loaded.ech_key is Some && (protocols is None <==> tls.alpn@.len() == 0),
        },
{
}

/// An outbound needs TLS and readable intervals, and its server is known by the
/// name that the settings give, or else by its address.
pub proof fn outbounds_need_tls(outbound: Outbound, tls: TlsConfig, server: Seq<char>)
    ensures
        outbound_fault(outbound) is None <==> {
            &&& outbound.tls is Some && outbound.tls->0.enabled
            &&& outbound.idle_session_check_interval matches Some(t) ==> time::duration_millis(t@)
                is Some
            &&& outbound.idle_session_timeout matches Some(t) ==> time::duration_millis(t@) is Some
        },
        tls.server_name matches Some(n) ==> client_name(tls, server) == n@,
        tls.server_name is None ==> client_name(tls, server) == server,
{
}

/// A key is taken where one of the pins is its hash, and no other is.
pub proof fn pins_are_hashes(key: Seq<u8>, pins: Seq<Vec<u8>>)
    ensures
        is_pinned(key, pins) <==> exists|i: int|
            0 <= i < pins.len() && (#[trigger] pins[i])@ == sha256(key),
        pins.len() == 0 ==> !is_pinned(key, pins),
{
}

/// The encrypted hello is looked up only where it is switched on and not given, under
/// the name that the settings give for it, or else that of the server.
pub proof fn encrypted_hellos_are_looked_up(tls: TlsConfig, server: Seq<char>, given: bool)
    ensures
        ech_lookup(tls, server, given) is Some <==> tls.ech is Some && tls.ech->0.enabled && !given,
        ech_lookup(tls, server, given) matches Some(name) ==> name == (
        if tls.ech->0.query_server_name is Some {
            tls.ech->0.query_server_name->0@
        } else if tls.server_name is Some {
            tls.server_name->0@
        } else {
            server
        }),
{
}

/// The keys for an encrypted hello stand between the line that begins them and the
/// line that ends them.
pub proof fn keys_stand_between_their_lines(t: Seq<char>, body: Seq<char>)
    requires
        key_body(t) == Some(body),
    ensures
        exists|a: Seq<char>, b: Seq<char>|
            t == #[trigger] (a + "-----BEGIN ECH KEYS-----"@) + body + #[trigger] (
            "-----END ECH KEYS-----"@ + b),
{
    let first = "-----BEGIN ECH KEYS-----"@;
    let last = "-----END ECH KEYS-----"@;
    text::texts_are_cut_at_the_first_place(t, first);
    let (a, rest) = text::cut_once(t, first)->0;
    text::texts_are_cut_at_the_first_place(rest, last);
    let (found, b) = text::cut_once(rest, last)->0;
    assert(t =~= (a + first) + body + (last + b));
}

/// A session is looked after every half minute where nothing else is said, and else
/// as often as is said.
pub proof fn sessions_are_looked_after(value: Option<Seq<char>>)
    ensures
        value is None ==> millis_or_half_minute(value) == 30 * 1000,
        value is Some && time::duration_millis(value->0) is Some ==> Some(
            millis_or_half_minute(value),
        ) == time::duration_millis(value->0),
{
}

} // verus!
