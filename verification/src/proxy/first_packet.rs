//! How the first packet to a server goes out: a TLS client hello may be cut in
//! the middle of the server name.
use crate::proxy::sniff;
use crate::routing::options::RouteOptionsView;
use crate::routing::RouteOptions;
use crate::text;
use crate::time::{self, Duration};
use crate::wire;
use vstd::prelude::*;

verus! {

/// A byte with an ASCII letter in lower case.
pub open spec fn fold(b: u8) -> u8 {
    if 0x41 <= b <= 0x5a {
        (b + 32) as u8
    } else {
        b
    }
}

/// Two runs of bytes are equal but for the case of ASCII letters.
pub open spec fn same_folded(x: Seq<u8>, y: Seq<u8>) -> bool {
    x.len() == y.len() && forall|i: int| 0 <= i < x.len() ==> fold(#[trigger] x[i]) == fold(y[i])
}

/// The bytes of a name stand at a position, but for case.
pub open spec fn name_at(p: Seq<u8>, name: Seq<u8>, i: int) -> bool {
    0 <= i && i + name.len() <= p.len() && same_folded(p.subrange(i, i + name.len()), name)
}

/// The first position from `i` on at which the name stands.
pub open spec fn name_from(p: Seq<u8>, name: Seq<u8>, i: int) -> Option<int>
    decreases p.len() - i,
{
    if i < 0 || i + name.len() > p.len() {
        None
    } else if name_at(p, name, i) {
        Some(i)
    } else {
        name_from(p, name, i + 1)
    }
}

/// Where a hello is cut: in the middle of the server name.
pub open spec fn cut(p: Seq<u8>) -> Option<int> {
    match sniff::server_name(p) {
        None => None,
        Some(name) => {
            let bytes = vstd::utf8::encode_utf8(name);
            match name_from(p, bytes, 0) {
                None => None,
                Some(start) => Some(
                    start + (if bytes.len() >= 2 {
                        bytes.len() as int / 2
                    } else {
                        1
                    }),
                ),
            }
        },
    }
}

/// Where the TLS record at the start of a packet ends.
pub open spec fn record_end(p: Seq<u8>) -> int {
    if 5 + wire::be16(p, 3) <= p.len() {
        5 + wire::be16(p, 3) as int
    } else {
        p.len() as int
    }
}

/// A TLS record with the head of another and a payload of its own.
pub open spec fn record(head: Seq<u8>, payload: Seq<u8>) -> Seq<u8> {
    head + wire::bytes16(payload.len()) + payload
}

/// What is written, and how long the writer rests behind the first part.
pub open spec fn first_packet(p: Seq<u8>, o: RouteOptionsView) -> (Seq<Seq<u8>>, Option<nat>) {
    match cut(p) {
        None => (seq![p], None),
        Some(at) => if o.tls_record_fragment && p.len() >= 5 {
            let end = record_end(p);
            if at <= 5 || at >= end {
                (seq![p], None)
            } else {
                (
                    seq![
                        record(p.take(3), p.subrange(5, at)) + record(
                            p.take(3),
                            p.subrange(at, end),
                        ) + p.skip(end),
                    ],
                    None,
                )
            }
        } else if o.tls_fragment {
            (
                seq![p.take(at), p.skip(at)],
                Some(time::option_millis(o.tls_fragment_fallback_delay, 10)),
            )
        } else {
            (seq![p], None)
        },
    }
}

/// The parts of a first packet, and how long to rest behind the first of them.
#[derive(Debug)]
pub struct FirstPacket {
    pub parts: Vec<Vec<u8>>,
    pub pause: Option<Duration>,
}

/// The parts as plain sequences.
pub open spec fn part_views(parts: Seq<Vec<u8>>) -> Seq<Seq<u8>> {
    parts.map_values(|v: Vec<u8>| v@)
}

fn fold_byte(b: u8) -> (r: u8)
    ensures
        r == fold(b),
{
    if 0x41 <= b && b <= 0x5a {
        b + 32
    } else {
        b
    }
}

fn stands_at(p: &[u8], name: &[u8], i: usize) -> (r: bool)
    requires
        i + name@.len() <= p@.len(),
    ensures
        r == name_at(p@, name@, i as int),
{
    let ghost window = p@.subrange(i as int, i + name@.len());
    let total: usize = p.len();
    let mut k: usize = 0;
    while k < name.len()
        invariant
            k <= name@.len(),
            total == p@.len(),
            i + name@.len() <= total,
            window == p@.subrange(i as int, i + name@.len()),
            forall|j: int| 0 <= j < k ==> fold(#[trigger] window[j]) == fold(name@[j]),
        decreases name@.len() - k,
    {
        proof {
            assert(window[k as int] == p@[i + k]);
        }
        if fold_byte(p[i + k]) != fold_byte(name[k]) {
            proof {
                assert(fold(window[k as int]) != fold(name@[k as int]));
            }
            return false;
        }
        k = k + 1;
    }
    true
}

fn find_name(p: &[u8], name: &[u8]) -> (r: Option<usize>)
    ensures
        match r {
            Some(i) => name_from(p@, name@, 0) == Some(i as int) && i + name@.len() <= p@.len(),
            None => name_from(p@, name@, 0) is None,
        },
{
    if name.len() > p.len() {
        return None;
    }
    let mut i: usize = 0;
    while i <= p.len() - name.len()
        invariant
            name@.len() <= p@.len(),
            i <= p@.len() - name@.len() + 1,
            name_from(p@, name@, 0) == name_from(p@, name@, i as int),
        decreases p@.len() - name@.len() + 1 - i,
    {
        if stands_at(p, name, i) {
            return Some(i);
        }
        if i == p.len() - name.len() {
            proof {
                assert(name_from(p@, name@, i + 1) is None);
            }
            return None;
        }
        i = i + 1;
    }
    None
}

fn whole(packet: &[u8]) -> (r: FirstPacket)
    ensures
        part_views(r.parts@) == seq![packet@],
        r.pause is None,
{
    let mut parts: Vec<Vec<u8>> = Vec::new();
    parts.push(text::copy_bytes(packet));
    proof {
        assert(part_views(parts@) =~= seq![packet@]);
    }
    FirstPacket { parts, pause: None }
}

fn push_record(out: &mut Vec<u8>, head: &[u8], payload: &[u8])
    requires
        payload@.len() <= u16::MAX,
    ensures
        final(out)@ == old(out)@ + record(head@, payload@),
{
    let ghost before = out@;
    wire::push_bytes(out, head);
    wire::push_u16(out, payload.len() as u16);
    wire::push_bytes(out, payload);
    proof {
        assert(out@ =~= before + record(head@, payload@));
    }
}

/// Plans how the first packet is written: whole, as two TLS records, or in two
/// parts with a rest between them, as the options say. The server name in it, if
/// there is one, has to have a letter.
pub fn write_first_packet(packet: &[u8], options: &RouteOptions) -> (r: FirstPacket)
    requires
        sniff::server_name(packet@) != Some(Seq::<char>::empty()),
    ensures
        part_views(r.parts@) == first_packet(packet@, options@).0,
        match r.pause {
            Some(t) => first_packet(packet@, options@).1 == Some(t.millis as nat),
            None => first_packet(packet@, options@).1 is None,
        },
{
    let name = match sniff::tls_server_name(packet) {
        Some(name) => name,
        None => {
            return whole(packet);
        },
    };
    let bytes = text::text_bytes(name.as_str());
    let start = match find_name(packet, bytes.as_slice()) {
        Some(i) => i,
        None => {
            return whole(packet);
        },
    };
    proof {
        lemma_name_has_bytes(name@);
        assert(bytes@.len() > 0);
    }
    let half: usize = if bytes.len() >= 2 {
        bytes.len() / 2
    } else {
        1
    };
    let total: usize = packet.len();
    proof {
        assert(start + half <= total);
    }
    let at: usize = start + half;
    proof {
        assert(cut(packet@) == Some(at as int));
        assert(at <= packet@.len());
    }
    if options.tls_record_fragment && packet.len() >= 5 {
        let length: usize = wire::read_u16(packet, 3) as usize;
        let end: usize = if packet.len() - 5 >= length {
            5 + length
        } else {
            packet.len()
        };
        if at <= 5 || at >= end {
            return whole(packet);
        }
        let head = &packet[0..3];
        let mut out: Vec<u8> = Vec::new();
        push_record(&mut out, head, &packet[5..at]);
        push_record(&mut out, head, &packet[at..end]);
        wire::push_bytes(&mut out, &packet[end..packet.len()]);
        proof {
            let p = packet@;
            assert(p.subrange(0, 3) =~= p.take(3));
            assert(p.subrange(end as int, p.len() as int) =~= p.skip(end as int));
            assert(out@ =~= record(p.take(3), p.subrange(5, at as int)) + record(
                p.take(3),
                p.subrange(at as int, end as int),
            ) + p.skip(end as int));
        }
        let mut parts: Vec<Vec<u8>> = Vec::new();
        parts.push(out);
        proof {
            assert(part_views(parts@) =~= first_packet(packet@, options@).0);
        }
        FirstPacket { parts, pause: None }
    } else if options.tls_fragment {
        let mut parts: Vec<Vec<u8>> = Vec::new();
        parts.push(text::copy_bytes(&packet[0..at]));
        parts.push(text::copy_bytes(&packet[at..packet.len()]));
        proof {
            let p = packet@;
            assert(p.subrange(0, at as int) =~= p.take(at as int));
            assert(p.subrange(at as int, p.len() as int) =~= p.skip(at as int));
            assert(part_views(parts@) =~= seq![p.take(at as int), p.skip(at as int)]);
        }
        FirstPacket {
            parts,
            pause: Some(
                time::option_duration(
                    &options.tls_fragment_fallback_delay,
                    Duration::from_millis(10),
                ),
            ),
        }
    } else {
        whole(packet)
    }
}

proof fn lemma_name_has_bytes(name: Seq<char>)
    requires
        name != Seq::<char>::empty(),
    ensures
        vstd::utf8::encode_utf8(name).len() > 0,
{
    if vstd::utf8::encode_utf8(name).len() == 0 {
        vstd::utf8::encode_utf8_decode_utf8(name);
        vstd::utf8::encode_utf8_decode_utf8(Seq::<char>::empty());
        assert(vstd::utf8::encode_utf8(name) =~= vstd::utf8::encode_utf8(Seq::<char>::empty()));
    }
}

proof fn lemma_name_from(p: Seq<u8>, name: Seq<u8>, i: int)
    ensures
        name_from(p, name, i) matches Some(j) ==> i <= j && j + name.len() <= p.len(),
    decreases p.len() - i,
{
    if 0 <= i && i + name.len() <= p.len() && !name_at(p, name, i) {
        lemma_name_from(p, name, i + 1);
    }
}

/// All parts together.
pub open spec fn joined(parts: Seq<Seq<u8>>) -> Seq<u8>
    decreases parts.len(),
{
    if parts.len() == 0 {
        Seq::empty()
    } else {
        joined(parts.drop_last()) + parts.last()
    }
}

proof fn lemma_joined_one(a: Seq<u8>)
    ensures
        joined(seq![a]) == a,
{
    reveal_with_fuel(joined, 2);
    assert(seq![a].drop_last() =~= Seq::<Seq<u8>>::empty());
    assert(Seq::<u8>::empty() + a =~= a);
}

/// Without cutting records the parts are the packet, nothing more and nothing
/// less.
pub proof fn parts_are_the_packet(p: Seq<u8>, o: RouteOptionsView)
    requires
        !o.tls_record_fragment,
        sniff::server_name(p) != Some(Seq::<char>::empty()),
    ensures
        joined(first_packet(p, o).0) == p,
{
    lemma_joined_one(p);
    if sniff::server_name(p) is Some {
        let name = sniff::server_name(p)->0;
        lemma_name_has_bytes(name);
        lemma_name_from(p, vstd::utf8::encode_utf8(name), 0);
    }
    if cut(p) is Some && o.tls_fragment {
        let at = cut(p)->0;
        lemma_joined_one(p.take(at));
        let parts = seq![p.take(at), p.skip(at)];
        assert(parts.drop_last() =~= seq![p.take(at)]);
        assert(p.take(at) + p.skip(at) =~= p);
    }
}

/// Cut into two records, the payloads together are the payload of the record,
/// each record says how long its own is, and what follows the record stays.
pub proof fn records_carry_the_payload(p: Seq<u8>, o: RouteOptionsView, at: int)
    requires
        o.tls_record_fragment,
        p.len() >= 5,
        cut(p) == Some(at),
        5 < at < record_end(p),
    ensures
        first_packet(p, o).0 == seq![
            record(p.take(3), p.subrange(5, at)) + record(p.take(3), p.subrange(at, record_end(p)))
                + p.skip(record_end(p)),
        ],
        p.subrange(5, at) + p.subrange(at, record_end(p)) == p.subrange(5, record_end(p)),
{
    assert(p.subrange(5, at) + p.subrange(at, record_end(p)) =~= p.subrange(5, record_end(p)));
}

proof fn lemma_first_place(p: Seq<u8>, name: Seq<u8>, i: int)
    ensures
        name_from(p, name, i) matches Some(j) ==> i <= j && name_at(p, name, j) && forall|k: int|
            i <= k < j ==> !name_at(p, name, k),
    decreases p.len() - i,
{
    if 0 <= i && i + name.len() <= p.len() && !name_at(p, name, i) {
        lemma_first_place(p, name, i + 1);
    }
}

/// A hello is cut inside the server name that it asks for, where that stands first
/// whatever the case of its letters: behind its first half. Without a name nothing is
/// cut, and without a wish for it the packet goes out whole and at once.
pub proof fn hellos_are_cut_inside_the_name(p: Seq<u8>, o: RouteOptionsView)
    ensures
        sniff::server_name(p) is None ==> first_packet(p, o) == (seq![p], None::<nat>),
        !o.tls_fragment && !o.tls_record_fragment ==> first_packet(p, o) == (seq![p], None::<nat>),
        cut(p) matches Some(at) ==> sniff::server_name(p) is Some && ({
            let bytes = vstd::utf8::encode_utf8(sniff::server_name(p)->0);
            exists|start: int|
                #![trigger name_at(p, bytes, start)]
                name_at(p, bytes, start) && at == start + (if bytes.len() >= 2 {
                    bytes.len() as int / 2
                } else {
                    1
                }) && (bytes.len() > 0 ==> start < at <= start + bytes.len())
        }),
        o.tls_fragment && !o.tls_record_fragment && cut(p) is Some ==> first_packet(p, o).0 == seq![
            p.take(cut(p)->0),
            p.skip(cut(p)->0),
        ] && first_packet(p, o).1 == Some(time::option_millis(o.tls_fragment_fallback_delay, 10)),
{
    match sniff::server_name(p) {
        Some(name) => {
            let bytes = vstd::utf8::encode_utf8(name);
            lemma_first_place(p, bytes, 0);
            match name_from(p, bytes, 0) {
                Some(start) => {
                    assert(name_at(p, bytes, start));
                },
                None => {},
            }
        },
        None => {},
    }
}

} // verus!
