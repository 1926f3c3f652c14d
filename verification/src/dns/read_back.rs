//! What is read out of the responses that are made here.
use crate::dns::answer;
use crate::dns::answer::RecordView;
use crate::dns::message;
use crate::dns::message::DnsError;
use crate::dns::record;
use crate::dns::record::PredefinedView;
use crate::net::IpAddr;
use crate::text;
use crate::wire;
use vstd::prelude::*;

verus! {

/// The labels of the question of a message.
pub open spec fn asked_labels(b: Seq<u8>) -> Seq<Seq<char>> {
    message::question_labels(b, 12)->Ok_0.0
}

/// Whether a message asks one question whose name can be passed over again.
pub open spec fn asks_one(b: Seq<u8>) -> bool {
    &&& message::question(b) is Ok
    &&& wire::be16(b, 4) == 1
    &&& asked_labels(b).len() <= 127
}

/// The bytes of a record.
pub open spec fn record_bytes(name: Seq<u8>, kind: u16, ttl: u32, data: Seq<u8>) -> Seq<u8> {
    name + wire::bytes16(kind as nat) + wire::bytes16(1) + wire::bytes32(ttl as nat)
        + wire::bytes16(data.len()) + data
}

/// Where the records that begin at `p` end.
spec fn end_of(rs: Seq<RecordView>, p: int) -> int {
    if rs.len() == 0 {
        p
    } else {
        rs.last().end
    }
}

/// Labels that can be read can be passed over.
proof fn lemma_labels_are_skipped(b: Seq<u8>, p: int, count: int)
    requires
        message::question_labels(b, p) is Ok,
        count + message::question_labels(b, p)->Ok_0.0.len() <= 127,
    ensures
        answer::skipped(b, p, count) == (
            Ok::<(), DnsError>(()),
            message::question_labels(b, p)->Ok_0.1,
        ),
    decreases b.len() - p,
{
    if b[p] != 0 {
        let q = p + 1 + b[p];
        let rest = message::question_labels(b, q);
        assert(message::question_labels(b, p)->Ok_0.0.len() == 1 + rest->Ok_0.0.len());
        lemma_labels_are_skipped(b, q, count + 1);
    }
}

/// A record is read where its bytes stand, if its name can be passed over.
proof fn lemma_record_reads(
    b: Seq<u8>,
    p: int,
    name: Seq<u8>,
    kind: u16,
    ttl: u32,
    data: Seq<u8>,
)
    requires
        0 <= p,
        data.len() < 0x1_0000,
        p + record_bytes(name, kind, ttl, data).len() <= b.len(),
        b.subrange(p, p + record_bytes(name, kind, ttl, data).len()) == record_bytes(
            name,
            kind,
            ttl,
            data,
        ),
        answer::skipped(b, p, 0) == (Ok::<(), DnsError>(()), p + name.len()),
    ensures
        record_bytes(name, kind, ttl, data).len() == name.len() + 10 + data.len(),
        answer::record_at(b, p) == Ok::<RecordView, DnsError>(
            RecordView {
                kind,
                ttl,
                start: p + name.len() + 10,
                end: p + name.len() + 10 + data.len(),
            },
        ),
        b.subrange(p + name.len() + 10, p + name.len() + 10 + data.len()) == data,
{
    let r = record_bytes(name, kind, ttl, data);
    let h = p + name.len();
    let k = name.len() as int;
    assert(forall|i: int| 0 <= i < r.len() ==> b[p + i] == #[trigger] b.subrange(p, p + r.len())[i]);
    assert(forall|i: int| 0 <= i < r.len() ==> b[p + i] == #[trigger] r[i]);
    assert(b.subrange(h, h + 2) =~= wire::bytes16(kind as nat)) by {
        assert(r.subrange(k, k + 2) =~= wire::bytes16(kind as nat));
        assert(b.subrange(h, h + 2) =~= r.subrange(k, k + 2));
    }
    assert(b.subrange(h + 4, h + 8) =~= wire::bytes32(ttl as nat)) by {
        assert(r.subrange(k + 4, k + 8) =~= wire::bytes32(ttl as nat));
        assert(b.subrange(h + 4, h + 8) =~= r.subrange(k + 4, k + 8));
    }
    assert(b.subrange(h + 8, h + 10) =~= wire::bytes16(data.len())) by {
        assert(r.subrange(k + 8, k + 10) =~= wire::bytes16(data.len()));
        assert(b.subrange(h + 8, h + 10) =~= r.subrange(k + 8, k + 10));
    }
    assert(b.subrange(h + 10, h + 10 + data.len()) =~= data) by {
        assert(r.subrange(k + 10, k + 10 + data.len()) =~= data);
        assert(b.subrange(h + 10, h + 10 + data.len()) =~= r.subrange(k + 10, k + 10 + data.len()));
    }
    wire::lemma_be16(b, h, kind as nat);
    wire::lemma_be32(b, h + 4, ttl as nat);
    wire::lemma_be16(b, h + 8, data.len());
}

/// One more record is read behind those that were read.
proof fn lemma_one_more(b: Seq<u8>, p: int, n: nat)
    requires
        answer::records(b, p, n) is Ok,
        answer::record_at(b, end_of(answer::records(b, p, n)->Ok_0, p)) is Ok,
    ensures
        answer::records(b, p, n)->Ok_0.len() == n,
        answer::records(b, p, n + 1) == Ok::<Seq<RecordView>, DnsError>(
            answer::records(b, p, n)->Ok_0.push(
                answer::record_at(b, end_of(answer::records(b, p, n)->Ok_0, p))->Ok_0,
            ),
        ),
    decreases n,
{
    let rs = answer::records(b, p, n)->Ok_0;
    if n == 0 {
        let next = answer::record_at(b, p)->Ok_0;
        assert(answer::records(b, next.end, 0) == Ok::<Seq<RecordView>, DnsError>(Seq::empty()));
        assert(seq![next] + Seq::<RecordView>::empty() =~= rs.push(next));
    } else {
        let first = answer::record_at(b, p)->Ok_0;
        let m = (n - 1) as nat;
        let rest = answer::records(b, first.end, m)->Ok_0;
        assert(rs == seq![first] + rest);
        if rest.len() == 0 {
            assert(rs.last() == first);
        } else {
            assert(rs.last() == rest.last());
        }
        lemma_one_more(b, first.end, m);
        let next = answer::record_at(b, end_of(rs, p))->Ok_0;
        assert(seq![first] + rest.push(next) =~= rs.push(next));
    }
}

/// The addresses of the list that can answer a query of the given type.
pub open spec fn answering(qtype: u16, list: Seq<IpAddr>) -> Seq<IpAddr> {
    list.filter(|a: IpAddr| message::answers_type(qtype, a))
}

/// The records of a local response are read one by one.
proof fn lemma_local_reads(b: Seq<u8>, p: int, qtype: u16, list: Seq<IpAddr>)
    requires
        0 <= p,
        p + message::local_records(qtype, list).len() <= b.len(),
        b.subrange(p, p + message::local_records(qtype, list).len()) == message::local_records(
            qtype,
            list,
        ),
    ensures
        ({
            let r = answer::records(b, p, message::local_count(qtype, list));
            &&& r is Ok
            &&& end_of(r->Ok_0, p) == p + message::local_records(qtype, list).len()
            &&& answer::addresses(b, r->Ok_0, qtype) == answering(qtype, list)
            &&& answer::least_of_type(r->Ok_0, qtype) == if message::local_count(qtype, list) == 0 {
                u32::MAX
            } else {
                30
            }
        }),
    decreases list.len(),
{
    let whole = message::local_records(qtype, list);
    reveal(Seq::filter);
    if list.len() > 0 {
        let before = list.drop_last();
        let a = list.last();
        let part = message::local_records(qtype, before);
        assert(whole.take(part.len() as int) =~= part);
        assert(b.subrange(p, p + part.len()) =~= b.subrange(p, p + whole.len()).take(
            part.len() as int,
        ));
        lemma_local_reads(b, p, qtype, before);
        if message::answers_type(qtype, a) {
            let n = message::local_count(qtype, before);
            let rs = answer::records(b, p, n)->Ok_0;
            let q = p + part.len();
            let name = seq![0xc0u8, 0x0c];
            let one = message::local_record(qtype, a);
            assert(a.octets().len() == a.width() / 8);
            assert(one =~= record_bytes(name, qtype, 30, a.octets()));
            assert(whole.skip(part.len() as int) =~= one);
            assert(b.subrange(q, q + one.len()) =~= b.subrange(p, p + whole.len()).skip(
                part.len() as int,
            ));
            assert(b.subrange(q, q + one.len())[0] == 0xc0);
            assert(b[q] == 0xc0);
            lemma_record_reads(b, q, name, qtype, 30, a.octets());
            lemma_one_more(b, p, n);
            let next = answer::record_at(b, q)->Ok_0;
            let all = rs.push(next);
            assert(all.drop_last() =~= rs);
            match a {
                IpAddr::V4(v) => wire::lemma_be32(b, next.start, v as nat),
                IpAddr::V6(v) => wire::lemma_be128(b, next.start, v),
            }
            assert(answer::address_of(b, next, qtype) =~= seq![a]);
            assert(answering(qtype, list) =~= answering(qtype, before) + seq![a]);
        }
    }
}

/// The answers of a response to a request with one question are the records
/// that stand behind the question.
proof fn lemma_answers_stand_behind(
    request: Seq<u8>,
    flags: (u8, u8),
    count: nat,
    body: Seq<u8>,
)
    requires
        asks_one(request),
        flags.0 >= 0x80,
        flags.1 % 16 == 0,
        count < 0x1_0000,
    ensures
        ({
            let end = message::question(request)->Ok_0.2;
            let response = message::reply_header(request, end, flags, count) + body;
            &&& 12 <= end
            &&& response.len() == end + body.len()
            &&& response.subrange(end, end + body.len()) == body
            &&& answer::answer_records(wire::be16(request, 0) as u16, response)
                == answer::records(response, end, count)
        }),
{
    let end = message::question(request)->Ok_0.2;
    let head = message::reply_header(request, end, flags, count);
    let response = head + body;
    message::reply_keeps_id_and_question(request, flags, count, body);
    assert(head.len() == end);
    assert(response.subrange(end, end + body.len()) =~= body);
    assert(response[2] == flags.0 && response[3] == flags.1);
    assert(response[4] == request[4] && response[5] == request[5]);
    assert(response.subrange(6, 8) =~= wire::bytes16(count));
    wire::lemma_be16(response, 6, count);
    assert(message::question_labels(response, 12) == message::question_labels(request, 12)) by {
        message::lemma_same_question_same_labels(request, response, end);
    }
    lemma_labels_are_skipped(response, 12, 0);
    assert(answer::questions_end(response, end, 0) == Ok::<int, DnsError>(end));
    assert(answer::questions_end(response, 12, 1) == Ok::<int, DnsError>(end));
}

/// The response that a local lookup gives to a request with one question is read
/// back as the addresses that fit the type, in their order, for half a minute.
pub proof fn local_answers_read_back(request: Seq<u8>, qtype: u16, list: Seq<IpAddr>)
    requires
        asks_one(request),
        message::local_count(qtype, list) < 0x1_0000,
    ensures
        answer::response_addresses(
            wire::be16(request, 0) as u16,
            qtype,
            message::reply_header(
                request,
                message::question(request)->Ok_0.2,
                (0x81, 0x80),
                message::local_count(qtype, list) % 0x1_0000,
            ) + message::local_records(qtype, list),
        ) == Ok::<(Seq<IpAddr>, u32), DnsError>((answering(qtype, list), 30)),
{
    let end = message::question(request)->Ok_0.2;
    let count = message::local_count(qtype, list);
    let body = message::local_records(qtype, list);
    let response = message::reply_header(request, end, (0x81, 0x80), count) + body;
    lemma_answers_stand_behind(request, (0x81, 0x80), count, body);
    lemma_local_reads(response, end, qtype, list);
}

/// Whether a record can be read back: its data has a length of sixteen bits, and
/// the name under which it answers can be passed over.
pub open spec fn readable(record: PredefinedView, query: Seq<char>) -> bool {
    &&& record.rdata.len() < 0x1_0000
    &&& record::owner_for(record.owner, query) matches Some(owner) ==> message::labels(
        text::trim_end(owner, '.'),
    ).len() <= 127
}

/// The address that a record holds for a query of the given type.
pub open spec fn held_address(record: PredefinedView, qtype: u16) -> Seq<IpAddr> {
    if record.kind != qtype {
        Seq::empty()
    } else if qtype == 1 && record.rdata.len() == 4 {
        seq![IpAddr::V4(wire::be32(record.rdata, 0) as u32)]
    } else if qtype == 28 && record.rdata.len() == 16 {
        seq![IpAddr::V6(wire::be128(record.rdata, 0) as u128)]
    } else {
        Seq::empty()
    }
}

/// The addresses that the records hold for a query.
pub open spec fn held_addresses(
    list: Seq<PredefinedView>,
    query: Seq<char>,
    qtype: u16,
) -> Seq<IpAddr>
    decreases list.len(),
{
    if list.len() == 0 {
        Seq::empty()
    } else {
        held_addresses(list.drop_last(), query, qtype) + if record::owner_for(
            list.last().owner,
            query,
        ) is Some {
            held_address(list.last(), qtype)
        } else {
            Seq::empty()
        }
    }
}

/// The least lifetime among the records of the type that answer a query, or the
/// largest number.
pub open spec fn least_held(list: Seq<PredefinedView>, query: Seq<char>, qtype: u16) -> u32
    decreases list.len(),
{
    if list.len() == 0 {
        u32::MAX
    } else {
        let before = least_held(list.drop_last(), query, qtype);
        if record::owner_for(list.last().owner, query) is Some && list.last().kind == qtype
            && list.last().ttl < before {
            list.last().ttl
        } else {
            before
        }
    }
}

/// The name of a record can be passed over where it stands.
proof fn lemma_name_is_skipped(b: Seq<u8>, p: int, owner: Seq<char>)
    requires
        0 <= p,
        message::record_name(owner) is Ok,
        message::labels(text::trim_end(owner, '.')).len() <= 127,
        p + message::record_name(owner)->Ok_0.len() <= b.len(),
        b.subrange(p, p + message::record_name(owner)->Ok_0.len()) == message::record_name(
            owner,
        )->Ok_0,
    ensures
        answer::skipped(b, p, 0) == (
            Ok::<(), DnsError>(()),
            p + message::record_name(owner)->Ok_0.len(),
        ),
{
    let name = message::record_name(owner)->Ok_0;
    let trimmed = text::trim_end(owner, '.');
    if trimmed.len() == 0 {
        assert(b.subrange(p, p + 1)[0] == b[p]);
    } else {
        let l = message::labels(trimmed);
        let before = b.take(p);
        let after = b.skip(p + name.len());
        assert(b =~= before + name + after) by {
            assert forall|k: int| p <= k < p + name.len() implies b[k] == name[k - p] by {
                assert(b.subrange(p, p + name.len())[k - p] == b[k]);
            }
        }
        message::lemma_labels_read_back(before, l, after);
        lemma_labels_are_skipped(b, p, 0);
    }
}

/// The records of a predefined response are read one by one.
proof fn lemma_predefined_reads(
    b: Seq<u8>,
    p: int,
    list: Seq<PredefinedView>,
    query: Seq<char>,
    qtype: u16,
)
    requires
        0 <= p,
        record::records_wire(list, query) is Ok,
        forall|i: int| 0 <= i < list.len() ==> readable(#[trigger] list[i], query),
        p + record::records_wire(list, query)->Ok_0.0.len() <= b.len(),
        b.subrange(p, p + record::records_wire(list, query)->Ok_0.0.len()) == record::records_wire(
            list,
            query,
        )->Ok_0.0,
    ensures
        ({
            let (bytes, n) = record::records_wire(list, query)->Ok_0;
            let r = answer::records(b, p, n);
            &&& r is Ok
            &&& end_of(r->Ok_0, p) == p + bytes.len()
            &&& answer::addresses(b, r->Ok_0, qtype) == held_addresses(list, query, qtype)
            &&& answer::least_of_type(r->Ok_0, qtype) == least_held(list, query, qtype)
        }),
    decreases list.len(),
{
    if list.len() > 0 {
        let before = list.drop_last();
        let last = list.last();
        let (whole, _) = record::records_wire(list, query)->Ok_0;
        let (part, n) = record::records_wire(before, query)->Ok_0;
        assert(forall|i: int| 0 <= i < before.len() ==> #[trigger] before[i] == list[i]);
        assert(readable(list[list.len() - 1], query));
        assert(whole.take(part.len() as int) =~= part);
        assert(b.subrange(p, p + part.len()) =~= b.subrange(p, p + whole.len()).take(
            part.len() as int,
        ));
        lemma_predefined_reads(b, p, before, query, qtype);
        if let Some(owner) = record::owner_for(last.owner, query) {
            let rs = answer::records(b, p, n)->Ok_0;
            let q = p + part.len();
            let name = message::record_name(owner)->Ok_0;
            let one = record::record_wire(name, last);
            assert(one =~= record_bytes(name, last.kind, last.ttl, last.rdata));
            assert(whole.skip(part.len() as int) =~= one);
            assert(b.subrange(q, q + one.len()) =~= b.subrange(p, p + whole.len()).skip(
                part.len() as int,
            ));
            assert(one.take(name.len() as int) =~= name);
            assert(b.subrange(q, q + name.len()) =~= b.subrange(q, q + one.len()).take(
                name.len() as int,
            ));
            lemma_name_is_skipped(b, q, owner);
            lemma_record_reads(b, q, name, last.kind, last.ttl, last.rdata);
            lemma_one_more(b, p, n);
            let next = answer::record_at(b, q)->Ok_0;
            assert(rs.push(next).drop_last() =~= rs);
            assert(answer::address_of(b, next, qtype) =~= held_address(last, qtype)) by {
                let data = b.subrange(next.start, next.end);
                assert(forall|k: int|
                    0 <= k < data.len() ==> #[trigger] data[k] == b[next.start + k]);
            }
        } else {
            assert(held_addresses(list, query, qtype) =~= held_addresses(before, query, qtype));
        }
    }
}

/// No more records are written than there are.
proof fn lemma_count_is_bounded(list: Seq<PredefinedView>, query: Seq<char>)
    requires
        record::records_wire(list, query) is Ok,
    ensures
        record::records_wire(list, query)->Ok_0.1 <= list.len(),
    decreases list.len(),
{
    if list.len() > 0 {
        lemma_count_is_bounded(list.drop_last(), query);
    }
}

/// The response made of predefined records, given without an error code to a
/// request with one question, is read back as the addresses that the records
/// hold for the name, in their order. They hold as long as the shortest of those
/// records, or for half a minute where no lifetime below the largest is given.
pub proof fn predefined_answers_read_back(
    request: Seq<u8>,
    rcode: u8,
    list: Seq<PredefinedView>,
    qtype: u16,
)
    requires
        asks_one(request),
        rcode % 16 == 0,
        list.len() < 0x1_0000,
        forall|i: int|
            0 <= i < list.len() ==> readable(
                #[trigger] list[i],
                message::question(request)->Ok_0.0,
            ),
        record::predefined(request, message::question(request)->Ok_0.2, rcode, list) is Ok,
    ensures
        ({
            let query = message::question(request)->Ok_0.0;
            let ttl = least_held(list, query, qtype);
            answer::response_addresses(
                wire::be16(request, 0) as u16,
                qtype,
                record::predefined(request, message::question(request)->Ok_0.2, rcode, list)->Ok_0,
            ) == Ok::<(Seq<IpAddr>, u32), DnsError>(
                (
                    held_addresses(list, query, qtype),
                    if ttl == u32::MAX {
                        30
                    } else {
                        ttl
                    },
                ),
            )
        }),
{
    let (query, _, end) = message::question(request)->Ok_0;
    let (body, n) = record::records_wire(list, query)->Ok_0;
    let flags: (u8, u8) = (0x85, (0x80 + rcode % 16) as u8);
    let response = message::reply_header(request, end, flags, n) + body;
    lemma_count_is_bounded(list, query);
    lemma_answers_stand_behind(request, flags, n, body);
    lemma_predefined_reads(response, end, list, query, qtype);
}

} // verus!
