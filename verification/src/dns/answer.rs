//! Walking the records of DNS messages: lifetimes, addresses and ECH data.
use crate::dns::message::{self, DnsError};
use crate::net::IpAddr;
use crate::text;
use crate::wire;
use vstd::prelude::*;

verus! {

/// The record type of OPT, whose lifetime field means something else.
pub const OPT: u16 = 41;

// ---- names ----

/// How the name at `p` is passed over, after `count` labels: the outcome and
/// the position at which it is known. A pointer ends a name.
pub open spec fn skipped(b: Seq<u8>, p: int, count: int) -> (Result<(), DnsError>, int)
    decreases b.len() - p,
{
    if p < 0 || p >= b.len() {
        (Err(DnsError::TruncatedName), p)
    } else if b[p] == 0 {
        (Ok(()), p + 1)
    } else if b[p] >= 0xc0 {
        if p + 1 >= b.len() {
            (Err(DnsError::TruncatedPointer), p + 1)
        } else {
            (Ok(()), p + 2)
        }
    } else if b[p] > 63 {
        (Err(DnsError::InvalidLabel), p + 1)
    } else if p + 1 + b[p] > b.len() {
        (
            Err(DnsError::TruncatedLabel),
            if p + 1 + b[p] <= usize::MAX {
                p + 1 + b[p]
            } else {
                usize::MAX as int
            },
        )
    } else if count >= 127 {
        (Err(DnsError::NameTooLong), p + 1 + b[p])
    } else {
        skipped(b, p + 1 + b[p], count + 1)
    }
}

/// Moves `p` behind the name that stands there.
pub fn skip_name(b: &[u8], p: &mut usize) -> (r: Result<(), DnsError>)
    ensures
        r == skipped(b@, *old(p) as int, 0).0,
        *final(p) == skipped(b@, *old(p) as int, 0).1,
        r is Ok ==> *old(p) < *final(p) <= b@.len(),
{
    let mut count: u32 = 0;
    let mut position: usize = *p;
    loop
        invariant
            *p == *old(p),
            count <= 127,
            position >= *old(p),
            skipped(b@, *old(p) as int, 0) == skipped(b@, position as int, count as int),
        decreases b@.len() - position,
    {
        if position >= b.len() {
            *p = position;
            return Err(DnsError::TruncatedName);
        }
        let n: u8 = b[position];
        if n == 0 {
            *p = position + 1;
            return Ok(());
        }
        if n >= 0xc0 {
            *p = position + 1;
            if position + 1 >= b.len() {
                return Err(DnsError::TruncatedPointer);
            }
            *p = position + 2;
            return Ok(());
        }
        if n > 63 {
            *p = position + 1;
            return Err(DnsError::InvalidLabel);
        }
        if n as usize > b.len() - position - 1 {
            *p = if n as usize <= usize::MAX - position - 1 {
                position + 1 + n as usize
            } else {
                usize::MAX
            };
            return Err(DnsError::TruncatedLabel);
        }
        position = position + 1 + n as usize;
        if count >= 127 {
            *p = position;
            return Err(DnsError::NameTooLong);
        }
        count = count + 1;
    }
}

// ---- questions and records ----

/// The position behind `n` questions.
pub open spec fn questions_end(b: Seq<u8>, p: int, n: nat) -> Result<int, DnsError>
    decreases n,
{
    if n == 0 {
        Ok(p)
    } else {
        match skipped(b, p, 0) {
            (Err(e), _) => Err(e),
            (Ok(_), end) => if end + 4 > b.len() {
                Err(DnsError::TruncatedQuestion)
            } else {
                questions_end(b, end + 4, (n - 1) as nat)
            },
        }
    }
}

fn skip_questions(b: &[u8], n: u16) -> (r: Result<usize, DnsError>)
    requires
        b@.len() >= 12,
    ensures
        match r {
            Ok(p) => questions_end(b@, 12, n as nat) == Ok::<int, DnsError>(p as int) && 12 <= p
                <= b@.len(),
            Err(e) => questions_end(b@, 12, n as nat) == Err::<int, DnsError>(e),
        },
{
    let mut position: usize = 12;
    let mut i: u16 = 0;
    while i < n
        invariant
            i <= n,
            12 <= position <= b@.len(),
            questions_end(b@, 12, n as nat) == questions_end(b@, position as int, (n - i) as nat),
        decreases n - i,
    {
        match skip_name(b, &mut position) {
            Err(e) => {
                return Err(e);
            },
            Ok(_) => {},
        }
        if b.len() - position < 4 {
            return Err(DnsError::TruncatedQuestion);
        }
        position = position + 4;
        i = i + 1;
    }
    Ok(position)
}

/// A resource record: its type, its lifetime, and where its data stands.
#[derive(Clone, Copy, Debug, PartialEq, Eq, Structural)]
pub struct Record {
    pub kind: u16,
    pub ttl: u32,
    pub start: usize,
    pub end: usize,
}

/// A record with its positions as plain integers.
pub struct RecordView {
    pub kind: u16,
    pub ttl: u32,
    pub start: int,
    pub end: int,
}

impl View for Record {
    type V = RecordView;

    open spec fn view(&self) -> RecordView {
        RecordView {
            kind: self.kind,
            ttl: self.ttl,
            start: self.start as int,
            end: self.end as int,
        }
    }
}

/// The record at `p`: a name, ten bytes of header, and data.
pub open spec fn record_at(b: Seq<u8>, p: int) -> Result<RecordView, DnsError> {
    match skipped(b, p, 0) {
        (Err(e), _) => Err(e),
        (Ok(_), h) => if h + 10 > b.len() {
            Err(DnsError::TruncatedRecord)
        } else if h + 10 + wire::be16(b, h + 8) > b.len() {
            Err(DnsError::TruncatedRecordData)
        } else {
            Ok(
                RecordView {
                    kind: wire::be16(b, h) as u16,
                    ttl: wire::be32(b, h + 4) as u32,
                    start: h + 10,
                    end: h + 10 + wire::be16(b, h + 8),
                },
            )
        },
    }
}

fn read_record(b: &[u8], p: usize) -> (r: Result<Record, DnsError>)
    ensures
        match r {
            Ok(record) => record_at(b@, p as int) == Ok::<RecordView, DnsError>(record@) && p + 10
                < record.start <= record.end <= b@.len(),
            Err(e) => record_at(b@, p as int) == Err::<RecordView, DnsError>(e),
        },
{
    let mut h: usize = p;
    match skip_name(b, &mut h) {
        Err(e) => {
            return Err(e);
        },
        Ok(_) => {},
    }
    if b.len() - h < 10 {
        return Err(DnsError::TruncatedRecord);
    }
    let length: usize = wire::read_u16(b, h + 8) as usize;
    if b.len() - h - 10 < length {
        return Err(DnsError::TruncatedRecordData);
    }
    Ok(
        Record {
            kind: wire::read_u16(b, h),
            ttl: wire::read_u32(b, h + 4),
            start: h + 10,
            end: h + 10 + length,
        },
    )
}

/// The `n` records from `p` on.
pub open spec fn records(b: Seq<u8>, p: int, n: nat) -> Result<Seq<RecordView>, DnsError>
    decreases n,
{
    if n == 0 {
        Ok(Seq::empty())
    } else {
        match record_at(b, p) {
            Err(e) => Err(e),
            Ok(first) => prepend(seq![first], records(b, first.end, (n - 1) as nat)),
        }
    }
}

pub open spec fn prepend(
    done: Seq<RecordView>,
    rest: Result<Seq<RecordView>, DnsError>,
) -> Result<Seq<RecordView>, DnsError> {
    match rest {
        Ok(more) => Ok(done + more),
        Err(e) => Err(e),
    }
}

pub open spec fn record_views(s: Seq<Record>) -> Seq<RecordView> {
    Seq::new(s.len(), |i: int| s[i]@)
}

fn read_records(b: &[u8], p: usize, n: u32) -> (r: Result<Vec<Record>, DnsError>)
    ensures
        match r {
            Ok(list) => records(b@, p as int, n as nat) == Ok::<Seq<RecordView>, DnsError>(
                record_views(list@),
            ) && forall|i: int|
                0 <= i < list@.len() ==> 10 < (#[trigger] list@[i]).start <= list@[i].end
                    <= b@.len(),
            Err(e) => records(b@, p as int, n as nat) == Err::<Seq<RecordView>, DnsError>(e),
        },
{
    let mut list: Vec<Record> = Vec::new();
    let mut position: usize = p;
    let mut i: u32 = 0;
    proof {
        let rest = records(b@, p as int, n as nat);
        assert(prepend(record_views(list@), rest) == rest) by {
            if let Ok(more) = rest {
                assert(record_views(list@) + more =~= more);
            }
        }
    }
    while i < n
        invariant
            i <= n,
            records(b@, p as int, n as nat) == prepend(
                record_views(list@),
                records(b@, position as int, (n - i) as nat),
            ),
            forall|j: int|
                0 <= j < list@.len() ==> 10 < (#[trigger] list@[j]).start <= list@[j].end
                    <= b@.len(),
        decreases n - i,
    {
        let ghost before = record_views(list@);
        match read_record(b, position) {
            Err(e) => {
                return Err(e);
            },
            Ok(record) => {
                list.push(record);
                position = record.end;
                proof {
                    assert(record_views(list@) =~= before.push(record@));
                    if let Ok(more) = records(b@, position as int, (n - i - 1) as nat) {
                        assert(before + (seq![record@] + more) =~= before.push(record@) + more);
                    }
                }
            },
        }
        i = i + 1;
    }
    proof {
        assert(record_views(list@) + Seq::<RecordView>::empty() =~= record_views(list@));
    }
    Ok(list)
}

/// All records of a message, in its three sections.
pub open spec fn message_records(b: Seq<u8>) -> Result<Seq<RecordView>, DnsError> {
    if b.len() < 12 {
        Err(DnsError::TruncatedMessage)
    } else {
        match questions_end(b, 12, wire::be16(b, 4)) {
            Err(e) => Err(e),
            Ok(p) => records(b, p, wire::be16(b, 6) + wire::be16(b, 8) + wire::be16(b, 10)),
        }
    }
}

fn walk(message: &[u8]) -> (r: Result<Vec<Record>, DnsError>)
    ensures
        match r {
            Ok(list) => message_records(message@) == Ok::<Seq<RecordView>, DnsError>(
                record_views(list@),
            ) && forall|i: int|
                0 <= i < list@.len() ==> 10 < (#[trigger] list@[i]).start <= list@[i].end
                    <= message@.len(),
            Err(e) => message_records(message@) == Err::<Seq<RecordView>, DnsError>(e),
        },
{
    if message.len() < 12 {
        return Err(DnsError::TruncatedMessage);
    }
    let questions = wire::read_u16(message, 4);
    let count: u32 = wire::read_u16(message, 6) as u32 + wire::read_u16(message, 8) as u32
        + wire::read_u16(message, 10) as u32;
    match skip_questions(message, questions) {
        Err(e) => Err(e),
        Ok(p) => read_records(message, p, count),
    }
}

// ---- lifetimes ----

/// For each record the position of its lifetime, its type and its lifetime.
pub open spec fn lifetimes(rs: Seq<RecordView>) -> Seq<(int, u16, u32)> {
    Seq::new(rs.len(), |i: int| (rs[i].start - 6, rs[i].kind, rs[i].ttl))
}

pub open spec fn offsets_view(s: Seq<(usize, u16, u32)>) -> Seq<(int, u16, u32)> {
    Seq::new(s.len(), |i: int| (s[i].0 as int, s[i].1, s[i].2))
}

/// Where the lifetimes of a message stand, with the record types and values.
pub fn ttl_offsets(message: &[u8]) -> (r: Result<Vec<(usize, u16, u32)>, DnsError>)
    ensures
        match r {
            Ok(list) => message_records(message@) is Ok && offsets_view(list@) == lifetimes(
                message_records(message@)->Ok_0,
            ),
            Err(e) => message_records(message@) == Err::<Seq<RecordView>, DnsError>(e),
        },
{
    let list = match walk(message) {
        Err(e) => {
            return Err(e);
        },
        Ok(list) => list,
    };
    let mut out: Vec<(usize, u16, u32)> = Vec::new();
    let mut i: usize = 0;
    while i < list.len()
        invariant
            i <= list.len(),
            forall|j: int|
                0 <= j < list@.len() ==> 10 < (#[trigger] list@[j]).start <= list@[j].end
                    <= message@.len(),
            out@.len() == i,
            forall|j: int|
                0 <= j < i ==> #[trigger] out@[j] == (
                    (list@[j].start - 6) as usize,
                    list@[j].kind,
                    list@[j].ttl,
                ),
        decreases list.len() - i,
    {
        let record = list[i];
        out.push((record.start - 6, record.kind, record.ttl));
        i = i + 1;
    }
    proof {
        assert(offsets_view(out@) =~= lifetimes(record_views(list@)));
    }
    Ok(out)
}

/// The least lifetime of the records that are not OPT, if there is any.
pub open spec fn least_ttl(rs: Seq<RecordView>) -> Option<u32>
    decreases rs.len(),
{
    if rs.len() == 0 {
        None
    } else {
        let before = least_ttl(rs.drop_last());
        let last = rs.last();
        if last.kind == OPT {
            before
        } else {
            match before {
                Some(t) if t <= last.ttl => Some(t),
                _ => Some(last.ttl),
            }
        }
    }
}

/// How long a message may be kept: its least lifetime, or 30 seconds.
pub open spec fn message_ttl(b: Seq<u8>) -> u32 {
    match message_records(b) {
        Ok(rs) => match least_ttl(rs) {
            Some(t) => t,
            None => 30,
        },
        Err(_) => 30,
    }
}

/// How long a response may be kept.
pub fn response_ttl(response: &[u8]) -> (r: u32)
    ensures
        r == message_ttl(response@),
{
    let list = match walk(response) {
        Err(_) => {
            return 30;
        },
        Ok(list) => list,
    };
    let mut least: Option<u32> = None;
    let mut i: usize = 0;
    let ghost rs = record_views(list@);
    while i < list.len()
        invariant
            i <= list.len(),
            rs == record_views(list@),
            least == least_ttl(rs.take(i as int)),
        decreases list.len() - i,
    {
        let record = list[i];
        proof {
            assert(rs.take(i + 1).drop_last() =~= rs.take(i as int));
            assert(rs.take(i + 1).last() == record@);
        }
        if record.kind != OPT {
            least =
            match least {
                Some(t) => if t <= record.ttl {
                    Some(t)
                } else {
                    Some(record.ttl)
                },
                None => Some(record.ttl),
            };
        }
        i = i + 1;
    }
    proof {
        assert(rs.take(rs.len() as int) =~= rs);
    }
    match least {
        Some(t) => t,
        None => 30,
    }
}

/// A change of lifetimes.
#[derive(Clone, Copy, Debug, PartialEq, Eq, Structural)]
pub enum Retime {
    /// That many seconds have passed.
    Age(u32),
    /// The lifetime is replaced.
    Replace(u32),
}

impl Retime {
    pub open spec fn apply(self, ttl: u32) -> u32 {
        match self {
            Retime::Age(elapsed) => if ttl >= elapsed {
                (ttl - elapsed) as u32
            } else {
                0
            },
            Retime::Replace(value) => value,
        }
    }

    fn applied(&self, ttl: u32) -> (r: u32)
        ensures
            r == self.apply(ttl),
    {
        match self {
            Retime::Age(elapsed) => if ttl >= *elapsed {
                ttl - *elapsed
            } else {
                0
            },
            Retime::Replace(value) => *value,
        }
    }
}

/// Four bytes replaced by a number.
pub open spec fn put32(b: Seq<u8>, i: int, n: nat) -> Seq<u8> {
    let s = wire::bytes32(n);
    b.update(i, s[0]).update(i + 1, s[1]).update(i + 2, s[2]).update(i + 3, s[3])
}

/// A message with the lifetime of each given record changed, but for OPT.
pub open spec fn retimed(b: Seq<u8>, rs: Seq<RecordView>, change: Retime) -> Seq<u8>
    decreases rs.len(),
{
    if rs.len() == 0 {
        b
    } else {
        retimed(retimed_one(b, rs[0], change), rs.skip(1), change)
    }
}

pub open spec fn retimed_one(b: Seq<u8>, r: RecordView, change: Retime) -> Seq<u8> {
    if r.kind == OPT {
        b
    } else {
        put32(b, r.start - 6, change.apply(r.ttl) as nat)
    }
}

/// A message with all its lifetimes changed; one that cannot be walked is kept.
pub open spec fn message_retimed(b: Seq<u8>, change: Retime) -> Seq<u8> {
    match message_records(b) {
        Ok(rs) => retimed(b, rs, change),
        Err(_) => b,
    }
}

fn retime(response: &mut Vec<u8>, change: Retime)
    ensures
        final(response)@ == message_retimed(old(response)@, change),
{
    let list = match walk(response.as_slice()) {
        Err(_) => {
            return ;
        },
        Ok(list) => list,
    };
    let ghost rs = record_views(list@);
    let ghost start = response@;
    let mut i: usize = 0;
    proof {
        assert(rs.skip(0) =~= rs);
    }
    while i < list.len()
        invariant
            i <= list.len(),
            rs == record_views(list@),
            response@.len() == start.len(),
            forall|j: int|
                0 <= j < list@.len() ==> 10 < (#[trigger] list@[j]).start <= list@[j].end
                    <= start.len(),
            retimed(response@, rs.skip(i as int), change) == retimed(start, rs, change),
        decreases list.len() - i,
    {
        let record = list[i];
        proof {
            assert(rs.skip(i as int)[0] == record@);
            assert(rs.skip(i as int).skip(1) =~= rs.skip(i + 1));
        }
        if record.kind != OPT {
            let value: u32 = change.applied(record.ttl);
            let high: u16 = (value / 0x1_0000) as u16;
            let low: u16 = (value % 0x1_0000) as u16;
            let at: usize = record.start - 6;
            let ghost before = response@;
            response.set(at, (high / 256) as u8);
            response.set(at + 1, (high % 256) as u8);
            response.set(at + 2, (low / 256) as u8);
            response.set(at + 3, (low % 256) as u8);
            proof {
                assert(response@ =~= put32(before, at as int, value as nat));
            }
        }
        i = i + 1;
    }
    proof {
        assert(rs.skip(rs.len() as int) =~= Seq::<RecordView>::empty());
    }
}

/// Lowers every lifetime of a response by the seconds that have passed.
pub fn age_response_ttls(response: &mut Vec<u8>, elapsed: u32)
    ensures
        final(response)@ == message_retimed(old(response)@, Retime::Age(elapsed)),
{
    retime(response, Retime::Age(elapsed));
}

/// Replaces every lifetime of a response.
pub fn rewrite_response_ttls(response: &mut Vec<u8>, replacement: u32)
    ensures
        final(response)@ == message_retimed(old(response)@, Retime::Replace(replacement)),
{
    retime(response, Retime::Replace(replacement));
}

// ---- laws of lifetimes ----

proof fn lemma_skip_local(b: Seq<u8>, c: Seq<u8>, p: int, count: int)
    requires
        skipped(b, p, count).0 is Ok,
        0 <= p,
        skipped(b, p, count).1 <= c.len(),
        forall|k: int| p <= k < skipped(b, p, count).1 ==> b[k] == c[k],
    ensures
        skipped(c, p, count) == skipped(b, p, count),
        p < skipped(b, p, count).1 <= b.len(),
    decreases b.len() - p,
{
    lemma_skip_bounds(b, p, count);
    if b[p] != 0 && b[p] < 0xc0 {
        let q = p + 1 + b[p];
        lemma_skip_bounds(b, q, count + 1);
        lemma_skip_local(b, c, q, count + 1);
    }
}

proof fn lemma_skip_bounds(b: Seq<u8>, p: int, count: int)
    requires
        skipped(b, p, count).0 is Ok,
    ensures
        0 <= p < skipped(b, p, count).1 <= b.len(),
        b[p] != 0 && b[p] < 0xc0 ==> skipped(b, p + 1 + b[p], count + 1) == skipped(b, p, count),
    decreases b.len() - p,
{
    if b[p] != 0 && b[p] < 0xc0 {
        lemma_skip_bounds(b, p + 1 + b[p], count + 1);
    }
}

proof fn lemma_record_local(b: Seq<u8>, c: Seq<u8>, p: int)
    requires
        record_at(b, p) is Ok,
        b.len() == c.len(),
        forall|k: int| p <= k < record_at(b, p)->Ok_0.start ==> b[k] == c[k],
    ensures
        record_at(c, p) == record_at(b, p),
        0 <= p,
        p + 10 < record_at(b, p)->Ok_0.start <= record_at(b, p)->Ok_0.end <= b.len(),
{
    lemma_skip_bounds(b, p, 0);
    lemma_skip_local(b, c, p, 0);
}

/// Records depend only on the bytes from where they begin.
proof fn lemma_records_tail(b: Seq<u8>, c: Seq<u8>, p: int, n: nat)
    requires
        records(b, p, n) is Ok,
        b.len() == c.len(),
        forall|k: int| p <= k < b.len() ==> b[k] == c[k],
    ensures
        records(c, p, n) == records(b, p, n),
    decreases n,
{
    if n > 0 {
        lemma_record_bounds(b, p);
        lemma_record_local(b, c, p);
        lemma_records_tail(b, c, record_at(b, p)->Ok_0.end, (n - 1) as nat);
    }
}

proof fn lemma_record_bounds(b: Seq<u8>, p: int)
    requires
        record_at(b, p) is Ok,
    ensures
        0 <= p,
        p + 10 < record_at(b, p)->Ok_0.start <= record_at(b, p)->Ok_0.end <= b.len(),
{
    lemma_skip_bounds(b, p, 0);
}

/// Records with their lifetimes changed, but for OPT.
pub open spec fn records_retimed(rs: Seq<RecordView>, change: Retime) -> Seq<RecordView> {
    Seq::new(
        rs.len(),
        |i: int|
            if rs[i].kind == OPT {
                rs[i]
            } else {
                RecordView { ttl: change.apply(rs[i].ttl), ..rs[i] }
            },
    )
}

proof fn lemma_retimed_records(b: Seq<u8>, p: int, n: nat, change: Retime)
    requires
        records(b, p, n) is Ok,
        0 <= p,
    ensures
        retimed(b, records(b, p, n)->Ok_0, change).len() == b.len(),
        forall|k: int|
            0 <= k < p && k < b.len() ==> #[trigger] retimed(
                b,
                records(b, p, n)->Ok_0,
                change,
            )[k] == b[k],
        records(retimed(b, records(b, p, n)->Ok_0, change), p, n) == Ok::<
            Seq<RecordView>,
            DnsError,
        >(records_retimed(records(b, p, n)->Ok_0, change)),
    decreases n,
{
    let rs = records(b, p, n)->Ok_0;
    if n == 0 {
        assert(records_retimed(rs, change) =~= Seq::<RecordView>::empty());
    } else {
        lemma_record_bounds(b, p);
        let first = record_at(b, p)->Ok_0;
        let m = (n - 1) as nat;
        let rest = records(b, first.end, m)->Ok_0;
        assert(rs[0] == first);
        assert(rs.skip(1) =~= rest);
        let b1 = retimed_one(b, first, change);
        assert(b1.len() == b.len());
        lemma_records_tail(b, b1, first.end, m);
        lemma_retimed_records(b1, first.end, m, change);
        let c = retimed(b1, rest, change);
        assert(c == retimed(b, rs, change));
        // The first record of the changed message.
        lemma_skip_bounds(b, p, 0);
        let h = skipped(b, p, 0).1;
        lemma_skip_local(b, c, p, 0);
        if first.kind != OPT {
            assert(c.subrange(h + 4, h + 8) =~= wire::bytes32(change.apply(first.ttl) as nat));
            wire::lemma_be32(c, h + 4, change.apply(first.ttl) as nat);
        }
        let changed = records_retimed(rs, change);
        assert(record_at(c, p) == Ok::<RecordView, DnsError>(changed[0]));
        assert(changed =~= seq![changed[0]] + records_retimed(rest, change));
    }
}

proof fn lemma_questions_local(b: Seq<u8>, c: Seq<u8>, p: int, n: nat)
    requires
        questions_end(b, p, n) is Ok,
        0 <= p <= b.len(),
        b.len() == c.len(),
        forall|k: int| p <= k < questions_end(b, p, n)->Ok_0 ==> b[k] == c[k],
    ensures
        questions_end(c, p, n) == questions_end(b, p, n),
        p <= questions_end(b, p, n)->Ok_0 <= b.len(),
    decreases n,
{
    if n > 0 {
        lemma_skip_bounds(b, p, 0);
        let q = skipped(b, p, 0).1 + 4;
        lemma_questions_bounds(b, q, (n - 1) as nat);
        lemma_skip_local(b, c, p, 0);
        lemma_questions_local(b, c, q, (n - 1) as nat);
    }
}

proof fn lemma_questions_bounds(b: Seq<u8>, p: int, n: nat)
    requires
        questions_end(b, p, n) is Ok,
        0 <= p <= b.len(),
    ensures
        p <= questions_end(b, p, n)->Ok_0 <= b.len(),
    decreases n,
{
    if n > 0 {
        lemma_skip_bounds(b, p, 0);
        lemma_questions_bounds(b, skipped(b, p, 0).1 + 4, (n - 1) as nat);
    }
}

/// Changing the lifetimes of a message changes nothing else that a walk over
/// it finds: the same records come in the same order, and OPT is untouched.
pub proof fn retiming_keeps_records(b: Seq<u8>, change: Retime)
    requires
        message_records(b) is Ok,
    ensures
        message_retimed(b, change).len() == b.len(),
        message_records(message_retimed(b, change)) == Ok::<Seq<RecordView>, DnsError>(
            records_retimed(message_records(b)->Ok_0, change),
        ),
{
    let q = wire::be16(b, 4);
    let n = wire::be16(b, 6) + wire::be16(b, 8) + wire::be16(b, 10);
    lemma_questions_bounds(b, 12, q);
    let p = questions_end(b, 12, q)->Ok_0;
    lemma_retimed_records(b, p, n, change);
    let c = message_retimed(b, change);
    lemma_questions_local(b, c, 12, q);
    assert(c[4] == b[4] && c[5] == b[5] && c[6] == b[6] && c[7] == b[7] && c[8] == b[8] && c[9]
        == b[9] && c[10] == b[10] && c[11] == b[11]);
}

/// A response that is aged may be kept for as many seconds less; without a
/// record that counts, the time does not change.
pub proof fn aging_lowers_response_ttl(b: Seq<u8>, elapsed: u32)
    ensures
        message_ttl(message_retimed(b, Retime::Age(elapsed))) == (if message_records(b) is Ok
            && least_ttl(message_records(b)->Ok_0) is Some {
            Retime::Age(elapsed).apply(message_ttl(b))
        } else {
            30
        }),
{
    if message_records(b) is Ok {
        retiming_keeps_records(b, Retime::Age(elapsed));
        lemma_least_aged(message_records(b)->Ok_0, elapsed);
    }
}

proof fn lemma_least_aged(rs: Seq<RecordView>, elapsed: u32)
    ensures
        least_ttl(records_retimed(rs, Retime::Age(elapsed))) == (match least_ttl(rs) {
            Some(t) => Some(Retime::Age(elapsed).apply(t)),
            None => None,
        }),
    decreases rs.len(),
{
    let changed = records_retimed(rs, Retime::Age(elapsed));
    if rs.len() > 0 {
        lemma_least_aged(rs.drop_last(), elapsed);
        assert(changed.drop_last() =~= records_retimed(rs.drop_last(), Retime::Age(elapsed)));
    }
}

/// A response whose lifetimes are replaced may be kept for that time, where it
/// has a record that counts.
pub proof fn rewriting_sets_response_ttl(b: Seq<u8>, replacement: u32)
    requires
        message_records(b) is Ok,
        least_ttl(message_records(b)->Ok_0) is Some,
    ensures
        message_ttl(message_retimed(b, Retime::Replace(replacement))) == replacement,
{
    retiming_keeps_records(b, Retime::Replace(replacement));
    lemma_least_replaced(message_records(b)->Ok_0, replacement);
}

proof fn lemma_least_replaced(rs: Seq<RecordView>, replacement: u32)
    ensures
        least_ttl(records_retimed(rs, Retime::Replace(replacement))) == (match least_ttl(rs) {
            Some(_) => Some(replacement),
            None => None,
        }),
    decreases rs.len(),
{
    let changed = records_retimed(rs, Retime::Replace(replacement));
    if rs.len() > 0 {
        lemma_least_replaced(rs.drop_last(), replacement);
        assert(changed.drop_last() =~= records_retimed(
            rs.drop_last(),
            Retime::Replace(replacement),
        ));
    }
}

/// How a name is passed over depends only on the bytes from where it begins.
proof fn lemma_skip_tail(b: Seq<u8>, c: Seq<u8>, p: int, count: int)
    requires
        b.len() == c.len(),
        forall|k: int| p <= k < b.len() ==> b[k] == c[k],
    ensures
        skipped(c, p, count) == skipped(b, p, count),
        0 <= p && skipped(b, p, count).0 is Ok ==> p < skipped(b, p, count).1,
    decreases b.len() - p,
{
    if 0 <= p < b.len() && 0 < b[p] <= 63 && p + 1 + b[p] <= b.len() {
        lemma_skip_tail(b, c, p + 1 + b[p], count + 1);
    }
}

proof fn lemma_questions_tail(b: Seq<u8>, c: Seq<u8>, p: int, n: nat)
    requires
        b.len() == c.len(),
        0 <= p,
        forall|k: int| p <= k < b.len() ==> b[k] == c[k],
    ensures
        questions_end(c, p, n) == questions_end(b, p, n),
        questions_end(b, p, n) matches Ok(q) ==> q >= p,
    decreases n,
{
    if n > 0 {
        lemma_skip_tail(b, c, p, 0);
        if skipped(b, p, 0).0 is Ok {
            lemma_questions_tail(b, c, skipped(b, p, 0).1 + 4, (n - 1) as nat);
        }
    }
}

proof fn lemma_any_records_tail(b: Seq<u8>, c: Seq<u8>, p: int, n: nat)
    requires
        b.len() == c.len(),
        0 <= p,
        forall|k: int| p <= k < b.len() ==> b[k] == c[k],
    ensures
        records(c, p, n) == records(b, p, n),
        records(b, p, n) matches Ok(rs) ==> forall|i: int|
            0 <= i < rs.len() ==> p + 10 <= (#[trigger] rs[i]).start <= b.len(),
    decreases n,
{
    if n > 0 {
        lemma_skip_tail(b, c, p, 0);
        assert(record_at(c, p) == record_at(b, p));
        if record_at(b, p) is Ok {
            let first = record_at(b, p)->Ok_0;
            lemma_any_records_tail(b, c, first.end, (n - 1) as nat);
            if let Ok(rest) = records(b, first.end, (n - 1) as nat) {
                let rs = seq![first] + rest;
                assert forall|i: int| 0 <= i < rs.len() implies p + 10 <= (#[trigger] rs[i]).start
                    <= b.len() by {
                    if i > 0 {
                        assert(rs[i] == rest[i - 1]);
                    }
                }
            }
        }
    }
}

proof fn lemma_retimed_id(b: Seq<u8>, rs: Seq<RecordView>, change: Retime, id: u16)
    requires
        b.len() >= 2,
        forall|i: int| 0 <= i < rs.len() ==> 10 <= (#[trigger] rs[i]).start <= b.len(),
    ensures
        retimed(message::with_id(b, id), rs, change) == message::with_id(
            retimed(b, rs, change),
            id,
        ),
        retimed(b, rs, change).len() == b.len(),
    decreases rs.len(),
{
    if rs.len() > 0 {
        let one = retimed_one(b, rs[0], change);
        assert(one.len() == b.len());
        assert(retimed_one(message::with_id(b, id), rs[0], change) =~= message::with_id(one, id));
        assert(forall|i: int| 0 <= i < rs.skip(1).len() ==> #[trigger] rs.skip(1)[i] == rs[i + 1]);
        lemma_retimed_id(one, rs.skip(1), change, id);
    }
}

/// Changing lifetimes has nothing to do with the transaction number: it does not matter
/// which is done first.
pub proof fn retiming_leaves_the_number(b: Seq<u8>, change: Retime, id: u16)
    requires
        b.len() >= 2,
    ensures
        message_retimed(message::with_id(b, id), change) == message::with_id(
            message_retimed(b, change),
            id,
        ),
        message_records(message::with_id(b, id)) == message_records(b),
        message_retimed(b, change).len() == b.len(),
{
    let c = message::with_id(b, id);
    if b.len() >= 12 {
        lemma_questions_tail(b, c, 12, wire::be16(b, 4));
        if let Ok(p) = questions_end(b, 12, wire::be16(b, 4)) {
            let n = wire::be16(b, 6) + wire::be16(b, 8) + wire::be16(b, 10);
            lemma_any_records_tail(b, c, p, n);
            if let Ok(rs) = records(b, p, n) {
                lemma_retimed_id(b, rs, change, id);
            }
        }
    }
}

/// Records as they stand in a message from an index on: one behind the other, each
/// with the lifetime that stands there.
spec fn laid_out(b: Seq<u8>, rs: Seq<RecordView>, from: int) -> bool
    decreases rs.len(),
{
    rs.len() > 0 ==> {
        &&& 0 <= from
        &&& from + 10 < rs[0].start <= rs[0].end <= b.len()
        &&& rs[0].ttl == wire::be32(b, rs[0].start - 6)
        &&& laid_out(b, rs.skip(1), rs[0].end)
    }
}

proof fn lemma_laid_out(b: Seq<u8>, p: int, n: nat)
    requires
        records(b, p, n) is Ok,
        0 <= p,
    ensures
        laid_out(b, records(b, p, n)->Ok_0, p),
    decreases n,
{
    if n > 0 {
        lemma_record_bounds(b, p);
        let rs = records(b, p, n)->Ok_0;
        let first = record_at(b, p)->Ok_0;
        assert(rs[0] == first);
        assert(rs.skip(1) =~= records(b, first.end, (n - 1) as nat)->Ok_0);
        lemma_laid_out(b, first.end, (n - 1) as nat);
    }
}

proof fn lemma_message_laid_out(b: Seq<u8>)
    requires
        message_records(b) is Ok,
    ensures
        laid_out(b, message_records(b)->Ok_0, 12),
{
    lemma_questions_bounds(b, 12, wire::be16(b, 4));
    let p = questions_end(b, 12, wire::be16(b, 4))->Ok_0;
    lemma_laid_out(b, p, wire::be16(b, 6) + wire::be16(b, 8) + wire::be16(b, 10));
}

/// The byte at an index, once the lifetimes of records are changed.
spec fn byte_retimed(b: Seq<u8>, rs: Seq<RecordView>, change: Retime, k: int) -> u8
    decreases rs.len(),
{
    if rs.len() == 0 {
        b[k]
    } else if rs[0].kind != OPT && rs[0].start - 6 <= k < rs[0].start - 2 {
        wire::bytes32(change.apply(rs[0].ttl) as nat)[k - (rs[0].start - 6)]
    } else {
        byte_retimed(b, rs.skip(1), change, k)
    }
}

/// Records lie behind an index.
spec fn behind(rs: Seq<RecordView>, from: int, end: int) -> bool
    decreases rs.len(),
{
    rs.len() > 0 ==> {
        &&& from + 10 < rs[0].start <= rs[0].end <= end
        &&& behind(rs.skip(1), rs[0].end, end)
    }
}

proof fn lemma_behind(b: Seq<u8>, rs: Seq<RecordView>, from: int)
    requires
        laid_out(b, rs, from),
    ensures
        behind(rs, from, b.len() as int),
    decreases rs.len(),
{
    if rs.len() > 0 {
        lemma_behind(b, rs.skip(1), rs[0].end);
    }
}

proof fn lemma_byte_before(
    b: Seq<u8>,
    rs: Seq<RecordView>,
    change: Retime,
    k: int,
    from: int,
    end: int,
)
    requires
        behind(rs, from, end),
        k < from,
    ensures
        byte_retimed(b, rs, change, k) == b[k],
    decreases rs.len(),
{
    if rs.len() > 0 {
        lemma_byte_before(b, rs.skip(1), change, k, rs[0].end, end);
    }
}

proof fn lemma_byte_same(b: Seq<u8>, c: Seq<u8>, rs: Seq<RecordView>, change: Retime, k: int)
    requires
        b[k] == c[k],
    ensures
        byte_retimed(b, rs, change, k) == byte_retimed(c, rs, change, k),
    decreases rs.len(),
{
    if rs.len() > 0 {
        lemma_byte_same(b, c, rs.skip(1), change, k);
    }
}

proof fn lemma_bytes_retimed(
    b: Seq<u8>,
    rs: Seq<RecordView>,
    change: Retime,
    from: int,
)
    requires
        0 <= from,
        behind(rs, from, b.len() as int),
    ensures
        retimed(b, rs, change).len() == b.len(),
        forall|k: int|
            0 <= k < b.len() ==> #[trigger] retimed(b, rs, change)[k] == byte_retimed(
                b,
                rs,
                change,
                k,
            ),
    decreases rs.len(),
{
    if rs.len() > 0 {
        let one = retimed_one(b, rs[0], change);
        let rest = rs.skip(1);
        assert(one.len() == b.len());
        lemma_bytes_retimed(one, rest, change, rs[0].end);
        assert forall|k: int| 0 <= k < b.len() implies #[trigger] retimed(b, rs, change)[k]
            == byte_retimed(b, rs, change, k) by {
            assert(retimed(one, rest, change)[k] == byte_retimed(one, rest, change, k));
            if rs[0].kind != OPT && rs[0].start - 6 <= k < rs[0].start - 2 {
                lemma_byte_before(one, rest, change, k, rs[0].end, b.len() as int);
            } else {
                assert(one[k] == b[k]);
                lemma_byte_same(one, b, rest, change, k);
            }
        }
    }
}

proof fn lemma_byte_twice(
    b: Seq<u8>,
    c: Seq<u8>,
    rs: Seq<RecordView>,
    one: Retime,
    two: Retime,
    both: Retime,
    k: int,
)
    requires
        c[k] == byte_retimed(b, rs, one, k),
        forall|ttl: u32| #[trigger] both.apply(ttl) == two.apply(one.apply(ttl)),
    ensures
        byte_retimed(c, records_retimed(rs, one), two, k) == byte_retimed(b, rs, both, k),
    decreases rs.len(),
{
    let changed = records_retimed(rs, one);
    if rs.len() > 0 {
        assert(changed[0].start == rs[0].start && changed[0].kind == rs[0].kind);
        assert(changed.skip(1) =~= records_retimed(rs.skip(1), one));
        if rs[0].kind != OPT && rs[0].start - 6 <= k < rs[0].start - 2 {
            assert(both.apply(rs[0].ttl) == two.apply(one.apply(rs[0].ttl)));
        } else {
            lemma_byte_twice(b, c, rs.skip(1), one, two, both, k);
        }
    }
}

proof fn lemma_byte_kept(b: Seq<u8>, rs: Seq<RecordView>, change: Retime, k: int, from: int)
    requires
        laid_out(b, rs, from),
        forall|ttl: u32| #[trigger] change.apply(ttl) == ttl,
    ensures
        byte_retimed(b, rs, change, k) == b[k],
    decreases rs.len(),
{
    if rs.len() > 0 {
        let at = rs[0].start - 6;
        if rs[0].kind != OPT && at <= k < at + 4 {
            assert(change.apply(rs[0].ttl) == rs[0].ttl);
            let n = wire::be32(b, at);
            assert(n / 0x1_0000 == wire::be16(b, at) && n % 0x1_0000 == wire::be16(b, at + 2));
            assert(wire::bytes32(n) =~= b.subrange(at, at + 4));
            assert(b.subrange(at, at + 4)[k - at] == b[k]);
        } else {
            lemma_byte_kept(b, rs.skip(1), change, k, rs[0].end);
        }
    }
}

/// The sum of two numbers of seconds, or the largest number.
pub open spec fn seconds_sum(first: u32, second: u32) -> u32 {
    if first + second <= u32::MAX {
        (first + second) as u32
    } else {
        u32::MAX
    }
}

/// Aging a message twice is aging it once by the sum, or by the largest number where
/// the sum is larger.
pub proof fn aging_adds_up(b: Seq<u8>, first: u32, second: u32)
    ensures
        message_retimed(message_retimed(b, Retime::Age(first)), Retime::Age(second))
            == message_retimed(b, Retime::Age(seconds_sum(first, second))),
{
    let (x, y, z) = (
        Retime::Age(first),
        Retime::Age(second),
        Retime::Age(seconds_sum(first, second)),
    );
    if message_records(b) is Ok {
        let rs = message_records(b)->Ok_0;
        let c = message_retimed(b, x);
        retiming_keeps_records(b, x);
        lemma_message_laid_out(b);
        lemma_message_laid_out(c);
        lemma_behind(b, rs, 12);
        lemma_behind(c, records_retimed(rs, x), 12);
        lemma_bytes_retimed(b, rs, x, 12);
        lemma_bytes_retimed(c, records_retimed(rs, x), y, 12);
        lemma_bytes_retimed(b, rs, z, 12);
        assert forall|k: int| 0 <= k < b.len() implies message_retimed(c, y)[k]
            == message_retimed(b, z)[k] by {
            assert(c[k] == byte_retimed(b, rs, x, k));
            lemma_byte_twice(b, c, rs, x, y, z, k);
        }
        assert(message_retimed(c, y) =~= message_retimed(b, z));
    }
}

/// A message that has not aged is as it was.
pub proof fn no_time_changes_nothing(b: Seq<u8>)
    ensures
        message_retimed(b, Retime::Age(0)) == b,
{
    if message_records(b) is Ok {
        let rs = message_records(b)->Ok_0;
        lemma_message_laid_out(b);
        lemma_behind(b, rs, 12);
        lemma_bytes_retimed(b, rs, Retime::Age(0), 12);
        assert forall|k: int| 0 <= k < b.len() implies message_retimed(b, Retime::Age(0))[k]
            == b[k] by {
            lemma_byte_kept(b, rs, Retime::Age(0), k, 12);
        }
        assert(message_retimed(b, Retime::Age(0)) =~= b);
    }
}

proof fn lemma_byte_elsewhere(b: Seq<u8>, rs: Seq<RecordView>, change: Retime, k: int)
    requires
        forall|i: int|
            0 <= i < rs.len() && (#[trigger] rs[i]).kind != OPT ==> !(rs[i].start - 6 <= k
                < rs[i].start - 2),
    ensures
        byte_retimed(b, rs, change, k) == b[k],
    decreases rs.len(),
{
    if rs.len() > 0 {
        let rest = rs.skip(1);
        assert forall|i: int| 0 <= i < rest.len() && (#[trigger] rest[i]).kind != OPT implies !(
        rest[i].start - 6 <= k < rest[i].start - 2) by {
            assert(rest[i] == rs[i + 1]);
        }
        lemma_byte_elsewhere(b, rest, change, k);
    }
}

/// In a message whose lifetimes are changed, each lifetime but that of OPT is the
/// changed one, and no other byte is another. A message that cannot be walked is as it
/// was.
pub proof fn retiming_changes_lifetimes_alone(b: Seq<u8>, change: Retime)
    ensures
        message_records(b) is Err ==> message_retimed(b, change) == b,
        message_retimed(b, change).len() == b.len(),
        message_records(b) matches Ok(rs) ==> {
            &&& forall|i: int|
                0 <= i < rs.len() && (#[trigger] lifetimes(rs)[i]).1 != OPT ==> wire::be32(
                    message_retimed(b, change),
                    lifetimes(rs)[i].0,
                ) == change.apply(lifetimes(rs)[i].2)
            &&& forall|k: int|
                0 <= k < b.len() && (forall|i: int|
                    0 <= i < rs.len() && (#[trigger] lifetimes(rs)[i]).1 != OPT ==> !(
                    lifetimes(rs)[i].0 <= k < lifetimes(rs)[i].0 + 4)) ==> #[trigger] message_retimed(
                    b,
                    change,
                )[k] == b[k]
        },
{
    if message_records(b) is Ok {
        let rs = message_records(b)->Ok_0;
        let c = message_retimed(b, change);
        retiming_keeps_records(b, change);
        lemma_message_laid_out(b);
        lemma_message_laid_out(c);
        lemma_behind(b, rs, 12);
        lemma_bytes_retimed(b, rs, change, 12);
        assert forall|i: int| 0 <= i < rs.len() && (#[trigger] lifetimes(rs)[i]).1
            != OPT implies wire::be32(c, lifetimes(rs)[i].0) == change.apply(
            lifetimes(rs)[i].2,
        ) by {
            lemma_laid_out_at(c, records_retimed(rs, change), 12, i);
        }
        assert forall|k: int|
            0 <= k < b.len() && (forall|i: int|
                0 <= i < rs.len() && (#[trigger] lifetimes(rs)[i]).1 != OPT ==> !(
                lifetimes(rs)[i].0 <= k < lifetimes(rs)[i].0 + 4)) implies #[trigger] c[k]
            == b[k] by {
            assert forall|i: int| 0 <= i < rs.len() && (#[trigger] rs[i]).kind != OPT implies !(
            rs[i].start - 6 <= k < rs[i].start - 2) by {
                assert(lifetimes(rs)[i].1 != OPT);
            }
            lemma_byte_elsewhere(b, rs, change, k);
        }
    }
}

proof fn lemma_laid_out_at(b: Seq<u8>, rs: Seq<RecordView>, from: int, i: int)
    requires
        laid_out(b, rs, from),
        0 <= i < rs.len(),
    ensures
        rs[i].ttl == wire::be32(b, rs[i].start - 6),
    decreases i,
{
    if i > 0 {
        assert(rs.skip(1)[i - 1] == rs[i]);
        lemma_laid_out_at(b, rs.skip(1), rs[0].end, i - 1);
    }
}

// ---- addresses ----

/// The addresses in the records of the asked type.
pub open spec fn addresses(b: Seq<u8>, rs: Seq<RecordView>, qtype: u16) -> Seq<IpAddr>
    decreases rs.len(),
{
    if rs.len() == 0 {
        Seq::empty()
    } else {
        addresses(b, rs.drop_last(), qtype) + address_of(b, rs.last(), qtype)
    }
}

/// The address in one record: none where the type or the length does not fit.
pub open spec fn address_of(b: Seq<u8>, r: RecordView, qtype: u16) -> Seq<IpAddr> {
    if r.kind != qtype {
        Seq::empty()
    } else if qtype == 1 && r.end - r.start == 4 {
        seq![IpAddr::V4(wire::be32(b, r.start) as u32)]
    } else if qtype == 28 && r.end - r.start == 16 {
        seq![IpAddr::V6(wire::be128(b, r.start) as u128)]
    } else {
        Seq::empty()
    }
}

/// The least lifetime of the records of the asked type, or the largest number.
pub open spec fn least_of_type(rs: Seq<RecordView>, qtype: u16) -> u32
    decreases rs.len(),
{
    if rs.len() == 0 {
        u32::MAX
    } else {
        let before = least_of_type(rs.drop_last(), qtype);
        if rs.last().kind == qtype && rs.last().ttl < before {
            rs.last().ttl
        } else {
            before
        }
    }
}

/// The answer records of a response that answers the query `id` without error.
pub open spec fn answer_records(id: u16, b: Seq<u8>) -> Result<Seq<RecordView>, DnsError> {
    if b.len() < 12 || wire::be16(b, 0) != id {
        Err(DnsError::InvalidResponse)
    } else if b[2] < 0x80 || b[3] % 16 != 0 {
        Err(DnsError::ErrorCode(b[3] % 16))
    } else {
        match questions_end(b, 12, wire::be16(b, 4)) {
            Err(e) => Err(e),
            Ok(p) => records(b, p, wire::be16(b, 6)),
        }
    }
}

/// What a response says: its addresses of the asked type and how long they hold.
pub open spec fn response_addresses(id: u16, qtype: u16, b: Seq<u8>) -> Result<
    (Seq<IpAddr>, u32),
    DnsError,
> {
    match answer_records(id, b) {
        Err(e) => Err(e),
        Ok(rs) => {
            let ttl = least_of_type(rs, qtype);
            Ok(
                (
                    addresses(b, rs, qtype),
                    if ttl == u32::MAX {
                        30
                    } else {
                        ttl
                    },
                ),
            )
        },
    }
}

/// Reads the addresses of a response and how long they hold.
pub fn parse_response(id: u16, qtype: u16, b: &[u8]) -> (r: Result<(Vec<IpAddr>, u32), DnsError>)
    ensures
        match r {
            Ok((list, ttl)) => response_addresses(id, qtype, b@) == Ok::<
                (Seq<IpAddr>, u32),
                DnsError,
            >((list@, ttl)),
            Err(e) => response_addresses(id, qtype, b@) == Err::<(Seq<IpAddr>, u32), DnsError>(e),
        },
{
    if b.len() < 12 || wire::read_u16(b, 0) != id {
        return Err(DnsError::InvalidResponse);
    }
    if b[2] < 0x80 || b[3] % 16 != 0 {
        return Err(DnsError::ErrorCode(b[3] % 16));
    }
    let p: usize = match skip_questions(b, wire::read_u16(b, 4)) {
        Err(e) => {
            return Err(e);
        },
        Ok(p) => p,
    };
    let list = match read_records(b, p, wire::read_u16(b, 6) as u32) {
        Err(e) => {
            return Err(e);
        },
        Ok(list) => list,
    };
    let ghost rs = record_views(list@);
    let mut out: Vec<IpAddr> = Vec::new();
    let mut ttl: u32 = u32::MAX;
    let mut i: usize = 0;
    proof {
        assert(rs.take(0) =~= Seq::<RecordView>::empty());
    }
    while i < list.len()
        invariant
            i <= list.len(),
            rs == record_views(list@),
            forall|j: int|
                0 <= j < list@.len() ==> 10 < (#[trigger] list@[j]).start <= list@[j].end
                    <= b@.len(),
            out@ == addresses(b@, rs.take(i as int), qtype),
            ttl == least_of_type(rs.take(i as int), qtype),
        decreases list.len() - i,
    {
        let record = list[i];
        let ghost before = out@;
        proof {
            assert(rs.take(i + 1).drop_last() =~= rs.take(i as int));
            assert(rs.take(i + 1).last() == record@);
        }
        if record.kind == qtype {
            if qtype == 1 && record.end - record.start == 4 {
                out.push(IpAddr::V4(wire::read_u32(b, record.start)));
            } else if qtype == 28 && record.end - record.start == 16 {
                out.push(IpAddr::V6(wire::read_u128(b, record.start)));
            }
            if record.ttl < ttl {
                ttl = record.ttl;
            }
        }
        proof {
            assert(out@ =~= before + address_of(b@, record@, qtype));
        }
        i = i + 1;
    }
    proof {
        assert(rs.take(rs.len() as int) =~= rs);
    }
    Ok(
        (
            out,
            if ttl == u32::MAX {
                30
            } else {
                ttl
            },
        ),
    )
}

/// Reads any bytes as a response of either address type.
pub fn fuzz_dns_message(input: &[u8]) -> (r: (bool, bool))
    ensures
        ({
            let id = if input@.len() < 2 {
                0u16
            } else {
                wire::be16(input@, 0) as u16
            };
            r == (
                response_addresses(id, 1, input@) is Ok,
                response_addresses(id, 28, input@) is Ok,
            )
        }),
{
    let id: u16 = if input.len() < 2 {
        0
    } else {
        wire::read_u16(input, 0)
    };
    let first = parse_response(id, 1, input).is_ok();
    let second = parse_response(id, 28, input).is_ok();
    (first, second)
}

// ---- ECH data in HTTPS records ----

/// The ECH value among the parameters from `p` to `end`.
pub open spec fn ech_parameter(b: Seq<u8>, p: int, end: int) -> Result<Option<Seq<u8>>, DnsError>
    decreases end - p,
{
    if p >= end {
        Ok(None)
    } else if p + 4 > b.len() {
        Err(DnsError::TruncatedParameter)
    } else {
        let length = wire::be16(b, p + 2);
        if p + 4 + length > end {
            Err(DnsError::TruncatedParameterValue)
        } else if wire::be16(b, p) == 5 {
            if length == 0 {
                Err(DnsError::EmptyEch)
            } else {
                Ok(Some(b.subrange(p + 4, p + 4 + length)))
            }
        } else {
            ech_parameter(b, p + 4 + length, end)
        }
    }
}

/// The ECH value of one record, if the record is of type HTTPS and has one.
pub open spec fn ech_of(b: Seq<u8>, r: RecordView) -> Result<Option<Seq<u8>>, DnsError> {
    if r.kind != 65 {
        Ok(None)
    } else if r.start + 2 > r.end {
        Err(DnsError::TruncatedPriority)
    } else {
        match skipped(b, r.start + 2, 0) {
            (Err(e), _) => Err(e),
            (Ok(_), p) => if p > r.end {
                Err(DnsError::TargetExceedsRecord)
            } else {
                ech_parameter(b, p, r.end)
            },
        }
    }
}

/// The first ECH value in the `n` records from `p` on.
pub open spec fn ech_answers(b: Seq<u8>, p: int, n: nat) -> Result<Seq<u8>, DnsError>
    decreases n,
{
    if n == 0 {
        Err(DnsError::NoEch)
    } else {
        match record_at(b, p) {
            Err(e) => Err(e),
            Ok(r) => match ech_of(b, r) {
                Err(e) => Err(e),
                Ok(Some(value)) => Ok(value),
                Ok(None) => ech_answers(b, r.end, (n - 1) as nat),
            },
        }
    }
}

/// The ECH value that a response to an HTTPS query carries.
pub open spec fn https_ech(id: u16, b: Seq<u8>) -> Result<Seq<u8>, DnsError> {
    if b.len() < 12 || wire::be16(b, 0) != id {
        Err(DnsError::InvalidResponse)
    } else if b[2] < 0x80 || b[3] % 16 != 0 {
        Err(DnsError::ErrorCode(b[3] % 16))
    } else {
        match questions_end(b, 12, wire::be16(b, 4)) {
            Err(e) => Err(e),
            Ok(p) => ech_answers(b, p, wire::be16(b, 6)),
        }
    }
}

fn find_ech(b: &[u8], from: usize, end: usize) -> (r: Result<Option<Vec<u8>>, DnsError>)
    requires
        end <= b@.len(),
    ensures
        match r {
            Ok(Some(v)) => ech_parameter(b@, from as int, end as int) == Ok::<
                Option<Seq<u8>>,
                DnsError,
            >(Some(v@)),
            Ok(None) => ech_parameter(b@, from as int, end as int) == Ok::<
                Option<Seq<u8>>,
                DnsError,
            >(None),
            Err(e) => ech_parameter(b@, from as int, end as int) == Err::<
                Option<Seq<u8>>,
                DnsError,
            >(e),
        },
{
    let mut p: usize = from;
    while p < end
        invariant
            end <= b@.len(),
            ech_parameter(b@, from as int, end as int) == ech_parameter(b@, p as int, end as int),
        decreases end - p,
    {
        if b.len() - p < 4 {
            return Err(DnsError::TruncatedParameter);
        }
        let key = wire::read_u16(b, p);
        let length: usize = wire::read_u16(b, p + 2) as usize;
        if p + 4 > end || end - p - 4 < length {
            return Err(DnsError::TruncatedParameterValue);
        }
        if key == 5 {
            if length == 0 {
                return Err(DnsError::EmptyEch);
            }
            return Ok(Some(text::copy_bytes(&b[p + 4..p + 4 + length])));
        }
        p = p + 4 + length;
    }
    Ok(None)
}

fn record_ech(b: &[u8], r: &Record) -> (out: Result<Option<Vec<u8>>, DnsError>)
    requires
        r.start <= r.end <= b@.len(),
    ensures
        match out {
            Ok(Some(v)) => ech_of(b@, r@) == Ok::<Option<Seq<u8>>, DnsError>(Some(v@)),
            Ok(None) => ech_of(b@, r@) == Ok::<Option<Seq<u8>>, DnsError>(None),
            Err(e) => ech_of(b@, r@) == Err::<Option<Seq<u8>>, DnsError>(e),
        },
{
    if r.kind != 65 {
        return Ok(None);
    }
    if r.end - r.start < 2 {
        return Err(DnsError::TruncatedPriority);
    }
    let mut p: usize = r.start + 2;
    match skip_name(b, &mut p) {
        Err(e) => {
            return Err(e);
        },
        Ok(_) => {},
    }
    if p > r.end {
        return Err(DnsError::TargetExceedsRecord);
    }
    find_ech(b, p, r.end)
}

/// Reads the ECH data of a response to an HTTPS query.
pub fn parse_https_ech(id: u16, message: &[u8]) -> (r: Result<Vec<u8>, DnsError>)
    ensures
        match r {
            Ok(v) => https_ech(id, message@) == Ok::<Seq<u8>, DnsError>(v@),
            Err(e) => https_ech(id, message@) == Err::<Seq<u8>, DnsError>(e),
        },
{
    if message.len() < 12 || wire::read_u16(message, 0) != id {
        return Err(DnsError::InvalidResponse);
    }
    if message[2] < 0x80 || message[3] % 16 != 0 {
        return Err(DnsError::ErrorCode(message[3] % 16));
    }
    let start: usize = match skip_questions(message, wire::read_u16(message, 4)) {
        Err(e) => {
            return Err(e);
        },
        Ok(p) => p,
    };
    let n: u16 = wire::read_u16(message, 6);
    let mut p: usize = start;
    let mut i: u16 = 0;
    while i < n
        invariant
            i <= n,
            https_ech(id, message@) == ech_answers(message@, start as int, n as nat),
            ech_answers(message@, start as int, n as nat) == ech_answers(
                message@,
                p as int,
                (n - i) as nat,
            ),
        decreases n - i,
    {
        let record = match read_record(message, p) {
            Err(e) => {
                return Err(e);
            },
            Ok(record) => record,
        };
        match record_ech(message, &record) {
            Err(e) => {
                return Err(e);
            },
            Ok(Some(value)) => {
                return Ok(value);
            },
            Ok(None) => {},
        }
        p = record.end;
        i = i + 1;
    }
    Err(DnsError::NoEch)
}

/// Parameters of a record, each behind its key and its length, none of them the
/// one for the encrypted hello.
pub open spec fn other_parameters(list: Seq<(nat, Seq<u8>)>) -> Seq<u8>
    decreases list.len(),
{
    if list.len() == 0 {
        Seq::empty()
    } else {
        wire::bytes16(list[0].0) + wire::bytes16(list[0].1.len()) + list[0].1 + other_parameters(
            list.skip(1),
        )
    }
}

proof fn lemma_parameter_reads(b: Seq<u8>, p: int, key: nat, value: Seq<u8>, rest: Seq<u8>)
    requires
        0 <= p <= b.len(),
        key < 0x1_0000,
        value.len() < 0x1_0000,
        b.skip(p) == wire::bytes16(key) + wire::bytes16(value.len()) + value + rest,
    ensures
        p + 4 + value.len() <= b.len(),
        wire::be16(b, p) == key,
        wire::be16(b, p + 2) == value.len(),
        b.subrange(p + 4, p + 4 + value.len()) == value,
        b.skip(p + 4 + value.len()) == rest,
{
    let tail = b.skip(p);
    assert(tail.len() == b.len() - p);
    assert(tail.len() == 4 + value.len() + rest.len());
    assert(b.subrange(p, p + 2) =~= tail.subrange(0, 2));
    assert(tail.subrange(0, 2) =~= wire::bytes16(key));
    wire::lemma_be16(b, p, key);
    assert(b.subrange(p + 2, p + 4) =~= tail.subrange(2, 4));
    assert(tail.subrange(2, 4) =~= wire::bytes16(value.len()));
    wire::lemma_be16(b, p + 2, value.len());
    assert(b.subrange(p + 4, p + 4 + value.len()) =~= tail.subrange(4, 4 + value.len() as int));
    assert(tail.subrange(4, 4 + value.len() as int) =~= value);
    assert(b.skip(p + 4 + value.len()) =~= tail.skip(4 + value.len() as int));
    assert(tail.skip(4 + value.len() as int) =~= rest);
}

/// The value for the encrypted hello is found among the parameters of a record,
/// whatever others stand before and behind it, and none is found where none stands
/// there; one that is empty is refused.
pub proof fn the_encrypted_hello_is_found(
    b: Seq<u8>,
    p: int,
    end: int,
    front: Seq<(nat, Seq<u8>)>,
    value: Seq<u8>,
    behind: Seq<u8>,
    rest: Seq<u8>,
)
    requires
        0 <= p <= end <= b.len(),
        value.len() < 0x1_0000,
        forall|i: int|
            0 <= i < front.len() ==> (#[trigger] front[i]).0 < 0x1_0000 && front[i].0 != 5
                && front[i].1.len() < 0x1_0000,
        b.skip(p) == other_parameters(front) + (wire::bytes16(5) + wire::bytes16(value.len())
            + value + (behind + rest)),
        end == b.len() - rest.len(),
    ensures
        ech_parameter(b, p, end) == (if value.len() > 0 {
            Ok::<Option<Seq<u8>>, DnsError>(Some(value))
        } else {
            Err(DnsError::EmptyEch)
        }),
    decreases front.len(),
{
    let last = wire::bytes16(5) + wire::bytes16(value.len()) + value + (behind + rest);
    if front.len() == 0 {
        assert(b.skip(p) =~= last);
        lemma_parameter_reads(b, p, 5, value, behind + rest);
        assert(b.skip(p + 4 + value.len()).len() == behind.len() + rest.len());
    } else {
        let (key, own) = front[0];
        let more = other_parameters(front.skip(1)) + last;
        assert(b.skip(p) =~= wire::bytes16(key) + wire::bytes16(own.len()) + own + more);
        lemma_parameter_reads(b, p, key, own, more);
        let q = p + 4 + own.len();
        assert(b.skip(q).len() == b.len() - q);
        assert forall|i: int| 0 <= i < front.skip(1).len() implies (
        #[trigger] front.skip(1)[i]).0 < 0x1_0000 && front.skip(1)[i].0 != 5
            && front.skip(1)[i].1.len() < 0x1_0000 by {
            assert(front.skip(1)[i] == front[i + 1]);
        }
        the_encrypted_hello_is_found(b, q, end, front.skip(1), value, behind, rest);
    }
}

/// Where none of the parameters is the one for the encrypted hello, none is found.
pub proof fn no_encrypted_hello_is_found(
    b: Seq<u8>,
    p: int,
    end: int,
    list: Seq<(nat, Seq<u8>)>,
    rest: Seq<u8>,
)
    requires
        0 <= p <= end <= b.len(),
        forall|i: int|
            0 <= i < list.len() ==> (#[trigger] list[i]).0 < 0x1_0000 && list[i].0 != 5
                && list[i].1.len() < 0x1_0000,
        b.skip(p) == other_parameters(list) + rest,
        end == b.len() - rest.len(),
    ensures
        ech_parameter(b, p, end) == Ok::<Option<Seq<u8>>, DnsError>(None),
    decreases list.len(),
{
    if list.len() == 0 {
        assert(b.skip(p) =~= rest);
        assert(b.skip(p).len() == b.len() - p);
    } else {
        let (key, own) = list[0];
        let more = other_parameters(list.skip(1)) + rest;
        assert(b.skip(p) =~= wire::bytes16(key) + wire::bytes16(own.len()) + own + more);
        lemma_parameter_reads(b, p, key, own, more);
        let q = p + 4 + own.len();
        assert(b.skip(q).len() == b.len() - q);
        assert forall|i: int| 0 <= i < list.skip(1).len() implies (
        #[trigger] list.skip(1)[i]).0 < 0x1_0000 && list.skip(1)[i].0 != 5
            && list.skip(1)[i].1.len() < 0x1_0000 by {
            assert(list.skip(1)[i] == list[i + 1]);
        }
        no_encrypted_hello_is_found(b, q, end, list.skip(1), rest);
    }
}

proof fn lemma_least(rs: Seq<RecordView>, qtype: u16)
    ensures
        forall|i: int|
            0 <= i < rs.len() && (#[trigger] rs[i]).kind == qtype ==> least_of_type(rs, qtype)
                <= rs[i].ttl,
        least_of_type(rs, qtype) != u32::MAX ==> exists|i: int|
            0 <= i < rs.len() && (#[trigger] rs[i]).kind == qtype && rs[i].ttl == least_of_type(
                rs,
                qtype,
            ),
    decreases rs.len(),
{
    if rs.len() > 0 {
        let front = rs.drop_last();
        lemma_least(front, qtype);
        assert forall|i: int| 0 <= i < front.len() implies front[i] == rs[i] by {
        }
        assert(rs.last() == rs[rs.len() - 1]);
        assert forall|i: int| 0 <= i < rs.len() && (#[trigger] rs[i]).kind == qtype implies
            least_of_type(rs, qtype) <= rs[i].ttl by {
            if i < front.len() {
                assert(front[i] == rs[i]);
            }
        }
        if least_of_type(rs, qtype) != u32::MAX && !(rs.last().kind == qtype && rs.last().ttl
            == least_of_type(rs, qtype)) {
            let i = choose|i: int|
                0 <= i < front.len() && (#[trigger] front[i]).kind == qtype && front[i].ttl
                    == least_of_type(front, qtype);
            assert(rs[i] == front[i]);
        }
    }
}

#[verifier::opaque]
spec fn tells(b: Seq<u8>, r: RecordView, qtype: u16, ip: IpAddr) -> bool {
    r.kind == qtype && ((qtype == 1 && r.end - r.start == 4 && ip == IpAddr::V4(
        wire::be32(b, r.start) as u32,
    )) || (qtype == 28 && r.end - r.start == 16 && ip == IpAddr::V6(
        wire::be128(b, r.start) as u128,
    )))
}

proof fn lemma_address_of(b: Seq<u8>, r: RecordView, qtype: u16, ip: IpAddr)
    ensures
        address_of(b, r, qtype).contains(ip) <==> tells(b, r, qtype, ip),
{
    reveal(tells);
    let own = address_of(b, r, qtype);
    if own.len() > 0 {
        assert(own.contains(own[0]));
    }
}

proof fn lemma_either(a: Seq<IpAddr>, c: Seq<IpAddr>, ip: IpAddr)
    ensures
        (a + c).contains(ip) <==> a.contains(ip) || c.contains(ip),
{
    if a.contains(ip) {
        let i = choose|i: int| 0 <= i < a.len() && a[i] == ip;
        assert((a + c)[i] == ip);
    }
    if c.contains(ip) {
        let i = choose|i: int| 0 <= i < c.len() && c[i] == ip;
        assert((a + c)[a.len() + i] == ip);
    }
}

proof fn lemma_addresses(b: Seq<u8>, rs: Seq<RecordView>, qtype: u16, ip: IpAddr)
    ensures
        addresses(b, rs, qtype).contains(ip) <==> exists|i: int|
            0 <= i < rs.len() && #[trigger] tells(b, rs[i], qtype, ip),
    decreases rs.len(),
{
    if rs.len() > 0 {
        let front = rs.drop_last();
        let last = rs.last();
        lemma_addresses(b, front, qtype, ip);
        lemma_address_of(b, last, qtype, ip);
        lemma_either(addresses(b, front, qtype), address_of(b, last, qtype), ip);
        if tells(b, last, qtype, ip) {
            assert(tells(b, rs[rs.len() - 1], qtype, ip));
        }
        if exists|i: int| 0 <= i < front.len() && #[trigger] tells(b, front[i], qtype, ip) {
            let i = choose|i: int| 0 <= i < front.len() && #[trigger] tells(
                b,
                front[i],
                qtype,
                ip,
            );
            assert(tells(b, rs[i], qtype, ip));
        }
        if exists|i: int| 0 <= i < rs.len() && #[trigger] tells(b, rs[i], qtype, ip) {
            let i = choose|i: int| 0 <= i < rs.len() && #[trigger] tells(b, rs[i], qtype, ip);
            if i < front.len() {
                assert(tells(b, front[i], qtype, ip));
            }
        }
    }
}

/// The addresses of a response are those of its records of the asked type, each of
/// them and no other, and it is kept for the least of their lifetimes, or for half a
/// minute where it has none of that type. A message with another number, one that is
/// no response, and one that tells of an error give none.
pub proof fn responses_give_their_addresses(id: u16, qtype: u16, b: Seq<u8>, ip: IpAddr)
    ensures
        response_addresses(id, qtype, b) matches Ok((list, ttl)) ==> {
            let rs = answer_records(id, b)->Ok_0;
            &&& b.len() >= 12 && wire::be16(b, 0) == id && b[2] >= 0x80 && b[3] % 16 == 0
            &&& list.contains(ip) <==> exists|i: int|
                0 <= i < rs.len() && (#[trigger] rs[i]).kind == qtype && ((qtype == 1 && rs[i].end
                    - rs[i].start == 4 && ip == IpAddr::V4(wire::be32(b, rs[i].start) as u32)) || (
                qtype == 28 && rs[i].end - rs[i].start == 16 && ip == IpAddr::V6(
                    wire::be128(b, rs[i].start) as u128,
                )))
            &&& (forall|i: int| 0 <= i < rs.len() ==> (#[trigger] rs[i]).kind != qtype) ==> ttl
                == 30
            &&& (exists|i: int|
                0 <= i < rs.len() && (#[trigger] rs[i]).kind == qtype && rs[i].ttl < u32::MAX) ==> (
            forall|i: int|
                0 <= i < rs.len() && (#[trigger] rs[i]).kind == qtype ==> ttl <= rs[i].ttl) && (
            exists|i: int|
                0 <= i < rs.len() && (#[trigger] rs[i]).kind == qtype && rs[i].ttl == ttl)
        },
        b.len() < 12 || wire::be16(b, 0) != id || b[2] < 0x80 || b[3] % 16 != 0
            ==> response_addresses(id, qtype, b) is Err,
{
    match answer_records(id, b) {
        Ok(rs) => {
            lemma_least(rs, qtype);
            lemma_addresses(b, rs, qtype, ip);
            reveal(tells);
            if addresses(b, rs, qtype).contains(ip) {
                let i = choose|i: int| 0 <= i < rs.len() && #[trigger] tells(b, rs[i], qtype, ip);
                assert(rs[i].kind == qtype);
            }
            assert forall|i: int| 0 <= i < rs.len() && (#[trigger] rs[i]).kind == qtype && ((qtype
                == 1 && rs[i].end - rs[i].start == 4 && ip == IpAddr::V4(
                wire::be32(b, rs[i].start) as u32,
            )) || (qtype == 28 && rs[i].end - rs[i].start == 16 && ip == IpAddr::V6(
                wire::be128(b, rs[i].start) as u128,
            ))) implies addresses(b, rs, qtype).contains(ip) by {
                assert(tells(b, rs[i], qtype, ip));
            }
        },
        Err(_) => {},
    }
}

/// Time that passes is taken off a lifetime, down to nothing, and a lifetime that is
/// put in its place is that one.
pub proof fn lifetimes_grow_shorter(ttl: u32, seconds: u32)
    ensures
        seconds <= ttl ==> Retime::Age(seconds).apply(ttl) + seconds == ttl,
        seconds > ttl ==> Retime::Age(seconds).apply(ttl) == 0,
        Retime::Replace(seconds).apply(ttl) == seconds,
{
}

/// The value for the encrypted hello comes from the first record of the type HTTPS
/// that has one; records of other types are passed over, and a message with another
/// number, one that is no response and one that tells of an error give none.
pub proof fn encrypted_hellos_come_from_https_records(
    id: u16,
    b: Seq<u8>,
    p: int,
    n: nat,
    r: RecordView,
)
    requires
        record_at(b, p) == Ok::<RecordView, DnsError>(r),
        n > 0,
    ensures
        r.kind != 65 ==> ech_answers(b, p, n) == ech_answers(b, r.end, (n - 1) as nat),
        r.kind == 65 && ech_of(b, r) == Ok::<Option<Seq<u8>>, DnsError>(None) ==> ech_answers(
            b,
            p,
            n,
        ) == ech_answers(b, r.end, (n - 1) as nat),
        ech_of(b, r) matches Ok(Some(value)) ==> r.kind == 65 && ech_answers(b, p, n) == Ok::<
            Seq<u8>,
            DnsError,
        >(value),
        ech_answers(b, p, 0) is Err,
        b.len() < 12 || wire::be16(b, 0) != id || b[2] < 0x80 || b[3] % 16 != 0 ==> https_ech(id, b)
            is Err,
{
}

} // verus!
