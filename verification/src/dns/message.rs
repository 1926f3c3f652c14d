//! DNS messages in wire format.
use crate::net;
use crate::net::{IpAddr, IpNet};
use crate::text;
use crate::wire;
use vstd::prelude::*;

verus! {

/// Why a DNS message, record or rule is refused.
#[derive(Clone, Copy, Debug, PartialEq, Eq, Structural)]
pub enum DnsError {
    InvalidQuery,
    TruncatedQuestion,
    CompressedQuestion,
    TruncatedQuestionLabel,
    LabelNotUtf8,
    TruncatedQuestionFields,
    InvalidName,
    AdditionalRecords,
    InvalidClientSubnet,
    TruncatedMessage,
    TruncatedResponse,
    IdMismatch,
    NotAResponse,
    TruncatedName,
    TruncatedPointer,
    InvalidLabel,
    TruncatedLabel,
    NameTooLong,
    TruncatedRecord,
    TruncatedRecordData,
    InvalidResponse,
    ErrorCode(u8),
    TruncatedPriority,
    TargetExceedsRecord,
    TruncatedParameter,
    TruncatedParameterValue,
    EmptyEch,
    NoEch,
    EmptyRecord,
    MissingFields,
    InvalidTtl,
    MissingClass,
    UnsupportedClass,
    MissingType,
    UnsupportedType,
    MissingField,
    InvalidAddress,
    WrongFamily,
    TextTooLong,
    EmptyText,
    InvalidNumber,
    QueryTypeTooLarge,
    QueryTypeKind,
    UnsupportedQueryType,
    RcodeTooLarge,
    RcodeKind,
    UnsupportedRcode,
    UnsupportedStrategy,
    LogicalMode,
    LogicalEmpty,
    UnsupportedRuleType,
    InvalidRegex,
    NestedAction,
    UnsupportedAction,
    UnsupportedRejectMethod,
}

impl DnsError {
    /// The error in words.
    pub open spec fn words(self) -> Seq<char> {
        match self {
            DnsError::InvalidQuery => "invalid DNS query"@,
            DnsError::TruncatedQuestion => "truncated DNS question"@,
            DnsError::CompressedQuestion => "compressed DNS questions are unsupported"@,
            DnsError::TruncatedQuestionLabel => "truncated DNS question label"@,
            DnsError::LabelNotUtf8 => "DNS question label is not UTF-8"@,
            DnsError::TruncatedQuestionFields => "truncated DNS question fields"@,
            DnsError::InvalidName => "invalid DNS name"@,
            DnsError::AdditionalRecords => "DNS client_subnet cannot be added to a query that already has additional records"@,
            DnsError::InvalidClientSubnet => "invalid DNS client_subnet"@,
            DnsError::TruncatedMessage => "truncated DNS message"@,
            DnsError::TruncatedResponse => "truncated DNS response"@,
            DnsError::IdMismatch => "DNS response transaction ID mismatch"@,
            DnsError::NotAResponse => "DNS message is not a response"@,
            DnsError::TruncatedName => "truncated DNS name"@,
            DnsError::TruncatedPointer => "truncated DNS pointer"@,
            DnsError::InvalidLabel => "invalid DNS label"@,
            DnsError::TruncatedLabel => "truncated DNS label"@,
            DnsError::NameTooLong => "DNS name has too many labels"@,
            DnsError::TruncatedRecord => "truncated DNS record"@,
            DnsError::TruncatedRecordData => "truncated DNS record data"@,
            DnsError::InvalidResponse => "invalid DNS response"@,
            DnsError::ErrorCode(_) => "DNS error rcode"@,
            DnsError::TruncatedPriority => "truncated DNS HTTPS priority"@,
            DnsError::TargetExceedsRecord => "DNS HTTPS target exceeds record"@,
            DnsError::TruncatedParameter => "truncated DNS HTTPS parameter"@,
            DnsError::TruncatedParameterValue => "truncated DNS HTTPS parameter value"@,
            DnsError::EmptyEch => "empty ECH config in DNS HTTPS record"@,
            DnsError::NoEch => "no ECH config found in DNS HTTPS records"@,
            DnsError::EmptyRecord => "empty DNS record"@,
            DnsError::MissingFields => "DNS record is missing fields"@,
            DnsError::InvalidTtl => "invalid DNS record TTL"@,
            DnsError::MissingClass => "DNS record is missing a class"@,
            DnsError::UnsupportedClass => "unsupported DNS record class"@,
            DnsError::MissingType => "DNS record is missing a type"@,
            DnsError::UnsupportedType => "unsupported DNS record type"@,
            DnsError::MissingField => "DNS record is missing a field"@,
            DnsError::InvalidAddress => "invalid DNS record address"@,
            DnsError::WrongFamily => "DNS record address is of the wrong family"@,
            DnsError::TextTooLong => "TXT record string exceeds 255 bytes"@,
            DnsError::EmptyText => "TXT record requires at least one string"@,
            DnsError::InvalidNumber => "invalid DNS record number"@,
            DnsError::QueryTypeTooLarge => "DNS query_type number exceeds 65535"@,
            DnsError::QueryTypeKind => "DNS query_type must be a number or string"@,
            DnsError::UnsupportedQueryType => "unsupported DNS query_type name"@,
            DnsError::RcodeTooLarge => "DNS rcode exceeds 255"@,
            DnsError::RcodeKind => "DNS rcode must be a number or string"@,
            DnsError::UnsupportedRcode => "unsupported DNS rcode"@,
            DnsError::UnsupportedStrategy => "unsupported DNS strategy"@,
            DnsError::LogicalMode => "logical DNS rule requires mode and/or"@,
            DnsError::LogicalEmpty => "logical DNS rule requires nested rules"@,
            DnsError::UnsupportedRuleType => "unsupported DNS rule type"@,
            DnsError::InvalidRegex => "invalid DNS domain_regex"@,
            DnsError::NestedAction => "nested logical DNS rules cannot contain actions"@,
            DnsError::UnsupportedAction => "unsupported DNS rule action"@,
            DnsError::UnsupportedRejectMethod => "unsupported DNS reject method"@,
        }
    }

    /// The error in words.
    pub fn message(&self) -> (r: &'static str)
        ensures
            r@ == self.words(),
    {
        match self {
            DnsError::InvalidQuery => "invalid DNS query",
            DnsError::TruncatedQuestion => "truncated DNS question",
            DnsError::CompressedQuestion => "compressed DNS questions are unsupported",
            DnsError::TruncatedQuestionLabel => "truncated DNS question label",
            DnsError::LabelNotUtf8 => "DNS question label is not UTF-8",
            DnsError::TruncatedQuestionFields => "truncated DNS question fields",
            DnsError::InvalidName => "invalid DNS name",
            DnsError::AdditionalRecords => "DNS client_subnet cannot be added to a query that already has additional records",
            DnsError::InvalidClientSubnet => "invalid DNS client_subnet",
            DnsError::TruncatedMessage => "truncated DNS message",
            DnsError::TruncatedResponse => "truncated DNS response",
            DnsError::IdMismatch => "DNS response transaction ID mismatch",
            DnsError::NotAResponse => "DNS message is not a response",
            DnsError::TruncatedName => "truncated DNS name",
            DnsError::TruncatedPointer => "truncated DNS pointer",
            DnsError::InvalidLabel => "invalid DNS label",
            DnsError::TruncatedLabel => "truncated DNS label",
            DnsError::NameTooLong => "DNS name has too many labels",
            DnsError::TruncatedRecord => "truncated DNS record",
            DnsError::TruncatedRecordData => "truncated DNS record data",
            DnsError::InvalidResponse => "invalid DNS response",
            DnsError::ErrorCode(_) => "DNS error rcode",
            DnsError::TruncatedPriority => "truncated DNS HTTPS priority",
            DnsError::TargetExceedsRecord => "DNS HTTPS target exceeds record",
            DnsError::TruncatedParameter => "truncated DNS HTTPS parameter",
            DnsError::TruncatedParameterValue => "truncated DNS HTTPS parameter value",
            DnsError::EmptyEch => "empty ECH config in DNS HTTPS record",
            DnsError::NoEch => "no ECH config found in DNS HTTPS records",
            DnsError::EmptyRecord => "empty DNS record",
            DnsError::MissingFields => "DNS record is missing fields",
            DnsError::InvalidTtl => "invalid DNS record TTL",
            DnsError::MissingClass => "DNS record is missing a class",
            DnsError::UnsupportedClass => "unsupported DNS record class",
            DnsError::MissingType => "DNS record is missing a type",
            DnsError::UnsupportedType => "unsupported DNS record type",
            DnsError::MissingField => "DNS record is missing a field",
            DnsError::InvalidAddress => "invalid DNS record address",
            DnsError::WrongFamily => "DNS record address is of the wrong family",
            DnsError::TextTooLong => "TXT record string exceeds 255 bytes",
            DnsError::EmptyText => "TXT record requires at least one string",
            DnsError::InvalidNumber => "invalid DNS record number",
            DnsError::QueryTypeTooLarge => "DNS query_type number exceeds 65535",
            DnsError::QueryTypeKind => "DNS query_type must be a number or string",
            DnsError::UnsupportedQueryType => "unsupported DNS query_type name",
            DnsError::RcodeTooLarge => "DNS rcode exceeds 255",
            DnsError::RcodeKind => "DNS rcode must be a number or string",
            DnsError::UnsupportedRcode => "unsupported DNS rcode",
            DnsError::UnsupportedStrategy => "unsupported DNS strategy",
            DnsError::LogicalMode => "logical DNS rule requires mode and/or",
            DnsError::LogicalEmpty => "logical DNS rule requires nested rules",
            DnsError::UnsupportedRuleType => "unsupported DNS rule type",
            DnsError::InvalidRegex => "invalid DNS domain_regex",
            DnsError::NestedAction => "nested logical DNS rules cannot contain actions",
            DnsError::UnsupportedAction => "unsupported DNS rule action",
            DnsError::UnsupportedRejectMethod => "unsupported DNS reject method",
        }
    }
}

/// A name without the dots at its end and in lower case.
pub open spec fn normalized(name: Seq<char>) -> Seq<char> {
    text::lower(text::trim_end(name, '.'))
}

/// Brings a name to the form in which names are compared.
pub fn normalize(s: &str) -> (r: String)
    ensures
        r@ == normalized(s@),
{
    let trimmed = text::trim_end_char(s, '.');
    text::to_lower(trimmed.as_str())
}

/// A normalized name is its own normal form.
pub proof fn normalize_idempotent(name: Seq<char>)
    ensures
        normalized(normalized(name)) == normalized(name),
{
    let t = text::trim_end(name, '.');
    text::lemma_trim_end(name, '.');
    let l = text::lower(t);
    assert(l.len() == 0 || l.last() == text::lower_char(t.last()));
    text::lemma_trim_end_is(l, '.', l.len() as int);
    assert(l.take(l.len() as int) =~= l);
    text::lemma_lower_idempotent(t);
}

// ---- names on the wire ----

/// A label has at least one character and at most 63 bytes.
pub open spec fn valid_label(label: Seq<char>) -> bool {
    label.len() > 0 && vstd::utf8::encode_utf8(label).len() <= 63
}

/// The labels of a name.
pub open spec fn labels(name: Seq<char>) -> Seq<Seq<char>> {
    text::split(name, '.')
}

pub open spec fn valid_labels(l: Seq<Seq<char>>) -> bool {
    forall|i: int| 0 <= i < l.len() ==> valid_label(#[trigger] l[i])
}

/// Each label behind its length.
pub open spec fn labels_wire(l: Seq<Seq<char>>) -> Seq<u8>
    decreases l.len(),
{
    if l.len() == 0 {
        Seq::empty()
    } else {
        seq![vstd::utf8::encode_utf8(l[0]).len() as u8] + vstd::utf8::encode_utf8(l[0]) + labels_wire(
            l.skip(1),
        )
    }
}

/// The labels of a name, ended by the root.
pub open spec fn name_wire(name: Seq<char>) -> Seq<u8> {
    labels_wire(labels(name)) + seq![0u8]
}

/// A name of a record: dots at its end are dropped, and nothing is the root.
pub open spec fn record_name(name: Seq<char>) -> Result<Seq<u8>, DnsError> {
    let trimmed = text::trim_end(name, '.');
    if trimmed.len() == 0 {
        Ok(seq![0u8])
    } else if valid_labels(labels(trimmed)) {
        Ok(name_wire(trimmed))
    } else {
        Err(DnsError::InvalidName)
    }
}

proof fn lemma_labels_wire_push(l: Seq<Seq<char>>, label: Seq<char>)
    ensures
        labels_wire(l.push(label)) == labels_wire(l) + (seq![
            vstd::utf8::encode_utf8(label).len() as u8,
        ] + vstd::utf8::encode_utf8(label)),
    decreases l.len(),
{
    if l.len() == 0 {
        assert(l.push(label).skip(1) =~= Seq::<Seq<char>>::empty());
        assert(labels_wire(Seq::<Seq<char>>::empty()) =~= Seq::<u8>::empty());
        assert(labels_wire(l) =~= Seq::<u8>::empty());
        assert(labels_wire(l.push(label)) =~= seq![vstd::utf8::encode_utf8(label).len() as u8]
            + vstd::utf8::encode_utf8(label));
    } else {
        assert(l.push(label).skip(1) =~= l.skip(1).push(label));
        lemma_labels_wire_push(l.skip(1), label);
        assert(labels_wire(l.push(label)) =~= labels_wire(l) + (seq![
            vstd::utf8::encode_utf8(label).len() as u8,
        ] + vstd::utf8::encode_utf8(label)));
    }
}

/// Appends the labels of a name and the root; `false` where a label is not valid.
fn push_name(out: &mut Vec<u8>, name: &str) -> (r: bool)
    ensures
        r == valid_labels(labels(name@)),
        r ==> final(out)@ == old(out)@ + name_wire(name@),
{
    let parts = text::split_text(name, '.');
    let ghost all = labels(name@);
    let mut i: usize = 0;
    proof {
        assert(all.take(0) =~= Seq::<Seq<char>>::empty());
        assert(out@ =~= old(out)@ + labels_wire(all.take(0)));
    }
    while i < parts.len()
        invariant
            i <= parts.len(),
            text::texts(parts@) == all,
            all == labels(name@),
            out@ == old(out)@ + labels_wire(all.take(i as int)),
            forall|j: int| 0 <= j < i ==> valid_label(#[trigger] all[j]),
        decreases parts.len() - i,
    {
        let label = parts[i].as_str();
        let bytes = label.as_bytes();
        proof {
            assert(all[i as int] == label@);
        }
        if label.is_empty() || bytes.len() > 63 {
            proof {
                assert(!valid_label(all[i as int]));
            }
            return false;
        }
        out.push(bytes.len() as u8);
        wire::push_bytes(out, bytes);
        proof {
            assert(all.take(i + 1) =~= all.take(i as int).push(label@));
            lemma_labels_wire_push(all.take(i as int), label@);
            assert(out@ =~= old(out)@ + labels_wire(all.take(i + 1)));
        }
        i = i + 1;
    }
    out.push(0);
    proof {
        assert(all.take(all.len() as int) =~= all);
        assert(out@ =~= old(out)@ + name_wire(name@));
    }
    true
}

/// Encodes the name of a record.
pub fn encode_name(name: &str) -> (r: Result<Vec<u8>, DnsError>)
    ensures
        match r {
            Ok(bytes) => record_name(name@) == Ok::<Seq<u8>, DnsError>(bytes@),
            Err(e) => record_name(name@) == Err::<Seq<u8>, DnsError>(e),
        },
{
    let trimmed = text::trim_end_char(name, '.');
    let mut out: Vec<u8> = Vec::new();
    if trimmed.as_str().is_empty() {
        out.push(0);
        proof {
            assert(out@ =~= seq![0u8]);
        }
        return Ok(out);
    }
    if push_name(&mut out, trimmed.as_str()) {
        proof {
            assert(out@ =~= name_wire(trimmed@));
        }
        Ok(out)
    } else {
        Err(DnsError::InvalidName)
    }
}

// ---- the question of a query ----

/// The labels that stand at `p`, and where the name ends.
pub open spec fn question_labels(b: Seq<u8>, p: int) -> Result<(Seq<Seq<char>>, int), DnsError>
    decreases b.len() - p,
{
    if p < 0 || p >= b.len() {
        Err(DnsError::TruncatedQuestion)
    } else if b[p] == 0 {
        Ok((Seq::empty(), p + 1))
    } else if b[p] > 63 {
        Err(DnsError::CompressedQuestion)
    } else if p + 1 + b[p] > b.len() {
        Err(DnsError::TruncatedQuestionLabel)
    } else if !vstd::utf8::valid_utf8(b.subrange(p + 1, p + 1 + b[p])) {
        Err(DnsError::LabelNotUtf8)
    } else {
        prepend_labels(
            seq![vstd::utf8::decode_utf8(b.subrange(p + 1, p + 1 + b[p]))],
            question_labels(b, p + 1 + b[p]),
        )
    }
}

pub open spec fn prepend_labels(
    done: Seq<Seq<char>>,
    rest: Result<(Seq<Seq<char>>, int), DnsError>,
) -> Result<(Seq<Seq<char>>, int), DnsError> {
    match rest {
        Ok((more, end)) => Ok((done + more, end)),
        Err(e) => Err(e),
    }
}

/// The first question of a message: its name in normal form, its type, and
/// where it ends.
pub open spec fn question(b: Seq<u8>) -> Result<(Seq<char>, u16, int), DnsError> {
    if b.len() < 12 || wire::be16(b, 4) == 0 {
        Err(DnsError::InvalidQuery)
    } else {
        match question_labels(b, 12) {
            Err(e) => Err(e),
            Ok((l, end)) => if end + 4 > b.len() {
                Err(DnsError::TruncatedQuestionFields)
            } else {
                Ok((normalized(text::join(l, '.')), wire::be16(b, end) as u16, end + 4))
            },
        }
    }
}

/// Reads the labels from `start` on and where the name ends.
pub(crate) fn read_labels(b: &[u8], start: usize) -> (r: Result<(Vec<String>, usize), DnsError>)
    ensures
        match r {
            Ok((parts, end)) => question_labels(b@, start as int) == Ok::<
                (Seq<Seq<char>>, int),
                DnsError,
            >((text::texts(parts@), end as int)) && start < end <= b@.len(),
            Err(e) => question_labels(b@, start as int) == Err::<(Seq<Seq<char>>, int), DnsError>(
                e,
            ),
        },
{
    let mut position: usize = start;
    let mut parts: Vec<String> = Vec::new();
    let ghost whole = question_labels(b@, start as int);
    proof {
        assert(prepend_labels(text::texts(parts@), whole) == whole) by {
            if let Ok((more, end)) = whole {
                assert(text::texts(parts@) + more =~= more);
            }
        }
    }
    loop
        invariant
            start <= position,
            whole == question_labels(b@, start as int),
            whole == prepend_labels(
                text::texts(parts@),
                question_labels(b@, position as int),
            ),
        decreases b@.len() - position,
    {
        if position >= b.len() {
            return Err(DnsError::TruncatedQuestion);
        }
        let length: usize = b[position] as usize;
        position = position + 1;
        if length == 0 {
            proof {
                assert(text::texts(parts@) + Seq::<Seq<char>>::empty() =~= text::texts(parts@));
            }
            return Ok((parts, position));
        }
        if length > 63 {
            return Err(DnsError::CompressedQuestion);
        }
        if length > b.len() - position {
            return Err(DnsError::TruncatedQuestionLabel);
        }
        let label = text::copy_bytes(&b[position..position + length]);
        let ghost before = text::texts(parts@);
        match text::utf8_text(label) {
            None => {
                return Err(DnsError::LabelNotUtf8);
            },
            Some(label) => {
                parts.push(label);
                position = position + length;
                proof {
                    assert(text::texts(parts@) =~= before.push(label@));
                    if let Ok((more, end)) = question_labels(b@, position as int) {
                        assert(before + (seq![label@] + more) =~= before.push(label@) + more);
                    }
                }
            },
        }
    }
}

/// Reads the first question: its name, its type and where it ends.
pub fn parse_question(request: &[u8]) -> (r: Result<(String, u16, usize), DnsError>)
    ensures
        match r {
            Ok((name, qtype, end)) => question(request@) == Ok::<(Seq<char>, u16, int), DnsError>(
                (name@, qtype, end as int),
            ) && 12 <= end <= request@.len(),
            Err(e) => question(request@) == Err::<(Seq<char>, u16, int), DnsError>(e),
        },
{
    if request.len() < 12 || wire::read_u16(request, 4) == 0 {
        return Err(DnsError::InvalidQuery);
    }
    let (parts, position) = match read_labels(request, 12) {
        Ok(read) => read,
        Err(e) => {
            return Err(e);
        },
    };
    if request.len() - position < 4 {
        return Err(DnsError::TruncatedQuestionFields);
    }
    let qtype: u16 = wire::read_u16(request, position);
    let name = text::join_texts(&parts, '.');
    Ok((normalize(name.as_str()), qtype, position + 4))
}

// ---- building queries ----

/// The client subnet option in an additional record of type OPT.
pub open spec fn subnet_wire(net: IpNet) -> Seq<u8> {
    let length = (net.prefix as nat + 7) / 8;
    let family: nat = if net.address is V4 {
        1
    } else {
        2
    };
    seq![0u8] + wire::bytes16(41) + wire::bytes16(1232) + wire::bytes32(0) + wire::bytes16(8 + length)
        + wire::bytes16(8) + wire::bytes16(4 + length) + wire::bytes16(family) + seq![
        net.prefix,
        0u8,
    ] + net.first().octets().take(length as int)
}

/// The header of a query with one question.
pub open spec fn query_header(id: u16, additional: bool) -> Seq<u8> {
    wire::bytes16(id as nat) + seq![
        1u8,
        0,
        0,
        1,
        0,
        0,
        0,
        0,
        0,
        if additional {
            1u8
        } else {
            0u8
        },
    ]
}

/// A query for a name, with or without a client subnet.
pub open spec fn query_wire(
    id: u16,
    name: Seq<char>,
    qtype: u16,
    subnet: Option<Seq<char>>,
) -> Result<Seq<u8>, DnsError> {
    if !valid_labels(labels(name)) {
        Err(DnsError::InvalidName)
    } else {
        let plain = query_header(id, subnet is Some) + name_wire(name) + wire::bytes16(qtype as nat)
            + wire::bytes16(1);
        match subnet {
            None => Ok(plain),
            Some(s) => match net::net_or_ip_text(s) {
                None => Err(DnsError::InvalidClientSubnet),
                Some(net) => Ok(plain + subnet_wire(net)),
            },
        }
    }
}

/// Reads a client subnet: a network or a single address.
pub fn parse_client_subnet(value: &str) -> (r: Result<IpNet, DnsError>)
    ensures
        match r {
            Ok(net) => net::net_or_ip_text(value@) == Some(net) && net.wf(),
            Err(e) => net::net_or_ip_text(value@) is None && e == DnsError::InvalidClientSubnet,
        },
{
    match net::parse_net_or_ip(value) {
        Some(net) => Ok(net),
        None => Err(DnsError::InvalidClientSubnet),
    }
}

/// Appends the additional record that carries a client subnet.
pub fn append_client_subnet_opt(output: &mut Vec<u8>, subnet: &str) -> (r: Result<(), DnsError>)
    ensures
        match net::net_or_ip_text(subnet@) {
            Some(net) => r is Ok && final(output)@ == old(output)@ + subnet_wire(net),
            None => r == Err::<(), DnsError>(DnsError::InvalidClientSubnet) && final(output)@
                == old(output)@,
        },
{
    let net = match parse_client_subnet(subnet) {
        Ok(net) => net,
        Err(e) => {
            return Err(e);
        },
    };
    append_subnet(output, &net);
    Ok(())
}

fn append_subnet(output: &mut Vec<u8>, net: &IpNet)
    requires
        net.wf(),
    ensures
        final(output)@ == old(output)@ + subnet_wire(*net),
{
    let length: u16 = (net.prefix as u16 + 7) / 8;
    let family: u16 = if net.address.is_ipv4() {
        1
    } else {
        2
    };
    let mut octets: Vec<u8> = Vec::new();
    net.network().push_octets(&mut octets);
    proof {
        assert(octets@ =~= net.first().octets());
        assert(octets@.len() == net.address.width() / 8);
        assert(octets@.subrange(0, length as int) =~= octets@.take(length as int));
    }
    let mut record: Vec<u8> = Vec::new();
    record.push(0);
    proof {
        assert(record@ =~= seq![0u8]);
    }
    wire::push_u16(&mut record, 41);
    wire::push_u16(&mut record, 1232);
    wire::push_u32(&mut record, 0);
    wire::push_u16(&mut record, 8 + length);
    wire::push_u16(&mut record, 8);
    wire::push_u16(&mut record, 4 + length);
    wire::push_u16(&mut record, family);
    let ghost fields = record@;
    record.push(net.prefix);
    record.push(0);
    proof {
        assert(record@ =~= fields + seq![net.prefix, 0u8]);
    }
    wire::push_bytes(&mut record, &octets[0..length as usize]);
    wire::push_bytes(output, record.as_slice());
}

/// Builds a query for a name.
pub fn build_query(id: u16, name: &str, qtype: u16) -> (r: Result<Vec<u8>, DnsError>)
    ensures
        match r {
            Ok(wire) => query_wire(id, name@, qtype, None) == Ok::<Seq<u8>, DnsError>(wire@),
            Err(e) => query_wire(id, name@, qtype, None) == Err::<Seq<u8>, DnsError>(e),
        },
{
    build_query_with_subnet(id, name, qtype, None)
}

/// Builds a query for a name, with a client subnet where one is given.
pub fn build_query_with_subnet(
    id: u16,
    name: &str,
    qtype: u16,
    client_subnet: Option<&str>,
) -> (r: Result<Vec<u8>, DnsError>)
    ensures
        match r {
            Ok(wire) => query_wire(id, name@, qtype, text::opt_str(client_subnet)) == Ok::<
                Seq<u8>,
                DnsError,
            >(wire@),
            Err(e) => query_wire(id, name@, qtype, text::opt_str(client_subnet)) == Err::<
                Seq<u8>,
                DnsError,
            >(e),
        },
{
    let mut b: Vec<u8> = Vec::new();
    wire::push_u16(&mut b, id);
    let additional: u8 = match client_subnet {
        Some(_) => 1,
        None => 0,
    };
    let tail: [u8; 10] = [1, 0, 0, 1, 0, 0, 0, 0, 0, additional];
    wire::push_bytes(&mut b, &tail);
    proof {
        assert(b@ =~= query_header(id, client_subnet is Some));
    }
    if !push_name(&mut b, name) {
        return Err(DnsError::InvalidName);
    }
    wire::push_u16(&mut b, qtype);
    wire::push_u16(&mut b, 1);
    match client_subnet {
        None => Ok(b),
        Some(subnet) => match append_client_subnet_opt(&mut b, subnet) {
            Ok(_) => Ok(b),
            Err(e) => Err(e),
        },
    }
}

/// A request with a client subnet added.
pub open spec fn with_subnet(request: Seq<u8>, subnet: Seq<char>) -> Result<Seq<u8>, DnsError> {
    if request.len() < 12 {
        Err(DnsError::InvalidQuery)
    } else if wire::be16(request, 10) != 0 {
        Err(DnsError::AdditionalRecords)
    } else {
        match net::net_or_ip_text(subnet) {
            None => Err(DnsError::InvalidClientSubnet),
            Some(net) => Ok(request.update(10, 0u8).update(11, 1u8) + subnet_wire(net)),
        }
    }
}

/// Adds a client subnet to a request that has no additional record.
pub fn add_client_subnet(request: &[u8], subnet: &str) -> (r: Result<Vec<u8>, DnsError>)
    ensures
        match r {
            Ok(wire) => with_subnet(request@, subnet@) == Ok::<Seq<u8>, DnsError>(wire@),
            Err(e) => with_subnet(request@, subnet@) == Err::<Seq<u8>, DnsError>(e),
        },
{
    if request.len() < 12 {
        return Err(DnsError::InvalidQuery);
    }
    if wire::read_u16(request, 10) != 0 {
        return Err(DnsError::AdditionalRecords);
    }
    let mut wire = text::copy_bytes(request);
    wire.set(10, 0);
    wire.set(11, 1);
    match append_client_subnet_opt(&mut wire, subnet) {
        Ok(_) => Ok(wire),
        Err(e) => Err(e),
    }
}

// ---- headers and whole responses ----

/// The transaction number of a message.
pub fn dns_id(message: &[u8]) -> (r: Result<u16, DnsError>)
    ensures
        r == (if message@.len() < 2 {
            Err::<u16, DnsError>(DnsError::TruncatedMessage)
        } else {
            Ok::<u16, DnsError>(wire::be16(message@, 0) as u16)
        }),
{
    if message.len() < 2 {
        Err(DnsError::TruncatedMessage)
    } else {
        Ok(wire::read_u16(message, 0))
    }
}

/// A message with another transaction number.
pub open spec fn with_id(message: Seq<u8>, id: u16) -> Seq<u8> {
    message.update(0, (id / 256) as u8).update(1, (id % 256) as u8)
}

/// Replaces the transaction number; a message without one is refused.
pub fn replace_id(message: &mut Vec<u8>, id: u16) -> (r: Result<(), DnsError>)
    ensures
        old(message)@.len() < 2 ==> r == Err::<(), DnsError>(DnsError::TruncatedMessage)
            && final(message)@ == old(message)@,
        old(message)@.len() >= 2 ==> r is Ok && final(message)@ == with_id(old(message)@, id),
{
    if message.len() < 2 {
        return Err(DnsError::TruncatedMessage);
    }
    message.set(0, (id / 256) as u8);
    message.set(1, (id % 256) as u8);
    Ok(())
}

/// A query without its transaction number.
pub open spec fn canonical(request: Seq<u8>) -> Seq<u8> {
    if request.len() >= 2 {
        with_id(request, 0)
    } else {
        request
    }
}

/// The form of a query that does not depend on its transaction number.
pub fn canonical_query(request: &[u8]) -> (r: Vec<u8>)
    ensures
        r@ == canonical(request@),
{
    let mut key = text::copy_bytes(request);
    if key.len() >= 2 {
        key.set(0, 0);
        key.set(1, 0);
    }
    key
}

/// Two queries that differ only in their transaction number have one canonical
/// form, and that form is its own.
pub proof fn canonical_ignores_id(request: Seq<u8>, id: u16)
    requires
        request.len() >= 2,
    ensures
        canonical(with_id(request, id)) == canonical(request),
        canonical(canonical(request)) == canonical(request),
{
    assert(canonical(with_id(request, id)) =~= canonical(request));
    assert(canonical(canonical(request)) =~= canonical(request));
}

/// The transaction number that was written is read back, and putting the old
/// one back restores the message.
pub proof fn replaced_id_reads_back(message: Seq<u8>, id: u16)
    requires
        message.len() >= 2,
    ensures
        wire::be16(with_id(message, id), 0) == id,
        with_id(with_id(message, id), wire::be16(message, 0) as u16) == message,
{
    assert(with_id(with_id(message, id), wire::be16(message, 0) as u16) =~= message);
}

/// Checks that a message is a response to the query `expected_id`.
pub fn validate_response(expected_id: u16, response: &[u8]) -> (r: Result<(), DnsError>)
    ensures
        r == (if response@.len() < 12 {
            Err::<(), DnsError>(DnsError::TruncatedResponse)
        } else if wire::be16(response@, 0) != expected_id {
            Err::<(), DnsError>(DnsError::IdMismatch)
        } else if response@[2] < 0x80 {
            Err::<(), DnsError>(DnsError::NotAResponse)
        } else {
            Ok::<(), DnsError>(())
        }),
{
    if response.len() < 12 {
        return Err(DnsError::TruncatedResponse);
    }
    if wire::read_u16(response, 0) != expected_id {
        return Err(DnsError::IdMismatch);
    }
    if response[2] < 0x80 {
        return Err(DnsError::NotAResponse);
    }
    Ok(())
}

/// The part of a request up to the end of its question, with other flags and
/// other counts of records.
pub open spec fn reply_header(
    request: Seq<u8>,
    question_end: int,
    flags: (u8, u8),
    answers: nat,
) -> Seq<u8> {
    request.take(2) + seq![flags.0, flags.1] + request.subrange(4, 6) + wire::bytes16(answers)
        + seq![0u8, 0, 0, 0] + request.subrange(12, question_end)
}

pub(crate) fn reply(request: &[u8], question_end: usize, high: u8, low: u8, answers: u16) -> (r: Vec<u8>)
    requires
        12 <= question_end <= request@.len(),
    ensures
        r@ == reply_header(request@, question_end as int, (high, low), answers as nat),
{
    let mut out = text::copy_bytes(&request[0..2]);
    proof {
        assert(request@.subrange(0, 2) =~= request@.take(2));
    }
    let ghost id = out@;
    out.push(high);
    out.push(low);
    proof {
        assert(out@ =~= id + seq![high, low]);
    }
    wire::push_bytes(&mut out, &request[4..6]);
    wire::push_u16(&mut out, answers);
    let none: [u8; 4] = [0, 0, 0, 0];
    wire::push_bytes(&mut out, &none);
    proof {
        assert(none@ =~= seq![0u8, 0, 0, 0]);
    }
    wire::push_bytes(&mut out, &request[12..question_end]);
    out
}

/// The answer that refuses a request: its question, marked as a response, with
/// the code for `REFUSED`.
pub fn refused_response(request: &[u8], question_end: usize) -> (r: Result<Vec<u8>, DnsError>)
    requires
        question_end >= 12 || question_end > request@.len(),
    ensures
        match r {
            Ok(response) => question_end <= request@.len() && response@ == reply_header(
                request@,
                question_end as int,
                (request@[2] | 0x80, (request@[3] & 0xf0) | 5),
                0,
            ),
            Err(e) => question_end > request@.len() && e == DnsError::TruncatedQuestion,
        },
{
    if question_end > request.len() {
        return Err(DnsError::TruncatedQuestion);
    }
    Ok(reply(request, question_end, request[2] | 0x80, (request[3] & 0xf0) | 5, 0))
}

/// Whether an address can answer a query of the given type.
pub open spec fn answers_type(qtype: u16, address: IpAddr) -> bool {
    qtype == 1 && address is V4 || qtype == 28 && address is V6
}

/// One answer record for the name of the question: half a minute of lifetime.
pub open spec fn local_record(qtype: u16, address: IpAddr) -> Seq<u8> {
    seq![0xc0u8, 0x0c] + wire::bytes16(qtype as nat) + wire::bytes16(1) + wire::bytes32(30)
        + wire::bytes16(address.width() / 8) + address.octets()
}

pub open spec fn local_records(qtype: u16, list: Seq<IpAddr>) -> Seq<u8>
    decreases list.len(),
{
    if list.len() == 0 {
        Seq::empty()
    } else if answers_type(qtype, list.last()) {
        local_records(qtype, list.drop_last()) + local_record(qtype, list.last())
    } else {
        local_records(qtype, list.drop_last())
    }
}

/// How many of the addresses can answer.
pub open spec fn local_count(qtype: u16, list: Seq<IpAddr>) -> nat
    decreases list.len(),
{
    if list.len() == 0 {
        0
    } else {
        local_count(qtype, list.drop_last()) + if answers_type(qtype, list.last()) {
            1nat
        } else {
            0nat
        }
    }
}

fn push_local_record(out: &mut Vec<u8>, qtype: u16, address: &IpAddr)
    ensures
        final(out)@ == old(out)@ + local_record(qtype, *address),
{
    let pointer: [u8; 2] = [0xc0, 0x0c];
    let mut record: Vec<u8> = text::copy_bytes(&pointer);
    proof {
        assert(record@ =~= seq![0xc0u8, 0x0c]);
    }
    wire::push_u16(&mut record, qtype);
    wire::push_u16(&mut record, 1);
    wire::push_u32(&mut record, 30);
    wire::push_u16(
        &mut record,
        if address.is_ipv4() {
            4
        } else {
            16
        },
    );
    address.push_octets(&mut record);
    wire::push_bytes(out, record.as_slice());
}

/// The response that a local lookup gives: one record for each address that
/// fits the type, counted modulo 65536.
pub fn local_response(
    request: &[u8],
    qtype: u16,
    question_end: usize,
    addresses: &[IpAddr],
) -> (r: Vec<u8>)
    requires
        12 <= question_end <= request@.len(),
    ensures
        r@ == reply_header(
            request@,
            question_end as int,
            (0x81, 0x80),
            local_count(qtype, addresses@) % 0x1_0000,
        ) + local_records(qtype, addresses@),
{
    let mut body: Vec<u8> = Vec::new();
    let mut count: u16 = 0;
    let mut i: usize = 0;
    proof {
        assert(addresses@.take(0) =~= Seq::<IpAddr>::empty());
    }
    while i < addresses.len()
        invariant
            i <= addresses@.len(),
            body@ == local_records(qtype, addresses@.take(i as int)),
            count == local_count(qtype, addresses@.take(i as int)) % 0x1_0000,
        decreases addresses@.len() - i,
    {
        let address = addresses[i];
        proof {
            assert(addresses@.take(i + 1).drop_last() =~= addresses@.take(i as int));
            assert(addresses@.take(i + 1).last() == address);
        }
        if (qtype == 1 && address.is_ipv4()) || (qtype == 28 && address.is_ipv6()) {
            push_local_record(&mut body, qtype, &address);
            count = if count == 65535 {
                0
            } else {
                count + 1
            };
        }
        i = i + 1;
    }
    proof {
        assert(addresses@.take(addresses@.len() as int) =~= addresses@);
    }
    let mut out = reply(request, question_end, 0x81, 0x80, count);
    wire::push_bytes(&mut out, body.as_slice());
    out
}

// ---- laws of names and questions ----

/// The labels on the wire are read back, whatever stands around them.
pub(crate) proof fn lemma_labels_read_back(before: Seq<u8>, l: Seq<Seq<char>>, after: Seq<u8>)
    requires
        valid_labels(l),
    ensures
        question_labels(before + (labels_wire(l) + seq![0u8]) + after, before.len() as int) == Ok::<
            (Seq<Seq<char>>, int),
            DnsError,
        >((l, (before.len() + labels_wire(l).len() + 1) as int)),
    decreases l.len(),
{
    let b = before + (labels_wire(l) + seq![0u8]) + after;
    let p = before.len() as int;
    if l.len() == 0 {
        assert(b[p] == 0);
        assert(l =~= Seq::<Seq<char>>::empty());
    } else {
        let bytes = vstd::utf8::encode_utf8(l[0]);
        let n = bytes.len() as int;
        assert(valid_label(l[0]));
        vstd::utf8::encode_utf8_valid_utf8(l[0]);
        vstd::utf8::encode_utf8_decode_utf8(l[0]);
        lemma_encode_nonempty(l[0]);
        assert(b[p] == n as u8);
        assert(b.subrange(p + 1, p + 1 + n) =~= bytes);
        let before2 = before + (seq![n as u8] + bytes);
        let rest = l.skip(1);
        assert forall|i: int| 0 <= i < rest.len() implies valid_label(#[trigger] rest[i]) by {
            assert(rest[i] == l[i + 1]);
        }
        lemma_labels_read_back(before2, rest, after);
        assert(before2 + (labels_wire(rest) + seq![0u8]) + after =~= b);
        assert(seq![l[0]] + rest =~= l);
    }
}

proof fn lemma_encode_nonempty(s: Seq<char>)
    requires
        s.len() > 0,
    ensures
        vstd::utf8::encode_utf8(s).len() > 0,
{
    if vstd::utf8::encode_utf8(s).len() == 0 {
        vstd::utf8::encode_utf8_decode_utf8(s);
        assert(vstd::utf8::encode_utf8(s) =~= Seq::<u8>::empty());
        assert(vstd::utf8::decode_utf8(Seq::<u8>::empty()).len() == 0);
    }
}

/// The question of a built query is the one it was built for, with the name in
/// normal form; it ends where the client subnet begins.
pub proof fn query_question_round_trip(
    id: u16,
    name: Seq<char>,
    qtype: u16,
    subnet: Option<Seq<char>>,
)
    requires
        query_wire(id, name, qtype, subnet) is Ok,
    ensures
        question(query_wire(id, name, qtype, subnet)->Ok_0) == Ok::<
            (Seq<char>, u16, int),
            DnsError,
        >((normalized(name), qtype, (12 + name_wire(name).len() + 4) as int)),
{
    let b = query_wire(id, name, qtype, subnet)->Ok_0;
    let header = query_header(id, subnet is Some);
    let fields = wire::bytes16(qtype as nat) + wire::bytes16(1);
    let after = if subnet is Some {
        fields + subnet_wire(net::net_or_ip_text(subnet->0)->0)
    } else {
        fields
    };
    assert(b =~= header + (labels_wire(labels(name)) + seq![0u8]) + after);
    assert(header.len() == 12);
    lemma_labels_read_back(header, labels(name), after);
    text::lemma_join_split(name, '.');
    let end = 12 + name_wire(name).len() as int;
    assert(b.subrange(end, end + 2) =~= wire::bytes16(qtype as nat));
    wire::lemma_be16(b, end, qtype as nat);
    assert(b[4] == 0 && b[5] == 1);
}

/// The labels of a question depend only on the bytes they stand in.
proof fn lemma_labels_local(b: Seq<u8>, c: Seq<u8>, p: int)
    requires
        question_labels(b, p) is Ok,
        question_labels(b, p)->Ok_0.1 <= c.len(),
        forall|k: int| p <= k < question_labels(b, p)->Ok_0.1 ==> b[k] == c[k],
    ensures
        question_labels(c, p) == question_labels(b, p),
        0 <= p < question_labels(b, p)->Ok_0.1 <= b.len(),
    decreases b.len() - p,
{
    if b[p] != 0 {
        let q = p + 1 + b[p];
        lemma_labels_end(b, q);
        assert(b[p] == c[p]);
        assert(b.subrange(p + 1, q) =~= c.subrange(p + 1, q));
        lemma_labels_local(b, c, q);
    }
}

proof fn lemma_labels_end(b: Seq<u8>, p: int)
    requires
        question_labels(b, p) is Ok,
    ensures
        0 <= p < question_labels(b, p)->Ok_0.1 <= b.len(),
    decreases b.len() - p,
{
    if b[p] != 0 {
        lemma_labels_end(b, p + 1 + b[p]);
    }
}

/// The labels of a question end four bytes before it does.
pub(crate) proof fn lemma_question_ends(b: Seq<u8>)
    requires
        question(b) is Ok,
    ensures
        12 < question_labels(b, 12)->Ok_0.1 == question(b)->Ok_0.2 - 4,
{
    lemma_labels_end(b, 12);
}

/// Messages that agree up to the end of the question have the same labels.
pub(crate) proof fn lemma_same_question_same_labels(b: Seq<u8>, c: Seq<u8>, end: int)
    requires
        question(b) is Ok,
        end == question(b)->Ok_0.2,
        end <= c.len(),
        b.subrange(12, end) == c.subrange(12, end),
    ensures
        question_labels(c, 12) == question_labels(b, 12),
{
    lemma_labels_end(b, 12);
    assert forall|k: int| 12 <= k < end implies b[k] == c[k] by {
        assert(b.subrange(12, end)[k - 12] == b[k]);
        assert(c.subrange(12, end)[k - 12] == c[k]);
    }
    lemma_labels_local(b, c, 12);
}

/// A reply to a request holds the transaction number and the question of the
/// request, whatever its flags and its count of answers are, and whatever
/// records stand behind the question.
pub proof fn reply_keeps_id_and_question(
    request: Seq<u8>,
    flags: (u8, u8),
    answers: nat,
    body: Seq<u8>,
)
    requires
        question(request) is Ok,
    ensures
        ({
            let end = question(request)->Ok_0.2;
            let response = reply_header(request, end, flags, answers) + body;
            &&& 12 <= end <= request.len()
            &&& response.len() == end + body.len()
            &&& wire::be16(response, 0) == wire::be16(request, 0)
            &&& response.subrange(12, end) == request.subrange(12, end)
            &&& question(response) == question(request)
        }),
{
    let end = question(request)->Ok_0.2;
    let response = reply_header(request, end, flags, answers) + body;
    lemma_labels_end(request, 12);
    assert forall|k: int| 12 <= k < end implies request[k] == response[k] by {
        assert(request.subrange(12, end)[k - 12] == request[k]);
    }
    assert(response.subrange(12, end) =~= request.subrange(12, end));
    assert(response[4] == request[4] && response[5] == request[5]);
    assert(response[0] == request[0] && response[1] == request[1]);
    lemma_labels_local(request, response, 12);
}

/// A query with a subnet is the query as it was, but that it counts one record more,
/// and the record behind it: it names the family, the length of the prefix, and as
/// many bytes of the first address as the prefix reaches into.
pub proof fn subnets_are_put_behind_the_query(request: Seq<u8>, subnet: Seq<char>, net: IpNet)
    requires
        request.len() >= 12,
        wire::be16(request, 10) == 0,
        net::net_or_ip_text(subnet) == Some(net),
        net.wf(),
    ensures
        with_subnet(request, subnet) matches Ok(b) && ({
            let n = (net.prefix as nat + 7) / 8;
            let k = request.len() as int;
            &&& b.len() == k + 19 + n
            &&& wire::be16(b, 10) == 1
            &&& forall|i: int| 0 <= i < k && i != 10 && i != 11 ==> #[trigger] b[i] == request[i]
            &&& b[k] == 0
            &&& wire::be16(b, k + 1) == 41
            &&& wire::be16(b, k + 9) == 8 + n
            &&& wire::be16(b, k + 11) == 8
            &&& wire::be16(b, k + 13) == 4 + n
            &&& wire::be16(b, k + 15) == (if net.address is V4 {
                1nat
            } else {
                2nat
            })
            &&& b[k + 17] == net.prefix
            &&& b[k + 18] == 0
            &&& b.subrange(k + 19, k + 19 + n) == net.first().octets().take(n as int)
        }),
{
    let b = with_subnet(request, subnet)->Ok_0;
    let n = (net.prefix as nat + 7) / 8;
    let k = request.len() as int;
    let tail = subnet_wire(net);
    let front = request.update(10, 0u8).update(11, 1u8);
    let octets = net.first().octets();
    assert(octets.len() == net.address.width() / 8);
    assert(n <= octets.len());
    assert(front[10] == 0 && front[11] == 1);
    assert(b[10] == front[10] && b[11] == front[11]);
    assert(tail.len() == 19 + n);
    assert(tail.subrange(1, 3) =~= wire::bytes16(41));
    wire::lemma_be16(tail, 1, 41);
    assert(tail.subrange(9, 11) =~= wire::bytes16(8 + n));
    wire::lemma_be16(tail, 9, 8 + n);
    assert(tail.subrange(11, 13) =~= wire::bytes16(8));
    wire::lemma_be16(tail, 11, 8);
    assert(tail.subrange(13, 15) =~= wire::bytes16(4 + n));
    wire::lemma_be16(tail, 13, 4 + n);
    let family: nat = if net.address is V4 {
        1
    } else {
        2
    };
    assert(tail.subrange(15, 17) =~= wire::bytes16(family));
    wire::lemma_be16(tail, 15, family);
    assert(forall|i: int| 0 <= i < tail.len() ==> #[trigger] tail[i] == b[k + i]);
    assert(b[k + 1] == tail[1] && b[k + 2] == tail[2]);
    assert(b[k + 9] == tail[9] && b[k + 10] == tail[10]);
    assert(b[k + 11] == tail[11] && b[k + 12] == tail[12]);
    assert(b[k + 13] == tail[13] && b[k + 14] == tail[14]);
    assert(b[k + 15] == tail[15] && b[k + 16] == tail[16]);
    assert(b[k + 17] == tail[17] && b[k + 18] == tail[18]);
    assert(b.subrange(k + 19, k + 19 + n) =~= octets.take(n as int));
}

/// A query says that it is one and that it wants to be followed up, and counts one
/// question, no answers and no authorities; behind its name stand its type and the
/// class of the internet.
pub proof fn queries_count_one_question(
    id: u16,
    name: Seq<char>,
    qtype: u16,
    subnet: Option<Seq<char>>,
)
    requires
        query_wire(id, name, qtype, subnet) is Ok,
    ensures
        ({
            let b = query_wire(id, name, qtype, subnet)->Ok_0;
            let end = 12 + name_wire(name).len() as int;
            &&& wire::be16(b, 0) == id
            &&& b[2] == 1 && b[3] == 0
            &&& wire::be16(b, 4) == 1
            &&& wire::be16(b, 6) == 0
            &&& wire::be16(b, 8) == 0
            &&& wire::be16(b, 10) == (if subnet is Some {
                1nat
            } else {
                0nat
            })
            &&& wire::be16(b, end) == qtype
            &&& wire::be16(b, end + 2) == 1
            &&& subnet is None ==> b.len() == end + 4
        }),
{
    let b = query_wire(id, name, qtype, subnet)->Ok_0;
    let header = query_header(id, subnet is Some);
    let end = 12 + name_wire(name).len() as int;
    assert(header.len() == 12);
    assert(header.subrange(0, 2) =~= wire::bytes16(id as nat));
    assert(b.subrange(0, 2) =~= wire::bytes16(id as nat));
    wire::lemma_be16(b, 0, id as nat);
    assert(b[2] == header[2] && b[3] == header[3] && b[4] == header[4] && b[5] == header[5] && b[6]
        == header[6] && b[7] == header[7] && b[8] == header[8] && b[9] == header[9] && b[10]
        == header[10] && b[11] == header[11]);
    assert(b.subrange(end, end + 2) =~= wire::bytes16(qtype as nat));
    wire::lemma_be16(b, end, qtype as nat);
    assert(b.subrange(end + 2, end + 4) =~= wire::bytes16(1));
    wire::lemma_be16(b, end + 2, 1);
}

} // verus!
