//! Resource records written as text, and the responses made of them.
use crate::dns::message;
use crate::dns::message::DnsError;
use crate::json::Value;
use crate::net::{self, IpAddr};
use crate::text;
use crate::wire;
use vstd::prelude::*;

verus! {

/// One record of a predefined answer.
#[derive(Debug, Clone, PartialEq, Eq)]
pub struct PredefinedRecord {
    pub owner: String,
    pub ttl: u32,
    pub kind: u16,
    pub rdata: Vec<u8>,
}

/// A record with its owner as plain text and its data as plain bytes.
pub struct PredefinedView {
    pub owner: Seq<char>,
    pub ttl: u32,
    pub kind: u16,
    pub rdata: Seq<u8>,
}

impl View for PredefinedRecord {
    type V = PredefinedView;

    open spec fn view(&self) -> PredefinedView {
        PredefinedView {
            owner: self.owner@,
            ttl: self.ttl,
            kind: self.kind,
            rdata: self.rdata@,
        }
    }
}

// ---- type numbers and codes ----

/// The number of a query type name in upper case.
pub open spec fn type_number(name: Seq<char>) -> Option<u16> {
    if name == "A"@ {
        Some(1)
    } else if name == "NS"@ {
        Some(2)
    } else if name == "CNAME"@ {
        Some(5)
    } else if name == "SOA"@ {
        Some(6)
    } else if name == "PTR"@ {
        Some(12)
    } else if name == "MX"@ {
        Some(15)
    } else if name == "TXT"@ {
        Some(16)
    } else if name == "AAAA"@ {
        Some(28)
    } else if name == "SRV"@ {
        Some(33)
    } else if name == "OPT"@ {
        Some(41)
    } else if name == "SVCB"@ {
        Some(64)
    } else if name == "HTTPS"@ {
        Some(65)
    } else if name == "CAA"@ {
        Some(257)
    } else {
        None
    }
}

fn find_type(name: &str) -> (r: Option<u16>)
    ensures
        r == type_number(name@),
{
    if text::same_text(name, "A") {
        Some(1)
    } else if text::same_text(name, "NS") {
        Some(2)
    } else if text::same_text(name, "CNAME") {
        Some(5)
    } else if text::same_text(name, "SOA") {
        Some(6)
    } else if text::same_text(name, "PTR") {
        Some(12)
    } else if text::same_text(name, "MX") {
        Some(15)
    } else if text::same_text(name, "TXT") {
        Some(16)
    } else if text::same_text(name, "AAAA") {
        Some(28)
    } else if text::same_text(name, "SRV") {
        Some(33)
    } else if text::same_text(name, "OPT") {
        Some(41)
    } else if text::same_text(name, "SVCB") {
        Some(64)
    } else if text::same_text(name, "HTTPS") {
        Some(65)
    } else if text::same_text(name, "CAA") {
        Some(257)
    } else {
        None
    }
}

/// A query type: a number, a text that reads as one, or a name in any case.
pub open spec fn query_type(value: Value) -> Result<u16, DnsError> {
    match value {
        Value::Unsigned(n) => if n <= 0xffff {
            Ok(n as u16)
        } else {
            Err(DnsError::QueryTypeTooLarge)
        },
        Value::Text(s) => match text::number(s@, 0xffff) {
            Some(n) => Ok(n as u16),
            None => match type_number(text::upper(s@)) {
                Some(n) => Ok(n),
                None => Err(DnsError::UnsupportedQueryType),
            },
        },
        _ => Err(DnsError::QueryTypeKind),
    }
}

/// Reads a query type.
pub fn parse_query_type(value: &Value) -> (r: Result<u16, DnsError>)
    ensures
        r == query_type(*value),
{
    match value {
        Value::Unsigned(n) => if *n <= 0xffff {
            Ok(*n as u16)
        } else {
            Err(DnsError::QueryTypeTooLarge)
        },
        Value::Text(s) => match text::parse_number(s.as_str(), 0xffff) {
            Some(n) => Ok(n as u16),
            None => {
                let name = text::to_upper(s.as_str());
                match find_type(name.as_str()) {
                    Some(n) => Ok(n),
                    None => Err(DnsError::UnsupportedQueryType),
                }
            },
        },
        _ => Err(DnsError::QueryTypeKind),
    }
}

/// The number of a response code name.
pub open spec fn rcode_number(name: Seq<char>) -> Option<u8> {
    if name == "NOERROR"@ {
        Some(0)
    } else if name == "FORMERR"@ {
        Some(1)
    } else if name == "SERVFAIL"@ {
        Some(2)
    } else if name == "NXDOMAIN"@ {
        Some(3)
    } else if name == "NOTIMP"@ {
        Some(4)
    } else if name == "REFUSED"@ {
        Some(5)
    } else {
        None
    }
}

/// A response code: a number or a name; nothing means no error.
pub open spec fn rcode(value: Option<Value>) -> Result<u8, DnsError> {
    match value {
        None => Ok(0),
        Some(Value::Unsigned(n)) => if n <= 255 {
            Ok(n as u8)
        } else {
            Err(DnsError::RcodeTooLarge)
        },
        Some(Value::Text(s)) => match rcode_number(s@) {
            Some(n) => Ok(n),
            None => Err(DnsError::UnsupportedRcode),
        },
        _ => Err(DnsError::RcodeKind),
    }
}

/// Reads a response code.
pub fn parse_rcode(value: &Option<Value>) -> (r: Result<u8, DnsError>)
    ensures
        r == rcode(*value),
{
    match value {
        None => Ok(0),
        Some(Value::Unsigned(n)) => if *n <= 255 {
            Ok(*n as u8)
        } else {
            Err(DnsError::RcodeTooLarge)
        },
        Some(Value::Text(s)) => {
            let name = s.as_str();
            if text::same_text(name, "NOERROR") {
                Ok(0)
            } else if text::same_text(name, "FORMERR") {
                Ok(1)
            } else if text::same_text(name, "SERVFAIL") {
                Ok(2)
            } else if text::same_text(name, "NXDOMAIN") {
                Ok(3)
            } else if text::same_text(name, "NOTIMP") {
                Ok(4)
            } else if text::same_text(name, "REFUSED") {
                Ok(5)
            } else {
                Err(DnsError::UnsupportedRcode)
            }
        },
        _ => Err(DnsError::RcodeKind),
    }
}

/// Whether stale answers are served: a switch, or an object that is on unless
/// it says otherwise.
pub open spec fn optimistic(value: Value) -> bool {
    match value {
        Value::Bool(enabled) => enabled,
        Value::Object { enabled: Some(enabled) } => enabled,
        Value::Object { enabled: None } => true,
        Value::Null => false,
        _ => true,
    }
}

/// Whether stale answers are served.
pub fn optimistic_enabled(value: &Value) -> (r: bool)
    ensures
        r == optimistic(*value),
{
    match value {
        Value::Bool(enabled) => *enabled,
        Value::Object { enabled } => match enabled {
            Some(enabled) => *enabled,
            None => true,
        },
        Value::Null => false,
        _ => true,
    }
}

/// A strategy for choosing between address families.
pub open spec fn known_strategy(s: Option<Seq<char>>) -> bool {
    s is None || s == Some(""@) || s == Some("prefer_ipv4"@) || s == Some("prefer_ipv6"@) || s
        == Some("ipv4_only"@) || s == Some("ipv6_only"@)
}

/// Checks the name of a strategy.
pub fn validate_strategy(strategy: Option<&str>) -> (r: Result<(), DnsError>)
    ensures
        r == (if known_strategy(text::opt_str(strategy)) {
            Ok::<(), DnsError>(())
        } else {
            Err::<(), DnsError>(DnsError::UnsupportedStrategy)
        }),
{
    match strategy {
        None => Ok(()),
        Some(s) => if text::same_text(s, "") || text::same_text(s, "prefer_ipv4")
            || text::same_text(s, "prefer_ipv6") || text::same_text(s, "ipv4_only")
            || text::same_text(s, "ipv6_only") {
            Ok(())
        } else {
            Err(DnsError::UnsupportedStrategy)
        },
    }
}

// ---- record data ----

/// The address at index `i` of the words, of the given family.
pub open spec fn address_field(t: Seq<Seq<char>>, i: int, v4: bool) -> Result<Seq<u8>, DnsError> {
    if i >= t.len() {
        Err(DnsError::MissingField)
    } else {
        match net::ip_text(t[i]) {
            None => Err(DnsError::InvalidAddress),
            Some(ip) => if (ip is V4) == v4 {
                Ok(ip.octets())
            } else {
                Err(DnsError::WrongFamily)
            },
        }
    }
}

/// The name at index `i` of the words.
pub open spec fn name_field(t: Seq<Seq<char>>, i: int) -> Result<Seq<u8>, DnsError> {
    if i >= t.len() {
        Err(DnsError::MissingField)
    } else {
        message::record_name(t[i])
    }
}

/// The number at index `i` of the words.
pub open spec fn number_field(t: Seq<Seq<char>>, i: int, max: nat) -> Result<nat, DnsError> {
    if i >= t.len() {
        Err(DnsError::MissingField)
    } else {
        match text::number(t[i], max) {
            Some(n) => Ok(n),
            None => Err(DnsError::InvalidNumber),
        }
    }
}

/// `a`, then what `b` gives.
pub open spec fn followed(a: Seq<u8>, b: Result<Seq<u8>, DnsError>) -> Result<Seq<u8>, DnsError> {
    match b {
        Ok(more) => Ok(a + more),
        Err(e) => Err(e),
    }
}

/// `n` numbers from index `i` on, each in two bytes or in four.
pub open spec fn number_fields(t: Seq<Seq<char>>, i: int, n: nat, wide: bool) -> Result<
    Seq<u8>,
    DnsError,
>
    decreases n,
{
    if n == 0 {
        Ok(Seq::empty())
    } else {
        match number_fields(t, i, (n - 1) as nat, wide) {
            Err(e) => Err(e),
            Ok(before) => match number_field(
                t,
                i + n - 1,
                if wide {
                    u32::MAX as nat
                } else {
                    u16::MAX as nat
                },
            ) {
                Err(e) => Err(e),
                Ok(v) => Ok(
                    before + if wide {
                        wire::bytes32(v)
                    } else {
                        wire::bytes16(v)
                    },
                ),
            },
        }
    }
}

/// Each word from index `i` on as a character string behind its length, without
/// the quotes around it.
pub open spec fn text_fields(t: Seq<Seq<char>>, i: int) -> Result<Seq<u8>, DnsError>
    decreases t.len() - i,
{
    if i >= t.len() {
        Ok(Seq::empty())
    } else {
        let bytes = vstd::utf8::encode_utf8(unquoted(t[i]));
        if bytes.len() > 255 {
            Err(DnsError::TextTooLong)
        } else {
            followed(seq![bytes.len() as u8] + bytes, text_fields(t, i + 1))
        }
    }
}

/// A word without the quotes around it.
pub open spec fn unquoted(s: Seq<char>) -> Seq<char> {
    text::trim_end(text::trim_start(s, '"'), '"')
}

/// The data of a certification authority authorization.
pub open spec fn caa_fields(t: Seq<Seq<char>>, i: int) -> Result<Seq<u8>, DnsError> {
    match number_field(t, i, 255) {
        Err(e) => Err(e),
        Ok(flags) => if i + 2 >= t.len() {
            Err(DnsError::MissingField)
        } else {
            let tag = vstd::utf8::encode_utf8(t[i + 1]);
            Ok(
                seq![flags as u8, (tag.len() % 256) as u8] + tag + vstd::utf8::encode_utf8(
                    unquoted(t[i + 2]),
                ),
            )
        },
    }
}

/// The start of authority: two names and five numbers.
pub open spec fn soa_fields(t: Seq<Seq<char>>, i: int) -> Result<Seq<u8>, DnsError> {
    match name_field(t, i) {
        Err(e) => Err(e),
        Ok(mname) => match name_field(t, i + 1) {
            Err(e) => Err(e),
            Ok(rname) => followed(mname + rname, number_fields(t, i + 2, 5, true)),
        },
    }
}

/// The data of a record of the given type, from the words that follow.
pub open spec fn rdata(kind: Seq<char>, t: Seq<Seq<char>>, i: int) -> Result<Seq<u8>, DnsError> {
    if kind == "A"@ {
        address_field(t, i, true)
    } else if kind == "AAAA"@ {
        address_field(t, i, false)
    } else if kind == "CNAME"@ || kind == "NS"@ || kind == "PTR"@ {
        name_field(t, i)
    } else if kind == "TXT"@ {
        match text_fields(t, i) {
            Err(e) => Err(e),
            Ok(data) => if data.len() == 0 {
                Err(DnsError::EmptyText)
            } else {
                Ok(data)
            },
        }
    } else if kind == "MX"@ {
        match number_fields(t, i, 1, false) {
            Err(e) => Err(e),
            Ok(preference) => followed(preference, name_field(t, i + 1)),
        }
    } else if kind == "SOA"@ {
        soa_fields(t, i)
    } else if kind == "SRV"@ {
        match number_fields(t, i, 3, false) {
            Err(e) => Err(e),
            Ok(numbers) => followed(numbers, name_field(t, i + 3)),
        }
    } else if kind == "CAA"@ {
        caa_fields(t, i)
    } else {
        Err(DnsError::UnsupportedType)
    }
}

/// The outcome of a function that returns bytes.
pub open spec fn bytes_of(r: Result<Vec<u8>, DnsError>) -> Result<Seq<u8>, DnsError> {
    match r {
        Ok(v) => Ok(v@),
        Err(e) => Err(e),
    }
}

fn read_address(t: &Vec<String>, i: usize, v4: bool) -> (r: Result<Vec<u8>, DnsError>)
    ensures
        bytes_of(r) == address_field(text::texts(t@), i as int, v4),
{
    if i >= t.len() {
        return Err(DnsError::MissingField);
    }
    match net::parse_ip(t[i].as_str()) {
        None => Err(DnsError::InvalidAddress),
        Some(ip) => {
            if ip.is_ipv4() != v4 {
                return Err(DnsError::WrongFamily);
            }
            let mut out: Vec<u8> = Vec::new();
            ip.push_octets(&mut out);
            proof {
                assert(out@ =~= ip.octets());
            }
            Ok(out)
        },
    }
}

fn read_name(t: &Vec<String>, i: usize) -> (r: Result<Vec<u8>, DnsError>)
    ensures
        bytes_of(r) == name_field(text::texts(t@), i as int),
{
    if i >= t.len() {
        return Err(DnsError::MissingField);
    }
    message::encode_name(t[i].as_str())
}

fn read_number(t: &Vec<String>, i: usize, max: u64) -> (r: Result<u64, DnsError>)
    ensures
        match r {
            Ok(n) => number_field(text::texts(t@), i as int, max as nat) == Ok::<nat, DnsError>(
                n as nat,
            ) && n <= max,
            Err(e) => number_field(text::texts(t@), i as int, max as nat) == Err::<nat, DnsError>(
                e,
            ),
        },
{
    if i >= t.len() {
        return Err(DnsError::MissingField);
    }
    match text::parse_number(t[i].as_str(), max) {
        Some(n) => Ok(n),
        None => Err(DnsError::InvalidNumber),
    }
}

proof fn lemma_number_fields_error(t: Seq<Seq<char>>, i: int, m: nat, n: nat, wide: bool)
    requires
        m <= n,
        number_fields(t, i, m, wide) is Err,
    ensures
        number_fields(t, i, n, wide) == number_fields(t, i, m, wide),
    decreases n - m,
{
    if m < n {
        lemma_number_fields_error(t, i, m, (n - 1) as nat, wide);
    }
}

fn read_numbers(t: &Vec<String>, from: usize, n: usize, wide: bool) -> (r: Result<Vec<u8>, DnsError>)
    requires
        from + n <= usize::MAX,
    ensures
        bytes_of(r) == number_fields(text::texts(t@), from as int, n as nat, wide),
{
    let mut out: Vec<u8> = Vec::new();
    let mut k: usize = 0;
    let max: u64 = if wide {
        0xffff_ffff
    } else {
        0xffff
    };
    while k < n
        invariant
            k <= n,
            from + n <= usize::MAX,
            max == if wide {
                u32::MAX as nat
            } else {
                u16::MAX as nat
            },
            number_fields(text::texts(t@), from as int, k as nat, wide) == Ok::<Seq<u8>, DnsError>(
                out@,
            ),
        decreases n - k,
    {
        match read_number(t, from + k, max) {
            Err(e) => {
                proof {
                    lemma_number_fields_error(
                        text::texts(t@),
                        from as int,
                        (k + 1) as nat,
                        n as nat,
                        wide,
                    );
                }
                return Err(e);
            },
            Ok(v) => if wide {
                wire::push_u32(&mut out, v as u32);
            } else {
                wire::push_u16(&mut out, v as u16);
            },
        }
        k = k + 1;
    }
    Ok(out)
}

fn read_texts(t: &Vec<String>, from: usize) -> (r: Result<Vec<u8>, DnsError>)
    requires
        from <= t@.len(),
    ensures
        bytes_of(r) == text_fields(text::texts(t@), from as int),
{
    let mut out: Vec<u8> = Vec::new();
    let mut i: usize = from;
    let ghost all = text_fields(text::texts(t@), from as int);
    proof {
        if let Ok(more) = all {
            assert(out@ + more =~= more);
        }
    }
    while i < t.len()
        invariant
            from <= i <= t@.len(),
            all == text_fields(text::texts(t@), from as int),
            all == followed(out@, text_fields(text::texts(t@), i as int)),
        decreases t@.len() - i,
    {
        let word = text::trim_char(t[i].as_str(), '"');
        let bytes = word.as_str().as_bytes();
        if bytes.len() > 255 {
            return Err(DnsError::TextTooLong);
        }
        let ghost before = out@;
        out.push(bytes.len() as u8);
        wire::push_bytes(&mut out, bytes);
        proof {
            let piece = seq![bytes@.len() as u8] + bytes@;
            if let Ok(more) = text_fields(text::texts(t@), i + 1) {
                assert(before + (piece + more) =~= out@ + more);
            }
        }
        i = i + 1;
    }
    proof {
        assert(out@ + Seq::<u8>::empty() =~= out@);
    }
    Ok(out)
}

fn read_caa(t: &Vec<String>, i: usize) -> (r: Result<Vec<u8>, DnsError>)
    requires
        i + 2 <= usize::MAX,
    ensures
        bytes_of(r) == caa_fields(text::texts(t@), i as int),
{
    let flags = match read_number(t, i, 255) {
        Err(e) => {
            return Err(e);
        },
        Ok(n) => n as u8,
    };
    if i + 2 >= t.len() {
        return Err(DnsError::MissingField);
    }
    let tag = t[i + 1].as_str().as_bytes();
    let value = text::trim_char(t[i + 2].as_str(), '"');
    let mut out: Vec<u8> = Vec::new();
    out.push(flags);
    out.push((tag.len() % 256) as u8);
    proof {
        assert(out@ =~= seq![flags, (tag@.len() % 256) as u8]);
    }
    wire::push_bytes(&mut out, tag);
    wire::push_bytes(&mut out, value.as_str().as_bytes());
    Ok(out)
}

fn read_soa(t: &Vec<String>, i: usize) -> (r: Result<Vec<u8>, DnsError>)
    requires
        i + 7 <= usize::MAX,
    ensures
        bytes_of(r) == soa_fields(text::texts(t@), i as int),
{
    let mut out = match read_name(t, i) {
        Err(e) => {
            return Err(e);
        },
        Ok(mname) => mname,
    };
    match read_name(t, i + 1) {
        Err(e) => {
            return Err(e);
        },
        Ok(rname) => wire::push_bytes(&mut out, rname.as_slice()),
    }
    match read_numbers(t, i + 2, 5, true) {
        Err(e) => Err(e),
        Ok(numbers) => {
            wire::push_bytes(&mut out, numbers.as_slice());
            Ok(out)
        },
    }
}

/// Numbers, then a name.
fn read_numbers_and_name(t: &Vec<String>, i: usize, n: usize) -> (r: Result<Vec<u8>, DnsError>)
    requires
        i + n <= usize::MAX,
    ensures
        bytes_of(r) == (match number_fields(text::texts(t@), i as int, n as nat, false) {
            Err(e) => Err(e),
            Ok(numbers) => followed(numbers, name_field(text::texts(t@), i + n)),
        }),
{
    let mut out = match read_numbers(t, i, n, false) {
        Err(e) => {
            return Err(e);
        },
        Ok(numbers) => numbers,
    };
    match read_name(t, i + n) {
        Err(e) => Err(e),
        Ok(name) => {
            wire::push_bytes(&mut out, name.as_slice());
            Ok(out)
        },
    }
}

fn read_rdata(kind: &str, t: &Vec<String>, i: usize) -> (r: Result<Vec<u8>, DnsError>)
    requires
        i + 7 <= usize::MAX,
        i <= t@.len(),
    ensures
        bytes_of(r) == rdata(kind@, text::texts(t@), i as int),
{
    if text::same_text(kind, "A") {
        read_address(t, i, true)
    } else if text::same_text(kind, "AAAA") {
        read_address(t, i, false)
    } else if text::same_text(kind, "CNAME") || text::same_text(kind, "NS") || text::same_text(
        kind,
        "PTR",
    ) {
        read_name(t, i)
    } else if text::same_text(kind, "TXT") {
        match read_texts(t, i) {
            Err(e) => Err(e),
            Ok(data) => if data.len() == 0 {
                Err(DnsError::EmptyText)
            } else {
                Ok(data)
            },
        }
    } else if text::same_text(kind, "MX") {
        read_numbers_and_name(t, i, 1)
    } else if text::same_text(kind, "SOA") {
        read_soa(t, i)
    } else if text::same_text(kind, "SRV") {
        read_numbers_and_name(t, i, 3)
    } else if text::same_text(kind, "CAA") {
        read_caa(t, i)
    } else {
        Err(DnsError::UnsupportedType)
    }
}

// ---- records as text ----

/// The words that may stand where the lifetime is left out.
pub open spec fn class_or_type(s: Seq<char>) -> bool {
    s == "IN"@ || s == "CH"@ || s == "HS"@ || s == "A"@ || s == "AAAA"@ || s == "CNAME"@ || s
        == "NS"@ || s == "PTR"@ || s == "MX"@ || s == "SOA"@ || s == "TXT"@ || s == "SRV"@ || s
        == "CAA"@
}

fn is_class_or_type(s: &str) -> (r: bool)
    ensures
        r == class_or_type(s@),
{
    text::same_text(s, "IN") || text::same_text(s, "CH") || text::same_text(s, "HS")
        || text::same_text(s, "A") || text::same_text(s, "AAAA") || text::same_text(s, "CNAME")
        || text::same_text(s, "NS") || text::same_text(s, "PTR") || text::same_text(s, "MX")
        || text::same_text(s, "SOA") || text::same_text(s, "TXT") || text::same_text(s, "SRV")
        || text::same_text(s, "CAA")
}

/// A record from its class on, at index `i` of the words.
pub open spec fn record_body(owner: Seq<char>, ttl: u32, t: Seq<Seq<char>>, i: int) -> Result<
    PredefinedView,
    DnsError,
> {
    if i >= t.len() {
        Err(DnsError::MissingClass)
    } else if t[i] != "IN"@ {
        Err(DnsError::UnsupportedClass)
    } else if i + 1 >= t.len() {
        Err(DnsError::MissingType)
    } else {
        match rdata(t[i + 1], t, i + 2) {
            Err(e) => Err(e),
            Ok(data) => Ok(
                PredefinedView { owner, ttl, kind: type_number(t[i + 1])->0, rdata: data },
            ),
        }
    }
}

/// A record written as owner, optional lifetime, class, type and data.
pub open spec fn record_text(s: Seq<char>) -> Result<PredefinedView, DnsError> {
    let t = text::words(s);
    if t.len() == 0 {
        Err(DnsError::EmptyRecord)
    } else if t.len() == 1 {
        Err(DnsError::MissingFields)
    } else {
        let owner = text::trim_end(t[0], '.');
        match text::number(t[1], u32::MAX as nat) {
            Some(ttl) => record_body(owner, ttl as u32, t, 2),
            None => if class_or_type(t[1]) {
                record_body(owner, 3600, t, 1)
            } else {
                Err(DnsError::InvalidTtl)
            },
        }
    }
}

fn read_body(owner: String, ttl: u32, t: &Vec<String>, i: usize) -> (r: Result<
    PredefinedRecord,
    DnsError,
>)
    requires
        i <= 2,
    ensures
        match r {
            Ok(record) => record_body(owner@, ttl, text::texts(t@), i as int) == Ok::<
                PredefinedView,
                DnsError,
            >(record@),
            Err(e) => record_body(owner@, ttl, text::texts(t@), i as int) == Err::<
                PredefinedView,
                DnsError,
            >(e),
        },
{
    if i >= t.len() {
        return Err(DnsError::MissingClass);
    }
    if !text::same_text(t[i].as_str(), "IN") {
        return Err(DnsError::UnsupportedClass);
    }
    if i + 1 >= t.len() {
        return Err(DnsError::MissingType);
    }
    let kind = t[i + 1].as_str();
    match read_rdata(kind, t, i + 2) {
        Err(e) => Err(e),
        Ok(rdata) => {
            let number: u16 = match find_type(kind) {
                Some(n) => n,
                None => 0,
            };
            Ok(PredefinedRecord { owner, ttl, kind: number, rdata })
        },
    }
}

/// Reads a record such as `. 60 IN A 0.0.0.0` or `localhost. IN TXT "Hello"`.
/// The owner keeps a leading `*`.
pub fn parse_dns_record(record: &str) -> (r: Result<PredefinedRecord, DnsError>)
    ensures
        match r {
            Ok(out) => record_text(record@) == Ok::<PredefinedView, DnsError>(out@),
            Err(e) => record_text(record@) == Err::<PredefinedView, DnsError>(e),
        },
{
    let t = text::split_words(record);
    proof {
        assert(text::texts(t@).len() == t@.len());
    }
    if t.len() == 0 {
        return Err(DnsError::EmptyRecord);
    }
    if t.len() == 1 {
        return Err(DnsError::MissingFields);
    }
    let owner = text::trim_end_char(t[0].as_str(), '.');
    match text::parse_number(t[1].as_str(), 0xffff_ffff) {
        Some(ttl) => read_body(owner, ttl as u32, &t, 2),
        None => if is_class_or_type(t[1].as_str()) {
            read_body(owner, 3600, &t, 1)
        } else {
            Err(DnsError::InvalidTtl)
        },
    }
}

// ---- predefined responses ----

/// The owner under which a record answers a query: a leading `*` stands for the
/// queried name where the rest is a suffix of it, and drops the record elsewhere.
pub open spec fn owner_for(owner: Seq<char>, query: Seq<char>) -> Option<Seq<char>> {
    if owner.len() > 0 && owner[0] == '*' {
        let rest = text::trim_start(owner.skip(1), '.');
        if rest.len() == 0 || text::ends_with(query, seq!['.'] + rest) {
            Some(query)
        } else {
            None
        }
    } else {
        Some(owner)
    }
}

/// A record on the wire, under the given owner.
pub open spec fn record_wire(name: Seq<u8>, record: PredefinedView) -> Seq<u8> {
    name + wire::bytes16(record.kind as nat) + wire::bytes16(1) + wire::bytes32(record.ttl as nat)
        + wire::bytes16(record.rdata.len() % 0x1_0000) + record.rdata
}

/// The records that answer a query, on the wire, and their number.
pub open spec fn records_wire(list: Seq<PredefinedView>, query: Seq<char>) -> Result<
    (Seq<u8>, nat),
    DnsError,
>
    decreases list.len(),
{
    if list.len() == 0 {
        Ok((Seq::empty(), 0))
    } else {
        match records_wire(list.drop_last(), query) {
            Err(e) => Err(e),
            Ok((bytes, n)) => match owner_for(list.last().owner, query) {
                None => Ok((bytes, n)),
                Some(owner) => match message::record_name(owner) {
                    Err(e) => Err(e),
                    Ok(name) => Ok((bytes + record_wire(name, list.last()), n + 1)),
                },
            },
        }
    }
}

pub open spec fn predefined_views(s: Seq<PredefinedRecord>) -> Seq<PredefinedView> {
    Seq::new(s.len(), |i: int| s[i]@)
}

/// The response made of predefined records: the question of the request, marked
/// as an authoritative response with the given code, and the records.
pub open spec fn predefined(
    request: Seq<u8>,
    question_end: int,
    rcode: u8,
    list: Seq<PredefinedView>,
) -> Result<Seq<u8>, DnsError> {
    match message::question(request) {
        Err(e) => Err(e),
        Ok((query, _, _)) => if question_end > request.len() {
            Err(DnsError::TruncatedQuestion)
        } else {
            match records_wire(list, query) {
                Err(e) => Err(e),
                Ok((bytes, n)) => Ok(
                    message::reply_header(
                        request,
                        question_end,
                        (0x85, (0x80 + rcode % 16) as u8),
                        n,
                    ) + bytes,
                ),
            }
        },
    }
}

fn choose_owner(owner: &str, query: &str) -> (r: Option<String>)
    ensures
        text::opt_text(r) == owner_for(owner@, query@),
{
    let v = text::to_chars(owner);
    if v.len() > 0 && v[0] == '*' {
        let rest = text::to_text(&v[1..v.len()]);
        proof {
            assert(v@.subrange(1, v@.len() as int) =~= v@.skip(1));
        }
        let rest = text::trim_start_char(rest.as_str(), '.');
        let mut suffix: String = text::copy_text(".");
        proof {
            reveal_strlit(".");
            assert("."@ =~= seq!['.']);
        }
        suffix.append(rest.as_str());
        if rest.as_str().is_empty() || text::text_ends_with(query, suffix.as_str()) {
            Some(text::copy_text(query))
        } else {
            None
        }
    } else {
        Some(text::copy_text(owner))
    }
}

proof fn lemma_records_error(list: Seq<PredefinedView>, query: Seq<char>, n: int)
    requires
        0 <= n <= list.len(),
        records_wire(list.take(n), query) is Err,
    ensures
        records_wire(list, query) == Err::<(Seq<u8>, nat), DnsError>(
            records_wire(list.take(n), query)->Err_0,
        ),
    decreases list.len() - n,
{
    if n < list.len() {
        assert(list.drop_last().take(n) =~= list.take(n));
        lemma_records_error(list.drop_last(), query, n);
    } else {
        assert(list.take(n) =~= list);
    }
}

fn push_record(out: &mut Vec<u8>, name: &Vec<u8>, record: &PredefinedRecord)
    ensures
        final(out)@ == old(out)@ + record_wire(name@, record@),
{
    let mut bytes: Vec<u8> = text::copy_bytes(name.as_slice());
    wire::push_u16(&mut bytes, record.kind);
    wire::push_u16(&mut bytes, 1);
    wire::push_u32(&mut bytes, record.ttl);
    wire::push_u16(&mut bytes, (record.rdata.len() % 0x1_0000) as u16);
    wire::push_bytes(&mut bytes, record.rdata.as_slice());
    wire::push_bytes(out, bytes.as_slice());
}

/// The records that are written into an answer can be counted in it, up to the first
/// that cannot be written.
pub open spec fn countable(list: Seq<PredefinedView>, query: Seq<char>) -> bool {
    forall|k: int|
        0 <= k <= list.len() ==> ((#[trigger] records_wire(list.take(k), query)) matches Ok(
            (_, n),
        ) ==> n <= 0xffff)
}

/// The records that answer a request can be counted, where any are written.
pub open spec fn answer_countable(
    request: Seq<u8>,
    question_end: int,
    list: Seq<PredefinedView>,
) -> bool {
    message::question(request) is Ok && question_end <= request.len() ==> countable(
        list,
        message::question(request)->Ok_0.0,
    )
}

proof fn lemma_records_more(list: Seq<PredefinedView>, query: Seq<char>, n: int, m: int)
    requires
        0 <= n <= m <= list.len(),
        records_wire(list.take(m), query) is Ok,
    ensures
        records_wire(list.take(n), query) is Ok,
        records_wire(list.take(n), query)->Ok_0.1 <= records_wire(list.take(m), query)->Ok_0.1,
    decreases m - n,
{
    if n < m {
        assert(list.take(m).drop_last() =~= list.take(m - 1));
        lemma_records_more(list, query, n, m - 1);
    }
}

/// Whether the records that answer a request can be counted.
pub fn can_count(request: &[u8], question_end: usize, records: &[PredefinedRecord]) -> (r: bool)
    ensures
        r == answer_countable(request@, question_end as int, predefined_views(records@)),
{
    let (query, _, _) = match message::parse_question(request) {
        Err(_) => {
            return true;
        },
        Ok(parsed) => parsed,
    };
    if question_end > request.len() {
        return true;
    }
    let ghost list = predefined_views(records@);
    let mut written: usize = 0;
    let mut i: usize = 0;
    proof {
        assert(list.take(0) =~= Seq::<PredefinedView>::empty());
    }
    while i < records.len()
        invariant
            i <= records@.len(),
            list == predefined_views(records@),
            question_end <= request@.len(),
            message::question(request@) is Ok,
            message::question(request@)->Ok_0.0 == query@,
            written <= 0xffff,
            records_wire(list.take(i as int), query@) is Ok,
            records_wire(list.take(i as int), query@)->Ok_0.1 == written,
        decreases records@.len() - i,
    {
        let record = &records[i];
        proof {
            assert(list.take(i + 1).drop_last() =~= list.take(i as int));
            assert(list.take(i + 1).last() == record@);
        }
        match choose_owner(record.owner.as_str(), query.as_str()) {
            None => {},
            Some(owner) => match message::encode_name(owner.as_str()) {
                Err(_) => {
                    proof {
                        assert forall|k: int| 0 <= k <= list.len() implies ((
                        #[trigger] records_wire(list.take(k), query@)) matches Ok((_, n)) ==> n
                            <= 0xffff) by {
                            if records_wire(list.take(k), query@) is Ok {
                                if k <= i {
                                    lemma_records_more(list, query@, k, i as int);
                                } else {
                                    lemma_records_more(list, query@, i + 1, k);
                                }
                            }
                        }
                    }
                    return true;
                },
                Ok(_) => {
                    if written == 0xffff {
                        proof {
                            let more = records_wire(list.take(i + 1), query@);
                            assert(more is Ok && more->Ok_0.1 == 0x1_0000);
                        }
                        return false;
                    }
                    written = written + 1;
                },
            },
        }
        i = i + 1;
    }
    proof {
        assert forall|k: int| 0 <= k <= list.len() implies ((#[trigger] records_wire(
            list.take(k),
            query@,
        )) matches Ok((_, n)) ==> n <= 0xffff) by {
            lemma_records_more(list, query@, k, list.len() as int);
        }
    }
    true
}

/// Builds the response of a rule with predefined records.
pub fn predefined_response(
    request: &[u8],
    question_end: usize,
    rcode: u8,
    records: &[PredefinedRecord],
) -> (r: Result<Vec<u8>, DnsError>)
    requires
        question_end >= 12 || question_end > request@.len(),
        answer_countable(request@, question_end as int, predefined_views(records@)),
    ensures
        bytes_of(r) == predefined(
            request@,
            question_end as int,
            rcode,
            predefined_views(records@),
        ),
{
    let (query, _, _) = match message::parse_question(request) {
        Err(e) => {
            return Err(e);
        },
        Ok(parsed) => parsed,
    };
    if question_end > request.len() {
        return Err(DnsError::TruncatedQuestion);
    }
    let ghost list = predefined_views(records@);
    let mut body: Vec<u8> = Vec::new();
    let mut written: u16 = 0;
    let mut i: usize = 0;
    proof {
        assert(list.take(0) =~= Seq::<PredefinedView>::empty());
    }
    while i < records.len()
        invariant
            i <= records@.len(),
            list == predefined_views(records@),
            question_end <= request@.len(),
            message::question(request@) is Ok,
            message::question(request@)->Ok_0.0 == query@,
            countable(list, query@),
            records_wire(list.take(i as int), query@) == Ok::<(Seq<u8>, nat), DnsError>(
                (body@, written as nat),
            ),
        decreases records@.len() - i,
    {
        let record = &records[i];
        proof {
            assert(list.take(i + 1).drop_last() =~= list.take(i as int));
            assert(list.take(i + 1).last() == record@);
        }
        match choose_owner(record.owner.as_str(), query.as_str()) {
            None => {},
            Some(owner) => match message::encode_name(owner.as_str()) {
                Err(e) => {
                    proof {
                        lemma_records_error(list, query@, i + 1);
                    }
                    return Err(e);
                },
                Ok(name) => {
                    push_record(&mut body, &name, record);
                    proof {
                        assert(records_wire(list.take(i + 1), query@) is Ok);
                    }
                    written = written + 1;
                },
            },
        }
        i = i + 1;
    }
    proof {
        assert(list.take(list.len() as int) =~= list);
    }
    let mut out = message::reply(request, question_end, 0x85, 0x80 + rcode % 16, written);
    wire::push_bytes(&mut out, body.as_slice());
    Ok(out)
}

/// A predefined response holds the transaction number and the question of the
/// request, and its code is the given one modulo sixteen.
pub proof fn predefined_keeps_question(request: Seq<u8>, rcode: u8, list: Seq<PredefinedView>)
    requires
        message::question(request) is Ok,
        predefined(request, message::question(request)->Ok_0.2, rcode, list) is Ok,
    ensures
        ({
            let response = predefined(request, message::question(request)->Ok_0.2, rcode, list)->Ok_0;
            &&& wire::be16(response, 0) == wire::be16(request, 0)
            &&& message::question(response) == message::question(request)
            &&& response[2] == 0x85
            &&& response[3] == 0x80 + rcode % 16
        }),
{
    let end = message::question(request)->Ok_0.2;
    let (bytes, n) = records_wire(list, message::question(request)->Ok_0.0)->Ok_0;
    message::reply_keeps_id_and_question(request, (0x85, (0x80 + rcode % 16) as u8), n, bytes);
}

// ---- laws of records ----

proof fn lemma_type_words()
    ensures
        "A"@.len() == 1,
        "AAAA"@.len() == 4,
        "CNAME"@.len() == 5,
        "NS"@ == seq!['N', 'S'],
        "PTR"@ == seq!['P', 'T', 'R'],
        "TXT"@ == seq!['T', 'X', 'T'],
        "MX"@ == seq!['M', 'X'],
        "SOA"@ == seq!['S', 'O', 'A'],
        "SRV"@ == seq!['S', 'R', 'V'],
        "CAA"@ == seq!['C', 'A', 'A'],
        "OPT"@ == seq!['O', 'P', 'T'],
        "SVCB"@ == seq!['S', 'V', 'C', 'B'],
        "HTTPS"@ == seq!['H', 'T', 'T', 'P', 'S'],
        "CNAME"@[0] == 'C',
        "AAAA"@[0] == 'A',
        "IN"@ == seq!['I', 'N'],
{
    reveal_strlit("A");
    reveal_strlit("AAAA");
    reveal_strlit("CNAME");
    reveal_strlit("NS");
    reveal_strlit("PTR");
    reveal_strlit("TXT");
    reveal_strlit("MX");
    reveal_strlit("SOA");
    reveal_strlit("SRV");
    reveal_strlit("CAA");
    reveal_strlit("OPT");
    reveal_strlit("SVCB");
    reveal_strlit("HTTPS");
    reveal_strlit("IN");
    assert("NS"@ =~= seq!['N', 'S']);
    assert("PTR"@ =~= seq!['P', 'T', 'R']);
    assert("TXT"@ =~= seq!['T', 'X', 'T']);
    assert("MX"@ =~= seq!['M', 'X']);
    assert("SOA"@ =~= seq!['S', 'O', 'A']);
    assert("SRV"@ =~= seq!['S', 'R', 'V']);
    assert("CAA"@ =~= seq!['C', 'A', 'A']);
    assert("OPT"@ =~= seq!['O', 'P', 'T']);
    assert("SVCB"@ =~= seq!['S', 'V', 'C', 'B']);
    assert("HTTPS"@ =~= seq!['H', 'T', 'T', 'P', 'S']);
    assert("IN"@ =~= seq!['I', 'N']);
}

/// The types by which queries are named have the numbers that are registered for
/// them.
pub proof fn types_have_their_numbers()
    ensures
        type_number("A"@) == Some(1u16),
        type_number("NS"@) == Some(2u16),
        type_number("CNAME"@) == Some(5u16),
        type_number("SOA"@) == Some(6u16),
        type_number("PTR"@) == Some(12u16),
        type_number("MX"@) == Some(15u16),
        type_number("TXT"@) == Some(16u16),
        type_number("AAAA"@) == Some(28u16),
        type_number("SRV"@) == Some(33u16),
        type_number("OPT"@) == Some(41u16),
        type_number("SVCB"@) == Some(64u16),
        type_number("HTTPS"@) == Some(65u16),
        type_number("CAA"@) == Some(257u16),
{
    lemma_type_words();
    let short = seq!['N', 'S'];
    assert(short[0] == 'N' && seq!['M', 'X'][0] == 'M');
    assert(seq!['P', 'T', 'R'][0] == 'P' && seq!['T', 'X', 'T'][0] == 'T' && seq!['S', 'O', 'A'][1]
        == 'O' && seq!['S', 'R', 'V'][1] == 'R' && seq!['C', 'A', 'A'][0] == 'C' && seq![
        'O',
        'P',
        'T',
    ][0] == 'O' && seq!['S', 'O', 'A'][0] == 'S' && seq!['S', 'R', 'V'][0] == 'S');
    assert(seq!['S', 'V', 'C', 'B'][0] == 'S');
    assert(seq!['H', 'T', 'T', 'P', 'S'][0] == 'H');
}

proof fn lemma_body(s: Seq<char>, ttl: u32)
    requires
        text::words(s).len() >= 4,
        text::words(s)[1] == text::decimal(ttl as nat),
        text::words(s)[2] == "IN"@,
    ensures
        ({
            let t = text::words(s);
            record_text(s) == (match rdata(t[3], t, 4) {
                Ok(data) => Ok::<PredefinedView, DnsError>(
                    PredefinedView {
                        owner: text::trim_end(t[0], '.'),
                        ttl,
                        kind: type_number(t[3])->0,
                        rdata: data,
                    },
                ),
                Err(e) => Err(e),
            })
        }),
{
    text::decimal_reads_back(ttl as nat, u32::MAX as nat);
}

/// A record is written as its owner, its lifetime in seconds, its class `IN`, its
/// type and its data: for an address, one of the family of the type, and nothing
/// else will do.
pub proof fn records_hold_the_address_written(s: Seq<char>, ttl: u32)
    requires
        text::words(s).len() > 4,
        text::words(s)[1] == text::decimal(ttl as nat),
        text::words(s)[2] == "IN"@,
    ensures
        ({
            let t = text::words(s);
            let owner = text::trim_end(t[0], '.');
            &&& t[3] == "A"@ ==> (match net::ip_text(t[4]) {
                Some(IpAddr::V4(n)) => record_text(s) == Ok::<_, DnsError>(
                    PredefinedView { owner, ttl, kind: 1, rdata: wire::bytes32(n as nat) },
                ),
                _ => record_text(s) is Err,
            })
            &&& t[3] == "AAAA"@ ==> (match net::ip_text(t[4]) {
                Some(IpAddr::V6(n)) => record_text(s) == Ok::<_, DnsError>(
                    PredefinedView { owner, ttl, kind: 28, rdata: wire::bytes128(n as nat) },
                ),
                _ => record_text(s) is Err,
            })
        }),
{
    lemma_body(s, ttl);
    lemma_type_words();
    types_have_their_numbers();
}

proof fn lemma_other_words()
    ensures
        "CNAME"@ != "A"@ && "CNAME"@ != "AAAA"@,
        "NS"@ != "A"@ && "NS"@ != "AAAA"@,
        "PTR"@ != "A"@ && "PTR"@ != "AAAA"@,
        "MX"@ != "A"@ && "MX"@ != "AAAA"@ && "MX"@ != "CNAME"@ && "MX"@ != "NS"@ && "MX"@ != "PTR"@
            && "MX"@ != "TXT"@,
        "SRV"@ != "A"@ && "SRV"@ != "AAAA"@ && "SRV"@ != "CNAME"@ && "SRV"@ != "NS"@ && "SRV"@
            != "PTR"@ && "SRV"@ != "TXT"@ && "SRV"@ != "MX"@ && "SRV"@ != "SOA"@,
        "NS"@ != "CNAME"@ && "PTR"@ != "CNAME"@ && "PTR"@ != "NS"@,
{
    lemma_type_words();
    assert("NS"@[0] == 'N' && "MX"@[0] == 'M' && "PTR"@[0] == 'P' && "TXT"@[0] == 'T' && "SRV"@[0]
        == 'S' && "SOA"@[1] == 'O' && "SRV"@[1] == 'R');
}

/// The record of a name holds the name that is written, in its wire form.
pub proof fn records_hold_the_name_written(s: Seq<char>, ttl: u32)
    requires
        text::words(s).len() > 4,
        text::words(s)[1] == text::decimal(ttl as nat),
        text::words(s)[2] == "IN"@,
        text::words(s)[3] == "CNAME"@ || text::words(s)[3] == "NS"@ || text::words(s)[3] == "PTR"@,
    ensures
        ({
            let t = text::words(s);
            match message::record_name(t[4]) {
                Ok(name) => record_text(s) == Ok::<_, DnsError>(
                    PredefinedView {
                        owner: text::trim_end(t[0], '.'),
                        ttl,
                        kind: if t[3] == "CNAME"@ {
                            5
                        } else if t[3] == "NS"@ {
                            2
                        } else {
                            12
                        },
                        rdata: name,
                    },
                ),
                Err(_) => record_text(s) is Err,
            }
        }),
{
    lemma_body(s, ttl);
    lemma_other_words();
    types_have_their_numbers();
}

/// The record of a mail exchange holds its preference in two bytes, and then the
/// name; that of a service three numbers, each in two bytes, and then the name.
pub proof fn records_hold_the_numbers_written(s: Seq<char>, ttl: u32)
    requires
        text::words(s).len() > 7,
        text::words(s)[1] == text::decimal(ttl as nat),
        text::words(s)[2] == "IN"@,
    ensures
        ({
            let t = text::words(s);
            let owner = text::trim_end(t[0], '.');
            &&& t[3] == "MX"@ ==> (match (
                text::number(t[4], 0xffff),
                message::record_name(t[5]),
            ) {
                (Some(n), Ok(name)) => record_text(s) == Ok::<_, DnsError>(
                    PredefinedView { owner, ttl, kind: 15, rdata: wire::bytes16(n) + name },
                ),
                _ => record_text(s) is Err,
            })
            &&& t[3] == "SRV"@ ==> (match (
                text::number(t[4], 0xffff),
                text::number(t[5], 0xffff),
                text::number(t[6], 0xffff),
                message::record_name(t[7]),
            ) {
                (Some(a), Some(b), Some(c), Ok(name)) => record_text(s) == Ok::<_, DnsError>(
                    PredefinedView {
                        owner,
                        ttl,
                        kind: 33,
                        rdata: wire::bytes16(a) + wire::bytes16(b) + wire::bytes16(c) + name,
                    },
                ),
                _ => record_text(s) is Err,
            })
        }),
{
    let t = text::words(s);
    lemma_body(s, ttl);
    lemma_other_words();
    types_have_their_numbers();
    lemma_numbers(t);
}

proof fn lemma_numbers(t: Seq<Seq<char>>)
    requires
        t.len() > 6,
    ensures
        number_fields(t, 4, 1, false) == (match text::number(t[4], 0xffff) {
            Some(a) => Ok::<Seq<u8>, DnsError>(wire::bytes16(a)),
            None => Err(DnsError::InvalidNumber),
        }),
        match (
            text::number(t[4], 0xffff),
            text::number(t[5], 0xffff),
            text::number(t[6], 0xffff),
        ) {
            (Some(a), Some(b), Some(c)) => number_fields(t, 4, 3, false) == Ok::<Seq<u8>, DnsError>(
                wire::bytes16(a) + wire::bytes16(b) + wire::bytes16(c),
            ),
            _ => number_fields(t, 4, 3, false) is Err,
        },
{
    assert(number_fields(t, 4, 0, false) == Ok::<Seq<u8>, DnsError>(Seq::empty()));
    if text::number(t[4], 0xffff) is Some {
        let a = wire::bytes16(text::number(t[4], 0xffff)->0);
        assert(Seq::<u8>::empty() + a =~= a);
    }
    assert(number_fields(t, 4, 1, false) == (match text::number(t[4], 0xffff) {
        Some(a) => Ok::<Seq<u8>, DnsError>(wire::bytes16(a)),
        None => Err(DnsError::InvalidNumber),
    }));
    assert(number_field(t, 5, u16::MAX as nat) is Ok <==> text::number(t[5], 0xffff) is Some);
    assert(number_fields(t, 4, 2, false) is Ok <==> text::number(t[4], 0xffff) is Some
        && text::number(t[5], 0xffff) is Some);
}

/// A record whose owner starts with a star answers the names below the rest of it,
/// each under its own name, and no other; one without a star answers under its own.
pub proof fn stars_stand_for_names_below(rest: Seq<char>, query: Seq<char>)
    requires
        rest.len() > 0,
        rest[0] != '.',
    ensures
        owner_for(seq!['*', '.'] + rest, query) is Some <==> query.len() > rest.len()
            && query.subrange(query.len() - rest.len(), query.len() as int) == rest && query[
        query.len() - rest.len() - 1] == '.',
        owner_for(seq!['*', '.'] + rest, query) matches Some(name) ==> name == query,
        owner_for(seq!['*'], query) == Some(query),
        rest[0] != '*' ==> owner_for(rest, query) == Some(rest),
{
    let owner = seq!['*', '.'] + rest;
    assert(owner.skip(1) =~= seq!['.'] + rest);
    text::lemma_trim_start_is(seq!['.'] + rest, '.', 1);
    assert((seq!['.'] + rest).skip(1) =~= rest);
    let tail = seq!['.'] + rest;
    if query.len() > rest.len() {
        let n = query.len() - rest.len();
        let end = query.skip(n - 1);
        assert(end =~= seq![query[n - 1]] + query.subrange(n, query.len() as int));
        if end == tail {
            assert(end[0] == '.');
            assert(end.skip(1) =~= query.subrange(n, query.len() as int));
            assert(tail.skip(1) =~= rest);
        }
    }
    assert(seq!['*'].skip(1) =~= Seq::<char>::empty());
}

/// Without a lifetime a record is kept for an hour, and is read as one that says so.
pub proof fn records_are_kept_for_an_hour(s: Seq<char>)
    requires
        text::words(s).len() > 3,
        text::words(s)[1] == "IN"@,
    ensures
        record_text(s) matches Ok(r) ==> r.ttl == 60 * 60 && r.owner == text::trim_end(
            text::words(s)[0],
            '.',
        ) && type_number(text::words(s)[2]) == Some(r.kind),
        text::words(s)[2] == "A"@ ==> (match net::ip_text(text::words(s)[3]) {
            Some(IpAddr::V4(n)) => record_text(s) is Ok && record_text(s)->Ok_0.rdata
                == wire::bytes32(n as nat),
            _ => record_text(s) is Err,
        }),
{
    lemma_type_words();
    types_have_their_numbers();
    lemma_other_words();
    assert(text::number("IN"@, u32::MAX as nat) is None) by {
        assert("IN"@[0] == 'I');
        assert(!text::is_digit("IN"@[0]));
    }
    let t = text::words(s);
    assert(rdata(t[2], t, 3) is Ok ==> type_number(t[2]) is Some);
}

/// The codes by which answers are named have the numbers that are registered for
/// them, and no code means that there is no error.
pub proof fn codes_have_their_numbers()
    ensures
        rcode(None) == Ok::<u8, DnsError>(0),
        rcode_number("NOERROR"@) == Some(0u8),
        rcode_number("FORMERR"@) == Some(1u8),
        rcode_number("SERVFAIL"@) == Some(2u8),
        rcode_number("NXDOMAIN"@) == Some(3u8),
        rcode_number("NOTIMP"@) == Some(4u8),
        rcode_number("REFUSED"@) == Some(5u8),
{
    reveal_strlit("NOERROR");
    reveal_strlit("FORMERR");
    reveal_strlit("SERVFAIL");
    reveal_strlit("NXDOMAIN");
    reveal_strlit("NOTIMP");
    reveal_strlit("REFUSED");
    assert("NOERROR"@[0] == 'N' && "FORMERR"@[0] == 'F' && "SERVFAIL"@[0] == 'S' && "NXDOMAIN"@[1]
        == 'X' && "NOTIMP"@[2] == 'T' && "REFUSED"@[0] == 'R');
    assert("NOERROR"@[1] == 'O' && "NOERROR"@[2] == 'E' && "NXDOMAIN"@[0] == 'N' && "NOTIMP"@[0]
        == 'N');
}

} // verus!
