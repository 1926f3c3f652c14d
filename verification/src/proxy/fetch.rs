//! Downloads over HTTP: the request, the response, and what follows from it.
use crate::location;
use crate::text;
use vstd::prelude::*;

verus! {

// ---- numbers in base sixteen ----

/// The value of a digit in base sixteen.
pub open spec fn hex_digit(c: char) -> Option<nat> {
    if '0' <= c <= '9' {
        Some((c as nat - '0' as nat) as nat)
    } else if 'a' <= c <= 'f' {
        Some((c as nat - 'a' as nat + 10) as nat)
    } else if 'A' <= c <= 'F' {
        Some((c as nat - 'A' as nat + 10) as nat)
    } else {
        None
    }
}

/// The number that digits in base sixteen stand for, if all are.
pub open spec fn hex_value(s: Seq<char>) -> Option<nat>
    decreases s.len(),
{
    if s.len() == 0 {
        Some(0)
    } else {
        match (hex_value(s.drop_last()), hex_digit(s.last())) {
            (Some(n), Some(d)) => Some(n * 16 + d),
            _ => None,
        }
    }
}

/// An unsigned number in base sixteen of at most `max`: an optional plus sign, then
/// one or more digits.
pub open spec fn hex_number(s: Seq<char>, max: nat) -> Option<nat> {
    let digits = if s.len() > 0 && s[0] == '+' {
        s.skip(1)
    } else {
        s
    };
    match hex_value(digits) {
        Some(n) if digits.len() > 0 && n <= max => Some(n),
        _ => None,
    }
}

proof fn lemma_hex_prefix(s: Seq<char>, n: int)
    requires
        0 <= n <= s.len(),
        hex_value(s) is Some,
    ensures
        hex_value(s.take(n)) matches Some(v) && v <= hex_value(s)->0,
    decreases s.len() - n,
{
    if n < s.len() {
        lemma_hex_prefix(s, n + 1);
        let t = s.take(n + 1);
        assert(t.drop_last() =~= s.take(n));
    } else {
        assert(s.take(n) =~= s);
    }
}

fn digit_value(c: char) -> (r: Option<u64>)
    ensures
        match r {
            Some(d) => hex_digit(c) == Some(d as nat) && d < 16,
            None => hex_digit(c) is None,
        },
{
    if '0' <= c && c <= '9' {
        Some((c as u32 - 48) as u64)
    } else if 'a' <= c && c <= 'f' {
        Some((c as u32 - 97 + 10) as u64)
    } else if 'A' <= c && c <= 'F' {
        Some((c as u32 - 65 + 10) as u64)
    } else {
        None
    }
}

/// Reads an unsigned number in base sixteen.
pub fn parse_hex(s: &str, max: u64) -> (r: Option<u64>)
    ensures
        match r {
            Some(n) => hex_number(s@, max as nat) == Some(n as nat),
            None => hex_number(s@, max as nat) is None,
        },
{
    let v = text::to_chars(s);
    let start: usize = if v.len() > 0 && v[0] == '+' {
        1
    } else {
        0
    };
    let ghost digits = v@.skip(start as int);
    proof {
        assert(v@.skip(0) =~= v@);
    }
    if start >= v.len() {
        return None;
    }
    let mut i: usize = start;
    let mut n: u64 = 0;
    proof {
        assert(digits.take(0) =~= Seq::<char>::empty());
    }
    while i < v.len()
        invariant
            start <= i <= v@.len(),
            start < v@.len(),
            digits == v@.skip(start as int),
            hex_number(s@, max as nat) == (match hex_value(digits) {
                Some(m) if digits.len() > 0 && m <= max => Some(m),
                _ => None,
            }),
            hex_value(digits.take(i - start)) == Some(n as nat),
            n <= max,
        decreases v@.len() - i,
    {
        let c = v[i];
        proof {
            let t = digits.take(i - start + 1);
            assert(t.drop_last() =~= digits.take(i - start));
            assert(t.last() == c);
            if hex_value(digits) is Some {
                lemma_hex_prefix(digits, i - start + 1);
            }
        }
        match digit_value(c) {
            None => {
                return None;
            },
            Some(d) => {
                if d > max || n > (max - d) / 16 {
                    return None;
                }
                n = n * 16 + d;
            },
        }
        i = i + 1;
    }
    proof {
        assert(digits.take(v@.len() - start) =~= digits);
    }
    Some(n)
}

// ---- lines ----

/// Where the line at a place ends: behind the next line feed, or at the end.
pub open spec fn line_end(b: Seq<u8>, p: int) -> int
    decreases b.len() - p,
{
    if p >= b.len() {
        b.len() as int
    } else if b[p] == 10 {
        p + 1
    } else {
        line_end(b, p + 1)
    }
}

proof fn lemma_line_end(b: Seq<u8>, p: int)
    requires
        0 <= p <= b.len(),
    ensures
        p <= line_end(b, p) <= b.len(),
        p < b.len() ==> p < line_end(b, p),
    decreases b.len() - p,
{
    if p < b.len() && b[p] != 10 {
        lemma_line_end(b, p + 1);
    }
}

/// The text of the line at a place, if it is one.
pub open spec fn line_text(b: Seq<u8>, p: int) -> Option<Seq<char>> {
    let line = b.subrange(p, line_end(b, p));
    if vstd::utf8::valid_utf8(line) {
        Some(vstd::utf8::decode_utf8(line))
    } else {
        None
    }
}

fn read_line(b: &[u8], p: usize) -> (r: (Option<String>, usize))
    requires
        p <= b@.len(),
    ensures
        r.1 == line_end(b@, p as int),
        p <= r.1 <= b@.len(),
        p < b@.len() ==> p < r.1,
        text::opt_text(r.0) == line_text(b@, p as int),
{
    let end: usize = find_line_end(b, p);
    (text::utf8_text(text::copy_bytes(&b[p..end])), end)
}

fn find_line_end(b: &[u8], p: usize) -> (r: usize)
    requires
        p <= b@.len(),
    ensures
        r == line_end(b@, p as int),
        p <= r <= b@.len(),
        p < b@.len() ==> p < r,
{
    proof {
        lemma_line_end(b@, p as int);
    }
    let mut i: usize = p;
    while i < b.len()
        invariant
            p <= i <= b@.len(),
            line_end(b@, p as int) == line_end(b@, i as int),
        decreases b@.len() - i,
    {
        if b[i] == 10 {
            return i + 1;
        }
        i = i + 1;
    }
    i
}

// ---- responses ----

/// Why bytes are no response.
#[derive(Clone, Copy, Debug, PartialEq, Eq, Structural)]
pub enum ResponseError {
    NotText,
    NoVersion,
    NoStatus,
    Status,
    ChunkSize,
    /// A chunk is cut short.
    Truncated,
}

/// Names and values of header fields.
pub type HeaderLines = Seq<(Seq<char>, Seq<char>)>;

/// The status in the first line.
pub open spec fn status_of(line: Seq<char>) -> Result<u16, ResponseError> {
    let words = text::words(line);
    if words.len() < 1 {
        Err(ResponseError::NoVersion)
    } else if words.len() < 2 {
        Err(ResponseError::NoStatus)
    } else {
        match text::number(words[1], 65535) {
            Some(n) => Ok(n as u16),
            None => Err(ResponseError::Status),
        }
    }
}

/// A line without its end.
pub open spec fn without_end(line: Seq<char>) -> Seq<char> {
    if text::ends_with(line, seq!['\r', '\n']) {
        line.take(line.len() - 2)
    } else {
        line
    }
}

/// The name and the value in a line, without white space around them.
pub open spec fn field_of(line: Seq<char>) -> Option<(Seq<char>, Seq<char>)> {
    match text::split_once(line, ':') {
        Some((name, value)) => Some((text::trim_space(name), text::trim_space(value))),
        None => None,
    }
}

/// The fields from a place on, up to an empty line or the end, and where what
/// follows starts. A line without a colon is passed over.
pub open spec fn fields_from(b: Seq<u8>, p: int) -> Result<(HeaderLines, int), ResponseError>
    decreases b.len() - p,
{
    if p < 0 || p >= b.len() {
        Ok((Seq::empty(), p))
    } else {
        match line_text(b, p) {
            None => Err(ResponseError::NotText),
            Some(t) => {
                let line = without_end(t);
                let next = line_end(b, p);
                if line.len() == 0 {
                    Ok((Seq::empty(), next))
                } else if next <= p || next > b.len() {
                    Err(ResponseError::NotText)
                } else {
                    match fields_from(b, next) {
                        Err(e) => Err(e),
                        Ok((rest, end)) => match field_of(line) {
                            Some(f) => Ok((seq![f] + rest, end)),
                            None => Ok((rest, end)),
                        },
                    }
                }
            },
        }
    }
}

/// The value of the first field with a name, but for case.
pub open spec fn field_named(fields: HeaderLines, name: Seq<char>) -> Option<Seq<char>>
    decreases fields.len(),
{
    if fields.len() == 0 {
        None
    } else if text::lower(fields[0].0) == text::lower(name) {
        Some(fields[0].1)
    } else {
        field_named(fields.skip(1), name)
    }
}

/// The length of the body that the fields give: the first that is a number.
pub open spec fn content_length(fields: HeaderLines) -> Option<nat>
    decreases fields.len(),
{
    if fields.len() == 0 {
        None
    } else if text::lower(fields[0].0) == text::lower("content-length"@) && text::number(
        fields[0].1,
        usize::MAX as nat,
    ) is Some {
        text::number(fields[0].1, usize::MAX as nat)
    } else {
        content_length(fields.skip(1))
    }
}

/// A field says that the body comes in chunks.
pub open spec fn says_chunked(field: (Seq<char>, Seq<char>)) -> bool {
    text::lower(field.0) == text::lower("transfer-encoding"@) && text::has_part(
        text::lower(field.1),
        "chunked"@,
    )
}

/// The body comes in chunks.
pub open spec fn is_chunked(fields: HeaderLines) -> bool {
    exists|i: int| 0 <= i < fields.len() && #[trigger] says_chunked(fields[i])
}

/// The size of a chunk, out of its first line.
pub open spec fn chunk_size(line: Seq<char>) -> Option<nat> {
    hex_number(text::trim_end(text::trim_space(line), ';'), usize::MAX as nat)
}

/// The chunks from a place on, put together: each with its size in a line in front
/// and two bytes behind it, up to one of the size 0.
pub open spec fn chunks_from(b: Seq<u8>, p: int) -> Result<Seq<u8>, ResponseError>
    decreases b.len() - p,
{
    if p < 0 || p > b.len() {
        Err(ResponseError::ChunkSize)
    } else {
        match line_text(b, p) {
            None => Err(ResponseError::NotText),
            Some(line) => match chunk_size(line) {
                None => Err(ResponseError::ChunkSize),
                Some(size) => {
                    let start = line_end(b, p);
                    if size == 0 {
                        Ok(Seq::empty())
                    } else if start < p || start + size + 2 > b.len() {
                        Err(ResponseError::Truncated)
                    } else {
                        match chunks_from(b, start + size + 2) {
                            Ok(rest) => Ok(b.subrange(start, start + size) + rest),
                            Err(e) => Err(e),
                        }
                    }
                },
            },
        }
    }
}

/// The body of a response whose fields end at a place: as long as they say, or in
/// chunks, or all that follows.
pub open spec fn body_from(fields: HeaderLines, b: Seq<u8>, p: int) -> Result<
    Seq<u8>,
    ResponseError,
> {
    match content_length(fields) {
        Some(n) => Ok(
            if p + n <= b.len() {
                b.subrange(p, p + n)
            } else {
                b.skip(p)
            },
        ),
        None => if is_chunked(fields) {
            chunks_from(b, p)
        } else {
            Ok(b.skip(p))
        },
    }
}

/// A response with plain values.
#[verifier::ext_equal]
pub struct ResponseView {
    pub status: u16,
    pub headers: HeaderLines,
    pub body: Seq<u8>,
}

/// The response that bytes are.
pub open spec fn response_in(b: Seq<u8>) -> Result<ResponseView, ResponseError> {
    match line_text(b, 0) {
        None => Err(ResponseError::NotText),
        Some(line) => match status_of(line) {
            Err(e) => Err(e),
            Ok(status) => match fields_from(b, line_end(b, 0)) {
                Err(e) => Err(e),
                Ok((headers, p)) => match body_from(headers, b, p) {
                    Err(e) => Err(e),
                    Ok(body) => Ok(ResponseView { status, headers, body }),
                },
            },
        },
    }
}

/// A response.
#[derive(Debug)]
pub struct HttpResponse {
    pub status: u16,
    pub headers: Vec<(String, String)>,
    pub body: Vec<u8>,
}

impl View for HttpResponse {
    type V = ResponseView;

    open spec fn view(&self) -> ResponseView {
        ResponseView {
            status: self.status,
            headers: location::pair_views(self.headers@),
            body: self.body@,
        }
    }
}

/// A chunk of a size is read, and then the chunks behind it.
pub proof fn a_chunk_is_read_before_the_rest(line: Seq<u8>, chunk: Seq<u8>, end: Seq<u8>, rest: Seq<u8>)
    requires
        line.len() > 0,
        line.last() == 10,
        forall|i: int| 0 <= i < line.len() - 1 ==> line[i] != 10,
        vstd::utf8::valid_utf8(line),
        chunk_size(vstd::utf8::decode_utf8(line)) == Some(chunk.len()),
        chunk.len() > 0,
        end.len() == 2,
    ensures
        chunks_from(line + chunk + end + rest, 0) == (match chunks_from(rest, 0) {
            Ok(more) => Ok(chunk + more),
            Err(e) => Err(e),
        }),
{
    let b = line + chunk + end + rest;
    let front = line + chunk + end;
    lemma_line_ends(b, 0, line.len() - 1);
    assert(b.subrange(0, line.len() as int) =~= line);
    assert(b.subrange(line.len() as int, (line.len() + chunk.len()) as int) =~= chunk);
    assert(b =~= front + rest);
    lemma_chunks_shifted(front, rest, 0);
}

proof fn lemma_line_ends(b: Seq<u8>, p: int, n: int)
    requires
        0 <= p <= n < b.len(),
        b[n] == 10,
        forall|i: int| p <= i < n ==> b[i] != 10,
    ensures
        line_end(b, p) == n + 1,
    decreases n - p,
{
    if p < n {
        lemma_line_ends(b, p + 1, n);
    }
}

proof fn lemma_line_shifted(front: Seq<u8>, b: Seq<u8>, p: int)
    requires
        0 <= p <= b.len(),
    ensures
        line_end(front + b, front.len() + p) == front.len() + line_end(b, p),
    decreases b.len() - p,
{
    if p < b.len() {
        assert((front + b)[front.len() + p] == b[p]);
        if b[p] != 10 {
            lemma_line_shifted(front, b, p + 1);
        }
    }
}

proof fn lemma_chunks_shifted(front: Seq<u8>, b: Seq<u8>, p: int)
    requires
        0 <= p <= b.len(),
    ensures
        chunks_from(front + b, front.len() + p) == chunks_from(b, p),
    decreases b.len() - p,
{
    let all = front + b;
    let n = front.len() as int;
    let end = line_end(b, p);
    lemma_line_shifted(front, b, p);
    lemma_line_end(b, p);
    assert(all.subrange(n + p, n + end) =~= b.subrange(p, end));
    match line_text(b, p) {
        Some(line) => match chunk_size(line) {
            Some(size) => {
                if size > 0 && end + size + 2 <= b.len() {
                    lemma_chunks_shifted(front, b, end + size + 2);
                    assert(all.subrange(n + end, n + end + size) =~= b.subrange(end, end + size));
                }
            },
            None => {},
        },
        None => {},
    }
}

// ---- reading ----

fn read_status(line: &str) -> (r: Result<u16, ResponseError>)
    ensures
        r == status_of(line@),
{
    let words = text::split_words(line);
    proof {
        assert(text::words(line@).len() == words@.len());
    }
    if words.len() < 1 {
        return Err(ResponseError::NoVersion);
    }
    if words.len() < 2 {
        return Err(ResponseError::NoStatus);
    }
    proof {
        assert(text::words(line@)[1] == words@[1]@);
    }
    match text::parse_number(words[1].as_str(), 65535) {
        Some(n) => Ok(n as u16),
        None => Err(ResponseError::Status),
    }
}

fn drop_end(line: &str) -> (r: String)
    ensures
        r@ == without_end(line@),
{
    let v = text::to_chars(line);
    let n: usize = v.len();
    if n >= 2 && v[n - 2] == '\r' && v[n - 1] == '\n' {
        proof {
            assert(v@.skip(n - 2) =~= seq!['\r', '\n']);
            assert(v@.subrange(0, n - 2) =~= v@.take(n - 2));
        }
        return text::to_text(&v.as_slice()[0..n - 2]);
    }
    proof {
        if text::ends_with(v@, seq!['\r', '\n']) {
            let tail = v@.skip(n - 2);
            assert(tail[0] == v@[n - 2]);
            assert(tail[1] == v@[n - 1]);
        }
    }
    text::copy_text(line)
}

spec fn after(front: HeaderLines, r: Result<(HeaderLines, int), ResponseError>) -> Result<
    (HeaderLines, int),
    ResponseError,
> {
    match r {
        Ok((rest, end)) => Ok((front + rest, end)),
        Err(e) => Err(e),
    }
}

proof fn lemma_after_nothing(r: Result<(HeaderLines, int), ResponseError>)
    ensures
        after(Seq::empty(), r) == r,
{
    match r {
        Ok((rest, end)) => {
            assert(Seq::<(Seq<char>, Seq<char>)>::empty() + rest =~= rest);
        },
        Err(_) => {},
    }
}

fn read_fields(b: &[u8], start: usize) -> (r: Result<(Vec<(String, String)>, usize), ResponseError>)
    requires
        start <= b@.len(),
    ensures
        match r {
            Ok((fields, end)) => end <= b@.len() && fields_from(b@, start as int) == Ok::<
                (HeaderLines, int),
                ResponseError,
            >((location::pair_views(fields@), end as int)),
            Err(e) => fields_from(b@, start as int) == Err::<(HeaderLines, int), ResponseError>(e),
        },
{
    let mut fields: Vec<(String, String)> = Vec::new();
    let mut p: usize = start;
    proof {
        assert(location::pair_views(fields@) =~= Seq::empty());
        lemma_after_nothing(fields_from(b@, start as int));
    }
    while p < b.len()
        invariant
            p <= b@.len(),
            fields_from(b@, start as int) == after(
                location::pair_views(fields@),
                fields_from(b@, p as int),
            ),
        decreases b@.len() - p,
    {
        let ghost before = location::pair_views(fields@);
        let (line, next) = read_line(b, p);
        let line = match line {
            Some(line) => line,
            None => {
                return Err(ResponseError::NotText);
            },
        };
        let line = drop_end(line.as_str());
        if text::to_chars(line.as_str()).len() == 0 {
            proof {
                assert(before + Seq::<(Seq<char>, Seq<char>)>::empty() =~= before);
            }
            return Ok((fields, next));
        }
        match text::split_at_char(line.as_str(), ':') {
            Some((name, value)) => {
                let name = text::trim_text(name.as_str());
                let value = text::trim_text(value.as_str());
                let ghost f = (name@, value@);
                fields.push((name, value));
                proof {
                    assert(location::pair_views(fields@) =~= before.push(f));
                    match fields_from(b@, next as int) {
                        Ok((rest, _)) => {
                            assert(before + (seq![f] + rest) =~= before.push(f) + rest);
                        },
                        Err(_) => {},
                    }
                }
            },
            None => {},
        }
        p = next;
    }
    proof {
        let found = location::pair_views(fields@);
        assert(found + Seq::<(Seq<char>, Seq<char>)>::empty() =~= found);
    }
    Ok((fields, p))
}

/// The value of the first field with a name, but for case.
pub fn find_field(fields: &Vec<(String, String)>, name: &str) -> (r: Option<String>)
    ensures
        text::opt_text(r) == field_named(location::pair_views(fields@), name@),
{
    let ghost all = location::pair_views(fields@);
    let mut i: usize = 0;
    proof {
        assert(all.skip(0) =~= all);
    }
    while i < fields.len()
        invariant
            i <= fields@.len(),
            all == location::pair_views(fields@),
            field_named(all, name@) == field_named(all.skip(i as int), name@),
        decreases fields@.len() - i,
    {
        proof {
            assert(all.skip(i as int)[0] == (fields@[i as int].0@, fields@[i as int].1@));
            assert(all.skip(i as int).skip(1) =~= all.skip(i + 1));
        }
        let (n, value) = &fields[i];
        if text::same_ignoring_case(n.as_str(), name) {
            return Some(text::copy_text(value.as_str()));
        }
        i = i + 1;
    }
    None
}

fn read_content_length(fields: &Vec<(String, String)>) -> (r: Option<usize>)
    ensures
        match r {
            Some(n) => content_length(location::pair_views(fields@)) == Some(n as nat),
            None => content_length(location::pair_views(fields@)) is None,
        },
{
    let ghost all = location::pair_views(fields@);
    let mut i: usize = 0;
    proof {
        assert(all.skip(0) =~= all);
    }
    while i < fields.len()
        invariant
            i <= fields@.len(),
            all == location::pair_views(fields@),
            content_length(all) == content_length(all.skip(i as int)),
        decreases fields@.len() - i,
    {
        proof {
            assert(all.skip(i as int)[0] == (fields@[i as int].0@, fields@[i as int].1@));
            assert(all.skip(i as int).skip(1) =~= all.skip(i + 1));
        }
        let (n, value) = &fields[i];
        if text::same_ignoring_case(n.as_str(), "content-length") {
            match text::parse_number(value.as_str(), usize::MAX as u64) {
                Some(length) => {
                    return Some(length as usize);
                },
                None => {},
            }
        }
        i = i + 1;
    }
    None
}

fn read_chunked(fields: &Vec<(String, String)>) -> (r: bool)
    ensures
        r == is_chunked(location::pair_views(fields@)),
{
    let ghost all = location::pair_views(fields@);
    let mut i: usize = 0;
    while i < fields.len()
        invariant
            i <= fields@.len(),
            all == location::pair_views(fields@),
            forall|j: int| 0 <= j < i ==> !#[trigger] says_chunked(all[j]),
        decreases fields@.len() - i,
    {
        let (n, value) = &fields[i];
        proof {
            assert(all[i as int] == (n@, value@));
        }
        if text::same_ignoring_case(n.as_str(), "transfer-encoding") {
            let folded = text::to_lower(value.as_str());
            if text::text_contains(folded.as_str(), "chunked") {
                proof {
                    assert(says_chunked(all[i as int]));
                }
                return true;
            }
        }
        i = i + 1;
    }
    false
}

spec fn with_body(front: Seq<u8>, r: Result<Seq<u8>, ResponseError>) -> Result<
    Seq<u8>,
    ResponseError,
> {
    match r {
        Ok(rest) => Ok(front + rest),
        Err(e) => Err(e),
    }
}

fn read_chunks(b: &[u8], start: usize) -> (r: Result<Vec<u8>, ResponseError>)
    requires
        start <= b@.len(),
    ensures
        match r {
            Ok(body) => chunks_from(b@, start as int) == Ok::<Seq<u8>, ResponseError>(body@),
            Err(e) => chunks_from(b@, start as int) == Err::<Seq<u8>, ResponseError>(e),
        },
{
    let total: usize = b.len();
    let mut body: Vec<u8> = Vec::new();
    let mut p: usize = start;
    proof {
        match chunks_from(b@, start as int) {
            Ok(rest) => {
                assert(body@ + rest =~= rest);
            },
            Err(_) => {},
        }
    }
    loop
        invariant
            total == b@.len(),
            p <= total,
            chunks_from(b@, start as int) == with_body(body@, chunks_from(b@, p as int)),
        decreases total - p,
    {
        let (line, next) = read_line(b, p);
        let line = match line {
            Some(line) => line,
            None => {
                return Err(ResponseError::NotText);
            },
        };
        let trimmed = text::trim_text(line.as_str());
        let word = text::trim_end_char(trimmed.as_str(), ';');
        let size: usize = match parse_hex(word.as_str(), usize::MAX as u64) {
            Some(n) => n as usize,
            None => {
                return Err(ResponseError::ChunkSize);
            },
        };
        if size == 0 {
            proof {
                assert(body@ + Seq::<u8>::empty() =~= body@);
            }
            return Ok(body);
        }
        let left: usize = total - next;
        if left < 2 || left - 2 < size {
            return Err(ResponseError::Truncated);
        }
        let end: usize = next + size;
        let mut chunk = text::copy_bytes(&b[next..end]);
        let ghost before = body@;
        let ghost part = chunk@;
        body.append(&mut chunk);
        proof {
            match chunks_from(b@, end + 2) {
                Ok(rest) => {
                    assert(before + (part + rest) =~= before + part + rest);
                },
                Err(_) => {},
            }
        }
        p = end + 2;
    }
}

/// Reads the response that bytes are, up to the end of the connection.
pub fn read_http_response(b: &[u8]) -> (r: Result<HttpResponse, ResponseError>)
    ensures
        match r {
            Ok(response) => response_in(b@) == Ok::<ResponseView, ResponseError>(response@),
            Err(e) => response_in(b@) == Err::<ResponseView, ResponseError>(e),
        },
{
    let (line, next) = read_line(b, 0);
    let line = match line {
        Some(line) => line,
        None => {
            return Err(ResponseError::NotText);
        },
    };
    let status: u16 = match read_status(line.as_str()) {
        Ok(status) => status,
        Err(e) => {
            return Err(e);
        },
    };
    let (headers, p) = match read_fields(b, next) {
        Ok(found) => found,
        Err(e) => {
            return Err(e);
        },
    };
    let total: usize = b.len();
    let body = match read_content_length(&headers) {
        Some(n) => {
            let end: usize = if n <= total - p {
                p + n
            } else {
                total
            };
            proof {
                assert(b@.subrange(p as int, total as int) =~= b@.skip(p as int));
            }
            text::copy_bytes(&b[p..end])
        },
        None => {
            if read_chunked(&headers) {
                match read_chunks(b, p) {
                    Ok(body) => body,
                    Err(e) => {
                        return Err(e);
                    },
                }
            } else {
                proof {
                    assert(b@.subrange(p as int, total as int) =~= b@.skip(p as int));
                }
                text::copy_bytes(&b[p..total])
            }
        },
    };
    Ok(HttpResponse { status, headers, body })
}

// ---- requests ----

/// Why something is not downloaded.
#[derive(Clone, Copy, Debug, PartialEq, Eq, Structural)]
pub enum FetchError {
    /// There were too many redirects.
    Redirects,
    Url,
    Scheme,
    NoHost,
    NoPort,
    NoLocation,
    Location,
    Status(u16),
    TooLarge,
    /// There was nothing to be unmodified against.
    NotModified,
}

/// Where a download goes and what it asks for.
#[derive(Debug)]
pub struct FetchPlan {
    pub host: String,
    pub port: u16,
    pub tls: bool,
    pub request: String,
}

/// The path and the query that are asked for.
pub open spec fn asked_for(url: Seq<char>) -> Seq<char> {
    let path = location::url_path(url)->0;
    (if path.len() == 0 {
        "/"@
    } else {
        path
    }) + (match location::url_query(url) {
        Some(Some(q)) => seq!['?'] + q,
        _ => Seq::empty(),
    })
}

/// The request of a download; a tag that is not empty asks for what is not it.
pub open spec fn request_text(url: Seq<char>, etag: Option<Seq<char>>) -> Seq<char> {
    "GET "@ + asked_for(url) + " HTTP/1.1\r\nHost: "@ + location::url_host(url)->0->0
        + "\r\nUser-Agent: xhttp-rs\r\nConnection: close\r\nAccept: */*\r\n"@ + (match etag {
        Some(t) if t.len() > 0 => "If-None-Match: "@ + t + "\r\n"@,
        _ => Seq::empty(),
    }) + "\r\n"@
}

/// Why a download cannot start, if it cannot.
pub open spec fn fetch_fault(url: Seq<char>, redirects: u8) -> Option<FetchError> {
    if redirects > 5 {
        Some(FetchError::Redirects)
    } else if location::url_text(url) is None {
        Some(FetchError::Url)
    } else if location::url_scheme(url) != Some("http"@) && location::url_scheme(url) != Some(
        "https"@,
    ) {
        Some(FetchError::Scheme)
    } else if !(location::url_host(url) matches Some(Some(_))) {
        Some(FetchError::NoHost)
    } else if !(location::url_port(url) matches Some(Some(_))) {
        Some(FetchError::NoPort)
    } else {
        None
    }
}

/// Plans a download after so many redirects.
pub fn plan_fetch(url: &str, etag: Option<&str>, redirects: u8) -> (r: Result<FetchPlan, FetchError>)
    ensures
        match r {
            Ok(plan) => {
                &&& fetch_fault(url@, redirects) is None
                &&& location::url_host(url@) == Some(Some(plan.host@))
                &&& location::url_port(url@) == Some(Some(plan.port))
                &&& plan.tls == (location::url_scheme(url@) == Some("https"@))
                &&& plan.request@ == request_text(url@, text::opt_str(etag))
            },
            Err(e) => fetch_fault(url@, redirects) == Some(e),
        },
{
    if redirects > 5 {
        return Err(FetchError::Redirects);
    }
    if location::parse_url(url).is_none() {
        return Err(FetchError::Url);
    }
    let scheme = match location::get_scheme(url) {
        Some(scheme) => scheme,
        None => {
            return Err(FetchError::Url);
        },
    };
    let tls = text::same_text(scheme.as_str(), "https");
    if !tls && !text::same_text(scheme.as_str(), "http") {
        return Err(FetchError::Scheme);
    }
    let host = match location::get_host(url) {
        Some(Some(host)) => host,
        _ => {
            return Err(FetchError::NoHost);
        },
    };
    let port: u16 = match location::get_port(url) {
        Some(Some(port)) => port,
        _ => {
            return Err(FetchError::NoPort);
        },
    };
    let path = match location::get_path(url) {
        Some(path) => path,
        None => {
            return Err(FetchError::Url);
        },
    };
    let query = match location::get_query(url) {
        Some(query) => query,
        None => {
            return Err(FetchError::Url);
        },
    };
    let mut request = text::copy_text("GET ");
    if text::to_chars(path.as_str()).len() == 0 {
        request.append("/");
    } else {
        request.append(path.as_str());
    }
    match query {
        Some(q) => {
            proof {
                reveal_strlit("?");
                assert("?"@ =~= seq!['?']);
            }
            request.append("?");
            request.append(q.as_str());
        },
        None => {},
    }
    request.append(" HTTP/1.1\r\nHost: ");
    request.append(host.as_str());
    request.append("\r\nUser-Agent: xhttp-rs\r\nConnection: close\r\nAccept: */*\r\n");
    match etag {
        Some(t) => {
            if text::to_chars(t).len() > 0 {
                request.append("If-None-Match: ");
                request.append(t);
                request.append("\r\n");
            }
        },
        None => {},
    }
    request.append("\r\n");
    proof {
        assert(request@ =~= request_text(url@, text::opt_str(etag)));
    }
    Ok(FetchPlan { host, port, tls, request })
}

/// What follows from a response.
#[derive(Debug)]
pub enum FetchStep {
    /// The download goes on at another address.
    Redirect(String),
    /// It is over: what was downloaded, its tag, and whether it is what is there
    /// already.
    Done { body: Vec<u8>, etag: Option<String>, not_modified: bool },
}

/// A status that leads to another address.
pub open spec fn is_redirect(status: u16) -> bool {
    status == 301 || status == 302 || status == 303 || status == 307 || status == 308
}

/// What follows from the response to a download: another address, what was
/// downloaded, or an error. No more than 64 MiB are taken.
pub fn follow_response(url: &str, response: HttpResponse) -> (r: Result<FetchStep, FetchError>)
    ensures
        ({
            let fields = response@.headers;
            let target = field_named(fields, "location"@);
            match r {
                Ok(FetchStep::Redirect(next)) => is_redirect(response.status) && target is Some
                    && location::url_joined(url@, target->0) == Some(next@),
                Ok(FetchStep::Done { body, etag, not_modified }) => {
                    &&& response.status == 200 || response.status == 304
                    &&& response.body@.len() <= 0x400_0000
                    &&& body@ == response.body@
                    &&& text::opt_text(etag) == field_named(fields, "etag"@)
                    &&& not_modified == (response.status == 304)
                },
                Err(e) => if is_redirect(response.status) {
                    if target is None {
                        e == FetchError::NoLocation
                    } else {
                        location::url_joined(url@, target->0) is None && e == FetchError::Location
                    }
                } else if response.status != 200 && response.status != 304 {
                    e == FetchError::Status(response.status)
                } else {
                    response.body@.len() > 0x400_0000 && e == FetchError::TooLarge
                },
            }
        }),
{
    let status: u16 = response.status;
    if status == 301 || status == 302 || status == 303 || status == 307 || status == 308 {
        return match find_field(&response.headers, "location") {
            None => Err(FetchError::NoLocation),
            Some(target) => match location::join_url(url, target.as_str()) {
                Some(next) => Ok(FetchStep::Redirect(next)),
                None => Err(FetchError::Location),
            },
        };
    }
    if status != 200 && status != 304 {
        return Err(FetchError::Status(status));
    }
    if response.body.len() > 0x400_0000 {
        return Err(FetchError::TooLarge);
    }
    let etag = find_field(&response.headers, "etag");
    Ok(FetchStep::Done { body: response.body, etag, not_modified: status == 304 })
}

/// What a download without a tag comes to, which cannot be unmodified.
pub fn whole_body(body: Vec<u8>, not_modified: bool) -> (r: Result<Vec<u8>, FetchError>)
    ensures
        match r {
            Ok(b) => !not_modified && b@ == body@,
            Err(e) => not_modified && e == FetchError::NotModified,
        },
{
    if not_modified {
        Err(FetchError::NotModified)
    } else {
        Ok(body)
    }
}

/// A body is as long as its field says and stands where the fields end; where the
/// field says more than there is, it is what there is, and without such a field, and
/// not in chunks, it is all that follows.
pub proof fn a_body_is_as_long_as_it_says(fields: HeaderLines, b: Seq<u8>, p: int)
    requires
        0 <= p <= b.len(),
    ensures
        content_length(fields) matches Some(n) ==> (body_from(fields, b, p) matches Ok(body) && (p
            + n <= b.len() ==> body.len() == n) && (p + n > b.len() ==> body.len() == b.len() - p)
            && forall|i: int| 0 <= i < body.len() ==> #[trigger] body[i] == b[p + i]),
        content_length(fields) is None && !is_chunked(fields) ==> (body_from(fields, b, p)
            matches Ok(body) && body.len() == b.len() - p && forall|i: int|
            0 <= i < body.len() ==> #[trigger] body[i] == b[p + i]),
        content_length(fields) is None && is_chunked(fields) ==> body_from(fields, b, p)
            == chunks_from(b, p),
{
}

/// The first field of a name counts, whatever the case of its letters.
pub proof fn the_first_field_of_a_name_counts(fields: HeaderLines, name: Seq<char>, i: int)
    requires
        0 <= i < fields.len(),
        text::lower(fields[i].0) == text::lower(name),
        forall|j: int| 0 <= j < i ==> text::lower((#[trigger] fields[j]).0) != text::lower(name),
    ensures
        field_named(fields, name) == Some(fields[i].1),
    decreases i,
{
    if i > 0 {
        assert(text::lower(fields[0].0) != text::lower(name));
        assert forall|j: int| 0 <= j < i - 1 implies text::lower((#[trigger] fields.skip(1)[j]).0)
            != text::lower(name) by {
            assert(fields.skip(1)[j] == fields[j + 1]);
        }
        the_first_field_of_a_name_counts(fields.skip(1), name, i - 1);
    }
}

/// A line is a field by its first colon, without the white space around its name and
/// its value.
pub proof fn fields_are_cut_at_the_colon(name: Seq<char>, value: Seq<char>)
    requires
        !name.contains(':'),
    ensures
        field_of(name + seq![':'] + value) == Some(
            (text::trim_space(name), text::trim_space(value)),
        ),
        field_of(name) is None,
{
    let line = name + seq![':'] + value;
    assert forall|i: int| 0 <= i < name.len() implies name[i] != ':' by {
        assert(name.contains(name[i]));
    }
    text::lemma_span(line, ':', name.len() as int);
    text::lemma_span(name, ':', name.len() as int);
    assert(line.take(name.len() as int) =~= name);
    assert(line.skip(name.len() as int + 1) =~= value);
}

/// Hexadecimal digits count by sixteen, whatever the case of the letters, and what
/// holds another letter is no number.
pub proof fn hexadecimal_numbers(s: Seq<char>, c: char)
    ensures
        hex_value(s) is Some && hex_digit(c) is Some ==> hex_value(s.push(c)) == Some(
            hex_value(s)->0 * 16 + hex_digit(c)->0,
        ),
        hex_value(s) is None || hex_digit(c) is None ==> hex_value(s.push(c)) is None,
        hex_digit(c) matches Some(n) ==> n < 16,
        '0' <= c <= '9' ==> hex_digit(c) == Some((c as nat - '0' as nat) as nat),
        hex_digit('a') == Some(10nat) && hex_digit('f') == Some(15nat),
        hex_digit('A') == Some(10nat) && hex_digit('F') == Some(15nat),
        hex_digit('g') is None && hex_digit('G') is None && hex_digit(' ') is None,
{
    assert(s.push(c).drop_last() =~= s);
}

/// What is fetched is asked for by its path and query, from the host that it names,
/// and with the tag of the copy that is kept, if there is one.
pub proof fn requests_ask_for_what_is_fetched(
    url: Seq<char>,
    etag: Seq<char>,
    host: Seq<char>,
    path: Seq<char>,
    query: Seq<char>,
)
    requires
        location::url_host(url) == Some(Some(host)),
        location::url_path(url) == Some(path),
        path.len() > 0,
        etag.len() > 0,
    ensures
        location::url_query(url) == Some(None::<Seq<char>>) ==> text::starts_with(
            request_text(url, None),
            "GET "@ + path + " HTTP/1.1\r\nHost: "@ + host + "\r\n"@,
        ),
        location::url_query(url) == Some(Some(query)) ==> text::starts_with(
            request_text(url, Some(etag)),
            "GET "@ + path + seq!['?'] + query + " HTTP/1.1\r\nHost: "@ + host + "\r\n"@,
        ),
        text::ends_with(request_text(url, Some(etag)), "If-None-Match: "@ + etag + "\r\n\r\n"@),
{
    reveal_strlit("\r\nUser-Agent: xhttp-rs\r\nConnection: close\r\nAccept: */*\r\n");
    reveal_strlit("\r\n");
    reveal_strlit("\r\n\r\n");
    let line = "\r\nUser-Agent: xhttp-rs\r\nConnection: close\r\nAccept: */*\r\n"@;
    assert(line.take(2) =~= "\r\n"@);
    let a = request_text(url, None);
    let x = "GET "@ + path + " HTTP/1.1\r\nHost: "@ + host + "\r\n"@;
    if location::url_query(url) == Some(None::<Seq<char>>) {
        assert(asked_for(url) =~= path);
        assert(a.take(x.len() as int) =~= x);
    }
    let b = request_text(url, Some(etag));
    let y = "GET "@ + path + seq!['?'] + query + " HTTP/1.1\r\nHost: "@ + host + "\r\n"@;
    if location::url_query(url) == Some(Some(query)) {
        assert(asked_for(url) =~= path + seq!['?'] + query);
        assert(b.take(y.len() as int) =~= y);
    }
    let z = "If-None-Match: "@ + etag + "\r\n\r\n"@;
    assert("\r\n"@ + "\r\n"@ =~= "\r\n\r\n"@);
    assert(b.skip(b.len() - z.len()) =~= z);
}

/// A response of one of these codes leads elsewhere, and no other does.
pub proof fn redirects(status: u16)
    ensures
        is_redirect(status) <==> [301u16, 302, 303, 307, 308]@.contains(status),
{
    let codes = [301u16, 302, 303, 307, 308]@;
    assert(codes[0] == 301 && codes[1] == 302 && codes[2] == 303 && codes[3] == 307 && codes[4]
        == 308);
}

/// Something can be fetched exactly where it is named by a URL of HTTP, with or
/// without TLS, that has a host and a port, and was not led on more than five times.
pub proof fn what_can_be_fetched(url: Seq<char>, redirects: u8)
    ensures
        fetch_fault(url, redirects) is None <==> {
            &&& redirects <= 5
            &&& location::url_text(url) is Some
            &&& location::url_scheme(url) == Some("http"@) || location::url_scheme(url) == Some(
                "https"@,
            )
            &&& location::url_host(url) is Some && location::url_host(url)->0 is Some
            &&& location::url_port(url) is Some && location::url_port(url)->0 is Some
        },
{
}

/// The code of a response is the number behind its version.
pub proof fn codes_stand_behind_the_version(line: Seq<char>, code: u16)
    requires
        text::words(line).len() >= 2,
        text::words(line)[1] == text::decimal(code as nat),
    ensures
        status_of(line) == Ok::<u16, ResponseError>(code),
{
    text::decimal_reads_back(code as nat, 65535);
}

proof fn lemma_fields_shifted(front: Seq<u8>, b: Seq<u8>, p: int)
    requires
        0 <= p <= b.len(),
    ensures
        fields_from(front + b, front.len() + p) == (match fields_from(b, p) {
            Ok((list, end)) => Ok::<(HeaderLines, int), ResponseError>((list, front.len() + end)),
            Err(e) => Err(e),
        }),
    decreases b.len() - p,
{
    let all = front + b;
    let n = front.len() as int;
    let end = line_end(b, p);
    lemma_line_shifted(front, b, p);
    lemma_line_end(b, p);
    assert(all.subrange(n + p, n + end) =~= b.subrange(p, end));
    if p < b.len() {
        match line_text(b, p) {
            Some(t) => {
                if without_end(t).len() > 0 {
                    lemma_fields_shifted(front, b, end);
                }
            },
            None => {},
        }
    }
}

proof fn lemma_one_line(line: Seq<u8>, rest: Seq<u8>)
    requires
        line.len() > 0,
        line.last() == 10,
        forall|i: int| 0 <= i < line.len() - 1 ==> line[i] != 10,
        vstd::utf8::valid_utf8(line),
    ensures
        line_end(line + rest, 0) == line.len(),
        line_text(line + rest, 0) == Some(vstd::utf8::decode_utf8(line)),
{
    let b = line + rest;
    lemma_line_ends(b, 0, line.len() - 1);
    assert(b.subrange(0, line.len() as int) =~= line);
}

/// The fields of a response are read line by line: a line is a field in front of
/// those of the rest, or none where it has no colon, and an empty line ends them.
pub proof fn a_field_is_read_before_the_rest(line: Seq<u8>, rest: Seq<u8>)
    requires
        line.len() > 0,
        line.last() == 10,
        forall|i: int| 0 <= i < line.len() - 1 ==> line[i] != 10,
        vstd::utf8::valid_utf8(line),
    ensures
        ({
            let t = without_end(vstd::utf8::decode_utf8(line));
            &&& t.len() == 0 ==> fields_from(line + rest, 0) == Ok::<
                (HeaderLines, int),
                ResponseError,
            >((Seq::empty(), line.len() as int))
            &&& t.len() > 0 ==> fields_from(line + rest, 0) == (match fields_from(rest, 0) {
                Ok((more, end)) => Ok(
                    (
                        match field_of(t) {
                            Some(f) => seq![f] + more,
                            None => more,
                        },
                        line.len() + end,
                    ),
                ),
                Err(e) => Err(e),
            })
        }),
{
    lemma_one_line(line, rest);
    lemma_fields_shifted(line, rest, 0);
}

/// A response is read from its first line, its fields and its body: its code stands
/// in the first line, and the fields say how its body is to be read.
pub proof fn a_response_is_its_line_and_the_rest(
    line: Seq<u8>,
    rest: Seq<u8>,
    code: u16,
    fields: HeaderLines,
    end: int,
)
    requires
        line.len() > 0,
        line.last() == 10,
        forall|i: int| 0 <= i < line.len() - 1 ==> line[i] != 10,
        vstd::utf8::valid_utf8(line),
        status_of(vstd::utf8::decode_utf8(line)) == Ok::<u16, ResponseError>(code),
        fields_from(rest, 0) == Ok::<(HeaderLines, int), ResponseError>((fields, end)),
        0 <= end <= rest.len(),
    ensures
        response_in(line + rest) == (match body_from(fields, rest, end) {
            Ok(body) => Ok::<ResponseView, ResponseError>(
                ResponseView { status: code, headers: fields, body },
            ),
            Err(e) => Err(e),
        }),
{
    let b = line + rest;
    let n = line.len() as int;
    lemma_one_line(line, rest);
    lemma_fields_shifted(line, rest, 0);
    lemma_chunks_shifted(line, rest, end);
    assert(b.skip(n + end) =~= rest.skip(end));
    match content_length(fields) {
        Some(k) => {
            if end + k <= rest.len() {
                assert(b.subrange(n + end, n + end + k) =~= rest.subrange(end, end + k));
            }
        },
        None => {},
    }
}

} // verus!
