//! Text as sequences of characters: the models that contracts speak of, and
//! the functions that compute them.
use vstd::prelude::*;

verus! {

/// The lower case form of an ASCII letter; any other character is kept.
pub open spec fn lower_char(c: char) -> char {
    if 'A' <= c <= 'Z' {
        (c as u8 + 32) as char
    } else {
        c
    }
}

/// The upper case form of an ASCII letter; any other character is kept.
pub open spec fn upper_char(c: char) -> char {
    if 'a' <= c <= 'z' {
        (c as u8 - 32) as char
    } else {
        c
    }
}

/// A text with every ASCII letter in lower case.
pub open spec fn lower(s: Seq<char>) -> Seq<char> {
    Seq::new(s.len(), |i: int| lower_char(s[i]))
}

/// A text with every ASCII letter in upper case.
pub open spec fn upper(s: Seq<char>) -> Seq<char> {
    Seq::new(s.len(), |i: int| upper_char(s[i]))
}

/// The texts held by a sequence of strings.
pub open spec fn texts(s: Seq<String>) -> Seq<Seq<char>> {
    Seq::new(s.len(), |i: int| s[i]@)
}

/// The text held by an optional string.
pub open spec fn opt_text(s: Option<String>) -> Option<Seq<char>> {
    match s {
        Some(t) => Some(t@),
        None => None,
    }
}

/// The text held by an optional borrowed string.
pub open spec fn opt_str(s: Option<&str>) -> Option<Seq<char>> {
    match s {
        Some(t) => Some(t@),
        None => None,
    }
}

/// How many items stand before the first `separator`.
pub open spec fn span<T>(s: Seq<T>, separator: T) -> nat
    decreases s.len(),
{
    if s.len() == 0 || s[0] == separator {
        0
    } else {
        1 + span(s.skip(1), separator)
    }
}

/// The pieces of `s` between its separators: one more than there are separators.
pub open spec fn split<T>(s: Seq<T>, separator: T) -> Seq<Seq<T>>
    decreases s.len(),
{
    let n = span(s, separator);
    if n >= s.len() {
        seq![s]
    } else {
        seq![s.take(n as int)] + split(s.skip(n as int + 1), separator)
    }
}

/// The pieces put together again, with a separator between each two.
pub open spec fn join<T>(parts: Seq<Seq<T>>, separator: T) -> Seq<T>
    decreases parts.len(),
{
    if parts.len() == 0 {
        Seq::empty()
    } else if parts.len() == 1 {
        parts[0]
    } else {
        parts[0] + seq![separator] + join(parts.skip(1), separator)
    }
}

/// `s` without the run of `c` at its end.
pub open spec fn trim_end<T>(s: Seq<T>, c: T) -> Seq<T>
    decreases s.len(),
{
    if s.len() > 0 && s.last() == c {
        trim_end(s.drop_last(), c)
    } else {
        s
    }
}

/// `s` without the run of `c` at its start.
pub open spec fn trim_start<T>(s: Seq<T>, c: T) -> Seq<T>
    decreases s.len(),
{
    if s.len() > 0 && s[0] == c {
        trim_start(s.skip(1), c)
    } else {
        s
    }
}

pub open spec fn starts_with<T>(s: Seq<T>, prefix: Seq<T>) -> bool {
    prefix.len() <= s.len() && s.take(prefix.len() as int) == prefix
}

pub open spec fn ends_with<T>(s: Seq<T>, suffix: Seq<T>) -> bool {
    suffix.len() <= s.len() && s.skip(s.len() - suffix.len()) == suffix
}

/// Whether `part` stands in `s` from index `i` on.
pub open spec fn stands_at<T>(s: Seq<T>, part: Seq<T>, i: int) -> bool {
    0 <= i <= s.len() - part.len() && s.subrange(i, i + part.len()) == part
}

/// Whether `part` stands somewhere in `s`.
pub open spec fn has_part<T>(s: Seq<T>, part: Seq<T>) -> bool {
    exists|i: int| stands_at(s, part, i)
}

/// The characters with the Unicode property `White_Space`.
pub open spec fn is_space(c: char) -> bool {
    let n = c as u32;
    9 <= n <= 13 || n == 32 || n == 0x85 || n == 0xa0 || n == 0x1680 || 0x2000 <= n <= 0x200a || n
        == 0x2028 || n == 0x2029 || n == 0x202f || n == 0x205f || n == 0x3000
}

/// The length of the leading run without white space.
pub open spec fn word_len(s: Seq<char>) -> nat
    decreases s.len(),
{
    if s.len() == 0 || is_space(s[0]) {
        0
    } else {
        1 + word_len(s.skip(1))
    }
}

/// The runs without white space, in order.
pub open spec fn words(s: Seq<char>) -> Seq<Seq<char>>
    decreases s.len(),
{
    if s.len() == 0 {
        Seq::empty()
    } else if is_space(s[0]) {
        words(s.skip(1))
    } else {
        let n = word_len(s) as int;
        if 0 < n <= s.len() {
            seq![s.take(n)] + words(s.skip(n))
        } else {
            Seq::empty()
        }
    }
}

/// `s` without leading white space.
pub open spec fn skip_space(s: Seq<char>) -> Seq<char>
    decreases s.len(),
{
    if s.len() > 0 && is_space(s[0]) {
        skip_space(s.skip(1))
    } else {
        s
    }
}

/// `s` without trailing white space.
pub open spec fn drop_space(s: Seq<char>) -> Seq<char>
    decreases s.len(),
{
    if s.len() > 0 && is_space(s.last()) {
        drop_space(s.drop_last())
    } else {
        s
    }
}

/// `s` without white space at either end.
pub open spec fn trim_space(s: Seq<char>) -> Seq<char> {
    drop_space(skip_space(s))
}

/// A line without a carriage return at its end.
pub open spec fn without_cr(s: Seq<char>) -> Seq<char> {
    if s.len() > 0 && s.last() == '\r' {
        s.drop_last()
    } else {
        s
    }
}

/// The lines of a text: each ends with a line feed, and a carriage return in
/// front of it belongs to the ending. What stands behind the last line feed is a
/// line too, unless it is empty.
pub open spec fn lines(s: Seq<char>) -> Seq<Seq<char>>
    decreases s.len(),
{
    let n = span(s, '\n') as int;
    if s.len() == 0 {
        Seq::empty()
    } else if n >= s.len() {
        seq![s]
    } else {
        seq![without_cr(s.take(n))] + lines(s.skip(n + 1))
    }
}

/// What stands before and behind the first `c`, if there is one.
pub open spec fn split_once<T>(s: Seq<T>, c: T) -> Option<(Seq<T>, Seq<T>)> {
    let n = span(s, c) as int;
    if n < s.len() {
        Some((s.take(n), s.skip(n + 1)))
    } else {
        None
    }
}

/// The value of the first line `name: value` whose name is the given one but for
/// case; white space around the value is kept.
pub open spec fn header_value(ls: Seq<Seq<char>>, name: Seq<char>) -> Option<Seq<char>>
    decreases ls.len(),
{
    if ls.len() == 0 {
        None
    } else {
        match split_once(ls[0], ':') {
            Some((n, v)) if lower(n) == lower(name) => Some(v),
            _ => header_value(ls.skip(1), name),
        }
    }
}

pub open spec fn is_digit(c: char) -> bool {
    '0' <= c <= '9'
}

/// One or more decimal digits and nothing else.
pub open spec fn is_digits(s: Seq<char>) -> bool {
    s.len() > 0 && forall|i: int| 0 <= i < s.len() ==> is_digit(#[trigger] s[i])
}

/// The number that decimal digits stand for.
pub open spec fn digits_value(s: Seq<char>) -> nat
    decreases s.len(),
{
    if s.len() == 0 {
        0
    } else {
        digits_value(s.drop_last()) * 10 + (s.last() as nat - '0' as nat) as nat
    }
}

/// An unsigned decimal number of at most `max`: an optional plus sign, then
/// one or more digits.
pub open spec fn number(s: Seq<char>, max: nat) -> Option<nat> {
    let digits = if s.len() > 0 && s[0] == '+' {
        s.skip(1)
    } else {
        s
    };
    if is_digits(digits) && digits_value(digits) <= max {
        Some(digits_value(digits))
    } else {
        None
    }
}

/// The decimal digits of a number, without leading zeros.
pub open spec fn decimal(n: nat) -> Seq<char>
    decreases n,
{
    if n < 10 {
        seq![(n + 48) as char]
    } else {
        decimal(n / 10).push((n % 10 + 48) as char)
    }
}

// ---- facts about the models ----

/// Up to the first separator, `span` is the number of items.
pub proof fn lemma_span<T>(s: Seq<T>, separator: T, n: int)
    requires
        0 <= n <= s.len(),
        forall|i: int| 0 <= i < n ==> s[i] != separator,
        n == s.len() || s[n] == separator,
    ensures
        span(s, separator) == n,
    decreases n,
{
    if n > 0 {
        assert forall|i: int| 0 <= i < n - 1 implies s.skip(1)[i] != separator by {
            assert(s.skip(1)[i] == s[i + 1]);
        }
        lemma_span(s.skip(1), separator, n - 1);
    }
}

/// What `span` says of the items.
pub proof fn lemma_span_bounds<T>(s: Seq<T>, separator: T)
    ensures
        span(s, separator) <= s.len(),
        forall|i: int| 0 <= i < span(s, separator) ==> s[i] != separator,
        span(s, separator) < s.len() ==> s[span(s, separator) as int] == separator,
    decreases s.len(),
{
    if s.len() > 0 && s[0] != separator {
        lemma_span_bounds(s.skip(1), separator);
        assert forall|i: int| 0 <= i < span(s, separator) implies s[i] != separator by {
            if i > 0 {
                assert(s[i] == s.skip(1)[i - 1]);
            }
        }
    }
}

/// Joining the pieces of a text gives the text back.
pub proof fn lemma_join_split<T>(s: Seq<T>, separator: T)
    ensures
        split(s, separator).len() >= 1,
        join(split(s, separator), separator) == s,
    decreases s.len(),
{
    lemma_span_bounds(s, separator);
    let n = span(s, separator) as int;
    if n < s.len() {
        let rest = split(s.skip(n + 1), separator);
        lemma_join_split(s.skip(n + 1), separator);
        let all = split(s, separator);
        assert(all.len() == rest.len() + 1);
        assert(all.skip(1) =~= rest);
        assert(all[0] == s.take(n));
        assert(join(all, separator) =~= s);
    }
}

/// No piece of a split holds the separator.
pub proof fn lemma_split_pieces<T>(s: Seq<T>, separator: T)
    ensures
        forall|i: int, j: int|
            0 <= i < split(s, separator).len() && 0 <= j < split(s, separator)[i].len()
                ==> split(s, separator)[i][j] != separator,
    decreases s.len(),
{
    lemma_span_bounds(s, separator);
    let n = span(s, separator) as int;
    let all = split(s, separator);
    if n < s.len() {
        let rest = split(s.skip(n + 1), separator);
        lemma_split_pieces(s.skip(n + 1), separator);
        assert forall|i: int, j: int| 0 <= i < all.len() && 0 <= j < all[i].len() implies all[i][j]
            != separator by {
            if i > 0 {
                assert(all[i] == rest[i - 1]);
            }
        }
    }
}

/// What stands before and behind a separator is split apart, each by itself.
pub proof fn split_at_a_separator<T>(a: Seq<T>, separator: T, b: Seq<T>)
    ensures
        split(a + seq![separator] + b, separator) == split(a, separator) + split(b, separator),
    decreases a.len(),
{
    let whole = a + seq![separator] + b;
    lemma_span_bounds(a, separator);
    let n = span(a, separator) as int;
    if n < a.len() {
        assert(whole[n] == separator);
        lemma_span(whole, separator, n);
        assert(whole.skip(n + 1) =~= a.skip(n + 1) + seq![separator] + b);
        split_at_a_separator(a.skip(n + 1), separator, b);
        assert(whole.take(n) =~= a.take(n));
        assert(split(whole, separator) =~= split(a, separator) + split(b, separator));
    } else {
        assert(whole[n] == separator);
        lemma_span(whole, separator, n);
        assert(whole.skip(n + 1) =~= b);
        assert(whole.take(n) =~= a);
        assert(split(whole, separator) =~= split(a, separator) + split(b, separator));
    }
}

/// Pieces put together in two parts, with a separator between those.
pub proof fn lemma_join_parts<T>(a: Seq<Seq<T>>, b: Seq<Seq<T>>, separator: T)
    requires
        a.len() > 0,
        b.len() > 0,
    ensures
        join(a + b, separator) == join(a, separator) + seq![separator] + join(b, separator),
    decreases a.len(),
{
    assert((a + b).skip(1) =~= a.skip(1) + b);
    if a.len() == 1 {
        assert(a.skip(1) + b =~= b);
    } else {
        lemma_join_parts(a.skip(1), b, separator);
        assert(join(a + b, separator) =~= join(a, separator) + seq![separator] + join(
            b,
            separator,
        ));
    }
}

/// The pieces of a text end with those of another exactly where the text is that
/// other one, or ends with it behind a separator.
pub proof fn pieces_at_the_end<T>(s: Seq<T>, suffix: Seq<T>, separator: T)
    ensures
        ends_with(split(s, separator), split(suffix, separator)) <==> (s == suffix || ends_with(
            s,
            seq![separator] + suffix,
        )),
{
    let whole = split(s, separator);
    let last = split(suffix, separator);
    let n = whole.len() - last.len();
    lemma_join_split(s, separator);
    lemma_join_split(suffix, separator);
    assert(last.len() > 0);
    if ends_with(whole, last) {
        let front = whole.take(n);
        assert(whole =~= front + last);
        if n == 0 {
            assert(whole =~= last);
        } else {
            lemma_join_parts(front, last, separator);
            let tail = seq![separator] + suffix;
            assert(s =~= join(front, separator) + tail);
            assert(s.skip(s.len() - tail.len()) =~= tail);
        }
    }
    if s == suffix {
        assert(whole.skip(0) =~= whole);
    }
    let tail = seq![separator] + suffix;
    if ends_with(s, tail) {
        let front = s.take(s.len() - tail.len());
        assert(s =~= front + s.skip(s.len() - tail.len()));
        assert(front + tail =~= front + seq![separator] + suffix);
        split_at_a_separator(front, separator, suffix);
        assert(whole.skip(n) =~= last);
    }
}

/// The length of the leading word.
pub proof fn lemma_word_len(s: Seq<char>, n: int)
    requires
        0 <= n <= s.len(),
        forall|i: int| 0 <= i < n ==> !is_space(s[i]),
        n == s.len() || is_space(s[n]),
    ensures
        word_len(s) == n,
    decreases n,
{
    if n > 0 {
        assert forall|i: int| 0 <= i < n - 1 implies !is_space(s.skip(1)[i]) by {
            assert(s.skip(1)[i] == s[i + 1]);
        }
        lemma_word_len(s.skip(1), n - 1);
    }
}

/// The value of a prefix of digits is at most that of the whole.
pub proof fn lemma_digits_prefix(s: Seq<char>, n: int)
    requires
        0 <= n <= s.len(),
    ensures
        digits_value(s.take(n)) <= digits_value(s),
    decreases s.len() - n,
{
    if n < s.len() {
        lemma_digits_prefix(s.drop_last(), n);
        assert(s.drop_last().take(n) =~= s.take(n));
    } else {
        assert(s.take(n) =~= s);
    }
}

/// A number read from its own decimal digits is that number.
pub proof fn lemma_decimal_number(n: nat)
    ensures
        is_digits(decimal(n)),
        digits_value(decimal(n)) == n,
        decimal(n)[0] != '+',
    decreases n,
{
    if n < 10 {
        let s = decimal(n);
        assert(s.drop_last().len() == 0);
        assert(digits_value(s.drop_last()) == 0);
    } else {
        lemma_decimal_number(n / 10);
        let s = decimal(n);
        assert(s.drop_last() =~= decimal(n / 10));
        assert forall|i: int| 0 <= i < s.len() implies is_digit(#[trigger] s[i]) by {
            if i < s.len() - 1 {
                assert(s[i] == decimal(n / 10)[i]);
            }
        }
    }
}

/// Writing a number in decimal and reading it again gives the number.
pub proof fn decimal_reads_back(n: nat, max: nat)
    requires
        n <= max,
    ensures
        number(decimal(n), max) == Some(n),
{
    lemma_decimal_number(n);
}

/// Folding to lower case twice is folding once.
pub proof fn lemma_lower_idempotent(s: Seq<char>)
    ensures
        lower(lower(s)) == lower(s),
{
    assert(lower(lower(s)) =~= lower(s));
}

/// Trimming twice is trimming once.
pub proof fn lemma_trim_end<T>(s: Seq<T>, c: T)
    ensures
        trim_end(s, c).len() <= s.len(),
        trim_end(s, c) == s.take(trim_end(s, c).len() as int),
        trim_end(s, c).len() == 0 || trim_end(s, c).last() != c,
        trim_end(trim_end(s, c), c) == trim_end(s, c),
    decreases s.len(),
{
    if s.len() > 0 && s.last() == c {
        lemma_trim_end(s.drop_last(), c);
        assert(s.drop_last().take(trim_end(s, c).len() as int) =~= s.take(
            trim_end(s, c).len() as int,
        ));
    } else {
        assert(s.take(s.len() as int) =~= s);
    }
}

/// What is left at the end once the run of `c` has been passed.
pub proof fn lemma_trim_end_is<T>(s: Seq<T>, c: T, n: int)
    requires
        0 <= n <= s.len(),
        forall|i: int| n <= i < s.len() ==> s[i] == c,
        n == 0 || s[n - 1] != c,
    ensures
        trim_end(s, c) == s.take(n),
    decreases s.len(),
{
    if n < s.len() {
        assert(s.last() == c);
        lemma_trim_end_is(s.drop_last(), c, n);
        assert(s.drop_last().take(n) =~= s.take(n));
    } else {
        assert(s.take(n) =~= s);
    }
}

/// What is left at the start once the run of `c` has been passed.
pub proof fn lemma_trim_start_is<T>(s: Seq<T>, c: T, n: int)
    requires
        0 <= n <= s.len(),
        forall|i: int| 0 <= i < n ==> s[i] == c,
        n == s.len() || s[n] != c,
    ensures
        trim_start(s, c) == s.skip(n),
    decreases n,
{
    if n > 0 {
        assert forall|i: int| 0 <= i < n - 1 implies s.skip(1)[i] == c by {
            assert(s.skip(1)[i] == s[i + 1]);
        }
        lemma_trim_start_is(s.skip(1), c, n - 1);
        assert(s.skip(1).skip(n - 1) =~= s.skip(n));
    } else {
        assert(s.skip(0) =~= s);
    }
}

// ---- executable functions ----

/// How many letters a text has.
pub fn count_chars(s: &str) -> (r: u128)
    ensures
        r == s@.len(),
        r <= usize::MAX,
{
    to_chars(s).len() as u128
}

/// The characters of a string.
pub fn to_chars(s: &str) -> (r: Vec<char>)
    ensures
        r@ == s@,
{
    let mut r: Vec<char> = Vec::new();
    for c in it: s.chars()
        invariant
            r@ == it.seq().take(it.index()),
            it.seq() == s@,
    {
        r.push(c);
    }
    r
}

/// Appends one character: `String::push`.
#[verifier::external_body]
pub(crate) fn push_char(s: &mut String, c: char)
    ensures
        final(s)@ == old(s)@.push(c),
{
    s.push(c)
}

/// Reads UTF-8: `String::from_utf8`, which accepts exactly the well-formed
/// byte sequences and gives the characters they encode.
#[verifier::external_body]
pub(crate) fn utf8_text(bytes: Vec<u8>) -> (r: Option<String>)
    ensures
        r is Some <==> vstd::utf8::valid_utf8(bytes@),
        r matches Some(s) ==> s@ == vstd::utf8::decode_utf8(bytes@),
{
    String::from_utf8(bytes).ok()
}

/// What bytes read as when what is not UTF-8 in them is replaced.
pub uninterp spec fn lossy(bytes: Seq<u8>) -> Seq<char>;

/// Reads bytes as text: `String::from_utf8_lossy`, which keeps well-formed UTF-8
/// as it is and puts replacement characters elsewhere. The result depends on the
/// bytes alone.
#[verifier::external_body]
pub(crate) fn lossy_text(bytes: &[u8]) -> (r: String)
    ensures
        r@ == lossy(bytes@),
        vstd::utf8::valid_utf8(bytes@) ==> r@ == vstd::utf8::decode_utf8(bytes@),
{
    String::from_utf8_lossy(bytes).into_owned()
}

/// What stands before and behind the first `c`, if there is one.
pub fn split_at_char(s: &str, c: char) -> (r: Option<(String, String)>)
    ensures
        match r {
            Some((a, b)) => split_once(s@, c) == Some((a@, b@)),
            None => split_once(s@, c) is None,
        },
{
    let v = to_chars(s);
    let n = span_of(v.as_slice(), c);
    if n < v.len() {
        proof {
            assert(v@.subrange(0, n as int) =~= v@.take(n as int));
            assert(v@.subrange(n + 1, v@.len() as int) =~= v@.skip(n + 1));
        }
        Some((to_text(&v[0..n]), to_text(&v[n + 1..v.len()])))
    } else {
        None
    }
}

/// The lines of a text.
pub fn split_lines(s: &str) -> (r: Vec<String>)
    ensures
        texts(r@) == lines(s@),
{
    let v = to_chars(s);
    let mut r: Vec<String> = Vec::new();
    let mut start: usize = 0;
    proof {
        assert(v@.skip(0) =~= v@);
        assert(texts(r@) + lines(v@) =~= lines(v@));
    }
    while start < v.len()
        invariant
            start <= v@.len(),
            v@ == s@,
            texts(r@) + lines(v@.skip(start as int)) == lines(v@),
        decreases v@.len() - start,
    {
        let ghost before = texts(r@);
        let rest = &v[start..v.len()];
        proof {
            assert(rest@ =~= v@.skip(start as int));
        }
        let n = span_of(rest, '\n');
        if n >= rest.len() {
            r.push(to_text(rest));
            proof {
                assert(texts(r@) =~= before + seq![rest@]);
                assert(v@.skip(v@.len() as int) =~= Seq::<char>::empty());
                assert(lines(Seq::<char>::empty()) =~= Seq::<Seq<char>>::empty());
                assert(texts(r@) + lines(v@.skip(v@.len() as int)) =~= texts(r@));
            }
            start = v.len();
        } else {
            let end: usize = if n > 0 && rest[n - 1] == '\r' {
                n - 1
            } else {
                n
            };
            let ghost line = without_cr(rest@.take(n as int));
            proof {
                assert(rest@.subrange(0, end as int) =~= line);
            }
            r.push(to_text(&rest[0..end]));
            proof {
                assert(texts(r@) =~= before.push(line));
                assert(rest@.skip(n as int + 1) =~= v@.skip(start + n + 1));
                assert(before + (seq![line] + lines(v@.skip(start + n + 1))) =~= before.push(line)
                    + lines(v@.skip(start + n + 1)));
            }
            start = start + n + 1;
        }
    }
    proof {
        assert(v@.skip(start as int) =~= Seq::<char>::empty());
        assert(lines(v@.skip(start as int)) =~= Seq::<Seq<char>>::empty());
        assert(texts(r@) + Seq::<Seq<char>>::empty() =~= texts(r@));
    }
    r
}

/// The value of the first line `name: value` with the given name.
pub fn find_header(ls: &Vec<String>, name: &str) -> (r: Option<String>)
    ensures
        opt_text(r) == header_value(texts(ls@), name@),
{
    let mut i: usize = 0;
    let ghost all = texts(ls@);
    proof {
        assert(all.skip(0) =~= all);
    }
    while i < ls.len()
        invariant
            i <= ls@.len(),
            all == texts(ls@),
            header_value(all, name@) == header_value(all.skip(i as int), name@),
        decreases ls@.len() - i,
    {
        proof {
            assert(all.skip(i as int)[0] == ls@[i as int]@);
            assert(all.skip(i as int).skip(1) =~= all.skip(i + 1));
        }
        match split_at_char(ls[i].as_str(), ':') {
            Some((n, v)) => {
                if same_ignoring_case(n.as_str(), name) {
                    return Some(v);
                }
            },
            None => {},
        }
        i = i + 1;
    }
    None
}

/// The string that holds the given characters.
pub fn to_text(s: &[char]) -> (r: String)
    ensures
        r@ == s@,
{
    let mut r: String = String::new();
    let mut i: usize = 0;
    while i < s.len()
        invariant
            i <= s.len(),
            r@ == s@.take(i as int),
        decreases s.len() - i,
    {
        push_char(&mut r, s[i]);
        proof {
            assert(s@.take(i + 1) =~= s@.take(i as int).push(s@[i as int]));
        }
        i = i + 1;
    }
    proof {
        assert(s@.take(s@.len() as int) =~= s@);
    }
    r
}

/// A copy of a slice of bytes.
pub fn copy_bytes(s: &[u8]) -> (r: Vec<u8>)
    ensures
        r@ == s@,
{
    let mut r: Vec<u8> = Vec::new();
    r.extend_from_slice(s);
    proof {
        assert(r@ =~= s@);
    }
    r
}

/// The UTF-8 bytes of a string.
pub fn text_bytes(s: &str) -> (r: Vec<u8>)
    ensures
        r@ == vstd::utf8::encode_utf8(s@),
{
    copy_bytes(s.as_bytes())
}

/// A copy of a string.
pub fn copy_text(s: &str) -> (r: String)
    ensures
        r@ == s@,
{
    s.to_owned()
}

/// A copy of an optional string.
pub fn copy_opt(s: &Option<String>) -> (r: Option<String>)
    ensures
        opt_text(r) == opt_text(*s),
{
    match s {
        Some(t) => Some(copy_text(t.as_str())),
        None => None,
    }
}

/// A copy of a list of strings.
pub fn copy_texts(s: &Vec<String>) -> (r: Vec<String>)
    ensures
        texts(r@) == texts(s@),
{
    let mut r: Vec<String> = Vec::new();
    let mut i: usize = 0;
    while i < s.len()
        invariant
            i <= s.len(),
            r.len() == i,
            forall|j: int| 0 <= j < i ==> (#[trigger] r@[j])@ == s@[j]@,
        decreases s.len() - i,
    {
        r.push(copy_text(s[i].as_str()));
        i = i + 1;
    }
    proof {
        assert(texts(r@) =~= texts(s@));
    }
    r
}

/// Borrows an optional string.
pub fn as_opt_str(s: &Option<String>) -> (r: Option<&str>)
    ensures
        opt_str(r) == opt_text(*s),
{
    match s {
        Some(t) => Some(t.as_str()),
        None => None,
    }
}

/// Whether an optional string holds the given text.
pub fn opt_is(s: &Option<String>, t: &str) -> (r: bool)
    ensures
        r == (opt_text(*s) == Some(t@)),
{
    match s {
        Some(v) => same_text(v.as_str(), t),
        None => false,
    }
}

/// Whether two strings hold the same text.
pub fn same_text(a: &str, b: &str) -> (r: bool)
    ensures
        r == (a@ == b@),
{
    let x = a.as_bytes();
    let y = b.as_bytes();
    proof {
        vstd::utf8::encode_utf8_decode_utf8(a@);
        vstd::utf8::encode_utf8_decode_utf8(b@);
    }
    same_bytes(x, y)
}

/// Whether two byte slices are equal.
pub fn same_bytes(x: &[u8], y: &[u8]) -> (r: bool)
    ensures
        r == (x@ == y@),
{
    if x.len() != y.len() {
        return false;
    }
    let mut i: usize = 0;
    while i < x.len()
        invariant
            i <= x.len(),
            x.len() == y.len(),
            forall|j: int| 0 <= j < i ==> x@[j] == y@[j],
        decreases x.len() - i,
    {
        if x[i] != y[i] {
            return false;
        }
        i = i + 1;
    }
    proof {
        assert(x@ =~= y@);
    }
    true
}

/// Whether two slices of characters are equal.
pub fn same_chars(x: &[char], y: &[char]) -> (r: bool)
    ensures
        r == (x@ == y@),
{
    if x.len() != y.len() {
        return false;
    }
    let mut i: usize = 0;
    while i < x.len()
        invariant
            i <= x.len(),
            x.len() == y.len(),
            forall|j: int| 0 <= j < i ==> x@[j] == y@[j],
        decreases x.len() - i,
    {
        if x[i] != y[i] {
            return false;
        }
        i = i + 1;
    }
    proof {
        assert(x@ =~= y@);
    }
    true
}

fn lower_one(c: char) -> (r: char)
    ensures
        r == lower_char(c),
{
    if c >= 'A' && c <= 'Z' {
        ((c as u8) + 32) as char
    } else {
        c
    }
}

fn upper_one(c: char) -> (r: char)
    ensures
        r == upper_char(c),
{
    if c >= 'a' && c <= 'z' {
        ((c as u8) - 32) as char
    } else {
        c
    }
}

/// A string with every ASCII letter in lower case.
pub fn to_lower(s: &str) -> (r: String)
    ensures
        r@ == lower(s@),
{
    let c = to_chars(s);
    let mut r: String = String::new();
    let mut i: usize = 0;
    while i < c.len()
        invariant
            i <= c.len(),
            c@ == s@,
            r@ == lower(s@).take(i as int),
        decreases c.len() - i,
    {
        push_char(&mut r, lower_one(c[i]));
        proof {
            assert(lower(s@).take(i + 1) =~= lower(s@).take(i as int).push(lower_char(s@[i as int])));
        }
        i = i + 1;
    }
    proof {
        assert(lower(s@).take(s@.len() as int) =~= lower(s@));
    }
    r
}

/// A string with every ASCII letter in upper case.
pub fn to_upper(s: &str) -> (r: String)
    ensures
        r@ == upper(s@),
{
    let c = to_chars(s);
    let mut r: String = String::new();
    let mut i: usize = 0;
    while i < c.len()
        invariant
            i <= c.len(),
            c@ == s@,
            r@ == upper(s@).take(i as int),
        decreases c.len() - i,
    {
        push_char(&mut r, upper_one(c[i]));
        proof {
            assert(upper(s@).take(i + 1) =~= upper(s@).take(i as int).push(upper_char(s@[i as int])));
        }
        i = i + 1;
    }
    proof {
        assert(upper(s@).take(s@.len() as int) =~= upper(s@));
    }
    r
}

/// Whether two strings are equal when ASCII case is ignored.
pub fn same_ignoring_case(a: &str, b: &str) -> (r: bool)
    ensures
        r == (lower(a@) == lower(b@)),
{
    let x = to_lower(a);
    let y = to_lower(b);
    same_text(x.as_str(), y.as_str())
}

/// The string without the run of `c` at its end.
pub fn trim_end_char(s: &str, c: char) -> (r: String)
    ensures
        r@ == trim_end(s@, c),
{
    let v = to_chars(s);
    let mut n: usize = v.len();
    while n > 0 && v[n - 1] == c
        invariant
            n <= v.len(),
            forall|i: int| n <= i < v.len() ==> v@[i] == c,
        decreases n,
    {
        n = n - 1;
    }
    proof {
        lemma_trim_end_is(v@, c, n as int);
    }
    to_text(&v[0..n])
}

/// The string without the run of `c` at its start.
pub fn trim_start_char(s: &str, c: char) -> (r: String)
    ensures
        r@ == trim_start(s@, c),
{
    let v = to_chars(s);
    let mut n: usize = 0;
    while n < v.len() && v[n] == c
        invariant
            n <= v.len(),
            forall|i: int| 0 <= i < n ==> v@[i] == c,
        decreases v.len() - n,
    {
        n = n + 1;
    }
    proof {
        lemma_trim_start_is(v@, c, n as int);
    }
    to_text(&v[n..v.len()])
}

/// The string without the runs of `c` at both ends.
pub fn trim_char(s: &str, c: char) -> (r: String)
    ensures
        r@ == trim_end(trim_start(s@, c), c),
{
    let t = trim_start_char(s, c);
    trim_end_char(t.as_str(), c)
}

/// The index of the first `c`, or the length.
pub fn span_of(s: &[char], c: char) -> (n: usize)
    ensures
        n == span(s@, c),
        n <= s@.len(),
{
    let mut i: usize = 0;
    while i < s.len() && s[i] != c
        invariant
            i <= s.len(),
            forall|j: int| 0 <= j < i ==> s@[j] != c,
        decreases s.len() - i,
    {
        i = i + 1;
    }
    proof {
        lemma_span(s@, c, i as int);
    }
    i
}

/// The pieces of a string between its separators.
pub fn split_text(s: &str, c: char) -> (r: Vec<String>)
    ensures
        texts(r@) == split(s@, c),
        r@.len() >= 1,
{
    let v = to_chars(s);
    let mut r: Vec<String> = Vec::new();
    let mut start: usize = 0;
    proof {
        assert(v@.skip(0) =~= v@);
        assert(texts(r@) + split(v@.skip(0), c) =~= split(v@, c));
    }
    loop
        invariant_except_break
            start <= v.len(),
            texts(r@) + split(v@.skip(start as int), c) == split(v@, c),
        invariant
            v@ == s@,
        ensures
            texts(r@) == split(v@, c),
            r@.len() >= 1,
        decreases v.len() - start,
    {
        let ghost before = texts(r@);
        let rest = &v[start..v.len()];
        let n = span_of(rest, c);
        proof {
            assert(rest@ =~= v@.skip(start as int));
        }
        let piece = to_text(&rest[0..n]);
        r.push(piece);
        proof {
            assert(rest@.subrange(0, n as int) =~= rest@.take(n as int));
            assert(texts(r@) =~= before.push(rest@.take(n as int)));
        }
        if n >= rest.len() {
            proof {
                assert(rest@.take(n as int) =~= rest@);
                assert(before.push(rest@) =~= before + seq![rest@]);
            }
            break;
        }
        proof {
            assert(rest@.skip(n as int + 1) =~= v@.skip(start + n + 1));
            assert(before + (seq![rest@.take(n as int)] + split(v@.skip(start + n + 1), c)) =~= before.push(
                rest@.take(n as int),
            ) + split(v@.skip(start + n + 1), c));
        }
        start = start + n + 1;
    }
    r
}

/// The strings put together with a separator between each two.
pub fn join_texts(parts: &Vec<String>, c: char) -> (r: String)
    ensures
        r@ == join(texts(parts@), c),
{
    let mut r: String = String::new();
    let mut i: usize = parts.len();
    proof {
        assert(texts(parts@).skip(parts@.len() as int) =~= Seq::<Seq<char>>::empty());
    }
    while i > 0
        invariant
            i <= parts.len(),
            r@ == join(texts(parts@).skip(i as int), c),
        decreases i,
    {
        i = i - 1;
        let mut piece: String = copy_text(parts[i].as_str());
        let ghost tail = texts(parts@).skip(i + 1);
        let ghost all = texts(parts@).skip(i as int);
        proof {
            assert(all.skip(1) =~= tail);
            assert(all[0] == parts@[i as int]@);
        }
        if i + 1 < parts.len() {
            push_char(&mut piece, c);
            piece.append(r.as_str());
            proof {
                assert(piece@ =~= all[0] + seq![c] + join(tail, c));
            }
        }
        r = piece;
    }
    proof {
        assert(texts(parts@).skip(0) =~= texts(parts@));
    }
    r
}

/// Whether a string begins with the given text.
pub fn text_starts_with(s: &str, prefix: &str) -> (r: bool)
    ensures
        r == starts_with(s@, prefix@),
{
    let v = to_chars(s);
    let p = to_chars(prefix);
    if p.len() > v.len() {
        return false;
    }
    proof {
        assert(v@.subrange(0, p@.len() as int) =~= v@.take(p@.len() as int));
    }
    same_chars(&v[0..p.len()], p.as_slice())
}

/// Whether a string ends with the given text.
pub fn text_ends_with(s: &str, suffix: &str) -> (r: bool)
    ensures
        r == ends_with(s@, suffix@),
{
    let v = to_chars(s);
    let p = to_chars(suffix);
    if p.len() > v.len() {
        return false;
    }
    let from: usize = v.len() - p.len();
    proof {
        assert(v@.subrange(from as int, v@.len() as int) =~= v@.skip(from as int));
    }
    same_chars(&v[from..v.len()], p.as_slice())
}

/// Whether the given text stands somewhere in a string.
pub fn text_contains(s: &str, part: &str) -> (r: bool)
    ensures
        r == has_part(s@, part@),
{
    let v = to_chars(s);
    let p = to_chars(part);
    if p.len() > v.len() {
        return false;
    }
    let last: usize = v.len() - p.len();
    let mut i: usize = 0;
    loop
        invariant
            i <= last,
            last == v.len() - p.len(),
            v@ == s@,
            p@ == part@,
            forall|j: int| 0 <= j < i ==> !stands_at(s@, part@, j),
        decreases last - i,
    {
        if same_chars(&v[i..i + p.len()], p.as_slice()) {
            proof {
                assert(stands_at(s@, part@, i as int));
            }
            return true;
        }
        proof {
            assert(!stands_at(s@, part@, i as int));
        }
        if i == last {
            return false;
        }
        i = i + 1;
    }
}

/// Whether a string holds the given character.
pub fn text_has_char(s: &str, c: char) -> (r: bool)
    ensures
        r == s@.contains(c),
{
    let v = to_chars(s);
    let n = span_of(v.as_slice(), c);
    proof {
        lemma_span_bounds(v@, c);
        if n < v@.len() {
            assert(v@[n as int] == c);
        }
    }
    n < v.len()
}

fn is_space_char(c: char) -> (r: bool)
    ensures
        r == is_space(c),
{
    let n: u32 = c as u32;
    (9 <= n && n <= 13) || n == 32 || n == 0x85 || n == 0xa0 || n == 0x1680 || (0x2000 <= n && n
        <= 0x200a) || n == 0x2028 || n == 0x2029 || n == 0x202f || n == 0x205f || n == 0x3000
}

/// The runs without white space, in order.
pub fn split_words(s: &str) -> (r: Vec<String>)
    ensures
        texts(r@) == words(s@),
{
    let v = to_chars(s);
    let mut r: Vec<String> = Vec::new();
    let mut i: usize = 0;
    proof {
        assert(v@.skip(0) =~= v@);
        assert(texts(r@) + words(v@) =~= words(v@));
    }
    while i < v.len()
        invariant
            i <= v.len(),
            v@ == s@,
            texts(r@) + words(v@.skip(i as int)) == words(v@),
        decreases v.len() - i,
    {
        let ghost rest = v@.skip(i as int);
        if is_space_char(v[i]) {
            proof {
                assert(rest.skip(1) =~= v@.skip(i + 1));
            }
            i = i + 1;
        } else {
            let ghost before = texts(r@);
            let mut e: usize = i;
            while e < v.len() && !is_space_char(v[e])
                invariant
                    i <= e <= v.len(),
                    forall|j: int| i <= j < e ==> !is_space(v@[j]),
                decreases v.len() - e,
            {
                e = e + 1;
            }
            proof {
                assert forall|j: int| 0 <= j < e - i implies !is_space(rest[j]) by {
                    assert(rest[j] == v@[i + j]);
                }
                if e < v.len() {
                    assert(rest[e - i] == v@[e as int]);
                }
                lemma_word_len(rest, e - i);
                assert(e > i);
            }
            r.push(to_text(&v[i..e]));
            proof {
                assert(v@.subrange(i as int, e as int) =~= rest.take(e - i));
                assert(rest.skip(e - i) =~= v@.skip(e as int));
                assert(texts(r@) =~= before.push(rest.take(e - i)));
                assert(before + (seq![rest.take(e - i)] + words(v@.skip(e as int))) =~= before.push(
                    rest.take(e - i),
                ) + words(v@.skip(e as int)));
            }
            i = e;
        }
    }
    proof {
        assert(words(v@.skip(i as int)) =~= Seq::<Seq<char>>::empty());
        assert(texts(r@) + Seq::<Seq<char>>::empty() =~= texts(r@));
    }
    r
}

/// The string without white space at either end.
pub fn trim_text(s: &str) -> (r: String)
    ensures
        r@ == trim_space(s@),
{
    let v = to_chars(s);
    let mut a: usize = 0;
    proof {
        assert(v@.skip(0) =~= v@);
    }
    while a < v.len() && is_space_char(v[a])
        invariant
            a <= v.len(),
            skip_space(v@.skip(a as int)) == skip_space(v@),
        decreases v.len() - a,
    {
        proof {
            assert(v@.skip(a as int).skip(1) =~= v@.skip(a + 1));
        }
        a = a + 1;
    }
    let mut b: usize = v.len();
    proof {
        assert(skip_space(v@) == v@.skip(a as int));
        assert(v@.subrange(a as int, b as int) =~= v@.skip(a as int));
    }
    while b > a && is_space_char(v[b - 1])
        invariant
            a <= b <= v.len(),
            drop_space(v@.subrange(a as int, b as int)) == drop_space(v@.skip(a as int)),
        decreases b,
    {
        proof {
            assert(v@.subrange(a as int, b as int).drop_last() =~= v@.subrange(a as int, b - 1));
        }
        b = b - 1;
    }
    to_text(&v[a..b])
}

/// An unsigned decimal number of at most `max`.
pub fn parse_number(s: &str, max: u64) -> (r: Option<u64>)
    ensures
        r matches Some(n) ==> number(s@, max as nat) == Some(n as nat),
        r is None ==> number(s@, max as nat) is None,
{
    let v = to_chars(s);
    let start: usize = if v.len() > 0 && v[0] == '+' {
        1
    } else {
        0
    };
    if start >= v.len() {
        return None;
    }
    let ghost digits = v@.skip(start as int);
    proof {
        assert(v@.skip(0) =~= v@);
    }
    let mut i: usize = start;
    let mut n: u64 = 0;
    while i < v.len()
        invariant
            start <= i <= v.len(),
            v@ == s@,
            digits == v@.skip(start as int),
            number(s@, max as nat) == (if is_digits(digits) && digits_value(digits) <= max {
                Some(digits_value(digits))
            } else {
                None
            }),
            forall|j: int| 0 <= j < i - start ==> is_digit(#[trigger] digits[j]),
            n == digits_value(digits.take(i - start)),
            n <= max,
        decreases v.len() - i,
    {
        let c = v[i];
        if c < '0' || c > '9' {
            proof {
                assert(!is_digit(digits[i - start]));
            }
            return None;
        }
        let d: u64 = (c as u32 - 48) as u64;
        proof {
            let t = digits.take(i - start + 1);
            assert(t.drop_last() =~= digits.take(i - start));
            assert(t.last() == c);
            assert(digits_value(t) == n * 10 + d);
            lemma_digits_prefix(digits, i - start + 1);
        }
        if d > max || n > (max - d) / 10 {
            return None;
        }
        n = n * 10 + d;
        i = i + 1;
    }
    proof {
        assert(digits.take(v@.len() - start) =~= digits);
    }
    Some(n)
}

/// The decimal digits of a number.
pub fn to_decimal(n: u64) -> (r: String)
    ensures
        r@ == decimal(n as nat),
    decreases n,
{
    let digit: char = ((n % 10) as u8 + 48) as char;
    let mut r: String = if n < 10 {
        String::new()
    } else {
        to_decimal(n / 10)
    };
    push_char(&mut r, digit);
    proof {
        if n < 10 {
            assert(r@ =~= decimal(n as nat));
        }
    }
    r
}

/// The first place from `i` on at which a part stands.
pub open spec fn part_from(s: Seq<char>, part: Seq<char>, i: int) -> Option<int>
    decreases s.len() - i + 1,
{
    if i < 0 || i + part.len() > s.len() {
        None
    } else if stands_at(s, part, i) {
        Some(i)
    } else {
        part_from(s, part, i + 1)
    }
}

/// What stands before and behind the first place of a part, if it is there.
pub open spec fn cut_once(s: Seq<char>, part: Seq<char>) -> Option<(Seq<char>, Seq<char>)> {
    match part_from(s, part, 0) {
        Some(i) => Some((s.take(i), s.skip(i + part.len()))),
        None => None,
    }
}

/// What stands before and behind the first place of a part.
pub fn split_at_text(s: &str, part: &str) -> (r: Option<(String, String)>)
    ensures
        match r {
            Some((a, b)) => cut_once(s@, part@) == Some((a@, b@)),
            None => cut_once(s@, part@) is None,
        },
{
    let v = to_chars(s);
    let p = to_chars(part);
    if p.len() > v.len() {
        return None;
    }
    let total: usize = v.len();
    let last: usize = total - p.len();
    let mut i: usize = 0;
    while i <= last
        invariant
            v@ == s@,
            p@ == part@,
            total == v@.len(),
            last == v@.len() - p@.len(),
            i <= last + 1,
            part_from(v@, p@, 0) == part_from(v@, p@, i as int),
        decreases last + 1 - i,
    {
        if same_chars(&v.as_slice()[i..i + p.len()], p.as_slice()) {
            proof {
                assert(v@.subrange(0, i as int) =~= v@.take(i as int));
                assert(v@.subrange(i + p@.len(), v@.len() as int) =~= v@.skip(i + p@.len()));
            }
            let n: usize = i + p.len();
            return Some((to_text(&v.as_slice()[0..i]), to_text(&v.as_slice()[n..v.len()])));
        }
        if i == last {
            proof {
                assert(part_from(v@, p@, i + 1) is None);
            }
            return None;
        }
        i = i + 1;
    }
    None
}

/// Texts put together.
pub open spec fn flat(parts: Seq<Seq<char>>) -> Seq<char>
    decreases parts.len(),
{
    if parts.len() == 0 {
        Seq::empty()
    } else {
        flat(parts.drop_last()) + parts.last()
    }
}

/// A text without white space.
pub fn without_space(s: &str) -> (r: String)
    ensures
        r@ == flat(words(s@)),
{
    let parts = split_words(s);
    let ghost all = texts(parts@);
    let mut r = String::new();
    let mut i: usize = 0;
    proof {
        assert(all.take(0) =~= Seq::<Seq<char>>::empty());
        assert(r@ =~= Seq::<char>::empty());
    }
    while i < parts.len()
        invariant
            i <= parts@.len(),
            all == texts(parts@),
            r@ == flat(all.take(i as int)),
        decreases parts@.len() - i,
    {
        proof {
            assert(all.take(i + 1).drop_last() =~= all.take(i as int));
            assert(all.take(i + 1).last() == parts@[i as int]@);
        }
        r.append(parts[i].as_str());
        i = i + 1;
    }
    proof {
        assert(all.take(i as int) =~= all);
    }
    r
}

/// A configured text or the one that stands for none.
pub open spec fn text_or(value: Option<Seq<char>>, default: Seq<char>) -> Seq<char> {
    match value {
        Some(v) => v,
        None => default,
    }
}

/// A configured text or the one that stands for none.
pub fn or_text(value: &Option<String>, default: &str) -> (r: String)
    ensures
        r@ == text_or(opt_text(*value), default@),
{
    match value {
        Some(v) => copy_text(v.as_str()),
        None => copy_text(default),
    }
}

/// A text is cut into lines at its line feeds, with or without a carriage return in
/// front of them, and what stands behind the last one is a line unless it is empty.
pub proof fn lines_end_at_line_feeds(line: Seq<char>, rest: Seq<char>)
    requires
        !line.contains('\n'),
    ensures
        line.len() == 0 || line.last() != '\r' ==> lines(line + seq!['\n'] + rest) == seq![line]
            + lines(rest),
        lines(line + seq!['\r', '\n'] + rest) == seq![line] + lines(rest),
        line.len() > 0 ==> lines(line) == seq![line],
        lines(Seq::<char>::empty()).len() == 0,
{
    let n = line.len() as int;
    assert forall|i: int| 0 <= i < n implies line[i] != '\n' by {
        assert(line.contains(line[i]));
    }
    let a = line + seq!['\n'] + rest;
    lemma_span(a, '\n', n);
    assert(a.take(n) =~= line);
    assert(a.skip(n + 1) =~= rest);
    let b = line + seq!['\r', '\n'] + rest;
    lemma_span(b, '\n', n + 1);
    assert(b.take(n + 1) =~= line.push('\r'));
    assert(line.push('\r').drop_last() =~= line);
    assert(b.skip(n + 2) =~= rest);
    lemma_span(line, '\n', n);
}

/// Words are what stands between white space: a word in front of some is the first,
/// and white space in front of all is passed over.
pub proof fn words_stand_between_spaces(word: Seq<char>, space: char, rest: Seq<char>)
    requires
        word.len() > 0,
        forall|i: int| 0 <= i < word.len() ==> !is_space(#[trigger] word[i]),
        is_space(space),
    ensures
        words(word + seq![space] + rest) == seq![word] + words(rest),
        words(seq![space] + rest) == words(rest),
        words(word) == seq![word],
        words(Seq::<char>::empty()).len() == 0,
{
    let n = word.len() as int;
    let a = word + seq![space] + rest;
    lemma_word_len(a, n);
    assert(!is_space(a[0])) by {
        assert(a[0] == word[0]);
    }
    assert(a.take(n) =~= word);
    let tail = seq![space] + rest;
    assert(a.skip(n) =~= tail);
    assert(tail.skip(1) =~= rest);
    assert(tail[0] == space);
    assert(words(tail) == words(rest));
    assert(words(a) == seq![a.take(n)] + words(a.skip(n)));
    lemma_word_len(word, n);
    assert(word.take(n) =~= word);
    assert(word.skip(n) =~= Seq::<char>::empty());
    assert(words(word.skip(n)) =~= Seq::<Seq<char>>::empty());
    assert(words(word) =~= seq![word]);
}

/// A text is cut at the first place where a part stands.
pub proof fn texts_are_cut_at_the_first_place(s: Seq<char>, part: Seq<char>)
    ensures
        match cut_once(s, part) {
            Some((a, b)) => s == a + part + b && forall|i: int|
                0 <= i < a.len() ==> !#[trigger] stands_at(s, part, i),
            None => !has_part(s, part),
        },
{
    lemma_part_from(s, part, 0);
    match part_from(s, part, 0) {
        Some(i) => {
            assert(s =~= s.take(i) + s.subrange(i, i + part.len()) + s.skip(i + part.len()));
        },
        None => {},
    }
}

proof fn lemma_part_from(s: Seq<char>, part: Seq<char>, i: int)
    requires
        0 <= i,
    ensures
        match part_from(s, part, i) {
            Some(j) => i <= j && stands_at(s, part, j) && forall|k: int|
                i <= k < j ==> !#[trigger] stands_at(s, part, k),
            None => forall|k: int| i <= k ==> !#[trigger] stands_at(s, part, k),
        },
    decreases s.len() - i + 1,
{
    if i + part.len() <= s.len() && !stands_at(s, part, i) {
        lemma_part_from(s, part, i + 1);
    }
}

/// Digits count by ten, a plus in front of them changes nothing, and what is too
/// large or holds anything else is no number.
pub proof fn numbers_count_by_ten(s: Seq<char>, c: char, max: nat)
    requires
        s.len() > 0,
        s[0] != '+',
    ensures
        is_digits(s) && is_digit(c) ==> digits_value(s.push(c)) == 10 * digits_value(s) + (c as nat
            - '0' as nat),
        number(s, max) matches Some(n) ==> is_digits(s) && n == digits_value(s) && n <= max,
        is_digits(s) && digits_value(s) <= max ==> number(s, max) == Some(digits_value(s)),
        number(seq!['+'] + s, max) == number(s, max),
{
    assert(s.push(c).drop_last() =~= s);
    assert((seq!['+'] + s).skip(1) =~= s);
}

/// Letters of ASCII are put in lower case, and every other letter stays.
pub proof fn lower_case(s: Seq<char>, i: int)
    requires
        0 <= i < s.len(),
    ensures
        lower(s).len() == s.len(),
        'A' <= s[i] <= 'Z' ==> lower(s)[i] as nat == s[i] as nat + 32,
        !('A' <= s[i] <= 'Z') ==> lower(s)[i] == s[i],
        'a' <= s[i] <= 'z' ==> upper(s)[i] as nat + 32 == s[i] as nat,
        !('a' <= s[i] <= 'z') ==> upper(s)[i] == s[i],
{
}

} // verus!
