//! Lengths of time and how they are written in configuration.
use crate::text;
use vstd::prelude::*;

verus! {

/// A length of time in milliseconds.
#[derive(Clone, Copy, Debug, PartialEq, Eq, Structural)]
pub struct Duration {
    pub millis: u128,
}

/// A text is not a length of time.
#[derive(Clone, Copy, Debug, PartialEq, Eq, Structural)]
pub struct InvalidDuration;

impl Duration {
    pub fn from_secs(secs: u64) -> (r: Duration)
        ensures
            r.millis == secs * 1000,
    {
        Duration { millis: secs as u128 * 1000 }
    }

    pub fn from_millis(millis: u64) -> (r: Duration)
        ensures
            r.millis == millis,
    {
        Duration { millis: millis as u128 }
    }

    /// The longer of two lengths of time.
    pub fn max(self, other: Duration) -> (r: Duration)
        ensures
            r.millis == (if self.millis >= other.millis {
                self.millis
            } else {
                other.millis
            }),
    {
        if self.millis >= other.millis {
            self
        } else {
            other
        }
    }
}

/// The number in front of a unit: an unsigned 64-bit one.
pub open spec fn amount(s: Seq<char>, unit: Seq<char>) -> Option<nat> {
    if text::ends_with(s, unit) {
        text::number(s.take(s.len() - unit.len()), u64::MAX as nat)
    } else {
        None
    }
}

/// A number times a factor, but at most the largest 64-bit number.
pub open spec fn times(n: nat, factor: nat) -> nat {
    if n * factor <= u64::MAX {
        n * factor
    } else {
        u64::MAX as nat
    }
}

/// The milliseconds that a text stands for: a whole number and one of the units
/// `ms`, `s`, `m` and `h`.
pub open spec fn duration_millis(s: Seq<char>) -> Option<nat> {
    if amount(s, "ms"@) is Some {
        amount(s, "ms"@)
    } else if amount(s, "s"@) is Some {
        Some(amount(s, "s"@)->0 * 1000)
    } else if amount(s, "m"@) is Some {
        Some(times(amount(s, "m"@)->0, 60) * 1000)
    } else if amount(s, "h"@) is Some {
        Some(times(amount(s, "h"@)->0, 3600) * 1000)
    } else {
        None
    }
}

fn read_amount(s: &str, unit: &str) -> (r: Option<u64>)
    ensures
        match r {
            Some(n) => amount(s@, unit@) == Some(n as nat),
            None => amount(s@, unit@) is None,
        },
{
    if !text::text_ends_with(s, unit) {
        return None;
    }
    let v = text::to_chars(s);
    let u = text::to_chars(unit);
    let end: usize = v.len() - u.len();
    proof {
        assert(v@.subrange(0, end as int) =~= s@.take(s@.len() - unit@.len()));
    }
    let digits = text::to_text(&v[0..end]);
    text::parse_number(digits.as_str(), u64::MAX)
}

fn multiply(n: u64, factor: u64) -> (r: u64)
    ensures
        r == times(n as nat, factor as nat),
{
    match n.checked_mul(factor) {
        Some(r) => r,
        None => u64::MAX,
    }
}

/// Reads a length of time.
pub fn parse_duration(s: &str) -> (r: Result<Duration, InvalidDuration>)
    ensures
        match r {
            Ok(d) => duration_millis(s@) == Some(d.millis as nat),
            Err(_) => duration_millis(s@) is None,
        },
{
    match read_amount(s, "ms") {
        Some(n) => {
            return Ok(Duration::from_millis(n));
        },
        None => {},
    }
    match read_amount(s, "s") {
        Some(n) => {
            return Ok(Duration::from_secs(n));
        },
        None => {},
    }
    match read_amount(s, "m") {
        Some(n) => {
            return Ok(Duration::from_secs(multiply(n, 60)));
        },
        None => {},
    }
    match read_amount(s, "h") {
        Some(n) => Ok(Duration::from_secs(multiply(n, 3600))),
        None => Err(InvalidDuration),
    }
}

/// A length of time, or a default where none is given.
pub fn parse_duration_or(value: Option<&str>, default: Duration) -> (r: Result<
    Duration,
    InvalidDuration,
>)
    ensures
        match value {
            None => r == Ok::<Duration, InvalidDuration>(default),
            Some(s) => match r {
                Ok(d) => duration_millis(s@) == Some(d.millis as nat),
                Err(_) => duration_millis(s@) is None,
            },
        },
{
    match value {
        None => Ok(default),
        Some(s) => parse_duration(s),
    }
}

/// The milliseconds of an optional text: 300 where there is none or it cannot be
/// read.
pub open spec fn lenient_millis(value: Option<Seq<char>>) -> nat {
    match value {
        Some(s) => match duration_millis(s) {
            Some(n) => n,
            None => 300,
        },
        None => 300,
    }
}

/// A length of time, or 300 milliseconds where none can be read.
pub fn parse_duration_lenient(value: Option<&str>) -> (r: Duration)
    ensures
        r.millis == lenient_millis(text::opt_str(value)),
{
    match value {
        Some(s) => match parse_duration(s) {
            Ok(d) => d,
            Err(_) => Duration::from_millis(300),
        },
        None => Duration::from_millis(300),
    }
}

/// The milliseconds of an option: a default where it is not set, else as read.
pub open spec fn option_millis(value: Option<Seq<char>>, default: nat) -> nat {
    match value {
        Some(_) => lenient_millis(value),
        None => default,
    }
}

/// The length of time that an option sets, or a default.
pub fn option_duration(value: &Option<String>, default: Duration) -> (r: Duration)
    ensures
        r.millis == option_millis(text::opt_text(*value), default.millis as nat),
{
    match value {
        Some(s) => parse_duration_lenient(Some(s.as_str())),
        None => default,
    }
}

/// A number in front of a unit is read as so many of it: milliseconds, seconds,
/// minutes or hours. More minutes or hours than can be counted in seconds are as
/// many as can.
pub proof fn durations_are_read_as_written(n: u64)
    ensures
        duration_millis(text::decimal(n as nat) + "ms"@) == Some(n as nat),
        duration_millis(text::decimal(n as nat) + "s"@) == Some((n * 1000) as nat),
        n * 60 <= u64::MAX ==> duration_millis(text::decimal(n as nat) + "m"@) == Some(
            (n * 60 * 1000) as nat,
        ),
        n * 3600 <= u64::MAX ==> duration_millis(text::decimal(n as nat) + "h"@) == Some(
            (n * 60 * 60 * 1000) as nat,
        ),
        n * 60 > u64::MAX ==> duration_millis(text::decimal(n as nat) + "m"@) == Some(
            (u64::MAX * 1000) as nat,
        ),
        n * 3600 > u64::MAX ==> duration_millis(text::decimal(n as nat) + "h"@) == Some(
            (u64::MAX * 1000) as nat,
        ),
{
    let d = text::decimal(n as nat);
    text::decimal_reads_back(n as nat, u64::MAX as nat);
    text::lemma_decimal_number(n as nat);
    reveal_strlit("ms");
    reveal_strlit("s");
    reveal_strlit("m");
    reveal_strlit("h");
    assert(text::is_digit(d[d.len() - 1]));
    lemma_unit(d, "ms"@, "ms"@);
    lemma_unit(d, "s"@, "ms"@);
    lemma_unit(d, "s"@, "s"@);
    lemma_unit(d, "m"@, "ms"@);
    lemma_unit(d, "m"@, "s"@);
    lemma_unit(d, "m"@, "m"@);
    lemma_unit(d, "h"@, "ms"@);
    lemma_unit(d, "h"@, "s"@);
    lemma_unit(d, "h"@, "m"@);
    lemma_unit(d, "h"@, "h"@);
    let k = n as nat;
    if n * 60 <= u64::MAX {
        assert(times(k, 60) == k * 60);
    }
    if n * 3600 <= u64::MAX {
        assert(times(k, 3600) == k * 3600);
    }
    assert("ms"@.len() == 2);
    assert("s"@[0] != "m"@[0] && "s"@[0] != "h"@[0] && "m"@[0] != "h"@[0]);
}

proof fn lemma_unit(d: Seq<char>, unit: Seq<char>, other: Seq<char>)
    requires
        d.len() > 0,
        text::is_digit(d.last()),
        unit == "ms"@ || unit == "s"@ || unit == "m"@ || unit == "h"@,
        other == "ms"@ || other == "s"@ || other == "m"@ || other == "h"@,
        unit != "ms"@ || other == "ms"@,
    ensures
        amount(d + unit, other) == (if unit == other {
            text::number(d, u64::MAX as nat)
        } else {
            None
        }),
{
    reveal_strlit("ms");
    reveal_strlit("s");
    reveal_strlit("m");
    reveal_strlit("h");
    let s = d + unit;
    if unit == other {
        assert(s.take(s.len() - unit.len()) =~= d);
        assert(s.skip(s.len() - unit.len()) =~= unit);
    } else {
        if text::ends_with(s, other) {
            let end = s.skip(s.len() - other.len());
            assert(end.last() == s.last());
            assert(end.last() == other.last());
            if other == "ms"@ {
                assert(end[0] == s[s.len() - 2]);
                assert(s[s.len() - 2] == d.last());
            }
        }
    }
}

/// A limit that is set but cannot be read is as short as one that is not set where
/// no default is given; one that is not set is the default.
pub proof fn unreadable_limits(value: Option<Seq<char>>, default: nat)
    ensures
        value is None ==> option_millis(value, default) == default && lenient_millis(value) == 300,
        value is Some && duration_millis(value->0) is None ==> option_millis(value, default) == 300
            && lenient_millis(value) == 300,
        value is Some && duration_millis(value->0) is Some ==> option_millis(value, default)
            == duration_millis(value->0)->0 && lenient_millis(value) == duration_millis(
            value->0,
        )->0,
{
}

} // verus!
