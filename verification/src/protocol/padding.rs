//! Texts of a given length that fill requests and responses up.
use crate::encoding;
use crate::text;
use vstd::arithmetic::div_mod::{lemma_fundamental_div_mod, lemma_mod_multiples_vanish};
use vstd::prelude::*;

verus! {

// ---- the length of a text in a header ----

/// The code of a text of a header in HTTP/2, where it has one.
pub uninterp spec fn huffman(value: Seq<u8>) -> Option<Seq<u8>>;

pub open spec fn is_letter(b: u8) -> bool {
    0x30 <= b <= 0x39 || 0x41 <= b <= 0x5a || 0x61 <= b <= 0x7a
}

/// How many bits the code of a letter or a digit has: five for `0`, `1`, `2`, `a`,
/// `c`, `e`, `i`, `o`, `s` and `t`; six for the other digits, for `A` and for `b`,
/// `d`, `f`, `g`, `h`, `l`, `m`, `n`, `p`, `r` and `u`; eight for `X` and `Z`; and
/// seven for the rest.
pub open spec fn code_bits(b: u8) -> nat {
    if 0x30 <= b <= 0x32 || b == 0x61 || b == 0x63 || b == 0x65 || b == 0x69 || b == 0x6f || b
        == 0x73 || b == 0x74 {
        5
    } else if 0x33 <= b <= 0x39 || b == 0x41 || b == 0x62 || b == 0x64 || 0x66 <= b <= 0x68 || 0x6c
        <= b <= 0x6e || b == 0x70 || b == 0x72 || b == 0x75 {
        6
    } else if b == 0x58 || b == 0x5a {
        8
    } else {
        7
    }
}

/// How many bits the code of letters and digits has.
pub open spec fn text_bits(value: Seq<u8>) -> nat
    decreases value.len(),
{
    if value.len() == 0 {
        0
    } else {
        text_bits(value.drop_last()) + code_bits(value.last())
    }
}

pub open spec fn all_letters(value: Seq<u8>) -> bool {
    forall|i: int| 0 <= i < value.len() ==> is_letter(#[trigger] value[i])
}

/// Calls `encode` of the crate `httlib_huffman`, which writes a text in the code
/// of HTTP/2 for headers. Of a text of letters and digits it is said how long its
/// code is: the bits of its letters, filled up to whole bytes. How the code of
/// other texts looks is not said here.
#[verifier::external_body]
fn encode_huffman(value: &[u8]) -> (r: Option<Vec<u8>>)
    ensures
        encoding::opt_bytes(r) == huffman(value@),
        all_letters(value@) ==> r is Some && r->0@.len() == (text_bits(value@) + 7) / 8,
{
    let mut code = Vec::new();
    httlib_huffman::encode(value, &mut code).ok().map(|_| code)
}

/// The length of a text in a header: that of its code, or its own where it has
/// none.
pub open spec fn coded_length(value: Seq<u8>) -> nat {
    match huffman(value) {
        Some(code) => code.len(),
        None => value.len(),
    }
}

/// The length of a text in a header of HTTP/2.
pub fn huffman_length(value: &[u8]) -> (r: usize)
    ensures
        r == coded_length(value@),
        all_letters(value@) ==> r == (text_bits(value@) + 7) / 8,
{
    match encode_huffman(value) {
        Some(code) => code.len(),
        None => value.len(),
    }
}

// ---- the letters of a padding ----

/// The letter with a number below 62: digits, capital letters, small letters.
pub open spec fn letter(k: int) -> u8 {
    if k < 10 {
        (0x30 + k) as u8
    } else if k < 36 {
        (0x41 + k - 10) as u8
    } else {
        (0x61 + k - 36) as u8
    }
}

/// The letter at a place of a padding of some length.
pub open spec fn letter_at(length: nat, i: int) -> u8 {
    letter((i * 37 + length * 17) % 62)
}

/// The first letters of a padding of some length.
pub open spec fn letters(length: nat, n: nat) -> Seq<u8> {
    Seq::new(n, |i: int| letter_at(length, i))
}

/// How many letters a padding of some length has: from `n` on, as few as make its
/// code at least that long.
pub open spec fn letter_count(length: nat, n: nat) -> nat
    decreases length + length / 2 + 8 - n,
{
    if n >= length + length / 2 + 8 || (text_bits(letters(length, n)) + 7) / 8 >= length {
        n
    } else {
        letter_count(length, n + 1)
    }
}

/// The padding of a method and a length: letters whose code is that long, or that
/// many times `X`.
pub open spec fn padding(method: Seq<char>, length: nat) -> Seq<char> {
    if method == "tokenish"@ {
        crate::header::ascii(letters(length, letter_count(length, 1)))
    } else {
        Seq::new(length, |i: int| 'X')
    }
}

proof fn lemma_letter(length: nat, i: int)
    ensures
        is_letter(letter_at(length, i)),
        5 <= code_bits(letter_at(length, i)) <= 8,
{
    lemma_fundamental_div_mod(i * 37 + length * 17, 62);
    assert(0 <= (i * 37 + length * 17) % 62 < 62);
}

proof fn lemma_letters(length: nat, n: nat)
    ensures
        all_letters(letters(length, n)),
        letters(length, n + 1) == letters(length, n).push(letter_at(length, n as int)),
        text_bits(letters(length, n + 1)) == text_bits(letters(length, n)) + code_bits(
            letter_at(length, n as int),
        ),
        5 <= code_bits(letter_at(length, n as int)) <= 8,
{
    assert forall|i: int| 0 <= i < n implies is_letter(#[trigger] letters(length, n)[i]) by {
        lemma_letter(length, i);
    }
    assert(letters(length, n + 1) =~= letters(length, n).push(letter_at(length, n as int)));
    assert(letters(length, n + 1).drop_last() =~= letters(length, n));
    lemma_letter(length, n as int);
}

// ---- 62 letters in a row ----

/// The bits of `n` letters from a place on, where the place of the first is
/// shifted by `shift`.
spec fn run_bits(shift: int, from: int, n: nat) -> nat
    decreases n,
{
    if n == 0 {
        0
    } else {
        run_bits(shift, from, (n - 1) as nat) + code_bits(letter(((from + n - 1) * 37 + shift) % 62))
    }
}

proof fn lemma_same_place(a: int, b: int, k: int)
    requires
        a == b + 62 * k,
    ensures
        a % 62 == b % 62,
{
    lemma_mod_multiples_vanish(k, b, 62);
}

/// A run that starts one place later has the same bits where it is 62 long.
proof fn lemma_slide(from: int, n: nat)
    requires
        n >= 1,
    ensures
        run_bits(0, from + 1, n) + code_bits(letter((from * 37) % 62)) == run_bits(0, from, n)
            + code_bits(letter(((from + n) * 37) % 62)),
    decreases n,
{
    if n > 1 {
        lemma_slide(from, (n - 1) as nat);
    } else {
        assert(run_bits(0, from + 1, 0) == 0);
        assert(run_bits(0, from, 0) == 0);
        assert(((from + 1) + 1 - 1) * 37 + 0 == (from + 1) * 37);
        assert((from + 1 - 1) * 37 + 0 == from * 37);
    }
}

proof fn lemma_cycle_start(from: nat)
    ensures
        run_bits(0, from as int, 62) == run_bits(0, 0, 62),
    decreases from,
{
    if from > 0 {
        let f = from - 1;
        lemma_cycle_start(f as nat);
        lemma_slide(f, 62);
        assert((f + 62) * 37 == f * 37 + 62 * 37);
        lemma_same_place((f + 62) * 37, f * 37, 37);
    }
}

/// One letter more in the first run.
proof fn lemma_run_next(n: nat, place: int, bits: nat)
    requires
        place == (n * 37) % 62,
        code_bits(letter(place)) == bits,
    ensures
        run_bits(0, 0, n + 1) == run_bits(0, 0, n) + bits,
{
    assert((0 + (n + 1) - 1) * 37 + 0 == n * 37);
}

proof fn lemma_first_cycle_0()
    ensures
        run_bits(0, 0, 8) == run_bits(0, 0, 0) + 50,
{
    lemma_run_next(0, 0, 5);
    lemma_run_next(1, 37, 6);
    lemma_run_next(2, 12, 7);
    lemma_run_next(3, 49, 6);
    lemma_run_next(4, 24, 7);
    lemma_run_next(5, 61, 7);
    lemma_run_next(6, 36, 5);
    lemma_run_next(7, 11, 7);
}

proof fn lemma_first_cycle_8()
    ensures
        run_bits(0, 0, 16) == run_bits(0, 0, 8) + 54,
{
    lemma_run_next(8, 48, 6);
    lemma_run_next(9, 23, 7);
    lemma_run_next(10, 60, 7);
    lemma_run_next(11, 35, 8);
    lemma_run_next(12, 10, 6);
    lemma_run_next(13, 47, 6);
    lemma_run_next(14, 22, 7);
    lemma_run_next(15, 59, 7);
}

proof fn lemma_first_cycle_16()
    ensures
        run_bits(0, 0, 24) == run_bits(0, 0, 16) + 55,
{
    lemma_run_next(16, 34, 7);
    lemma_run_next(17, 9, 6);
    lemma_run_next(18, 46, 7);
    lemma_run_next(19, 21, 7);
    lemma_run_next(20, 58, 7);
    lemma_run_next(21, 33, 8);
    lemma_run_next(22, 8, 6);
    lemma_run_next(23, 45, 7);
}

proof fn lemma_first_cycle_24()
    ensures
        run_bits(0, 0, 32) == run_bits(0, 0, 24) + 52,
{
    lemma_run_next(24, 20, 7);
    lemma_run_next(25, 57, 7);
    lemma_run_next(26, 32, 7);
    lemma_run_next(27, 7, 6);
    lemma_run_next(28, 44, 5);
    lemma_run_next(29, 19, 7);
    lemma_run_next(30, 56, 6);
    lemma_run_next(31, 31, 7);
}

proof fn lemma_first_cycle_32()
    ensures
        run_bits(0, 0, 40) == run_bits(0, 0, 32) + 50,
{
    lemma_run_next(32, 6, 6);
    lemma_run_next(33, 43, 6);
    lemma_run_next(34, 18, 7);
    lemma_run_next(35, 55, 5);
    lemma_run_next(36, 30, 7);
    lemma_run_next(37, 5, 6);
    lemma_run_next(38, 42, 6);
    lemma_run_next(39, 17, 7);
}

proof fn lemma_first_cycle_40()
    ensures
        run_bits(0, 0, 48) == run_bits(0, 0, 40) + 50,
{
    lemma_run_next(40, 54, 5);
    lemma_run_next(41, 29, 7);
    lemma_run_next(42, 4, 6);
    lemma_run_next(43, 41, 6);
    lemma_run_next(44, 16, 7);
    lemma_run_next(45, 53, 6);
    lemma_run_next(46, 28, 7);
    lemma_run_next(47, 3, 6);
}

proof fn lemma_first_cycle_48()
    ensures
        run_bits(0, 0, 56) == run_bits(0, 0, 48) + 50,
{
    lemma_run_next(48, 40, 5);
    lemma_run_next(49, 15, 7);
    lemma_run_next(50, 52, 7);
    lemma_run_next(51, 27, 7);
    lemma_run_next(52, 2, 5);
    lemma_run_next(53, 39, 6);
    lemma_run_next(54, 14, 7);
    lemma_run_next(55, 51, 6);
}

proof fn lemma_first_cycle_56()
    ensures
        run_bits(0, 0, 62) == run_bits(0, 0, 56) + 36,
{
    lemma_run_next(56, 26, 7);
    lemma_run_next(57, 1, 5);
    lemma_run_next(58, 38, 5);
    lemma_run_next(59, 13, 7);
    lemma_run_next(60, 50, 5);
    lemma_run_next(61, 25, 7);
}

proof fn lemma_first_cycle()
    ensures
        run_bits(0, 0, 62) == 397,
{
    lemma_first_cycle_0();
    lemma_first_cycle_8();
    lemma_first_cycle_16();
    lemma_first_cycle_24();
    lemma_first_cycle_32();
    lemma_first_cycle_40();
    lemma_first_cycle_48();
    lemma_first_cycle_56();
    assert(run_bits(0, 0, 0) == 0);
}

/// A run with a shift is the run without one from a later place on.
proof fn lemma_shift(shift: nat, from: nat, n: nat)
    ensures
        run_bits(shift as int, from as int, n) == run_bits(0, (from + 57 * shift) as int, n),
    decreases n,
{
    if n > 0 {
        lemma_shift(shift, from, (n - 1) as nat);
        let a = (from + 57 * shift + n - 1) * 37;
        let b = (from + n - 1) * 37 + shift;
        assert(a == b + 62 * (34 * shift)) by (nonlinear_arith)
            requires
                a == (from + 57 * shift + n - 1) * 37,
                b == (from + n - 1) * 37 + shift,
        ;
        lemma_same_place(a, b, 34 * shift as int);
    }
}

proof fn lemma_runs_join(shift: int, from: int, n: nat, m: nat)
    ensures
        run_bits(shift, from, n + m) == run_bits(shift, from, n) + run_bits(shift, from + n, m),
    decreases m,
{
    if m > 0 {
        lemma_runs_join(shift, from, n, (m - 1) as nat);
        assert((n + m - 1) as nat == n + (m - 1) as nat);
    }
}

proof fn lemma_run_least(shift: nat, from: nat, n: nat)
    ensures
        run_bits(shift as int, from as int, n) >= 5 * n + 87 * (n / 62),
    decreases n,
{
    if n < 62 {
        lemma_run_five(shift, from, n);
    } else {
        let rest = (n - 62) as nat;
        lemma_run_least(shift, from + 62, rest);
        lemma_runs_join(shift as int, from as int, 62, rest);
        lemma_shift(shift, from, 62);
        lemma_cycle_start(from + 57 * shift);
        lemma_first_cycle();
        assert(n == 62 + rest);
        assert(n / 62 == rest / 62 + 1);
    }
}

proof fn lemma_run_five(shift: nat, from: nat, n: nat)
    ensures
        run_bits(shift as int, from as int, n) >= 5 * n,
    decreases n,
{
    if n > 0 {
        lemma_run_five(shift, from, (n - 1) as nat);
    }
}

proof fn lemma_letters_run(length: nat, n: nat)
    ensures
        text_bits(letters(length, n)) == run_bits((length * 17) as int, 0, n),
    decreases n,
{
    if n > 0 {
        let m = (n - 1) as nat;
        lemma_letters_run(length, m);
        lemma_letters(length, m);
    } else {
        assert(letters(length, 0) =~= Seq::<u8>::empty());
    }
}

/// Before the letters run out their code is long enough.
proof fn lemma_enough_letters(length: nat)
    ensures
        (text_bits(letters(length, length + length / 2 + 8)) + 7) / 8 >= length,
{
    let n = length + length / 2 + 8;
    lemma_letters_run(length, n);
    lemma_run_least(length * 17, 0, n);
    let k = n / 62;
    assert(62 * k + 61 >= n);
    assert(5 * n + 87 * k + 7 >= 8 * length);
}

proof fn lemma_count(length: nat, n: nat)
    requires
        1 <= n <= length + length / 2 + 8,
        n > 1 ==> (text_bits(letters(length, (n - 1) as nat)) + 7) / 8 < length,
    ensures
        n <= letter_count(length, n) <= length + length / 2 + 8,
        length >= 1 ==> (text_bits(letters(length, letter_count(length, n))) + 7) / 8 == length,
        length == 0 ==> letter_count(length, n) == n,
    decreases length + length / 2 + 8 - n,
{
    let m = (n - 1) as nat;
    lemma_letters(length, m);
    lemma_letters_run(length, 0);
    lemma_enough_letters(length);
    if n >= length + length / 2 + 8 || (text_bits(letters(length, n)) + 7) / 8 >= length {
        if n == 1 {
            assert(letters(length, 0) =~= Seq::<u8>::empty());
        }
    } else {
        lemma_count(length, n + 1);
    }
}

/// The length of a padding of letters in a header is the length asked for, or one
/// where none is asked for; a padding of `X` has as many letters as asked for.
pub proof fn padding_has_its_length(method: Seq<char>, length: nat)
    ensures
        method != "tokenish"@ ==> padding(method, length).len() == length,
        method == "tokenish"@ ==> {
            let value = letters(length, letter_count(length, 1));
            &&& padding(method, length) == crate::header::ascii(value)
            &&& all_letters(value)
            &&& (text_bits(value) + 7) / 8 == (if length >= 1 {
                length
            } else {
                1
            })
        },
{
    let n = letter_count(length, 1);
    lemma_count(length, 1);
    lemma_letters(length, n);
    if length == 0 {
        lemma_letters(0, 0);
        assert(letters(0, 0) =~= Seq::<u8>::empty());
    }
}

/// A padding has at most half as many letters again as its length, and eight.
pub proof fn letters_are_few(length: nat)
    ensures
        1 <= letter_count(length, 1) <= length + length / 2 + 8,
{
    lemma_count(length, 1);
}

/// A padding of a method and a length.
pub fn padding_value(method: &str, length: usize) -> (r: String)
    requires
        length <= usize::MAX / 4,
    ensures
        r@ == padding(method@, length as nat),
        method@ == "tokenish"@ ==> coded_length(vstd::utf8::encode_utf8(r@)) == (if length >= 1 {
            length as nat
        } else {
            1
        }),
{
    let mut chars: Vec<char> = Vec::new();
    if !text::same_text(method, "tokenish") {
        let mut i: usize = 0;
        while i < length
            invariant
                i <= length,
                chars@ =~= Seq::new(i as nat, |k: int| 'X'),
            decreases length - i,
        {
            chars.push('X');
            i = i + 1;
        }
        return text::to_text(chars.as_slice());
    }
    let mut value: Vec<u8> = Vec::new();
    let mut place: usize = (length % 62) * 17 % 62;
    let cap: usize = length + length / 2 + 8;
    let mut n: usize = 0;
    let ghost l = length as nat;
    proof {
        lemma_place_start(l);
        assert(value@ =~= letters(l, 0));
        assert(chars@ =~= crate::header::ascii(letters(l, 0)));
    }
    loop
        invariant_except_break
            l == length,
            n < cap,
            cap == l + l / 2 + 8,
            place == (n * 37 + l * 17) % 62,
            value@ == letters(l, n as nat),
            chars@ == crate::header::ascii(value@),
            letter_count(l, n as nat + 1) == letter_count(l, 1),
        ensures
            chars@ == crate::header::ascii(letters(l, letter_count(l, 1))),
            coded_length(letters(l, letter_count(l, 1))) == (text_bits(
                letters(l, letter_count(l, 1)),
            ) + 7) / 8,
        decreases cap - n,
    {
        proof {
            lemma_letter_step(l, n as nat);
        }
        let b = letter_of(place);
        value.push(b);
        chars.push(b as char);
        n = n + 1;
        place = (place + 37) % 62;
        if huffman_length(value.as_slice()) >= length || n >= cap {
            break;
        }
    }
    proof {
        let done = letters(l, letter_count(l, 1));
        padding_has_its_length(method@, l);
        lemma_ascii_bytes(done);
    }
    text::to_text(chars.as_slice())
}

/// Letters written as a text are their bytes again.
pub proof fn lemma_ascii_bytes(value: Seq<u8>)
    requires
        all_letters(value),
    ensures
        vstd::utf8::encode_utf8(crate::header::ascii(value)) == value,
{
    let s = crate::header::ascii(value);
    assert(vstd::utf8::is_ascii_chars(s)) by {
        assert forall|i: int| 0 <= i < s.len() implies (#[trigger] s[i]) as nat <= 127 by {
            assert(is_letter(value[i]));
        }
    }
    vstd::utf8::is_ascii_chars_encode_utf8(s);
    assert forall|i: int| 0 <= i < value.len() implies vstd::utf8::encode_utf8(s)[i] == value[i] by {
        assert(is_letter(value[i]));
    }
    assert(vstd::utf8::encode_utf8(s) =~= value);
}

fn letter_of(place: usize) -> (r: u8)
    requires
        place < 62,
    ensures
        r == letter(place as int),
{
    if place < 10 {
        0x30 + place as u8
    } else if place < 36 {
        0x41 + (place - 10) as u8
    } else {
        0x61 + (place - 36) as u8
    }
}

proof fn lemma_letter_step(length: nat, n: nat)
    ensures
        ({
            let b = letter(((n * 37 + length * 17) % 62) as int);
            &&& letters(length, n).push(b) == letters(length, n + 1)
            &&& crate::header::ascii(letters(length, n)).push(b as char) == crate::header::ascii(
                letters(length, n + 1),
            )
        }),
        all_letters(letters(length, n + 1)),
        ((n * 37 + length * 17) % 62 + 37) % 62 == ((n + 1) * 37 + length * 17) % 62,
        0 <= (n * 37 + length * 17) % 62 < 62,
{
    let b = letter(((n * 37 + length * 17) % 62) as int);
    lemma_letters(length, n);
    lemma_letters(length, n + 1);
    lemma_next_place(length, n);
    assert(crate::header::ascii(letters(length, n)).push(b as char) =~= crate::header::ascii(
        letters(length, n + 1),
    ));
}

proof fn lemma_place_start(length: nat)
    ensures
        (length % 62) * 17 % 62 == (0 * 37 + length * 17) % 62,
{
    lemma_fundamental_div_mod(length as int, 62);
    let q = length as int / 62;
    let r = length as int % 62;
    assert(length * 17 == r * 17 + 62 * (q * 17)) by (nonlinear_arith)
        requires
            length == 62 * q + r,
    ;
    lemma_same_place((length * 17) as int, r * 17, q * 17);
}

proof fn lemma_next_place(length: nat, n: nat)
    ensures
        ((n * 37 + length * 17) % 62 + 37) % 62 == ((n + 1) * 37 + length * 17) % 62,
{
    let a = n * 37 + length * 17;
    lemma_fundamental_div_mod(a as int, 62);
    let q = a as int / 62;
    assert((n + 1) * 37 + length * 17 == (a as int % 62 + 37) + 62 * q);
    lemma_same_place(((n + 1) * 37 + length * 17) as int, a as int % 62 + 37, q);
}

} // verus!
