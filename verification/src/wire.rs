//! Big-endian numbers in byte sequences.
use vstd::prelude::*;

verus! {

/// The two bytes of a number below 65536, most significant first.
pub open spec fn bytes16(n: nat) -> Seq<u8> {
    seq![(n / 256) as u8, (n % 256) as u8]
}

/// The four bytes of a 32-bit number.
pub open spec fn bytes32(n: nat) -> Seq<u8> {
    bytes16(n / 0x1_0000) + bytes16(n % 0x1_0000)
}

/// The eight bytes of a 64-bit number.
pub open spec fn bytes64(n: nat) -> Seq<u8> {
    bytes32(n / 0x1_0000_0000) + bytes32(n % 0x1_0000_0000)
}

/// The sixteen bytes of a 128-bit number.
pub open spec fn bytes128(n: nat) -> Seq<u8> {
    bytes64(n / 0x1_0000_0000_0000_0000) + bytes64(n % 0x1_0000_0000_0000_0000)
}

/// The 16-bit number that stands at index `i`.
pub open spec fn be16(b: Seq<u8>, i: int) -> nat {
    b[i] as nat * 256 + b[i + 1] as nat
}

/// The 32-bit number that stands at index `i`.
pub open spec fn be32(b: Seq<u8>, i: int) -> nat {
    be16(b, i) * 0x1_0000 + be16(b, i + 2)
}

/// The 64-bit number that stands at index `i`.
pub open spec fn be64(b: Seq<u8>, i: int) -> nat {
    be32(b, i) * 0x1_0000_0000 + be32(b, i + 4)
}

/// The 128-bit number that stands at index `i`.
pub open spec fn be128(b: Seq<u8>, i: int) -> nat {
    be64(b, i) * 0x1_0000_0000_0000_0000 + be64(b, i + 8)
}

/// A number read where its two bytes stand.
pub proof fn lemma_be16(b: Seq<u8>, i: int, n: nat)
    requires
        n < 0x1_0000,
        0 <= i,
        i + 2 <= b.len(),
        b.subrange(i, i + 2) == bytes16(n),
    ensures
        be16(b, i) == n,
{
    let s = b.subrange(i, i + 2);
    assert(s[0] == b[i] && s[1] == b[i + 1]);
}

/// A number read where its four bytes stand.
pub proof fn lemma_be32(b: Seq<u8>, i: int, n: nat)
    requires
        n < 0x1_0000_0000,
        0 <= i,
        i + 4 <= b.len(),
        b.subrange(i, i + 4) == bytes32(n),
    ensures
        be32(b, i) == n,
{
    let s = b.subrange(i, i + 4);
    assert(b.subrange(i, i + 2) =~= s.subrange(0, 2));
    assert(s.subrange(0, 2) =~= bytes16(n / 0x1_0000));
    assert(b.subrange(i + 2, i + 4) =~= s.subrange(2, 4));
    assert(s.subrange(2, 4) =~= bytes16(n % 0x1_0000));
    lemma_be16(b, i, n / 0x1_0000);
    lemma_be16(b, i + 2, n % 0x1_0000);
}

/// A number read where its eight bytes stand.
pub proof fn lemma_be64(b: Seq<u8>, i: int, n: nat)
    requires
        n < 0x1_0000_0000_0000_0000,
        0 <= i,
        i + 8 <= b.len(),
        b.subrange(i, i + 8) == bytes64(n),
    ensures
        be64(b, i) == n,
{
    let s = b.subrange(i, i + 8);
    assert(b.subrange(i, i + 4) =~= s.subrange(0, 4));
    assert(s.subrange(0, 4) =~= bytes32(n / 0x1_0000_0000));
    assert(b.subrange(i + 4, i + 8) =~= s.subrange(4, 8));
    assert(s.subrange(4, 8) =~= bytes32(n % 0x1_0000_0000));
    lemma_be32(b, i, n / 0x1_0000_0000);
    lemma_be32(b, i + 4, n % 0x1_0000_0000);
}

/// A number read where its sixteen bytes stand.
pub proof fn lemma_be128(b: Seq<u8>, i: int, n: u128)
    requires
        0 <= i,
        i + 16 <= b.len(),
        b.subrange(i, i + 16) == bytes128(n as nat),
    ensures
        be128(b, i) == n,
{
    let m = n as nat;
    let s = b.subrange(i, i + 16);
    assert(b.subrange(i, i + 8) =~= s.subrange(0, 8));
    assert(s.subrange(0, 8) =~= bytes64(m / 0x1_0000_0000_0000_0000));
    assert(b.subrange(i + 8, i + 16) =~= s.subrange(8, 16));
    assert(s.subrange(8, 16) =~= bytes64(m % 0x1_0000_0000_0000_0000));
    lemma_be64(b, i, m / 0x1_0000_0000_0000_0000);
    lemma_be64(b, i + 8, m % 0x1_0000_0000_0000_0000);
}

pub fn read_u16(b: &[u8], i: usize) -> (n: u16)
    requires
        i + 2 <= b@.len(),
    ensures
        n == be16(b@, i as int),
{
    (b[i] as u16) * 256 + (b[i + 1] as u16)
}

pub fn read_u32(b: &[u8], i: usize) -> (n: u32)
    requires
        i + 4 <= b@.len(),
    ensures
        n == be32(b@, i as int),
{
    assert(i + 4 <= b.len());
    (read_u16(b, i) as u32) * 0x1_0000 + (read_u16(b, i + 2) as u32)
}

pub fn read_u64(b: &[u8], i: usize) -> (n: u64)
    requires
        i + 8 <= b@.len(),
    ensures
        n == be64(b@, i as int),
{
    assert(i + 8 <= b.len());
    (read_u32(b, i) as u64) * 0x1_0000_0000 + (read_u32(b, i + 4) as u64)
}

pub fn read_u128(b: &[u8], i: usize) -> (n: u128)
    requires
        i + 16 <= b@.len(),
    ensures
        n == be128(b@, i as int),
{
    assert(i + 16 <= b.len());
    (read_u64(b, i) as u128) * 0x1_0000_0000_0000_0000 + (read_u64(b, i + 8) as u128)
}

pub fn push_u16(out: &mut Vec<u8>, n: u16)
    ensures
        final(out)@ == old(out)@ + bytes16(n as nat),
{
    out.push((n / 256) as u8);
    out.push((n % 256) as u8);
    proof {
        assert(out@ =~= old(out)@ + bytes16(n as nat));
    }
}

pub fn push_u32(out: &mut Vec<u8>, n: u32)
    ensures
        final(out)@ == old(out)@ + bytes32(n as nat),
{
    push_u16(out, (n / 0x1_0000) as u16);
    push_u16(out, (n % 0x1_0000) as u16);
    proof {
        assert(out@ =~= old(out)@ + bytes32(n as nat));
    }
}

pub fn push_u64(out: &mut Vec<u8>, n: u64)
    ensures
        final(out)@ == old(out)@ + bytes64(n as nat),
{
    push_u32(out, (n / 0x1_0000_0000) as u32);
    push_u32(out, (n % 0x1_0000_0000) as u32);
    proof {
        assert(out@ =~= old(out)@ + bytes64(n as nat));
    }
}

pub fn push_u128(out: &mut Vec<u8>, n: u128)
    ensures
        final(out)@ == old(out)@ + bytes128(n as nat),
{
    push_u64(out, (n / 0x1_0000_0000_0000_0000) as u64);
    push_u64(out, (n % 0x1_0000_0000_0000_0000) as u64);
    proof {
        assert(out@ =~= old(out)@ + bytes128(n as nat));
    }
}

/// Appends bytes.
pub fn push_bytes(out: &mut Vec<u8>, more: &[u8])
    ensures
        final(out)@ == old(out)@ + more@,
{
    out.extend_from_slice(more);
    proof {
        assert(out@ =~= old(out)@ + more@);
    }
}

/// What stands in the middle and at the end of three parts put together.
pub proof fn lemma_parts<T>(a: Seq<T>, b: Seq<T>, c: Seq<T>)
    ensures
        (a + b + c).len() == a.len() + b.len() + c.len(),
        (a + b + c).subrange(a.len() as int, (a.len() + b.len()) as int) == b,
        (a + b + c).skip((a.len() + b.len()) as int) == c,
        a.len() > 0 ==> (a + b + c)[0] == a[0],
        forall|i: int| 0 <= i < a.len() ==> (a + b + c)[i] == a[i],
{
    assert((a + b + c).subrange(a.len() as int, (a.len() + b.len()) as int) =~= b);
    assert((a + b + c).skip((a.len() + b.len()) as int) =~= c);
}

/// Numbers stand with their highest byte first.
pub proof fn the_highest_byte_comes_first(b: Seq<u8>, i: int)
    ensures
        be16(b, i) == 0x100 * b[i] + b[i + 1],
        be32(b, i) == 0x100_0000 * b[i] + 0x1_0000 * b[i + 1] + 0x100 * b[i + 2] + b[i + 3],
        be64(b, i) == 0x1_0000_0000 * be32(b, i) + be32(b, i + 4),
        be128(b, i) == 0x1_0000_0000_0000_0000 * be64(b, i) + be64(b, i + 8),
        bytes16(0x1234) == seq![0x12u8, 0x34],
        bytes32(0x1234_5678) == seq![0x12u8, 0x34, 0x56, 0x78],
{
    assert(bytes16(0x1234) =~= seq![0x12u8, 0x34]);
    assert(bytes32(0x1234_5678) =~= seq![0x12u8, 0x34, 0x56, 0x78]);
}

} // verus!
