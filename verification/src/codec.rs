//! Little-endian integers as they stand in the header, and writing into a part of a buffer.

use vstd::prelude::*;

verus! {

/// The number that four bytes spell, least significant byte first.
pub open spec fn le_u32(s: Seq<u8>) -> int
    recommends
        s.len() == 4,
{
    s[0] as int + s[1] as int * 0x100 + s[2] as int * 0x1_0000 + s[3] as int * 0x100_0000
}

/// The number that eight bytes spell, least significant byte first: the low word, then the
/// high word.
pub open spec fn le_u64(s: Seq<u8>) -> int
    recommends
        s.len() == 8,
{
    le_u32(s.subrange(0, 4)) + le_u32(s.subrange(4, 8)) * 0x1_0000_0000
}

/// The four bytes of `x`, least significant byte first.
pub open spec fn u32_le(x: u32) -> Seq<u8> {
    seq![
        (x as int % 0x100) as u8,
        (x as int / 0x100 % 0x100) as u8,
        (x as int / 0x1_0000 % 0x100) as u8,
        (x as int / 0x100_0000 % 0x100) as u8,
    ]
}

/// The eight bytes of `x`, least significant byte first: the low word, then the high word.
pub open spec fn u64_le(x: u64) -> Seq<u8> {
    u32_le((x as int % 0x1_0000_0000) as u32) + u32_le((x as int / 0x1_0000_0000) as u32)
}

/// `s` with the bytes from `at` on replaced by `part`, as far as `part` reaches.
pub open spec fn overlay(s: Seq<u8>, at: int, part: Seq<u8>) -> Seq<u8> {
    Seq::new(s.len(), |i: int| if at <= i < at + part.len() { part[i - at] } else { s[i] })
}

/// Reads the `u32` that stands at `s[at..at + 4]`.
pub fn read_u32(s: &[u8], at: usize) -> (x: u32)
    requires
        at + 4 <= s.len(),
    ensures
        x == le_u32(s@.subrange(at as int, at + 4)),
{
    let b0: u32 = s[at] as u32;
    let b1: u32 = s[at + 1] as u32;
    let b2: u32 = s[at + 2] as u32;
    let b3: u32 = s[at + 3] as u32;
    b0 + b1 * 0x100 + b2 * 0x1_0000 + b3 * 0x100_0000
}

/// Reads the `u64` that stands at `s[at..at + 8]`.
pub fn read_u64(s: &[u8], at: usize) -> (x: u64)
    requires
        at + 8 <= s.len(),
    ensures
        x == le_u64(s@.subrange(at as int, at + 8)),
{
    let low: u64 = read_u32(s, at) as u64;
    let high: u64 = read_u32(s, at + 4) as u64;
    proof {
        let eight = s@.subrange(at as int, at + 8);
        assert(eight.subrange(0, 4) =~= s@.subrange(at as int, at + 4));
        assert(eight.subrange(4, 8) =~= s@.subrange(at + 4, at + 8));
    }
    low + high * 0x1_0000_0000
}

/// Writes `x` into `s[at..at + 4]` and leaves the rest as it was.
pub fn write_u32(s: &mut [u8], at: usize, x: u32)
    requires
        at + 4 <= old(s).len(),
    ensures
        final(s)@ == overlay(old(s)@, at as int, u32_le(x)),
{
    s[at] = (x % 0x100) as u8;
    s[at + 1] = (x / 0x100 % 0x100) as u8;
    s[at + 2] = (x / 0x1_0000 % 0x100) as u8;
    s[at + 3] = (x / 0x100_0000 % 0x100) as u8;
}

/// Writes `x` into `s[at..at + 8]` and leaves the rest as it was.
pub fn write_u64(s: &mut [u8], at: usize, x: u64)
    requires
        at + 8 <= old(s).len(),
    ensures
        final(s)@ == overlay(old(s)@, at as int, u64_le(x)),
{
    write_u32(s, at, (x % 0x1_0000_0000) as u32);
    write_u32(s, at + 4, (x / 0x1_0000_0000) as u32);
    assert(s@ =~= overlay(old(s)@, at as int, u64_le(x)));
}

/// Copies `part` into `s[at..at + part.len()]` and leaves the rest as it was.
pub fn write_bytes(s: &mut [u8], at: usize, part: &[u8])
    requires
        at + part.len() <= old(s).len(),
    ensures
        final(s)@ == overlay(old(s)@, at as int, part@),
{
    let n: usize = part.len();
    let mut i: usize = 0;
    while i < n
        invariant
            n == part@.len(),
            at + n <= s.len(),
            s@.len() == old(s)@.len(),
            i <= n,
            s@ == overlay(old(s)@, at as int, part@.subrange(0, i as int)),
        decreases n - i,
    {
        s[at + i] = part[i];
        i += 1;
    }
    assert(part@.subrange(0, n as int) == part@);
}

/// The four bytes of a number below 2^32 spell the number.
proof fn lemma_split_u32(x: int)
    requires
        0 <= x < 0x1_0000_0000,
    ensures
        x == x % 0x100 + (x / 0x100 % 0x100) * 0x100 + (x / 0x1_0000 % 0x100) * 0x1_0000 + (x
            / 0x100_0000 % 0x100) * 0x100_0000,
{
    let q1 = x / 0x100;
    let q2 = q1 / 0x100;
    let q3 = q2 / 0x100;
    assert(q2 == x / 0x1_0000);
    assert(q3 == x / 0x100_0000);
    assert(q3 < 0x100);
}

/// The number that four bytes spell is below 2^32, and its bytes are those four.
proof fn lemma_join_u32(b0: int, b1: int, b2: int, b3: int)
    requires
        0 <= b0 < 0x100,
        0 <= b1 < 0x100,
        0 <= b2 < 0x100,
        0 <= b3 < 0x100,
    ensures
        ({
            let x = b0 + b1 * 0x100 + b2 * 0x1_0000 + b3 * 0x100_0000;
            &&& 0 <= x < 0x1_0000_0000
            &&& x % 0x100 == b0
            &&& x / 0x100 % 0x100 == b1
            &&& x / 0x1_0000 % 0x100 == b2
            &&& x / 0x100_0000 % 0x100 == b3
        }),
{
    let t2 = b2 + 0x100 * b3;
    let t1 = b1 + 0x100 * t2;
    let t0 = b0 + 0x100 * t1;
    assert(t1 == t0 / 0x100);
    assert(t2 == t1 / 0x100);
    assert(b3 == t2 / 0x100);
    assert(t2 == t0 / 0x1_0000);
    assert(b3 == t0 / 0x100_0000);
}

/// Decoding a `u32` undoes encoding it.
pub proof fn lemma_u32_round_trip(x: u32)
    ensures
        u32_le(x).len() == 4,
        le_u32(u32_le(x)) == x,
{
    lemma_split_u32(x as int);
}

/// Decoding a `u64` undoes encoding it.
pub proof fn lemma_u64_round_trip(x: u64)
    ensures
        u64_le(x).len() == 8,
        le_u64(u64_le(x)) == x,
{
    let low = (x as int % 0x1_0000_0000) as u32;
    let high = (x as int / 0x1_0000_0000) as u32;
    lemma_u32_round_trip(low);
    lemma_u32_round_trip(high);
    assert(u64_le(x).subrange(0, 4) =~= u32_le(low));
    assert(u64_le(x).subrange(4, 8) =~= u32_le(high));
}

/// Four bytes spell a number that fits in a `u32`, and encoding it gives the bytes back.
pub proof fn lemma_le_u32_bytes(s: Seq<u8>)
    requires
        s.len() == 4,
    ensures
        0 <= le_u32(s) <= u32::MAX,
        u32_le(le_u32(s) as u32) == s,
{
    lemma_join_u32(s[0] as int, s[1] as int, s[2] as int, s[3] as int);
    assert(u32_le(le_u32(s) as u32) =~= s);
}

} // verus!
