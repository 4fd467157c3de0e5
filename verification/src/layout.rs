//! The serialized form, read as mathematics. A buffer is a header and the bit array behind it:
//!
//! | offset | field        | size                   | meaning                               |
//! |--------|--------------|------------------------|---------------------------------------|
//! | 0      | version      | 1 byte                 | the format version                    |
//! | 1      | length_bytes | 8 bytes, little-endian | the length of the bit array           |
//! | 9      | k_num        | 4 bytes, little-endian | the number of hash rounds, 0: not set |
//! | 13     | seed         | 32 bytes               | the keys of the two hash functions    |
//! | 45     | bits         | `length_bytes` bytes   | the bit array                         |
//!
//! Bit `i` of the array is bit `i % 8` of byte `i / 8`, least significant bit first.

use crate::codec::{
    le_u32, le_u64, lemma_u32_round_trip, lemma_u64_round_trip, overlay, u32_le, u64_le,
};
use vstd::prelude::*;

verus! {

/// The format version that this library writes and accepts.
pub const VERSION: u8 = 1;

/// The size of the header in bytes.
pub const BITMAP_HEADER_SIZE: usize = 45;

/// The version byte of a buffer.
pub open spec fn stored_version(bytes: Seq<u8>) -> u8 {
    bytes[0]
}

/// The length of the bit array that a buffer's header declares.
pub open spec fn stored_len_bytes(bytes: Seq<u8>) -> int {
    le_u64(bytes.subrange(1, 9))
}

/// The number of hash rounds that a buffer's header declares.
pub open spec fn stored_k_num(bytes: Seq<u8>) -> int {
    le_u32(bytes.subrange(9, 13))
}

/// The seed in a buffer's header.
pub open spec fn stored_seed(bytes: Seq<u8>) -> Seq<u8> {
    bytes.subrange(13, 45)
}

/// The header of a buffer.
pub open spec fn stored_header(bytes: Seq<u8>) -> Seq<u8> {
    bytes.subrange(0, 45)
}

/// The bit array of a buffer: what follows the header.
pub open spec fn stored_bits(bytes: Seq<u8>) -> Seq<u8> {
    bytes.subrange(45, bytes.len() as int)
}

/// The number of bits in the bit array of a buffer.
pub open spec fn bit_count(bytes: Seq<u8>) -> int {
    8 * (bytes.len() - 45)
}

/// A buffer is well formed when it holds a whole header of the current version whose declared
/// length is the length of what follows it.
pub open spec fn well_formed(bytes: Seq<u8>) -> bool {
    &&& bytes.len() >= 45
    &&& stored_version(bytes) == VERSION
    &&& stored_len_bytes(bytes) == bytes.len() - 45
}

/// A buffer can be loaded when it is well formed and declares at least one hash round.
pub open spec fn loadable(bytes: Seq<u8>) -> bool {
    well_formed(bytes) && stored_k_num(bytes) != 0
}

/// The reason for which a buffer that cannot be loaded is refused. The checks are made in this
/// order: the header's size, the version, the hash rounds, the declared length.
pub open spec fn load_error(bytes: Seq<u8>) -> Seq<char> {
    if bytes.len() < 45 {
        "Invalid size"@
    } else if stored_version(bytes) != VERSION {
        "Version mismatch"@
    } else if stored_k_num(bytes) == 0 {
        "Invalid number of keys"@
    } else if stored_len_bytes(bytes) > usize::MAX {
        "Too big"@
    } else {
        "Invalid size"@
    }
}

/// Two buffers of one length with one header. They differ in their bits at most.
pub open spec fn same_header(before: Seq<u8>, after: Seq<u8>) -> bool {
    after.len() == before.len() && stored_header(after) == stored_header(before)
}

/// Whether bit `shift` of `byte` is set.
pub open spec fn bit_of(byte: u8, shift: u8) -> bool {
    byte & (1u8 << shift) != 0
}

/// Whether bit `i` of the buffer's bit array is set.
pub open spec fn is_set(bytes: Seq<u8>, i: int) -> bool {
    bit_of(bytes[45 + i / 8], (i % 8) as u8)
}

/// No bit of the buffer's bit array is set.
pub open spec fn no_bit_set(bytes: Seq<u8>) -> bool {
    forall|i: int| 0 <= i < bit_count(bytes) ==> !is_set(bytes, i)
}

/// Every bit of the buffer's bit array is set.
pub open spec fn every_bit_set(bytes: Seq<u8>) -> bool {
    forall|i: int| 0 <= i < bit_count(bytes) ==> is_set(bytes, i)
}

/// The buffer `bytes` with bit `i` of its bit array set.
pub open spec fn with_bit(bytes: Seq<u8>, i: int) -> Seq<u8> {
    bytes.update(45 + i / 8, bytes[45 + i / 8] | (1u8 << ((i % 8) as u8)))
}

/// The buffer `bytes` with every byte of its bit array replaced by `value`.
pub open spec fn with_all(bytes: Seq<u8>, value: u8) -> Seq<u8> {
    Seq::new(bytes.len(), |i: int| if i < 45 { bytes[i] } else { value })
}

/// The buffer of a new bit store of `len_bytes` bytes: the version, the length, and zeros.
pub open spec fn fresh(len_bytes: usize) -> Seq<u8> {
    Seq::new(
        (45 + len_bytes) as nat,
        |i: int|
            if i == 0 {
                VERSION
            } else if 1 <= i < 9 {
                u64_le(len_bytes as u64)[i - 1]
            } else {
                0u8
            },
    )
}

/// The fields of a header are the same read from the header alone or from the whole buffer.
pub proof fn lemma_header_fields(bytes: Seq<u8>)
    requires
        bytes.len() >= 45,
    ensures
        stored_version(stored_header(bytes)) == stored_version(bytes),
        stored_len_bytes(stored_header(bytes)) == stored_len_bytes(bytes),
        stored_k_num(stored_header(bytes)) == stored_k_num(bytes),
        stored_seed(stored_header(bytes)) == stored_seed(bytes),
        bytes == stored_header(bytes) + stored_bits(bytes),
{
    let header = stored_header(bytes);
    assert(header.subrange(1, 9) =~= bytes.subrange(1, 9));
    assert(header.subrange(9, 13) =~= bytes.subrange(9, 13));
    assert(header.subrange(13, 45) =~= bytes.subrange(13, 45));
    assert(bytes =~= header + stored_bits(bytes));
}

/// Two buffers of one length with one header declare the same, and one is well formed or can
/// be loaded exactly if the other is.
pub proof fn lemma_same_header(before: Seq<u8>, after: Seq<u8>)
    requires
        before.len() >= 45,
        same_header(before, after),
    ensures
        bit_count(after) == bit_count(before),
        stored_version(after) == stored_version(before),
        stored_len_bytes(after) == stored_len_bytes(before),
        stored_k_num(after) == stored_k_num(before),
        stored_seed(after) == stored_seed(before),
        well_formed(after) == well_formed(before),
        loadable(after) == loadable(before),
{
    lemma_header_fields(before);
    lemma_header_fields(after);
}

/// `after` is `before` with the header replaced by `header`: it declares what `header`
/// declares, and its bits are those of `before`.
pub open spec fn header_replaced(before: Seq<u8>, header: Seq<u8>, after: Seq<u8>) -> bool {
    &&& after == header + stored_bits(before)
    &&& after.len() == before.len()
    &&& stored_header(after) == header
    &&& stored_bits(after) == stored_bits(before)
    &&& stored_version(after) == stored_version(header)
    &&& stored_len_bytes(after) == stored_len_bytes(header)
    &&& stored_k_num(after) == stored_k_num(header)
    &&& stored_seed(after) == stored_seed(header)
    &&& forall|i: int|
        0 <= i < bit_count(before) ==> #[trigger] is_set(after, i) == is_set(before, i)
}

/// A header of the right size can take the place of a buffer's header.
pub proof fn lemma_header_replaced(before: Seq<u8>, header: Seq<u8>)
    requires
        before.len() >= 45,
        header.len() == 45,
    ensures
        header_replaced(before, header, header + stored_bits(before)),
{
    let after = header + stored_bits(before);
    assert(stored_header(after) =~= header);
    assert(stored_bits(after) =~= stored_bits(before));
    lemma_header_fields(after);
}

/// Writing a seed into a header leaves the other fields as they were.
pub proof fn lemma_seed_written(header: Seq<u8>, seed: Seq<u8>)
    requires
        header.len() >= 45,
        seed.len() == 32,
    ensures
        overlay(header, 13, seed).len() == header.len(),
        stored_version(overlay(header, 13, seed)) == stored_version(header),
        stored_len_bytes(overlay(header, 13, seed)) == stored_len_bytes(header),
        stored_k_num(overlay(header, 13, seed)) == stored_k_num(header),
        stored_seed(overlay(header, 13, seed)) == seed,
{
    let with_seed = overlay(header, 13, seed);
    assert(with_seed.subrange(1, 9) =~= header.subrange(1, 9));
    assert(with_seed.subrange(9, 13) =~= header.subrange(9, 13));
    assert(with_seed.subrange(13, 45) =~= seed);
}

/// Writing a number of hash rounds into a header leaves the other fields as they were.
pub proof fn lemma_k_num_written(header: Seq<u8>, k_num: u32)
    requires
        header.len() >= 13,
    ensures
        overlay(header, 9, u32_le(k_num)).len() == header.len(),
        stored_version(overlay(header, 9, u32_le(k_num))) == stored_version(header),
        stored_len_bytes(overlay(header, 9, u32_le(k_num))) == stored_len_bytes(header),
        stored_k_num(overlay(header, 9, u32_le(k_num))) == k_num,
        header.len() >= 45 ==> stored_seed(overlay(header, 9, u32_le(k_num))) == stored_seed(
            header,
        ),
{
    let with_k_num = overlay(header, 9, u32_le(k_num));
    lemma_u32_round_trip(k_num);
    assert(with_k_num.subrange(1, 9) =~= header.subrange(1, 9));
    assert(with_k_num.subrange(9, 13) =~= u32_le(k_num));
    if header.len() >= 45 {
        assert(with_k_num.subrange(13, 45) =~= header.subrange(13, 45));
    }
}

/// A new bit store is well formed. It declares its length and no hash round, its seed is all
/// zeros, and none of its bits is set.
pub proof fn lemma_fresh(len_bytes: usize)
    ensures
        fresh(len_bytes).len() == 45 + len_bytes,
        well_formed(fresh(len_bytes)),
        stored_k_num(fresh(len_bytes)) == 0,
        stored_seed(fresh(len_bytes)) == Seq::new(32, |i: int| 0u8),
        stored_bits(fresh(len_bytes)) == Seq::new(len_bytes as nat, |i: int| 0u8),
        no_bit_set(fresh(len_bytes)),
{
    let bytes = fresh(len_bytes);
    lemma_u64_round_trip(len_bytes as u64);
    assert(bytes.subrange(1, 9) =~= u64_le(len_bytes as u64));
    assert(stored_seed(bytes) =~= Seq::new(32, |i: int| 0u8));
    assert(stored_bits(bytes) =~= Seq::new(len_bytes as nat, |i: int| 0u8));
    assert forall|i: int| 0 <= i < bit_count(bytes) implies !is_set(bytes, i) by {
        lemma_byte_bits(0, (i % 8) as u8);
    }
}

/// Setting bit `s` of a byte sets that bit and leaves the others. Where the bit was set the
/// byte stays as it was.
proof fn lemma_or_bit(b: u8, s: u8, t: u8)
    requires
        s < 8,
        t < 8,
    ensures
        bit_of(b | (1u8 << s), t) == (s == t || bit_of(b, t)),
        bit_of(b, s) ==> b | (1u8 << s) == b,
{
    assert(((b | (1u8 << s)) & (1u8 << t) != 0) == (s == t || (b & (1u8 << t) != 0)))
        by (bit_vector)
        requires
            s < 8,
            t < 8,
    ;
    assert((b & (1u8 << s) != 0) ==> b | (1u8 << s) == b) by (bit_vector)
        requires
            s < 8,
    ;
}

/// No bit of a zero byte is set, every bit of `0xff` is, and a byte is nonzero exactly if one
/// of its bits is set.
pub proof fn lemma_byte_bits(b: u8, t: u8)
    requires
        t < 8,
    ensures
        !bit_of(0, t),
        bit_of(0xff, t),
        bit_of(b, t) ==> b != 0,
        b != 0 ==> exists|s: u8| s < 8 && bit_of(b, s),
{
    assert(0u8 & (1u8 << t) == 0) by (bit_vector)
        requires
            t < 8,
    ;
    assert(0xffu8 & (1u8 << t) != 0) by (bit_vector)
        requires
            t < 8,
    ;
    assert((b & (1u8 << t) != 0) ==> b != 0) by (bit_vector);
    if b != 0 {
        assert(b & (1u8 << 0u8) != 0 || b & (1u8 << 1u8) != 0 || b & (1u8 << 2u8) != 0 || b & (1u8
            << 3u8) != 0 || b & (1u8 << 4u8) != 0 || b & (1u8 << 5u8) != 0 || b & (1u8 << 6u8) != 0
            || b & (1u8 << 7u8) != 0) by (bit_vector)
            requires
                b != 0,
        ;
        let s: u8 = if bit_of(b, 0) {
            0
        } else if bit_of(b, 1) {
            1
        } else if bit_of(b, 2) {
            2
        } else if bit_of(b, 3) {
            3
        } else if bit_of(b, 4) {
            4
        } else if bit_of(b, 5) {
            5
        } else if bit_of(b, 6) {
            6
        } else {
            7
        };
        assert(s < 8 && bit_of(b, s));
    }
}

/// Setting bit `i` of a buffer keeps its length and header, sets bit `i`, and leaves every
/// other bit as it was. Where bit `i` was set, it changes nothing.
pub proof fn lemma_with_bit(bytes: Seq<u8>, i: int)
    requires
        bytes.len() >= 45,
        0 <= i < bit_count(bytes),
    ensures
        same_header(bytes, with_bit(bytes, i)),
        forall|j: int|
            0 <= j < bit_count(bytes) ==> #[trigger] is_set(with_bit(bytes, i), j) == (j == i
                || is_set(bytes, j)),
        is_set(bytes, i) ==> with_bit(bytes, i) == bytes,
{
    let after = with_bit(bytes, i);
    let shift = (i % 8) as u8;
    let byte = bytes[45 + i / 8];
    assert(stored_header(after) =~= stored_header(bytes));
    assert forall|j: int| 0 <= j < bit_count(bytes) implies #[trigger] is_set(after, j) == (j == i
        || is_set(bytes, j)) by {
        if j / 8 == i / 8 {
            lemma_or_bit(byte, shift, (j % 8) as u8);
        }
    }
    if is_set(bytes, i) {
        lemma_or_bit(byte, shift, shift);
        assert(after =~= bytes);
    }
}

/// A buffer whose bit array is all zeros has no bit set; one whose bit array is all `0xff` has
/// every bit set. Either way the length and the header are those of the buffer it was made of.
pub proof fn lemma_with_all(bytes: Seq<u8>)
    requires
        bytes.len() >= 45,
    ensures
        same_header(bytes, with_all(bytes, 0)),
        same_header(bytes, with_all(bytes, 0xff)),
        no_bit_set(with_all(bytes, 0)),
        every_bit_set(with_all(bytes, 0xff)),
{
    let zeros = with_all(bytes, 0);
    let ones = with_all(bytes, 0xff);
    assert(stored_header(zeros) =~= stored_header(bytes));
    assert(stored_header(ones) =~= stored_header(bytes));
    assert forall|i: int| 0 <= i < bit_count(bytes) implies !is_set(zeros, i) by {
        lemma_byte_bits(0, (i % 8) as u8);
    }
    assert forall|i: int| 0 <= i < bit_count(bytes) implies is_set(ones, i) by {
        lemma_byte_bits(0, (i % 8) as u8);
    }
}

/// No bit is set exactly if every byte of the bit array is zero.
pub proof fn lemma_no_bit_set(bytes: Seq<u8>)
    requires
        bytes.len() >= 45,
    ensures
        no_bit_set(bytes) <==> forall|j: int|
            0 <= j < stored_bits(bytes).len() ==> stored_bits(bytes)[j] == 0,
{
    let bits = stored_bits(bytes);
    if no_bit_set(bytes) {
        assert forall|j: int| 0 <= j < bits.len() implies bits[j] == 0 by {
            if bits[j] != 0 {
                lemma_byte_bits(bits[j], 0);
                let s = choose|s: u8| s < 8 && bit_of(bits[j], s);
                let i = 8 * j + s;
                assert(i / 8 == j && i % 8 == s);
                assert(is_set(bytes, i));
            }
        }
    }
    if forall|j: int| 0 <= j < bits.len() ==> bits[j] == 0 {
        assert forall|i: int| 0 <= i < bit_count(bytes) implies !is_set(bytes, i) by {
            assert(bits[i / 8] == 0);
            lemma_byte_bits(0, (i % 8) as u8);
        }
    }
}

} // verus!
