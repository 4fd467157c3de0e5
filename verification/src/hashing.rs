//! The keyed digest of an item, and the hash of each round derived from two digests.

use siphasher::sip::SipHasher13;
use vstd::prelude::*;

verus! {

/// The largest prime below 2^64: the modulus of the derived rounds.
pub const LARGEST_PRIME: u64 = 0xFFFF_FFFF_FFFF_FFC5;

/// SipHash-1-3 of the byte string `data` under the 16-byte `key`.
pub uninterp spec fn sip13(key: Seq<u8>, data: Seq<u8>) -> u64;

/// Makes a hasher with `siphasher::sip::SipHasher13::new_with_key` and hashes `data` with the
/// hasher's method `hash`. Nothing is proved of the digest. The contract claims only that it
/// is a function of the key and the data, the same on every machine: the hasher starts from a
/// state that the key alone fixes, reads the data as little-endian words, and mixes in the
/// low byte of the data's length.
#[verifier::external_body]
pub(crate) fn sip_digest(key: &[u8; 16], data: &[u8]) -> (digest: u64)
    ensures
        digest == sip13(key@, data@),
{
    SipHasher13::new_with_key(key).hash(data)
}

/// The hash of round `k_i`, derived from the two digests `h0` and `h1` of an item. Rounds 0 and
/// 1 take the digests as they are. Every later round takes `h0 + k_i * h1`, wrapped to 64 bits
/// and then reduced modulo the largest 64-bit prime.
pub open spec fn round_hash(h0: u64, h1: u64, k_i: int) -> int {
    if k_i == 0 {
        h0 as int
    } else if k_i == 1 {
        h1 as int
    } else {
        ((h0 + k_i * h1) % 0x1_0000_0000_0000_0000) % (LARGEST_PRIME as int)
    }
}

/// The bit that round `k_i` addresses in an array of `bits` bits.
pub open spec fn round_offset(h0: u64, h1: u64, k_i: int, bits: int) -> int {
    round_hash(h0, h1, k_i) % bits
}

/// A round's offset lies inside the array.
pub proof fn lemma_round_offset_in_range(h0: u64, h1: u64, k_i: int, bits: int)
    requires
        0 <= k_i,
        0 < bits,
    ensures
        0 <= round_offset(h0, h1, k_i, bits) < bits,
        0 <= round_hash(h0, h1, k_i) <= u64::MAX,
{
    if k_i >= 2 {
        let wrapped = (h0 + k_i * h1) % 0x1_0000_0000_0000_0000;
        assert(0 <= wrapped % (LARGEST_PRIME as int) < LARGEST_PRIME);
    }
}

} // verus!
