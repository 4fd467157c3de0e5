//! What a filter's buffer means: its keys, which bits an item addresses, which items the
//! filter holds, and what inserting an item makes of it. A filter's state is its whole buffer,
//! header first, so all of this is stated over byte sequences.

use crate::codec::{lemma_le_u32_bytes, lemma_u32_round_trip, overlay, u32_le};
use crate::hashing::{lemma_round_offset_in_range, round_offset, sip13};
use crate::layout::{
    bit_count, every_bit_set, fresh, is_set, lemma_fresh, lemma_same_header,
    lemma_with_bit, load_error, loadable, no_bit_set, same_header, stored_header, stored_k_num,
    stored_seed, well_formed, with_all, with_bit,
};
use vstd::prelude::*;

verus! {

/// The key of the first hash function: the first half of the seed.
pub open spec fn first_key(bytes: Seq<u8>) -> Seq<u8> {
    bytes.subrange(13, 29)
}

/// The key of the second hash function: the second half of the seed.
pub open spec fn second_key(bytes: Seq<u8>) -> Seq<u8> {
    bytes.subrange(29, 45)
}

/// A buffer is the state of a filter when it can be loaded and each of its bits has an offset
/// that fits in a `usize`.
pub open spec fn valid(bytes: Seq<u8>) -> bool {
    loadable(bytes) && bit_count(bytes) <= usize::MAX
}

/// What loading a buffer gives: the state of a filter, or the reason for a refusal.
pub type Loaded = Result<Seq<u8>, Seq<char>>;

/// What loading `bytes` as a filter gives: the state of the filter, which is `bytes` itself, or
/// the reason for which `bytes` is refused. A buffer is refused when it cannot be loaded as a
/// bit store, and as too big when its bits cannot all be addressed.
pub open spec fn load(bytes: Seq<u8>) -> Loaded {
    if !loadable(bytes) {
        Err(load_error(bytes))
    } else if bit_count(bytes) > usize::MAX {
        Err("Too big"@)
    } else {
        Ok(bytes)
    }
}

/// The buffer of a new filter: no bit set, `k_num` and `seed` in the header.
pub open spec fn initial_state(len_bytes: usize, k_num: u32, seed: Seq<u8>) -> Seq<u8> {
    overlay(overlay(fresh(len_bytes), 9, u32_le(k_num)), 13, seed)
}

/// Two states of one filter: the length and the header are the same, and so are the bit
/// count, the hash rounds, the seed and the keys, which follow from them.
pub open spec fn same_frame(before: Seq<u8>, after: Seq<u8>) -> bool {
    &&& same_header(before, after)
    &&& bit_count(after) == bit_count(before)
    &&& stored_k_num(after) == stored_k_num(before)
    &&& stored_seed(after) == stored_seed(before)
    &&& first_key(after) == first_key(before)
    &&& second_key(after) == second_key(before)
}

/// The first digest of `item` in the filter with this buffer.
pub open spec fn first_digest(bytes: Seq<u8>, item: Seq<u8>) -> u64 {
    sip13(first_key(bytes), item)
}

/// The second digest of `item` in the filter with this buffer.
pub open spec fn second_digest(bytes: Seq<u8>, item: Seq<u8>) -> u64 {
    sip13(second_key(bytes), item)
}

/// Some round below `rounds` of the digests `h0`, `h1` addresses bit `j` of `bits` bits.
pub open spec fn addressed(h0: u64, h1: u64, rounds: int, bits: int, j: int) -> bool {
    exists|k_i: int| 0 <= k_i < rounds && #[trigger] round_offset(h0, h1, k_i, bits) == j
}

/// The buffer holds the digests `h0`, `h1`: the bit of every round is set.
pub open spec fn holds_hashes(bytes: Seq<u8>, h0: u64, h1: u64) -> bool {
    forall|k_i: int|
        0 <= k_i < stored_k_num(bytes) ==> is_set(
            bytes,
            #[trigger] round_offset(h0, h1, k_i, bit_count(bytes)),
        )
}

/// The filter with this buffer answers "possibly present" for `item`.
pub open spec fn holds(bytes: Seq<u8>, item: Seq<u8>) -> bool {
    holds_hashes(bytes, first_digest(bytes, item), second_digest(bytes, item))
}

/// The buffer after the first `rounds` rounds of the digests `h0`, `h1` have set their bits.
pub open spec fn marked(bytes: Seq<u8>, h0: u64, h1: u64, rounds: int) -> Seq<u8>
    decreases rounds,
{
    if rounds <= 0 {
        bytes
    } else {
        with_bit(
            marked(bytes, h0, h1, rounds - 1),
            round_offset(h0, h1, rounds - 1, bit_count(bytes)),
        )
    }
}

/// The buffer after the digests `h0`, `h1` were inserted: all its rounds have set their bits.
pub open spec fn with_hashes(bytes: Seq<u8>, h0: u64, h1: u64) -> Seq<u8> {
    marked(bytes, h0, h1, stored_k_num(bytes))
}

/// The buffer after `item` was inserted.
pub open spec fn with_item(bytes: Seq<u8>, item: Seq<u8>) -> Seq<u8> {
    with_hashes(bytes, first_digest(bytes, item), second_digest(bytes, item))
}

/// The buffer after the items of `items` were inserted, first to last.
pub open spec fn with_items(bytes: Seq<u8>, items: Seq<Seq<u8>>) -> Seq<u8>
    decreases items.len(),
{
    if items.len() == 0 {
        bytes
    } else {
        with_item(with_items(bytes, items.drop_last()), items.last())
    }
}

/// An operation that changes a filter.
pub enum Operation {
    /// `set` of an item.
    SetItem(Seq<u8>),
    /// `check_and_set` of an item.
    CheckAndSetItem(Seq<u8>),
    /// `clear`.
    ClearAll,
    /// `fill`.
    FillAll,
}

/// The buffer after one operation.
pub open spec fn after(bytes: Seq<u8>, operation: Operation) -> Seq<u8> {
    match operation {
        Operation::SetItem(item) => with_item(bytes, item),
        Operation::CheckAndSetItem(item) => with_item(bytes, item),
        Operation::ClearAll => with_all(bytes, 0),
        Operation::FillAll => with_all(bytes, 0xff),
    }
}

/// The buffer after the operations of `operations`, first to last.
pub open spec fn after_all(bytes: Seq<u8>, operations: Seq<Operation>) -> Seq<u8>
    decreases operations.len(),
{
    if operations.len() == 0 {
        bytes
    } else {
        after(after_all(bytes, operations.drop_last()), operations.last())
    }
}

/// Two buffers of one length with one header are two states of one filter, and one is valid
/// exactly if the other is.
pub proof fn lemma_same_frame(before: Seq<u8>, after: Seq<u8>)
    requires
        before.len() >= 45,
        same_header(before, after),
    ensures
        same_frame(before, after),
        well_formed(after) == well_formed(before),
        loadable(after) == loadable(before),
        valid(after) == valid(before),
{
    lemma_same_header(before, after);
    assert(first_key(before) =~= stored_header(before).subrange(13, 29));
    assert(first_key(after) =~= stored_header(after).subrange(13, 29));
    assert(second_key(before) =~= stored_header(before).subrange(29, 45));
    assert(second_key(after) =~= stored_header(after).subrange(29, 45));
}

/// A state has at least one hash round when it can be loaded.
pub proof fn lemma_at_least_one_round(bytes: Seq<u8>)
    requires
        loadable(bytes),
    ensures
        1 <= stored_k_num(bytes) <= u32::MAX,
{
    lemma_le_u32_bytes(bytes.subrange(9, 13));
}

/// The buffer of a new filter is well formed, holds what it was made with, and has no bit set.
pub proof fn lemma_initial_state(len_bytes: usize, k_num: u32, seed: Seq<u8>)
    requires
        seed.len() == 32,
    ensures
        initial_state(len_bytes, k_num, seed).len() == 45 + len_bytes,
        well_formed(initial_state(len_bytes, k_num, seed)),
        stored_k_num(initial_state(len_bytes, k_num, seed)) == k_num,
        stored_seed(initial_state(len_bytes, k_num, seed)) == seed,
        first_key(initial_state(len_bytes, k_num, seed)) == seed.subrange(0, 16),
        second_key(initial_state(len_bytes, k_num, seed)) == seed.subrange(16, 32),
        no_bit_set(initial_state(len_bytes, k_num, seed)),
{
    let state = initial_state(len_bytes, k_num, seed);
    lemma_fresh(len_bytes);
    lemma_u32_round_trip(k_num);
    assert(state.subrange(1, 9) =~= fresh(len_bytes).subrange(1, 9));
    assert(state.subrange(9, 13) =~= u32_le(k_num));
    assert(stored_seed(state) =~= seed);
    assert(first_key(state) =~= seed.subrange(0, 16));
    assert(second_key(state) =~= seed.subrange(16, 32));
    assert forall|i: int| 0 <= i < bit_count(state) implies !is_set(state, i) by {
        assert(!is_set(fresh(len_bytes), i));
    }
}

/// Rounds keep the buffer's length and header. Afterwards a bit is set exactly if it was set
/// before or one of the rounds addressed it.
pub proof fn lemma_marked(bytes: Seq<u8>, h0: u64, h1: u64, rounds: int)
    requires
        bytes.len() > 45,
        0 <= rounds,
    ensures
        same_header(bytes, marked(bytes, h0, h1, rounds)),
        forall|j: int|
            0 <= j < bit_count(bytes) ==> #[trigger] is_set(marked(bytes, h0, h1, rounds), j) == (
            is_set(bytes, j) || addressed(h0, h1, rounds, bit_count(bytes), j)),
    decreases rounds,
{
    let bits = bit_count(bytes);
    if rounds > 0 {
        let before = marked(bytes, h0, h1, rounds - 1);
        let offset = round_offset(h0, h1, rounds - 1, bits);
        lemma_marked(bytes, h0, h1, rounds - 1);
        lemma_round_offset_in_range(h0, h1, rounds - 1, bits);
        lemma_with_bit(before, offset);
        assert forall|j: int| 0 <= j < bits implies #[trigger] is_set(
            marked(bytes, h0, h1, rounds),
            j,
        ) == (is_set(bytes, j) || addressed(h0, h1, rounds, bits, j)) by {
            assert(is_set(before, j) == (is_set(bytes, j) || addressed(
                h0,
                h1,
                rounds - 1,
                bits,
                j,
            )));
            if addressed(h0, h1, rounds, bits, j) {
                let k_i = choose|k_i: int|
                    0 <= k_i < rounds && #[trigger] round_offset(h0, h1, k_i, bits) == j;
                if k_i < rounds - 1 {
                    assert(addressed(h0, h1, rounds - 1, bits, j));
                }
            }
            if addressed(h0, h1, rounds - 1, bits, j) {
                let k_i = choose|k_i: int|
                    0 <= k_i < rounds - 1 && #[trigger] round_offset(h0, h1, k_i, bits) == j;
                assert(0 <= k_i < rounds && round_offset(h0, h1, k_i, bits) == j);
            }
            if j == offset {
                assert(0 <= rounds - 1 < rounds && round_offset(h0, h1, rounds - 1, bits) == j);
            }
        }
    } else {
        assert forall|j: int| 0 <= j < bits implies !addressed(h0, h1, rounds, bits, j) by {}
    }
}

/// Inserting digests gives a state of the same filter, in which exactly the bits that the
/// rounds address were set. That state holds the digests.
pub proof fn lemma_with_hashes(bytes: Seq<u8>, h0: u64, h1: u64)
    requires
        loadable(bytes),
        bit_count(bytes) > 0,
    ensures
        same_frame(bytes, with_hashes(bytes, h0, h1)),
        loadable(with_hashes(bytes, h0, h1)),
        valid(with_hashes(bytes, h0, h1)) == valid(bytes),
        forall|j: int|
            0 <= j < bit_count(bytes) ==> #[trigger] is_set(with_hashes(bytes, h0, h1), j) == (
            is_set(bytes, j) || addressed(h0, h1, stored_k_num(bytes), bit_count(bytes), j)),
        holds_hashes(with_hashes(bytes, h0, h1), h0, h1),
{
    let rounds = stored_k_num(bytes);
    let after = with_hashes(bytes, h0, h1);
    let bits = bit_count(bytes);
    lemma_at_least_one_round(bytes);
    lemma_marked(bytes, h0, h1, rounds);
    lemma_same_frame(bytes, after);
    assert forall|k_i: int| 0 <= k_i < stored_k_num(after) implies is_set(
        after,
        #[trigger] round_offset(h0, h1, k_i, bit_count(after)),
    ) by {
        let j = round_offset(h0, h1, k_i, bits);
        lemma_round_offset_in_range(h0, h1, k_i, bits);
        assert(addressed(h0, h1, rounds, bits, j));
    }
}

/// A filter with no bit set holds no digests.
pub proof fn lemma_holds_nothing(bytes: Seq<u8>, h0: u64, h1: u64)
    requires
        loadable(bytes),
        bit_count(bytes) > 0,
        no_bit_set(bytes),
    ensures
        !holds_hashes(bytes, h0, h1),
{
    lemma_at_least_one_round(bytes);
    lemma_round_offset_in_range(h0, h1, 0, bit_count(bytes));
    assert(!is_set(bytes, round_offset(h0, h1, 0, bit_count(bytes))));
}

/// A filter with every bit set holds all digests.
pub proof fn lemma_holds_everything(bytes: Seq<u8>, h0: u64, h1: u64)
    requires
        bit_count(bytes) > 0,
        every_bit_set(bytes),
    ensures
        holds_hashes(bytes, h0, h1),
{
    assert forall|k_i: int| 0 <= k_i < stored_k_num(bytes) implies is_set(
        bytes,
        #[trigger] round_offset(h0, h1, k_i, bit_count(bytes)),
    ) by {
        lemma_round_offset_in_range(h0, h1, k_i, bit_count(bytes));
    }
}

/// Between two states of one filter of which the second has every bit that the first has,
/// the digests that the first holds the second holds too.
pub proof fn lemma_holds_hashes_is_kept(before: Seq<u8>, after: Seq<u8>, h0: u64, h1: u64)
    requires
        before.len() > 45,
        same_frame(before, after),
        forall|j: int| 0 <= j < bit_count(before) && is_set(before, j) ==> is_set(after, j),
        holds_hashes(before, h0, h1),
    ensures
        holds_hashes(after, h0, h1),
{
    assert forall|k_i: int| 0 <= k_i < stored_k_num(after) implies is_set(
        after,
        #[trigger] round_offset(h0, h1, k_i, bit_count(after)),
    ) by {
        lemma_round_offset_in_range(h0, h1, k_i, bit_count(before));
    }
}

/// Inserting digests clears no bit: what the filter held before it holds afterwards.
pub proof fn lemma_with_hashes_keeps(bytes: Seq<u8>, h0: u64, h1: u64)
    requires
        loadable(bytes),
        bit_count(bytes) > 0,
    ensures
        forall|a: u64, b: u64|
            holds_hashes(bytes, a, b) ==> #[trigger] holds_hashes(with_hashes(bytes, h0, h1), a, b),
        forall|item: Seq<u8>|
            holds(bytes, item) ==> #[trigger] holds(with_hashes(bytes, h0, h1), item),
{
    let after = with_hashes(bytes, h0, h1);
    lemma_with_hashes(bytes, h0, h1);
    assert forall|a: u64, b: u64| holds_hashes(bytes, a, b) implies #[trigger] holds_hashes(
        after,
        a,
        b,
    ) by {
        lemma_holds_hashes_is_kept(bytes, after, a, b);
    }
    assert forall|item: Seq<u8>| holds(bytes, item) implies #[trigger] holds(after, item) by {
        lemma_holds_hashes_is_kept(
            bytes,
            after,
            first_digest(bytes, item),
            second_digest(bytes, item),
        );
    }
}

/// Inserting items leaves a state of the same filter in which no bit was cleared.
pub proof fn lemma_with_items_only_adds(bytes: Seq<u8>, items: Seq<Seq<u8>>)
    requires
        valid(bytes),
        bit_count(bytes) > 0,
    ensures
        valid(with_items(bytes, items)),
        same_frame(bytes, with_items(bytes, items)),
        forall|j: int|
            0 <= j < bit_count(bytes) && is_set(bytes, j) ==> is_set(with_items(bytes, items), j),
    decreases items.len(),
{
    if items.len() > 0 {
        let before = with_items(bytes, items.drop_last());
        lemma_with_items_only_adds(bytes, items.drop_last());
        lemma_with_hashes(
            before,
            first_digest(before, items.last()),
            second_digest(before, items.last()),
        );
        lemma_same_frame(bytes, with_items(bytes, items));
    } else {
        lemma_same_frame(bytes, bytes);
    }
}

} // verus!
