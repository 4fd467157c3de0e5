//! What holds of every filter, proved over the states that the operations' contracts speak of.
//! A state is a filter's serialized form. `with_item` is what `set` and `check_and_set` make
//! of it, `with_all` what `clear` and `fill` make of it, `holds` what `check` answers, and
//! `load` what `from_bytes` and `from_slice` give.

use crate::bloom::Bloom;
use crate::hashing::round_offset;
use crate::layout::{
    bit_count, lemma_with_all, no_bit_set, stored_k_num, stored_len_bytes, stored_version,
    with_all, VERSION,
};
use crate::model::{
    after_all, first_digest, holds, initial_state, lemma_holds_everything,
    lemma_holds_hashes_is_kept, lemma_holds_nothing, lemma_same_frame, lemma_with_hashes,
    lemma_with_items_only_adds, load, second_digest, valid, with_item, with_items, Loaded,
    Operation,
};
use crate::sizing::optimal_k;
use vstd::prelude::*;

verus! {

/// No false negatives. After items were inserted, in whatever state the filter was before,
/// the filter holds each of them.
pub proof fn law_no_false_negatives(state: Seq<u8>, items: Seq<Seq<u8>>, i: int)
    requires
        valid(state),
        bit_count(state) > 0,
        0 <= i < items.len(),
    ensures
        holds(with_items(state, items), items[i]),
    decreases items.len(),
{
    let before = with_items(state, items.drop_last());
    let after = with_items(state, items);
    lemma_with_items_only_adds(state, items.drop_last());
    lemma_with_hashes(
        before,
        first_digest(before, items.last()),
        second_digest(before, items.last()),
    );
    if i < items.len() - 1 {
        law_no_false_negatives(state, items.drop_last(), i);
        lemma_holds_hashes_is_kept(
            before,
            after,
            first_digest(before, items[i]),
            second_digest(before, items[i]),
        );
    }
}

/// No false negatives, for one item: after it was inserted the filter holds it.
pub proof fn law_inserted_item_is_held(state: Seq<u8>, item: Seq<u8>)
    requires
        valid(state),
        bit_count(state) > 0,
    ensures
        holds(with_item(state, item), item),
{
    lemma_with_hashes(state, first_digest(state, item), second_digest(state, item));
}

/// Round trip. The serialized form of a filter loads, and it loads to the state that the
/// filter is in: what was loaded serializes to the same bytes and answers every query as the
/// filter does.
pub proof fn law_round_trip(filter: Bloom)
    requires
        filter.wf(),
    ensures
        load(filter@) == Loaded::Ok(filter@),
        forall|item: Seq<u8>| holds(load(filter@)->Ok_0, item) == filter.spec_check(item),
{
}

/// Clear is total. After `clear` no bit is set and the filter holds no item.
pub proof fn law_clear_holds_nothing(state: Seq<u8>, item: Seq<u8>)
    requires
        valid(state),
        bit_count(state) > 0,
    ensures
        valid(with_all(state, 0)),
        no_bit_set(with_all(state, 0)),
        !holds(with_all(state, 0), item),
{
    let cleared = with_all(state, 0);
    lemma_with_all(state);
    lemma_same_frame(state, cleared);
    lemma_holds_nothing(cleared, first_digest(cleared, item), second_digest(cleared, item));
}

/// Fill is total. After `fill` the filter holds every item.
pub proof fn law_fill_holds_everything(state: Seq<u8>, item: Seq<u8>)
    requires
        valid(state),
        bit_count(state) > 0,
    ensures
        valid(with_all(state, 0xff)),
        holds(with_all(state, 0xff), item),
{
    let filled = with_all(state, 0xff);
    lemma_with_all(state);
    lemma_same_frame(state, filled);
    lemma_holds_everything(filled, first_digest(filled, item), second_digest(filled, item));
}

/// Deterministic reload. Two filters made with one size, one number of expected items and one
/// seed are in one state; they address the same bits for the same item; and after the same
/// operations in the same order they are in one state again.
pub proof fn law_same_seed_same_filter(
    first: Bloom,
    second: Bloom,
    bitmap_size: usize,
    items_count: usize,
    seed: Seq<u8>,
    operations: Seq<Operation>,
)
    requires
        first@ == initial_state(
            bitmap_size,
            optimal_k(8 * bitmap_size, items_count as int) as u32,
            seed,
        ),
        second@ == initial_state(
            bitmap_size,
            optimal_k(8 * bitmap_size, items_count as int) as u32,
            seed,
        ),
    ensures
        first@ == second@,
        forall|item: Seq<u8>, k_i: int|
            round_offset(
                first_digest(first@, item),
                second_digest(first@, item),
                k_i,
                bit_count(first@),
            ) == round_offset(
                first_digest(second@, item),
                second_digest(second@, item),
                k_i,
                bit_count(second@),
            ),
        after_all(first@, operations) == after_all(second@, operations),
{
}

/// Garbage is refused. A buffer shorter than the header, one of another version, one that
/// declares no hash round, and one whose declared length is not the length of what follows
/// the header are not loaded, each for its reason.
pub proof fn law_garbage_is_refused(bytes: Seq<u8>)
    ensures
        bytes.len() < 45 ==> load(bytes) == Loaded::Err("Invalid size"@),
        bytes.len() >= 45 && stored_version(bytes) != VERSION ==> load(bytes) == Loaded::Err(
            "Version mismatch"@,
        ),
        bytes.len() >= 45 && stored_version(bytes) == VERSION && stored_k_num(bytes) == 0 ==> load(
            bytes,
        ) == Loaded::Err("Invalid number of keys"@),
        stored_k_num(bytes) == 0 ==> load(bytes) is Err,
        stored_len_bytes(bytes) != bytes.len() - 45 ==> load(bytes) is Err,
        load(bytes) is Ok <==> valid(bytes),
{
}

} // verus!
