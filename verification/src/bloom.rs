//! The filter: a bit store, the number of hash rounds, and the keys of two hash functions.
//!
//! An item is a byte string. It is hashed twice, once under each key; the two digests give the
//! bit of every round. `set` sets those bits, `check` asks whether all of them are set.
//!
//! The state of a filter is its serialized form, which is what its view gives. The contracts
//! are stated over that byte sequence with the functions of [`crate::model`].

use crate::bitmap::BitMap;
use crate::codec::{overlay, u32_le};
use crate::hashing::{
    lemma_round_offset_in_range, round_hash, round_offset, sip_digest, LARGEST_PRIME,
};
use crate::layout::{
    bit_count, every_bit_set, is_set, lemma_header_fields, lemma_with_bit, loadable, no_bit_set,
    stored_k_num, stored_seed, well_formed, with_all,
};
use crate::model::{
    addressed, first_digest, first_key, holds, holds_hashes, initial_state,
    lemma_holds_everything, lemma_holds_nothing, lemma_initial_state, lemma_marked,
    lemma_same_frame, lemma_with_hashes, lemma_with_hashes_keeps, load, marked, same_frame,
    second_digest, second_key, valid, with_hashes, with_item, Loaded,
};
use crate::sizing::optimal_k;
use vstd::arithmetic::div_mod::lemma_add_mod_noop_right;
use vstd::prelude::*;

verus! {

/// A Bloom filter over byte strings.
#[derive(Debug)]
pub struct Bloom {
    bitmap: BitMap,
    bitmap_bits: u64,
    k_num: u32,
    sip_keys: [[u8; 16]; 2],
}

impl View for Bloom {
    type V = Seq<u8>;

    /// The filter's state: its serialized form, header first.
    closed spec fn view(&self) -> Seq<u8> {
        self.bitmap@
    }
}

impl Clone for Bloom {
    /// A filter in the same state.
    fn clone(&self) -> (copy: Self)
        ensures
            copy@ == self@,
            self.wf() ==> copy.wf(),
    {
        Self {
            bitmap: self.bitmap.clone(),
            bitmap_bits: self.bitmap_bits,
            k_num: self.k_num,
            sip_keys: self.sip_keys,
        }
    }
}

impl Bloom {
    /// What the filter keeps beside its buffer agrees with the buffer's header: the bit count,
    /// the number of hash rounds and the two keys.
    pub closed spec fn coherent(&self) -> bool {
        &&& self.bitmap_bits == bit_count(self.bitmap@)
        &&& self.k_num == stored_k_num(self.bitmap@)
        &&& self.sip_keys@[0]@ == first_key(self.bitmap@)
        &&& self.sip_keys@[1]@ == second_key(self.bitmap@)
    }

    /// The invariant of the type: the state is that of a filter, and what is kept beside it
    /// agrees with it.
    pub open spec fn wf(&self) -> bool {
        valid(self@) && self.coherent()
    }

    /// The number of bits in the filter.
    pub open spec fn spec_len(&self) -> int {
        bit_count(self@)
    }

    /// The number of hash rounds.
    pub open spec fn spec_k_num(&self) -> int {
        stored_k_num(self@)
    }

    /// The seed.
    pub open spec fn spec_seed(&self) -> Seq<u8> {
        stored_seed(self@)
    }

    /// The answer of `check` for `item`.
    pub open spec fn spec_check(&self, item: Seq<u8>) -> bool {
        holds(self@, item)
    }

    /// A filter of `bitmap_size` bytes for `items_count` expected items, with the hash keys
    /// taken from `seed`. It holds nothing yet. It never fails.
    pub fn new_with_seed(bitmap_size: usize, items_count: usize, seed: &[u8; 32]) -> (res: Result<
        Self,
        &'static str,
    >)
        requires
            bitmap_size > 0,
            items_count > 0,
            8 * bitmap_size <= usize::MAX,
        ensures
            res matches Ok(filter) && filter.wf() && filter@ == initial_state(
                bitmap_size,
                optimal_k(8 * bitmap_size, items_count as int) as u32,
                seed@,
            ) && filter.spec_len() == 8 * bitmap_size && filter.spec_k_num() == optimal_k(
                8 * bitmap_size,
                items_count as int,
            ) && filter.spec_seed() == seed@ && no_bit_set(filter@) && forall|item: Seq<u8>|
                !#[trigger] filter.spec_check(item),
    {
        let bitmap_bits: u64 = (bitmap_size as u64) * 8;
        let k_num = Self::optimal_k_num(bitmap_bits, items_count);
        let bitmap = BitMap::new(bitmap_size);
        let sip_keys = Self::split_seed(seed);
        let mut res = Self { bitmap, bitmap_bits, k_num, sip_keys };
        res.sync();
        proof {
            assert(seed@.subrange(0, 16) + seed@.subrange(16, 32) =~= seed@);
            lemma_initial_state(bitmap_size, k_num, seed@);
            assert forall|item: Seq<u8>| !#[trigger] res.spec_check(item) by {
                lemma_holds_nothing(res@, first_digest(res@, item), second_digest(res@, item));
            }
        }
        Ok(res)
    }

    /// A filter of `bitmap_size` bytes for `items_count` expected items, with a seed drawn from
    /// the operating system. It fails only if no seed could be drawn.
    pub fn new(bitmap_size: usize, items_count: usize) -> (res: Result<Self, &'static str>)
        requires
            bitmap_size > 0,
            items_count > 0,
            8 * bitmap_size <= usize::MAX,
        ensures
            match res {
                Ok(filter) => filter.wf() && filter@ == initial_state(
                    bitmap_size,
                    optimal_k(8 * bitmap_size, items_count as int) as u32,
                    filter.spec_seed(),
                ) && filter.spec_len() == 8 * bitmap_size && filter.spec_k_num() == optimal_k(
                    8 * bitmap_size,
                    items_count as int,
                ) && no_bit_set(filter@) && forall|item: Seq<u8>|
                    !#[trigger] filter.spec_check(item),
                Err(reason) => reason@ == "Could not generate random seed"@,
            },
    {
        let mut seed = [0u8; 32];
        match getrandom::getrandom(&mut seed) {
            Ok(()) => {},
            Err(_) => {
                return Err("Could not generate random seed");
            },
        }
        Self::new_with_seed(bitmap_size, items_count, &seed)
    }

    /// The filter that `bytes` is the serialized form of, or the reason for which `bytes` is
    /// refused. A copy of `bytes` is loaded.
    pub fn from_slice(bytes: &[u8]) -> (res: Result<Self, &'static str>)
        ensures
            match res {
                Ok(filter) => filter.wf() && load(bytes@) == Loaded::Ok(filter@),
                Err(reason) => load(bytes@) == Loaded::Err(reason@),
            },
    {
        match BitMap::from_slice(bytes) {
            Ok(bitmap) => Self::from_bitmap(bitmap),
            Err(reason) => Err(reason),
        }
    }

    /// The filter that `bytes` is the serialized form of, or the reason for which `bytes` is
    /// refused.
    pub fn from_bytes(bytes: Vec<u8>) -> (res: Result<Self, &'static str>)
        ensures
            match res {
                Ok(filter) => filter.wf() && load(bytes@) == Loaded::Ok(filter@),
                Err(reason) => load(bytes@) == Loaded::Err(reason@),
            },
    {
        match BitMap::from_bytes(bytes) {
            Ok(bitmap) => Self::from_bitmap(bitmap),
            Err(reason) => Err(reason),
        }
    }

    /// The serialized form of the filter: the header, then the bit array.
    pub fn as_slice(&self) -> (bytes: &[u8])
        ensures
            bytes@ == self@,
    {
        self.bitmap.as_slice()
    }

    /// A copy of the serialized form of the filter.
    pub fn to_bytes(&self) -> (bytes: Vec<u8>)
        ensures
            bytes@ == self@,
    {
        self.bitmap.to_bytes()
    }

    /// Gives up the filter for its serialized form.
    pub fn into_bytes(self) -> (bytes: Vec<u8>)
        ensures
            bytes@ == self@,
    {
        self.bitmap.into_bytes()
    }

    /// The number of bits in the filter.
    pub fn len(&self) -> (bits: u64)
        requires
            self.wf(),
        ensures
            bits == self.spec_len(),
    {
        self.bitmap.len_bits()
    }

    /// The number of hash rounds of `check` and `set`.
    pub fn number_of_hash_functions(&self) -> (k_num: u32)
        requires
            self.wf(),
        ensures
            k_num == self.spec_k_num(),
            k_num >= 1,
    {
        self.k_num
    }

    /// The seed of the hash functions: the first key, then the second.
    pub fn seed(&self) -> (seed: [u8; 32])
        requires
            self.wf(),
        ensures
            seed@ == self.spec_seed(),
    {
        let seed = self.joined_keys();
        assert(seed@ =~= stored_seed(self@));
        seed
    }

    /// The two digests of `item`: one under the first key, one under the second.
    pub fn hashes(&self, item: &[u8]) -> (hashes: [u64; 2])
        requires
            self.wf(),
        ensures
            hashes@[0] == first_digest(self@, item@),
            hashes@[1] == second_digest(self@, item@),
    {
        [sip_digest(&self.sip_keys[0], item), sip_digest(&self.sip_keys[1], item)]
    }

    /// The hash of round `k_i` from the two digests of an item.
    pub fn bloom_hash(hashes: &[u64; 2], k_i: u32) -> (hash: u64)
        ensures
            hash == round_hash(hashes@[0], hashes@[1], k_i as int),
    {
        if k_i < 2 {
            hashes[k_i as usize]
        } else {
            let product: u64 = (k_i as u64).wrapping_mul(hashes[1]);
            let sum: u64 = hashes[0].wrapping_add(product);
            proof {
                let range = 0x1_0000_0000_0000_0000int;
                assert(k_i as int * hashes@[1] as int >= 0) by (nonlinear_arith)
                    requires
                        k_i >= 0,
                        hashes@[1] >= 0,
                ;
                assert(product == (k_i as int * hashes@[1] as int) % range);
                assert(sum == (hashes@[0] as int + product as int) % range);
                lemma_add_mod_noop_right(hashes@[0] as int, k_i as int * hashes@[1] as int, range);
            }
            sum % LARGEST_PRIME
        }
    }

    /// Records the presence of `item`. Afterwards the filter holds `item`, and whatever it
    /// held before.
    pub fn set(&mut self, item: &[u8])
        requires
            old(self).wf(),
            old(self).spec_len() > 0,
        ensures
            final(self).wf(),
            final(self)@ == with_item(old(self)@, item@),
            same_frame(old(self)@, final(self)@),
            final(self).spec_check(item@),
            forall|other: Seq<u8>|
                old(self).spec_check(other) ==> #[trigger] final(self).spec_check(other),
    {
        let hashes = self.hashes(item);
        proof {
            lemma_with_hashes(self@, hashes@[0], hashes@[1]);
            lemma_with_hashes_keeps(self@, hashes@[0], hashes@[1]);
        }
        self.set_hashed(hashes[0], hashes[1]);
    }

    /// Whether `item` is possibly present. `false` means that it was never recorded.
    pub fn check(&self, item: &[u8]) -> (found: bool)
        requires
            self.wf(),
            self.spec_len() > 0,
        ensures
            found == self.spec_check(item@),
    {
        let hashes = self.hashes(item);
        self.check_hashed(hashes[0], hashes[1])
    }

    /// Records the presence of `item` and says whether it was possibly present before: what
    /// `check` would have answered, and then what `set` does.
    pub fn check_and_set(&mut self, item: &[u8]) -> (found: bool)
        requires
            old(self).wf(),
            old(self).spec_len() > 0,
        ensures
            final(self).wf(),
            found == old(self).spec_check(item@),
            final(self)@ == with_item(old(self)@, item@),
            same_frame(old(self)@, final(self)@),
            final(self).spec_check(item@),
            forall|other: Seq<u8>|
                old(self).spec_check(other) ==> #[trigger] final(self).spec_check(other),
    {
        let hashes = self.hashes(item);
        proof {
            lemma_with_hashes(self@, hashes@[0], hashes@[1]);
            lemma_with_hashes_keeps(self@, hashes@[0], hashes@[1]);
        }
        self.check_and_set_hashed(hashes[0], hashes[1])
    }

    /// Records an item by its two digests: sets the bit that each round addresses and no
    /// other.
    pub fn set_hashed(&mut self, h0: u64, h1: u64)
        requires
            old(self).wf(),
            old(self).spec_len() > 0,
        ensures
            final(self).wf(),
            final(self)@ == with_hashes(old(self)@, h0, h1),
            same_frame(old(self)@, final(self)@),
            forall|j: int|
                0 <= j < old(self).spec_len() ==> #[trigger] is_set(final(self)@, j) == (is_set(
                    old(self)@,
                    j,
                ) || addressed(h0, h1, old(self).spec_k_num(), old(self).spec_len(), j)),
            holds_hashes(final(self)@, h0, h1),
    {
        let hashes = [h0, h1];
        let mut k_i: u32 = 0;
        proof {
            lemma_with_hashes(self@, h0, h1);
        }
        while k_i < self.k_num
            invariant
                old(self).wf(),
                old(self).spec_len() > 0,
                hashes@[0] == h0,
                hashes@[1] == h1,
                self.k_num == old(self).k_num,
                self.bitmap_bits == old(self).bitmap_bits,
                self.sip_keys == old(self).sip_keys,
                k_i <= self.k_num,
                self.bitmap@ == marked(old(self)@, h0, h1, k_i as int),
            decreases self.k_num - k_i,
        {
            proof {
                lemma_marked(old(self)@, h0, h1, k_i as int);
                lemma_same_frame(old(self)@, self.bitmap@);
                lemma_round_offset_in_range(h0, h1, k_i as int, bit_count(old(self)@));
            }
            let bit_offset = (Self::bloom_hash(&hashes, k_i) % self.bitmap_bits) as usize;
            self.bitmap.set(bit_offset);
            k_i += 1;
        }
        proof {
            lemma_same_frame(old(self)@, self.bitmap@);
        }
    }

    /// Whether the bit that each round addresses is set, for an item given by its two digests.
    pub fn check_hashed(&self, h0: u64, h1: u64) -> (found: bool)
        requires
            self.wf(),
            self.spec_len() > 0,
        ensures
            found == holds_hashes(self@, h0, h1),
    {
        let hashes = [h0, h1];
        let mut k_i: u32 = 0;
        while k_i < self.k_num
            invariant
                self.wf(),
                self.spec_len() > 0,
                hashes@[0] == h0,
                hashes@[1] == h1,
                k_i <= self.k_num,
                forall|i: int|
                    0 <= i < k_i ==> is_set(
                        self@,
                        #[trigger] round_offset(h0, h1, i, bit_count(self@)),
                    ),
            decreases self.k_num - k_i,
        {
            proof {
                lemma_round_offset_in_range(h0, h1, k_i as int, bit_count(self@));
            }
            let bit_offset = (Self::bloom_hash(&hashes, k_i) % self.bitmap_bits) as usize;
            if self.bitmap.get(bit_offset) == false {
                assert(!is_set(self@, round_offset(h0, h1, k_i as int, bit_count(self@))));
                return false;
            }
            k_i += 1;
        }
        true
    }

    /// Records an item by its two digests and says whether the filter held it before.
    pub fn check_and_set_hashed(&mut self, h0: u64, h1: u64) -> (found: bool)
        requires
            old(self).wf(),
            old(self).spec_len() > 0,
        ensures
            final(self).wf(),
            found == holds_hashes(old(self)@, h0, h1),
            final(self)@ == with_hashes(old(self)@, h0, h1),
            same_frame(old(self)@, final(self)@),
            forall|j: int|
                0 <= j < old(self).spec_len() ==> #[trigger] is_set(final(self)@, j) == (is_set(
                    old(self)@,
                    j,
                ) || addressed(h0, h1, old(self).spec_k_num(), old(self).spec_len(), j)),
            holds_hashes(final(self)@, h0, h1),
    {
        let hashes = [h0, h1];
        let mut found = true;
        let mut k_i: u32 = 0;
        proof {
            lemma_with_hashes(self@, h0, h1);
        }
        while k_i < self.k_num
            invariant
                old(self).wf(),
                old(self).spec_len() > 0,
                hashes@[0] == h0,
                hashes@[1] == h1,
                self.k_num == old(self).k_num,
                self.bitmap_bits == old(self).bitmap_bits,
                self.sip_keys == old(self).sip_keys,
                k_i <= self.k_num,
                self.bitmap@ == marked(old(self)@, h0, h1, k_i as int),
                found ==> self.bitmap@ == old(self)@,
                found ==> forall|i: int|
                    0 <= i < k_i ==> is_set(
                        old(self)@,
                        #[trigger] round_offset(h0, h1, i, bit_count(old(self)@)),
                    ),
                !found ==> exists|i: int|
                    0 <= i < k_i && !is_set(
                        old(self)@,
                        #[trigger] round_offset(h0, h1, i, bit_count(old(self)@)),
                    ),
            decreases self.k_num - k_i,
        {
            proof {
                lemma_marked(old(self)@, h0, h1, k_i as int);
                lemma_same_frame(old(self)@, self.bitmap@);
                lemma_round_offset_in_range(h0, h1, k_i as int, bit_count(old(self)@));
                lemma_with_bit(
                    self.bitmap@,
                    round_offset(h0, h1, k_i as int, bit_count(old(self)@)),
                );
            }
            let bit_offset = (Self::bloom_hash(&hashes, k_i) % self.bitmap_bits) as usize;
            if self.bitmap.get(bit_offset) == false {
                if found {
                    assert(!is_set(
                        old(self)@,
                        round_offset(h0, h1, k_i as int, bit_count(old(self)@)),
                    ));
                }
                found = false;
                self.bitmap.set(bit_offset);
            }
            k_i += 1;
        }
        proof {
            lemma_same_frame(old(self)@, self.bitmap@);
        }
        found
    }

    /// Clears every bit: the filter holds nothing, as when it was made.
    pub fn clear(&mut self)
        requires
            old(self).wf(),
        ensures
            final(self).wf(),
            final(self)@ == with_all(old(self)@, 0),
            same_frame(old(self)@, final(self)@),
            no_bit_set(final(self)@),
            final(self).spec_len() > 0 ==> forall|item: Seq<u8>|
                !#[trigger] final(self).spec_check(item),
    {
        self.bitmap.clear();
        proof {
            lemma_same_frame(old(self)@, self@);
        }
        proof {
            if self.spec_len() > 0 {
                assert forall|item: Seq<u8>| !#[trigger] self.spec_check(item) by {
                    lemma_holds_nothing(
                        self@,
                        first_digest(self@, item),
                        second_digest(self@, item),
                    );
                }
            }
        }
    }

    /// Sets every bit: the filter answers "possibly present" for every item.
    pub fn fill(&mut self)
        requires
            old(self).wf(),
        ensures
            final(self).wf(),
            final(self)@ == with_all(old(self)@, 0xff),
            same_frame(old(self)@, final(self)@),
            every_bit_set(final(self)@),
            final(self).spec_len() > 0 ==> forall|item: Seq<u8>|
                #[trigger] final(self).spec_check(item),
    {
        self.bitmap.set_all();
        proof {
            lemma_same_frame(old(self)@, self@);
        }
        proof {
            if self.spec_len() > 0 {
                assert forall|item: Seq<u8>| #[trigger] self.spec_check(item) by {
                    lemma_holds_everything(
                        self@,
                        first_digest(self@, item),
                        second_digest(self@, item),
                    );
                }
            }
        }
    }

    /// Whether no bit is set.
    pub fn is_empty(&self) -> (empty: bool)
        requires
            self.wf(),
        ensures
            empty == no_bit_set(self@),
    {
        !self.bitmap.any()
    }

    /// Hands the filter's buffer to `f` and keeps what `f` returns, for a caller that wants
    /// the buffer moved to another allocation. `f` is expected to return the bytes that it was
    /// given; it has to return as many, with the same header.
    pub fn realloc_large_heap_allocated_objects(
        self,
        f: impl FnOnce(Vec<u8>) -> Vec<u8>,
    ) -> (filter: Self)
        requires
            self.wf(),
            forall|buffer: Vec<u8>| buffer@ == self@ ==> #[trigger] call_requires(f, (buffer,)),
            forall|buffer: Vec<u8>, moved: Vec<u8>|
                buffer@ == self@ && #[trigger] call_ensures(f, (buffer,), moved) ==> same_frame(
                    buffer@,
                    moved@,
                ),
        ensures
            filter.wf(),
            same_frame(self@, filter@),
            exists|buffer: Vec<u8>, moved: Vec<u8>|
                buffer@ == self@ && #[trigger] call_ensures(f, (buffer,), moved) && filter@
                    == moved@,
    {
        proof {
            assert forall|buffer: Vec<u8>, moved: Vec<u8>|
                buffer@ == self@ && #[trigger] call_ensures(
                    f,
                    (buffer,),
                    moved,
                ) implies moved@.len() == buffer@.len() && well_formed(moved@) by {
                lemma_same_frame(buffer@, moved@);
            }
        }
        let bitmap = self.bitmap.realloc_large_heap_allocated_objects(f);
        proof {
            lemma_same_frame(self@, bitmap@);
        }
        Self { bitmap, bitmap_bits: self.bitmap_bits, k_num: self.k_num, sip_keys: self.sip_keys }
    }

    fn from_bitmap(bitmap: BitMap) -> (res: Result<Self, &'static str>)
        requires
            loadable(bitmap@),
        ensures
            match res {
                Ok(filter) => filter.wf() && load(bitmap@) == Loaded::Ok(filter@),
                Err(reason) => load(bitmap@) == Loaded::Err(reason@),
            },
    {
        let len_bytes: usize = bitmap.as_slice().len() - 45;
        if len_bytes > usize::MAX / 8 {
            return Err("Too big");
        }
        let header = bitmap.header();
        let k_num = BitMap::get_k_num(header);
        let seed = BitMap::get_seed(header);
        let sip_keys = Self::split_seed(&seed);
        let bitmap_bits = bitmap.len_bits();
        proof {
            lemma_header_fields(bitmap@);
            assert(first_key(bitmap@) =~= stored_seed(bitmap@).subrange(0, 16));
            assert(second_key(bitmap@) =~= stored_seed(bitmap@).subrange(16, 32));
        }
        Ok(Self { bitmap, bitmap_bits, k_num, sip_keys })
    }

    fn split_seed(seed: &[u8; 32]) -> (keys: [[u8; 16]; 2])
        ensures
            keys@[0]@ == seed@.subrange(0, 16),
            keys@[1]@ == seed@.subrange(16, 32),
    {
        let mut k1 = [0u8; 16];
        let mut k2 = [0u8; 16];
        let mut i: usize = 0;
        while i < 16
            invariant
                i <= 16,
                forall|j: int| 0 <= j < i ==> k1@[j] == seed@[j] && k2@[j] == seed@[16 + j],
            decreases 16 - i,
        {
            k1[i] = seed[i];
            k2[i] = seed[16 + i];
            i += 1;
        }
        assert(k1@ =~= seed@.subrange(0, 16));
        assert(k2@ =~= seed@.subrange(16, 32));
        [k1, k2]
    }

    fn joined_keys(&self) -> (seed: [u8; 32])
        ensures
            seed@ == self.sip_keys@[0]@ + self.sip_keys@[1]@,
    {
        let mut seed = [0u8; 32];
        let mut i: usize = 0;
        while i < 16
            invariant
                i <= 16,
                forall|j: int|
                    0 <= j < i ==> seed@[j] == self.sip_keys@[0]@[j] && seed@[16 + j]
                        == self.sip_keys@[1]@[j],
            decreases 16 - i,
        {
            seed[i] = self.sip_keys[0][i];
            seed[16 + i] = self.sip_keys[1][i];
            i += 1;
        }
        assert(seed@ =~= self.sip_keys@[0]@ + self.sip_keys@[1]@);
        seed
    }

    fn sync(&mut self)
        requires
            old(self).bitmap.wf(),
        ensures
            final(self).bitmap@ == overlay(
                overlay(old(self).bitmap@, 9, u32_le(old(self).k_num)),
                13,
                old(self).sip_keys@[0]@ + old(self).sip_keys@[1]@,
            ),
            final(self).bitmap_bits == old(self).bitmap_bits,
            final(self).k_num == old(self).k_num,
            final(self).sip_keys == old(self).sip_keys,
    {
        let seed = self.joined_keys();
        let k_num = self.k_num;
        let header = self.bitmap.header_mut();
        BitMap::set_k_num(header, k_num);
        BitMap::set_seed(header, &seed);
        assert(final(self).bitmap@ =~= overlay(
            overlay(old(self).bitmap@, 9, u32_le(old(self).k_num)),
            13,
            old(self).sip_keys@[0]@ + old(self).sip_keys@[1]@,
        ));
    }
}

} // verus!
