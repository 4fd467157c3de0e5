//! The bit store: a header and the bit array behind it, held in one buffer, in the layout of
//! [`crate::layout`]. It reads and writes the header's fields, gets and sets bits, and checks
//! a buffer before it adopts it.

use crate::codec::{overlay, read_u32, read_u64, u32_le, u64_le, write_bytes, write_u32, write_u64};
use crate::layout::{
    bit_count, every_bit_set, fresh, header_replaced, is_set, lemma_fresh, lemma_header_fields,
    lemma_header_replaced, lemma_k_num_written, lemma_no_bit_set, lemma_same_header,
    lemma_seed_written, lemma_with_all, lemma_with_bit, load_error, loadable, no_bit_set,
    same_header, stored_bits, stored_header, stored_k_num, stored_len_bytes, stored_seed,
    stored_version, well_formed, with_all, with_bit,
};
use vstd::prelude::*;
use vstd::slice::slice_to_vec;

pub use crate::layout::{BITMAP_HEADER_SIZE, VERSION};

verus! {

/// A header followed by a bit array, held in one buffer.
#[derive(Debug)]
pub struct BitMap {
    header_and_bits: Vec<u8>,
}

impl View for BitMap {
    type V = Seq<u8>;

    /// The whole buffer, header first.
    closed spec fn view(&self) -> Seq<u8> {
        self.header_and_bits@
    }
}

impl Clone for BitMap {
    /// A bit store with a copy of the buffer.
    fn clone(&self) -> (copy: Self)
        ensures
            copy@ == self@,
    {
        Self { header_and_bits: self.header_and_bits.clone() }
    }
}

impl BitMap {
    /// The invariant of the type: the buffer is well formed. A caller that writes to the
    /// header through `header_mut` has to keep it.
    pub open spec fn wf(&self) -> bool {
        well_formed(self@)
    }

    /// The number of bits in the bit array.
    pub open spec fn spec_len_bits(&self) -> int {
        bit_count(self@)
    }

    /// Whether bit `i` of the bit array is set.
    pub open spec fn spec_get(&self, i: int) -> bool {
        is_set(self@, i)
    }

    /// A bit store of `len_bytes` zero bytes. Its header holds the version and the length; no
    /// hash rounds and no seed are recorded yet.
    pub fn new(len_bytes: usize) -> (map: Self)
        requires
            0 < len_bytes,
            45 + len_bytes <= isize::MAX,
        ensures
            map.wf(),
            map@ == fresh(len_bytes),
            map.spec_len_bits() == 8 * len_bytes,
            stored_k_num(map@) == 0,
            no_bit_set(map@),
    {
        let mut header_and_bits = vec![0u8; BITMAP_HEADER_SIZE + len_bytes];
        let header = header_and_bits.as_mut_slice();
        Self::set_version(header, VERSION);
        Self::set_len_bytes(header, len_bytes as u64);
        Self::set_k_num(header, 0);
        let map = Self { header_and_bits };
        proof {
            assert(map@ =~= fresh(len_bytes));
            lemma_fresh(len_bytes);
        }
        map
    }

    /// Adopts `bytes` as a bit store, if it is a well-formed buffer with at least one hash
    /// round; else says why not.
    pub fn from_bytes(bytes: Vec<u8>) -> (res: Result<Self, &'static str>)
        ensures
            match res {
                Ok(map) => loadable(bytes@) && map@ == bytes@,
                Err(reason) => !loadable(bytes@) && reason@ == load_error(bytes@),
            },
    {
        match Self::check_buffer(bytes.as_slice()) {
            Ok(()) => Ok(Self { header_and_bits: bytes }),
            Err(reason) => Err(reason),
        }
    }

    /// Copies `bytes` into a bit store, if it is a well-formed buffer with at least one hash
    /// round; else says why not.
    pub fn from_slice(bytes: &[u8]) -> (res: Result<Self, &'static str>)
        ensures
            match res {
                Ok(map) => loadable(bytes@) && map@ == bytes@,
                Err(reason) => !loadable(bytes@) && reason@ == load_error(bytes@),
            },
    {
        match Self::check_buffer(bytes) {
            Ok(()) => Ok(Self { header_and_bits: slice_to_vec(bytes) }),
            Err(reason) => Err(reason),
        }
    }

    /// The whole buffer, header first.
    pub fn as_slice(&self) -> (bytes: &[u8])
        ensures
            bytes@ == self@,
    {
        self.header_and_bits.as_slice()
    }

    /// Gives up the bit store for its buffer.
    pub fn into_bytes(self) -> (bytes: Vec<u8>)
        ensures
            bytes@ == self@,
    {
        self.header_and_bits
    }

    /// A copy of the whole buffer.
    pub fn to_bytes(&self) -> (bytes: Vec<u8>)
        ensures
            bytes@ == self@,
    {
        self.header_and_bits.clone()
    }

    /// The header of the buffer.
    pub fn header(&self) -> (header: &[u8])
        requires
            self.wf(),
        ensures
            header@ == stored_header(self@),
    {
        let (header, _bits) = self.header_and_bits.as_slice().split_at(BITMAP_HEADER_SIZE);
        header
    }

    /// The header of the buffer, open to writing. What the caller leaves in it becomes the
    /// header of the bit store; the bit array stays as it was. The bit store is well formed
    /// again if the caller leaves the version and the length as they were.
    pub fn header_mut(&mut self) -> (header: &mut [u8])
        requires
            old(self).wf(),
        ensures
            header@ == stored_header(old(self)@),
            final(self)@ == final(header)@ + stored_bits(old(self)@),
            final(header)@.len() == 45 ==> header_replaced(
                old(self)@,
                final(header)@,
                final(self)@,
            ),
    {
        proof {
            assert forall|header: Seq<u8>| header.len() == 45 implies #[trigger] header_replaced(
                self@,
                header,
                header + stored_bits(self@),
            ) by {
                lemma_header_replaced(self@, header);
            }
        }
        let (header, _bits) = self.header_and_bits.as_mut_slice().split_at_mut(BITMAP_HEADER_SIZE);
        header
    }

    /// The number of hash rounds recorded in `header`.
    pub fn get_k_num(header: &[u8]) -> (k_num: u32)
        requires
            header@.len() >= 13,
        ensures
            k_num == stored_k_num(header@),
    {
        read_u32(header, 9)
    }

    /// Records `k_num` hash rounds in `header` and leaves the header's other fields as they
    /// were.
    pub fn set_k_num(header: &mut [u8], k_num: u32)
        requires
            old(header)@.len() >= 13,
        ensures
            final(header)@ == overlay(old(header)@, 9, u32_le(k_num)),
            final(header)@.len() == old(header)@.len(),
            stored_k_num(final(header)@) == k_num,
            stored_version(final(header)@) == stored_version(old(header)@),
            stored_len_bytes(final(header)@) == stored_len_bytes(old(header)@),
            old(header)@.len() >= 45 ==> stored_seed(final(header)@) == stored_seed(old(header)@),
    {
        write_u32(header, 9, k_num);
        proof {
            lemma_k_num_written(old(header)@, k_num);
        }
    }

    /// The seed recorded in `header`.
    pub fn get_seed(header: &[u8]) -> (seed: [u8; 32])
        requires
            header@.len() >= 45,
        ensures
            seed@ == stored_seed(header@),
    {
        let mut seed = [0u8; 32];
        let mut i: usize = 0;
        while i < 32
            invariant
                header@.len() >= 45,
                i <= 32,
                forall|j: int| 0 <= j < i ==> seed@[j] == header@[13 + j],
            decreases 32 - i,
        {
            seed[i] = header[13 + i];
            i += 1;
        }
        assert(seed@ =~= stored_seed(header@));
        seed
    }

    /// Records `seed` in `header` and leaves the header's other fields as they were.
    pub fn set_seed(header: &mut [u8], seed: &[u8; 32])
        requires
            old(header)@.len() >= 45,
        ensures
            final(header)@ == overlay(old(header)@, 13, seed@),
            final(header)@.len() == old(header)@.len(),
            stored_seed(final(header)@) == seed@,
            stored_version(final(header)@) == stored_version(old(header)@),
            stored_len_bytes(final(header)@) == stored_len_bytes(old(header)@),
            stored_k_num(final(header)@) == stored_k_num(old(header)@),
    {
        write_bytes(header, 13, seed.as_slice());
        proof {
            lemma_seed_written(old(header)@, seed@);
        }
    }

    /// Whether bit `bit_offset` is set.
    pub fn get(&self, bit_offset: usize) -> (set: bool)
        requires
            self.wf(),
            bit_offset < self.spec_len_bits(),
        ensures
            set == self.spec_get(bit_offset as int),
    {
        let byte_offset = bit_offset / 8;
        let bit_shift = bit_offset % 8;
        (self.bits()[byte_offset] & (1 << bit_shift)) != 0
    }

    /// Sets bit `bit_offset` and leaves every other bit, and the header, as they were.
    pub fn set(&mut self, bit_offset: usize)
        requires
            old(self).wf(),
            bit_offset < old(self).spec_len_bits(),
        ensures
            final(self).wf(),
            final(self)@ == with_bit(old(self)@, bit_offset as int),
            same_header(old(self)@, final(self)@),
            forall|j: int|
                0 <= j < old(self).spec_len_bits() ==> #[trigger] is_set(final(self)@, j) == (j
                    == bit_offset || is_set(old(self)@, j)),
    {
        proof {
            lemma_with_bit(self@, bit_offset as int);
            lemma_same_header(self@, with_bit(self@, bit_offset as int));
        }
        let byte_offset = bit_offset / 8;
        let bit_shift = bit_offset % 8;
        self.bits_mut()[byte_offset] |= 1 << bit_shift;
        assert(self@ =~= with_bit(old(self)@, bit_offset as int));
    }

    /// Clears every bit and leaves the header as it was.
    pub fn clear(&mut self)
        requires
            old(self).wf(),
        ensures
            final(self).wf(),
            final(self)@ == with_all(old(self)@, 0),
            same_header(old(self)@, final(self)@),
            no_bit_set(final(self)@),
    {
        proof {
            lemma_with_all(self@);
            lemma_same_header(self@, with_all(self@, 0));
        }
        let bits = self.bits_mut();
        let n: usize = bits.len();
        let mut i: usize = 0;
        while i < n
            invariant
                n == bits@.len(),
                i <= n,
                forall|j: int| 0 <= j < i ==> bits@[j] == 0,
            decreases n - i,
        {
            bits[i] = 0;
            i += 1;
        }
        assert(final(self)@ =~= with_all(old(self)@, 0));
    }

    /// Sets every bit and leaves the header as it was.
    pub fn set_all(&mut self)
        requires
            old(self).wf(),
        ensures
            final(self).wf(),
            final(self)@ == with_all(old(self)@, 0xff),
            same_header(old(self)@, final(self)@),
            every_bit_set(final(self)@),
    {
        proof {
            lemma_with_all(self@);
            lemma_same_header(self@, with_all(self@, 0xff));
        }
        let bits = self.bits_mut();
        let n: usize = bits.len();
        let mut i: usize = 0;
        while i < n
            invariant
                n == bits@.len(),
                i <= n,
                forall|j: int| 0 <= j < i ==> bits@[j] == 0xff,
            decreases n - i,
        {
            assert(!0u8 == 0xffu8) by (bit_vector);
            bits[i] = !0;
            i += 1;
        }
        assert(final(self)@ =~= with_all(old(self)@, 0xff));
    }

    /// Whether any byte of the bit array is nonzero, that is, whether any bit is set.
    pub fn any(&self) -> (found: bool)
        requires
            self.wf(),
        ensures
            found <==> exists|j: int|
                0 <= j < stored_bits(self@).len() && stored_bits(self@)[j] != 0,
            found == !no_bit_set(self@),
    {
        let bits = self.bits();
        let n: usize = bits.len();
        let mut i: usize = 0;
        while i < n
            invariant
                self.wf(),
                bits@ == stored_bits(self@),
                n == bits@.len(),
                i <= n,
                forall|j: int| 0 <= j < i ==> bits@[j] == 0,
            decreases n - i,
        {
            if bits[i] != 0 {
                proof {
                    lemma_no_bit_set(self@);
                }
                return true;
            }
            i += 1;
        }
        proof {
            lemma_no_bit_set(self@);
        }
        false
    }

    /// The number of bits in the bit array.
    pub fn len_bits(&self) -> (len: u64)
        requires
            self.wf(),
            self.spec_len_bits() <= u64::MAX,
        ensures
            len == self.spec_len_bits(),
    {
        let len_bytes: u64 = self.bits().len() as u64;
        len_bytes * 8
    }

    /// Hands the buffer to `f` and keeps what `f` returns, for a caller that wants the buffer
    /// moved to another allocation. `f` is expected to return the bytes that it was given; it
    /// has to return as many, and a well-formed buffer.
    pub fn realloc_large_heap_allocated_objects(
        self,
        f: impl FnOnce(Vec<u8>) -> Vec<u8>,
    ) -> (map: Self)
        requires
            self.wf(),
            forall|buffer: Vec<u8>| buffer@ == self@ ==> #[trigger] call_requires(f, (buffer,)),
            forall|buffer: Vec<u8>, moved: Vec<u8>|
                buffer@ == self@ && #[trigger] call_ensures(f, (buffer,), moved) ==> moved@.len()
                    == buffer@.len() && well_formed(moved@),
        ensures
            map.wf(),
            map@.len() == self@.len(),
            exists|buffer: Vec<u8>, moved: Vec<u8>|
                buffer@ == self@ && #[trigger] call_ensures(f, (buffer,), moved) && map@ == moved@,
    {
        let ghost buffer = self.header_and_bits;
        let moved = f(self.header_and_bits);
        assert(call_ensures(f, (buffer,), moved));
        Self { header_and_bits: moved }
    }

    fn check_buffer(bytes: &[u8]) -> (res: Result<(), &'static str>)
        ensures
            match res {
                Ok(()) => loadable(bytes@),
                Err(reason) => !loadable(bytes@) && reason@ == load_error(bytes@),
            },
    {
        if bytes.len() < BITMAP_HEADER_SIZE {
            return Err("Invalid size");
        }
        let (header, bits) = bytes.split_at(BITMAP_HEADER_SIZE);
        proof {
            lemma_header_fields(bytes@);
        }
        if Self::get_version(header) != VERSION {
            return Err("Version mismatch");
        }
        if Self::get_k_num(header) == 0 {
            return Err("Invalid number of keys");
        }
        let len_bytes_u64 = Self::get_len_bytes(header);
        if len_bytes_u64 > usize::MAX as u64 {
            return Err("Too big");
        }
        let len_bytes: usize = len_bytes_u64 as usize;
        if bits.len() != len_bytes {
            return Err("Invalid size");
        }
        Ok(())
    }

    fn bits(&self) -> (bits: &[u8])
        requires
            self.wf(),
        ensures
            bits@ == stored_bits(self@),
    {
        let (_header, bits) = self.header_and_bits.as_slice().split_at(BITMAP_HEADER_SIZE);
        bits
    }

    fn bits_mut(&mut self) -> (bits: &mut [u8])
        requires
            old(self).wf(),
        ensures
            bits@ == stored_bits(old(self)@),
            final(self)@ == stored_header(old(self)@) + final(bits)@,
    {
        let (_header, bits) = self.header_and_bits.as_mut_slice().split_at_mut(BITMAP_HEADER_SIZE);
        bits
    }

    fn get_version(header: &[u8]) -> (version: u8)
        requires
            header@.len() >= 1,
        ensures
            version == stored_version(header@),
    {
        header[0]
    }

    fn set_version(header: &mut [u8], version: u8)
        requires
            old(header)@.len() >= 1,
        ensures
            final(header)@ == old(header)@.update(0, version),
    {
        header[0] = version;
    }

    fn get_len_bytes(header: &[u8]) -> (len_bytes: u64)
        requires
            header@.len() >= 9,
        ensures
            len_bytes == stored_len_bytes(header@),
    {
        read_u64(header, 1)
    }

    fn set_len_bytes(header: &mut [u8], len_bytes: u64)
        requires
            old(header)@.len() >= 9,
        ensures
            final(header)@ == overlay(old(header)@, 1, u64_le(len_bytes)),
    {
        write_u64(header, 1, len_bytes);
    }
}

} // verus!
