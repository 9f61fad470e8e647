//! A bit-indexed set over a contiguous byte buffer.
//!
//! One structure serves two masters: the physical frame allocator keeps one
//! bit per frame, and each slab keeps one bit per object slot.  Throughout
//! this crate a set bit means "free / available"; both allocators follow
//! that convention.  The buffer is owned by the bitmap and released with it.

use vstd::prelude::*;

verus! {

/// True when bit `k` (counted from the least significant end) of `b` is set.
pub open spec fn bit_of_byte(b: u8, k: int) -> bool {
    (b >> (k as u8)) & 1 == 1
}

proof fn lemma_u8_or(b: u8, k: u8, j: u8)
    by (bit_vector)
    requires
        k < 8,
        j < 8,
    ensures
        ((b | (1u8 << k)) >> j) & 1 == if j == k {
            1u8
        } else {
            (b >> j) & 1
        },
{
}

proof fn lemma_u8_and_not(b: u8, k: u8, j: u8)
    by (bit_vector)
    requires
        k < 8,
        j < 8,
    ensures
        ((b & !(1u8 << k)) >> j) & 1 == if j == k {
            0u8
        } else {
            (b >> j) & 1
        },
{
}

proof fn lemma_u8_xor(b: u8, k: u8, j: u8)
    by (bit_vector)
    requires
        k < 8,
        j < 8,
    ensures
        j != k ==> ((b ^ (1u8 << k)) >> j) & 1 == (b >> j) & 1,
        (((b ^ (1u8 << k)) >> k) & 1 == 1) <==> !((b >> k) & 1 == 1),
{
}

proof fn lemma_u8_zero(j: u8)
    by (bit_vector)
    requires
        j < 8,
    ensures
        (0u8 >> j) & 1 == 0,
{
}

/// Places bit index `i` inside a buffer of `n` bytes: which byte holds it,
/// at which offset, and that the decomposition is unique.
proof fn lemma_bit_index(i: int, n: int)
    requires
        0 <= i < 8 * n,
    ensures
        0 <= i / 8 < n,
        0 <= i % 8 < 8,
        i == 8 * (i / 8) + i % 8,
{
    vstd::arithmetic::div_mod::lemma_fundamental_div_mod(i, 8);
    assert(0 <= i / 8 < n) by (nonlinear_arith)
        requires
            i == 8 * (i / 8) + i % 8,
            0 <= i % 8 < 8,
            0 <= i < 8 * n,
    ;
}

pub struct Bitmap {
    pub data: Vec<u8>,
}

impl Bitmap {
    /// Number of bytes of backing storage.
    pub open spec fn spec_size(self) -> int {
        self.data@.len() as int
    }

    /// Number of addressable bits.
    pub open spec fn capacity(self) -> int {
        8 * (self.data@.len() as int)
    }

    /// Value of bit `i`.
    pub open spec fn bit(self, i: int) -> bool {
        bit_of_byte(self.data@[i / 8], i % 8)
    }

    /// The whole bitmap as a sequence of booleans.
    pub open spec fn bits(self) -> Seq<bool> {
        Seq::new((8 * self.data@.len()) as nat, |i: int| self.bit(i))
    }

    /// A zero-filled bitmap over `size` bytes of fresh storage, giving
    /// `8 * size` addressable bits; a caller sizing by bit capacity divides
    /// by eight rounding up, as the boot path does for its frame count.
    pub fn new(size: usize) -> (r: Bitmap)
        ensures
            r.spec_size() == size,
            forall|i: int| 0 <= i < r.capacity() ==> !r.bit(i),
    {
        let data: Vec<u8> = vec![0u8; size];
        let r = Bitmap { data };
        proof {
            assert forall|i: int| 0 <= i < r.capacity() implies !r.bit(i) by {
                lemma_bit_index(i, r.data@.len() as int);
                lemma_u8_zero((i % 8) as u8);
            }
        }
        r
    }

    /// Wraps storage supplied by the caller, bits taken as they stand.
    pub fn from_bytes(data: Vec<u8>) -> (r: Bitmap)
        ensures
            r.spec_size() == data@.len(),
            r.data@ == data@,
    {
        Bitmap { data }
    }

    /// Byte length of the backing buffer.
    pub fn size(&self) -> (r: usize)
        ensures
            r == self.spec_size(),
    {
        self.data.len()
    }

    /// Sets bit `bit`; every other bit keeps its value.
    pub fn set(&mut self, bit: usize)
        requires
            bit < old(self).capacity(),
        ensures
            final(self).spec_size() == old(self).spec_size(),
            final(self).bit(bit as int),
            forall|j: int|
                0 <= j < old(self).capacity() && j != bit ==> final(self).bit(j) == old(
                    self,
                ).bit(j),
            final(self).bits() == old(self).bits().update(bit as int, true),
    {
        proof {
            lemma_bit_index(bit as int, self.data@.len() as int);
        }
        let byte = bit / 8;
        let off: u8 = (bit % 8) as u8;
        let b = self.data[byte];
        self.data[byte] = b | (1u8 << off);
        proof {
            let n = old(self).data@.len() as int;
            lemma_u8_or(b, off, off);
            assert forall|j: int|
                0 <= j < old(self).capacity() && j != bit implies self.bit(j) == old(
                self,
            ).bit(j) by {
                lemma_bit_index(j, n);
                if j / 8 == bit as int / 8 {
                    lemma_u8_or(b, off, (j % 8) as u8);
                }
            }
            assert(self.bits() =~= old(self).bits().update(bit as int, true));
        }
    }

    /// Clears bit `bit`; every other bit keeps its value.
    pub fn clear(&mut self, bit: usize)
        requires
            bit < old(self).capacity(),
        ensures
            final(self).spec_size() == old(self).spec_size(),
            !final(self).bit(bit as int),
            forall|j: int|
                0 <= j < old(self).capacity() && j != bit ==> final(self).bit(j) == old(
                    self,
                ).bit(j),
            final(self).bits() == old(self).bits().update(bit as int, false),
    {
        proof {
            lemma_bit_index(bit as int, self.data@.len() as int);
        }
        let byte = bit / 8;
        let off: u8 = (bit % 8) as u8;
        let b = self.data[byte];
        self.data[byte] = b & !(1u8 << off);
        proof {
            let n = old(self).data@.len() as int;
            lemma_u8_and_not(b, off, off);
            assert forall|j: int|
                0 <= j < old(self).capacity() && j != bit implies self.bit(j) == old(
                self,
            ).bit(j) by {
                lemma_bit_index(j, n);
                if j / 8 == bit as int / 8 {
                    lemma_u8_and_not(b, off, (j % 8) as u8);
                }
            }
            assert(self.bits() =~= old(self).bits().update(bit as int, false));
        }
    }

    /// Flips bit `bit`; every other bit keeps its value.
    pub fn toggle(&mut self, bit: usize)
        requires
            bit < old(self).capacity(),
        ensures
            final(self).spec_size() == old(self).spec_size(),
            final(self).bit(bit as int) == !old(self).bit(bit as int),
            forall|j: int|
                0 <= j < old(self).capacity() && j != bit ==> final(self).bit(j) == old(
                    self,
                ).bit(j),
    {
        proof {
            lemma_bit_index(bit as int, self.data@.len() as int);
        }
        let byte = bit / 8;
        let off: u8 = (bit % 8) as u8;
        let b = self.data[byte];
        self.data[byte] = b ^ (1u8 << off);
        proof {
            let n = old(self).data@.len() as int;
            lemma_u8_xor(b, off, off);
            assert forall|j: int|
                0 <= j < old(self).capacity() && j != bit implies self.bit(j) == old(
                self,
            ).bit(j) by {
                lemma_bit_index(j, n);
                if j / 8 == bit as int / 8 {
                    lemma_u8_xor(b, off, (j % 8) as u8);
                }
            }
        }
    }

    /// Bitmap round trip, stated over the sequence view that `set`, `clear`
    /// and `is_set` are specified against: after setting bit `i` it reads
    /// back true, after clearing it reads back false, and either operation
    /// leaves every other bit `j` exactly as it was.
    pub proof fn lemma_round_trip(bits: Seq<bool>, i: int, j: int)
        requires
            0 <= i < bits.len(),
            0 <= j < bits.len(),
            j != i,
        ensures
            bits.update(i, true)[i] == true,
            bits.update(i, false)[i] == false,
            bits.update(i, true)[j] == bits[j],
            bits.update(i, false)[j] == bits[j],
    {
    }

    /// Reads bit `bit`.
    pub fn is_set(&self, bit: usize) -> (r: bool)
        requires
            bit < self.capacity(),
        ensures
            r == self.bit(bit as int),
    {
        proof {
            lemma_bit_index(bit as int, self.data@.len() as int);
        }
        let b = self.data[bit / 8];
        (b >> (bit % 8) as u8) & 1 == 1
    }
}

} // verus!
