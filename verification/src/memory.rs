//! Plain values exchanged with the caller and with the upstream owner.
use vstd::prelude::*;
use vstd::arithmetic::power2::{pow2, lemma_pow2_unfold, lemma_pow2_strictly_increases, lemma2_to64};

verus! {

/// Identifier of a memory type of the device.
#[derive(Clone, Copy, Debug, PartialEq, Eq, Structural)]
pub struct MemoryTypeId(pub usize);

/// What a resource asks of the memory it is bound to.
#[derive(Clone, Copy, Debug, PartialEq, Eq, Structural)]
pub struct Requirements {
    /// Bytes needed.
    pub size: u64,
    /// Byte alignment needed, a power of two.
    pub alignment: u64,
    /// Bit `i` is set where memory type `i` is acceptable.
    pub type_mask: u64,
}

/// Why an allocation failed.
#[derive(Clone, Copy, Debug, PartialEq, Eq, Structural)]
pub enum MemoryError {
    /// The request's type mask leaves out the allocator's memory type.
    NoCompatibleMemoryType,
    /// The request is larger than the allocator serves, or the upstream
    /// owner is exhausted.
    OutOfMemory,
}

/// A backing block granted by the upstream owner: the identity of the memory
/// object it lies in and its byte range `start..end` there.
#[derive(Clone, Copy, Debug, PartialEq, Eq, Structural)]
pub struct MemoryBlock {
    /// Identity of the memory object.
    pub memory: u64,
    /// First byte of the block in the memory object.
    pub start: u64,
    /// One past the last byte of the block.
    pub end: u64,
}

/// `n` is a power of two.
pub open spec fn is_power_of_two(n: u64) -> bool {
    exists|e: nat| n == #[trigger] pow2(e)
}

/// Tells whether `n` is a power of two.
pub fn power_of_two(n: u64) -> (r: bool)
    ensures
        r == is_power_of_two(n),
{
    let mut p: u64 = 1;
    let ghost mut k: nat = 0;
    proof {
        lemma2_to64();
    }
    while p < n && p <= u64::MAX / 2
        invariant
            p == pow2(k),
            k <= 63,
            pow2(64) == 0x10000000000000000,
            forall|j: nat| j < k ==> #[trigger] pow2(j) < n,
        decreases 64 - k,
    {
        proof {
            lemma_pow2_unfold(k + 1);
            if k + 1 > 64 {
                lemma_pow2_strictly_increases(64, k + 1);
            }
            assert forall|j: nat| j < k + 1 implies #[trigger] pow2(j) < n by {
                if j == k {
                    assert(pow2(j) == p);
                }
            }
            k = k + 1;
        }
        p = p * 2;
    }
    proof {
        if p != n {
            assert forall|e: nat| n != #[trigger] pow2(e) by {
                if e > k {
                    lemma_pow2_strictly_increases(k, e);
                    if p < n {
                        lemma_pow2_unfold(k + 1);
                        if e > k + 1 {
                            lemma_pow2_strictly_increases(k + 1, e);
                        }
                    }
                }
            }
        }
    }
    p == n
}

/// The bit that stands for memory type `id` in a type mask.
pub open spec fn type_bit(id: MemoryTypeId) -> u64
    recommends
        id.0 < 64,
{
    1u64 << (id.0 as u64)
}

impl Requirements {
    /// The type mask admits memory type `id`.
    pub open spec fn admits(self, id: MemoryTypeId) -> bool {
        self.type_mask & type_bit(id) != 0
    }

    /// Tells whether the type mask admits memory type `id`.
    pub fn accepts(&self, id: MemoryTypeId) -> (r: bool)
        requires
            id.0 < 64,
        ensures
            r == self.admits(id),
    {
        (self.type_mask & (1u64 << (id.0 as u64))) != 0
    }
}

impl MemoryBlock {
    /// The block is a proper range that meets the size and the alignment of
    /// `reqs`.
    pub open spec fn satisfies(self, reqs: Requirements) -> bool {
        &&& reqs.alignment > 0
        &&& self.start <= self.end
        &&& self.start as int % reqs.alignment as int == 0
        &&& self.end - self.start >= reqs.size
    }

    /// Tells whether the block is a proper range that meets the size and the
    /// alignment of `reqs`.
    pub fn meets(&self, reqs: &Requirements) -> (r: bool)
        ensures
            r == self.satisfies(*reqs),
    {
        reqs.alignment > 0 && self.start <= self.end && self.start % reqs.alignment == 0
            && self.end - self.start >= reqs.size
    }
}

} // verus!
