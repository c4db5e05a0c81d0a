//! Heap allocators: their shared request type and the heap's fixed place.
//!
//! The allocators keep their bookkeeping over addresses: a free region is a
//! start address and a size, and an allocation hands out an address. The
//! memory itself is reached only by the code that installs an allocator as
//! the process-wide one.
use crate::align::{is_power_of_two, is_power_of_two_exec};
use vstd::prelude::*;

pub mod bump;
pub mod fixed_size_block;
pub mod linked_list;

verus! {

/// Virtual address at which the heap starts.
pub const HEAP_START: u64 = 0x4444_4444_0000;

/// Size of the heap in bytes.
pub const HEAP_SIZE: u64 = 102400;

/// Largest value of `isize`, the bound on the size of any allocation.
pub const ISIZE_MAX: u64 = 0x7fff_ffff_ffff_ffff;

/// A request for memory: a size in bytes and a power-of-two alignment.
#[derive(Clone, Copy, Debug, PartialEq, Eq)]
pub struct Layout {
    pub size: u64,
    pub align: u64,
}

impl Layout {
    /// The alignment is a power of two and the size rounded up to it stays
    /// below `isize::MAX`.
    pub open spec fn wf(&self) -> bool {
        is_power_of_two(self.align as int) && self.size + self.align - 1 <= ISIZE_MAX
    }

    /// Builds a layout; `None` where `align` is not a power of two or the
    /// size rounded up to it would pass `isize::MAX`.
    pub fn from_size_align(size: u64, align: u64) -> (r: Option<Layout>)
        ensures
            r is Some <==> (is_power_of_two(align as int) && size + align - 1 <= ISIZE_MAX),
            r matches Some(l) ==> l.size == size && l.align == align && l.wf(),
    {
        if !is_power_of_two_exec(align) {
            return None;
        }
        proof {
            crate::align::lemma_pow2_positive(align as int);
        }
        if size > ISIZE_MAX || align - 1 > ISIZE_MAX - size {
            return None;
        }
        Some(Layout { size, align })
    }

}

} // verus!
