//! Bump allocator: a cursor that only moves forward, reset when every
//! allocation has been freed.
use crate::align::{align_up, align_up_spec, lemma_pow2_positive};
use crate::allocator::Layout;
use vstd::prelude::*;

verus! {

/// Allocator that hands out memory by advancing a cursor and reclaims it only
/// once every live allocation has been freed.
pub struct BumpAllocator {
    heap_start: u64,
    heap_end: u64,
    next: u64,
    allocations: u64,
}

/// The allocator's state: heap bounds, cursor and number of live allocations.
pub struct BumpState {
    pub heap_start: int,
    pub heap_end: int,
    pub next: int,
    pub allocations: int,
}

/// What an allocation returns, and the state after it. The cursor rounded up
/// to the alignment starts the block; it fails where the block would pass
/// the heap's end or the count of live allocations is at its limit.
pub open spec fn bump_alloc_spec(s: BumpState, layout: Layout) -> (Option<u64>, BumpState) {
    let start = align_up_spec(s.next, layout.align as int);
    if s.next + layout.align - 1 > u64::MAX || start + layout.size > s.heap_end || s.allocations
        == u64::MAX {
        (None, s)
    } else {
        (
            Some(start as u64),
            BumpState { next: start + layout.size, allocations: s.allocations + 1, ..s },
        )
    }
}

/// The state after a free: one live allocation fewer, and the cursor back at
/// the heap's start once none is left.
pub open spec fn bump_dealloc_spec(s: BumpState) -> BumpState {
    if s.allocations == 1 {
        BumpState { next: s.heap_start, allocations: 0, ..s }
    } else {
        BumpState { allocations: s.allocations - 1, ..s }
    }
}

/// The state after `n` frees.
pub open spec fn bump_dealloc_n(s: BumpState, n: nat) -> BumpState
    decreases n,
{
    if n == 0 {
        s
    } else {
        bump_dealloc_n(bump_dealloc_spec(s), (n - 1) as nat)
    }
}

impl BumpAllocator {
    pub closed spec fn state(&self) -> BumpState {
        BumpState {
            heap_start: self.heap_start as int,
            heap_end: self.heap_end as int,
            next: self.next as int,
            allocations: self.allocations as int,
        }
    }

    /// The cursor lies within the heap, and every field is a `u64`.
    pub open spec fn wf(&self) -> bool {
        &&& 0 <= self.state().heap_start <= self.state().next <= self.state().heap_end <= u64::MAX
        &&& 0 <= self.state().allocations <= u64::MAX
    }

    /// An allocator over an empty heap.
    pub fn new() -> (r: BumpAllocator)
        ensures
            r.wf(),
            r.state() == (BumpState { heap_start: 0, heap_end: 0, next: 0, allocations: 0 }),
    {
        BumpAllocator { heap_start: 0, heap_end: 0, next: 0, allocations: 0 }
    }

    /// Sets the heap to `[heap_start, heap_start + heap_size)`, with no live
    /// allocation.
    pub fn init(&mut self, heap_start: u64, heap_size: u64)
        requires
            heap_start + heap_size <= u64::MAX,
        ensures
            final(self).wf(),
            final(self).state() == (BumpState {
                heap_start: heap_start as int,
                heap_end: heap_start + heap_size,
                next: heap_start as int,
                allocations: 0,
            }),
    {
        self.heap_start = heap_start;
        self.heap_end = heap_start + heap_size;
        self.next = heap_start;
        self.allocations = 0;
    }

    /// Allocates a block for `layout` at the cursor rounded up to its
    /// alignment; `None` where the heap has no room left.
    pub fn allocate(&mut self, layout: Layout) -> (r: Option<u64>)
        requires
            old(self).wf(),
            layout.wf(),
        ensures
            final(self).wf(),
            (r, final(self).state()) == bump_alloc_spec(old(self).state(), layout),
    {
        proof {
            lemma_pow2_positive(layout.align as int);
        }
        if self.next > u64::MAX - (layout.align - 1) || self.allocations == u64::MAX {
            return None;
        }
        let alloc_start = align_up(self.next, layout.align);
        let alloc_end = match alloc_start.checked_add(layout.size) {
            Some(end) => end,
            None => return None,
        };
        if alloc_end > self.heap_end {
            None
        } else {
            self.next = alloc_end;
            self.allocations = self.allocations + 1;
            Some(alloc_start)
        }
    }

    /// Frees one live allocation; once none is left the whole heap is
    /// available again.
    pub fn deallocate(&mut self)
        requires
            old(self).wf(),
            old(self).state().allocations > 0,
        ensures
            final(self).wf(),
            final(self).state() == bump_dealloc_spec(old(self).state()),
    {
        self.allocations = self.allocations - 1;
        if self.allocations == 0 {
            self.next = self.heap_start;
        }
    }
}

/// Freeing, in any order, all of `n` live allocations brings the cursor
/// back to the heap's start, and the next allocation that fits there starts
/// at the heap's start.
pub proof fn lemma_bump_drain(s: BumpState, n: nat, layout: Layout)
    requires
        s.allocations == n,
        n > 0,
        layout.wf(),
        s.heap_start % layout.align as int == 0,
        s.heap_start + layout.size <= s.heap_end,
        0 <= s.heap_start <= s.heap_end <= u64::MAX,
    ensures
        bump_dealloc_n(s, n).next == s.heap_start,
        bump_dealloc_n(s, n).allocations == 0,
        bump_alloc_spec(bump_dealloc_n(s, n), layout).0 == Some(s.heap_start as u64),
    decreases n,
{
    lemma_bump_drain_state(s, n);
    let d = bump_dealloc_n(s, n);
    lemma_pow2_positive(layout.align as int);
    crate::align::lemma_align_up_of_multiple(s.heap_start, layout.align as int);
    crate::align::lemma_aligned_room(s.heap_start, layout.align as int);
}

/// Freeing all of `n` live allocations leaves none and the cursor at the
/// heap's start, the bounds unchanged.
proof fn lemma_bump_drain_state(s: BumpState, n: nat)
    requires
        s.allocations == n,
        n > 0,
    ensures
        bump_dealloc_n(s, n) == (BumpState { next: s.heap_start, allocations: 0, ..s }),
    decreases n,
{
    if n > 1 {
        lemma_bump_drain_state(bump_dealloc_spec(s), (n - 1) as nat);
    } else {
        assert(bump_dealloc_n(bump_dealloc_spec(s), 0) == bump_dealloc_spec(s));
    }
}

} // verus!
