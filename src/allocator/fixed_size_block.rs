//! Allocator with one free list per power-of-two size class, backed by a
//! first-fit allocator for what the classes do not serve.
use crate::align::{
    is_power_of_two, lemma_eight_is_pow2, lemma_multiple_transitive, lemma_pow2_divides,
    lemma_pow2_positive,
};
use crate::allocator::linked_list::{
    adjustable, adjusted_size, alloc_spec, dealloc_spec, first_fit, region_fit,
    LinkedListAllocator, ListNode,
};
use crate::allocator::Layout;
use vstd::arithmetic::power2::is_pow2;
use vstd::prelude::*;

verus! {

/// Number of size classes.
pub const CLASS_COUNT: usize = 9;

/// Size of the smallest class.
pub const SMALLEST_BLOCK: u64 = 8;

/// Size of the largest class.
pub const LARGEST_BLOCK: u64 = 2048;

/// Size in bytes, and alignment, of the blocks of class `i`: 8, 16, ..., 2048.
pub open spec fn block_size_spec(i: int) -> int
    decreases i,
{
    if i <= 0 {
        8
    } else {
        2 * block_size_spec(i - 1)
    }
}

/// Index of the first class, from class `i` on, whose blocks hold
/// `required` bytes.
pub open spec fn class_from(required: int, i: int) -> Option<int>
    decreases CLASS_COUNT - i,
{
    if i < 0 || i >= CLASS_COUNT {
        None
    } else if block_size_spec(i) >= required {
        Some(i)
    } else {
        class_from(required, i + 1)
    }
}

/// Index of the first class whose blocks hold `required` bytes.
pub open spec fn class_of(required: int) -> Option<int> {
    class_from(required, 0)
}

/// Size class that serves `layout`: the first whose blocks hold both its size
/// and its alignment.
pub open spec fn list_index_spec(layout: Layout) -> Option<int> {
    class_of(if layout.size >= layout.align { layout.size as int } else { layout.align as int })
}

/// The layout of a fresh block of class `i`.
pub open spec fn class_layout(i: int) -> Layout {
    Layout { size: block_size_spec(i) as u64, align: block_size_spec(i) as u64 }
}

/// The allocator's state: the free blocks of each class (the head of a list
/// last) and the fallback's free list.
pub type FixedState = (Seq<Seq<u64>>, Seq<ListNode>);

/// What an allocation returns and the state after it: a class with a free
/// block hands out its head; a class without one takes a fresh block from
/// the fallback; a request larger than every class goes to the fallback.
pub open spec fn fixed_alloc_spec(s: FixedState, layout: Layout) -> (Option<u64>, FixedState) {
    match list_index_spec(layout) {
        Some(i) => if s.0[i].len() > 0 {
            (Some(s.0[i].last()), (s.0.update(i, s.0[i].drop_last()), s.1))
        } else {
            let (r, f) = alloc_spec(s.1, class_layout(i));
            (r, (s.0, f))
        },
        None => {
            let (r, f) = alloc_spec(s.1, layout);
            (r, (s.0, f))
        },
    }
}

/// The state after the block at `addr` for `layout` is freed: it becomes the
/// head of its class's list, or goes back to the fallback.
pub open spec fn fixed_dealloc_spec(s: FixedState, addr: u64, layout: Layout) -> FixedState {
    match list_index_spec(layout) {
        Some(i) => (s.0.update(i, s.0[i].push(addr)), s.1),
        None => (s.0, dealloc_spec(s.1, addr as int, layout)),
    }
}

/// `addr` can start a block of class `i`: aligned to the class, and the
/// block ends inside the address space.
pub open spec fn block_ok(addr: u64, i: int) -> bool {
    (addr as int) % block_size_spec(i) == 0 && addr + block_size_spec(i) <= u64::MAX
}

/// Where a freed block may go: into its class's list when aligned to the
/// class and inside the address space, else, when not null, into the
/// fallback.
pub open spec fn fits_free(addr: u64, layout: Layout) -> bool {
    match list_index_spec(layout) {
        Some(i) => block_ok(addr, i),
        None => addr != 0 && addr % 8 == 0 && addr + adjusted_size(layout) <= u64::MAX,
    }
}

proof fn lemma_block_size_facts(i: int)
    requires
        0 <= i < CLASS_COUNT,
    ensures
        8 <= block_size_spec(i) <= LARGEST_BLOCK,
        is_power_of_two(block_size_spec(i)),
        i > 0 ==> block_size_spec(i - 1) < block_size_spec(i),
        block_size_spec(0) == 8,
        block_size_spec(8) == LARGEST_BLOCK,
    decreases i,
{
    reveal_with_fuel(block_size_spec, 10);
    lemma_eight_is_pow2();
    if i > 0 {
        lemma_block_size_facts(i - 1);
        reveal(is_pow2);
    }
}

/// Allocator with a free list per size class; larger requests and fresh
/// blocks come from a first-fit allocator.
pub struct FixedSizeBlockAllocator {
    list_heads: Vec<Vec<u64>>,
    fallback_allocator: LinkedListAllocator,
}

impl View for FixedSizeBlockAllocator {
    type V = FixedState;

    closed spec fn view(&self) -> FixedState {
        (Seq::new(self.list_heads@.len(), |i: int| self.list_heads@[i]@), self.fallback_allocator@)
    }
}

impl FixedSizeBlockAllocator {
    /// One list per class, each block aligned to its class and inside the
    /// address space, and a well-formed fallback.
    pub open spec fn wf(&self) -> bool {
        &&& self@.0.len() == CLASS_COUNT
        &&& crate::allocator::linked_list::regions_wf(self@.1)
        &&& forall|i: int, j: int|
            0 <= i < CLASS_COUNT && 0 <= j < self@.0[i].len() ==> block_ok(#[trigger] self@.0[i][j], i)
    }

    /// An allocator with empty lists and an empty fallback.
    pub fn new() -> (r: FixedSizeBlockAllocator)
        ensures
            r.wf(),
            r@.0 == Seq::new(CLASS_COUNT as nat, |i: int| Seq::<u64>::empty()),
            r@.1 == Seq::<ListNode>::empty(),
    {
        let mut list_heads: Vec<Vec<u64>> = Vec::new();
        let mut i: usize = 0;
        while i < CLASS_COUNT
            invariant
                i <= CLASS_COUNT,
                list_heads@.len() == i,
                forall|j: int| 0 <= j < i ==> (#[trigger] list_heads@[j])@ == Seq::<u64>::empty(),
            decreases CLASS_COUNT - i,
        {
            list_heads.push(Vec::new());
            i = i + 1;
        }
        let r = FixedSizeBlockAllocator { list_heads, fallback_allocator: LinkedListAllocator::new() };
        assert(r@.0 =~= Seq::new(CLASS_COUNT as nat, |i: int| Seq::<u64>::empty()));
        r
    }

    /// Hands the fallback the region `[heap_start, heap_start + heap_size)`.
    pub fn init(&mut self, heap_start: u64, heap_size: u64)
        requires
            old(self).wf(),
            heap_start % 8 == 0,
            heap_size >= 16,
            heap_start + heap_size <= u64::MAX,
        ensures
            final(self).wf(),
            final(self)@.0 == old(self)@.0,
            final(self)@.1 == seq![ListNode { addr: heap_start, size: heap_size }] + old(self)@.1,
    {
        self.fallback_allocator.init(heap_start, heap_size);
    }

    /// Allocates from the fallback.
    fn fallback_alloc(&mut self, layout: Layout) -> (r: Option<u64>)
        requires
            old(self).wf(),
            adjustable(layout),
        ensures
            final(self).wf(),
            final(self)@.0 == old(self)@.0,
            (r, final(self)@.1) == alloc_spec(old(self)@.1, layout),
            r matches Some(a) ==> a % layout.align == 0,
    {
        let r = self.fallback_allocator.allocate(layout);
        assert(self@.0 =~= old(self)@.0);
        r
    }

    /// Allocates a block for `layout`: the head of its class's list where
    /// there is one, else from the fallback.
    pub fn allocate(&mut self, layout: Layout) -> (r: Option<u64>)
        requires
            old(self).wf(),
            adjustable(layout),
        ensures
            final(self).wf(),
            (r, final(self)@) == fixed_alloc_spec(old(self)@, layout),
            r matches Some(a) ==> a % layout.align == 0,
    {
        match list_index(&layout) {
            Some(index) => {
                let ghost before = self@;
                let n = self.list_heads[index].len();
                if n > 0 {
                    let mut list: Vec<u64> = Vec::new();
                    std::mem::swap(&mut list, &mut self.list_heads[index]);
                    let node = list.pop();
                    std::mem::swap(&mut list, &mut self.list_heads[index]);
                    proof {
                        assert(self@.0 =~= before.0.update(index as int, before.0[index as int].drop_last()));
                        assert forall|i: int, j: int|
                            0 <= i < CLASS_COUNT && 0 <= j < self@.0[i].len() implies block_ok(#[trigger] self@.0[i][j], i) by {
                            if i == index {
                                assert(self@.0[i][j] == before.0[i][j]);
                            }
                        }
                    }
                    proof {
                        let i = index as int;
                        let a = before.0[i].last();
                        assert(block_ok(before.0[i][before.0[i].len() - 1], i));
                        lemma_block_size_facts(i);
                        lemma_class_covers(layout);
                        lemma_pow2_positive(layout.align as int);
                        lemma_pow2_divides(layout.align as int, block_size_spec(i));
                        lemma_multiple_transitive(a as int, block_size_spec(i), layout.align as int);
                    }
                    node
                } else {
                    let block_size = block_size(index);
                    proof {
                        lemma_block_size_facts(index as int);
                        lemma_pow2_positive(block_size as int);
                    }
                    let block_layout = Layout { size: block_size, align: block_size };
                    let r = self.fallback_alloc(block_layout);
                    proof {
                        lemma_class_covers(layout);
                        if let Some(a) = r {
                            lemma_pow2_positive(layout.align as int);
                            lemma_pow2_divides(layout.align as int, block_size as int);
                            lemma_multiple_transitive(a as int, block_size as int, layout.align as int);
                        }
                    }
                    r
                }
            },
            None => self.fallback_alloc(layout),
        }
    }

    /// Frees the block at `addr` that was allocated for `layout`: it becomes
    /// the head of its class's list, or goes back to the fallback.
    pub fn deallocate(&mut self, addr: u64, layout: Layout)
        requires
            old(self).wf(),
            adjustable(layout),
            fits_free(addr, layout),
        ensures
            final(self).wf(),
            final(self)@ == fixed_dealloc_spec(old(self)@, addr, layout),
    {
        match list_index(&layout) {
            Some(index) => {
                let ghost before = self@;
                let mut list: Vec<u64> = Vec::new();
                std::mem::swap(&mut list, &mut self.list_heads[index]);
                list.push(addr);
                std::mem::swap(&mut list, &mut self.list_heads[index]);
                proof {
                    assert(self@.0 =~= before.0.update(index as int, before.0[index as int].push(addr)));
                    assert forall|i: int, j: int|
                        0 <= i < CLASS_COUNT && 0 <= j < self@.0[i].len() implies block_ok(#[trigger] self@.0[i][j], i) by {
                        if i == index && j < before.0[i].len() {
                            assert(self@.0[i][j] == before.0[i][j]);
                        }
                    }
                }
            },
            None => {
                self.fallback_allocator.deallocate(addr, layout);
                assert(self@.0 =~= old(self)@.0);
            },
        }
    }
}

/// Freeing a block of a size class and asking again for the same layout
/// hands the same block back and leaves the allocator as it was, without
/// touching the fallback.
pub proof fn lemma_pool_reuse(s: FixedState, addr: u64, layout: Layout)
    requires
        s.0.len() == CLASS_COUNT,
        list_index_spec(layout) is Some,
    ensures
        fixed_alloc_spec(fixed_dealloc_spec(s, addr, layout), layout) == (Some(addr), s),
{
    let i = list_index_spec(layout)->Some_0;
    lemma_class_in_range(if layout.size >= layout.align { layout.size as int } else { layout.align as int }, 0);
    let d = fixed_dealloc_spec(s, addr, layout);
    assert(d.0[i] == s.0[i].push(addr));
    assert(d.0[i].drop_last() =~= s.0[i]);
    assert(d.0.update(i, d.0[i].drop_last()) =~= s.0);
}

/// A request that a class serves and whose class has a free block is served
/// from that class's list, and the fallback is left as it was.
pub proof fn lemma_pool_hit_skips_fallback(s: FixedState, layout: Layout)
    requires
        s.0.len() == CLASS_COUNT,
        list_index_spec(layout) matches Some(i) && s.0[i].len() > 0,
    ensures
        fixed_alloc_spec(s, layout).1.1 == s.1,
        fixed_alloc_spec(s, layout).0 == Some(s.0[list_index_spec(layout)->Some_0].last()),
{
}

/// A request whose size or alignment passes the largest class goes to the
/// fallback as it is.
pub proof fn lemma_large_goes_to_fallback(s: FixedState, layout: Layout)
    requires
        layout.size > LARGEST_BLOCK || layout.align > LARGEST_BLOCK,
    ensures
        list_index_spec(layout) is None,
        fixed_alloc_spec(s, layout) == (alloc_spec(s.1, layout).0, (s.0, alloc_spec(s.1, layout).1)),
{
    let required = if layout.size >= layout.align { layout.size as int } else { layout.align as int };
    lemma_class_none_above(required, 0);
}

/// Over a heap of 4096 bytes at a 4096-aligned `hs`, with the class of
/// 64-byte blocks empty and `k < 10` blocks of 64 bytes carved so far, the
/// next 64-byte request is carved from the fallback at `hs + 64 * k`: the
/// blocks come out distinct, aligned to 64 and inside the heap, and the
/// fallback keeps the rest of the heap as one region.
pub proof fn lemma_fresh_blocks_of_64(s: FixedState, hs: int, k: int)
    requires
        s.0.len() == CLASS_COUNT,
        s.0[3].len() == 0,
        hs % 4096 == 0,
        0 <= hs,
        hs + 4096 <= u64::MAX,
        0 <= k < 10,
        s.1 == seq![ListNode { addr: (hs + 64 * k) as u64, size: (4096 - 64 * k) as u64 }],
    ensures
        fixed_alloc_spec(s, Layout { size: 64, align: 64 }) == (
            Some((hs + 64 * k) as u64),
            (
                s.0,
                seq![ListNode { addr: (hs + 64 * (k + 1)) as u64, size: (4096 - 64 * (k + 1)) as u64 }],
            ),
        ),
{
    let l = Layout { size: 64, align: 64 };
    reveal_with_fuel(block_size_spec, 4);
    reveal_with_fuel(class_from, 5);
    assert(list_index_spec(l) == Some(3int));
    assert(class_layout(3) == l);
    let a = hs + 64 * k;
    assert(a % 64 == 0) by (nonlinear_arith)
        requires hs % 4096 == 0, a == hs + 64 * k;
    crate::align::lemma_align_up_of_multiple(a, 64);
    crate::align::lemma_align_up_of_multiple(64, 64);
    let n = s.1[0];
    assert(region_fit(n, 64, 64) == Some(a));
    assert(first_fit(s.1, 64, 64) == Some(0int));
    assert(s.1.remove(0) =~= Seq::<ListNode>::empty());
    assert(seq![ListNode { addr: (a + 64) as u64, size: (n.end_spec() - (a + 64)) as u64 }] + Seq::<
        ListNode,
    >::empty() =~= seq![ListNode { addr: (hs + 64 * (k + 1)) as u64, size: (4096 - 64 * (k + 1)) as u64 }]);
}

/// With the ten 64-byte blocks back in their class's list, the fallback
/// still holds `[hs + 640, hs + 4096)`, so a request of 3000 bytes, larger
/// than every class, goes to the fallback and succeeds at `hs + 640`, clear
/// of the ten blocks.
pub proof fn lemma_large_after_small_blocks(s: FixedState, hs: int)
    requires
        hs % 4096 == 0,
        0 <= hs,
        hs + 4096 <= u64::MAX,
        s.1 == seq![ListNode { addr: (hs + 640) as u64, size: 3456 }],
    ensures
        fixed_alloc_spec(s, Layout { size: 3000, align: 8 }).0 == Some((hs + 640) as u64),
        fixed_alloc_spec(s, Layout { size: 3000, align: 8 }).1.0 == s.0,
{
    let l = Layout { size: 3000, align: 8 };
    lemma_large_goes_to_fallback(s, l);
    assert((hs + 640) % 8 == 0) by (nonlinear_arith)
        requires hs % 4096 == 0;
    crate::align::lemma_align_up_of_multiple(hs + 640, 8);
    crate::align::lemma_align_up_of_multiple(3000, 8);
    assert(adjusted_size(l) == 3000);
    assert(region_fit(s.1[0], 3000, 8) == Some(hs + 640));
    assert(first_fit(s.1, 3000, 8) == Some(0int));
}

/// The class that serves a layout holds its size and its alignment.
proof fn lemma_class_covers(layout: Layout)
    requires
        list_index_spec(layout) is Some,
    ensures
        0 <= list_index_spec(layout)->Some_0 < CLASS_COUNT,
        layout.size <= block_size_spec(list_index_spec(layout)->Some_0),
        layout.align <= block_size_spec(list_index_spec(layout)->Some_0),
{
    let required = if layout.size >= layout.align { layout.size as int } else { layout.align as int };
    lemma_class_found(required, 0);
}

/// A class found from `i` on holds `required` bytes.
proof fn lemma_class_found(required: int, i: int)
    ensures
        class_from(required, i) matches Some(k) ==> 0 <= k < CLASS_COUNT && block_size_spec(k) >= required,
    decreases CLASS_COUNT - i,
{
    if 0 <= i < CLASS_COUNT {
        lemma_class_found(required, i + 1);
    }
}

/// A class found from `i` on lies in range.
proof fn lemma_class_in_range(required: int, i: int)
    ensures
        class_from(required, i) matches Some(k) ==> 0 <= k < CLASS_COUNT,
    decreases CLASS_COUNT - i,
{
    if 0 <= i < CLASS_COUNT {
        lemma_class_in_range(required, i + 1);
    }
}

/// No class holds more than the largest block.
proof fn lemma_class_none_above(required: int, i: int)
    requires
        required > LARGEST_BLOCK,
    ensures
        class_from(required, i) is None,
    decreases CLASS_COUNT - i,
{
    if 0 <= i < CLASS_COUNT {
        lemma_block_size_facts(i);
        lemma_class_none_above(required, i + 1);
    }
}

/// Whether the block at `addr` for `layout` may be freed: aligned to its
/// class and inside the address space, or, for a request no class serves,
/// a non-null address fit to go back to the fallback.
pub fn can_free(addr: u64, layout: &Layout) -> (r: bool)
    requires
        adjustable(*layout),
    ensures
        r == fits_free(addr, *layout),
{
    match list_index(layout) {
        Some(index) => {
            let size = block_size(index);
            proof {
                lemma_block_size_facts(index as int);
            }
            addr % size == 0 && addr <= u64::MAX - size
        },
        None => {
            let (size, _) = LinkedListAllocator::size_align(*layout);
            addr != 0 && addr % 8 == 0 && addr <= u64::MAX - size
        },
    }
}

/// Size of the blocks of class `index`.
pub fn block_size(index: usize) -> (r: u64)
    requires
        index < CLASS_COUNT,
    ensures
        r == block_size_spec(index as int),
{
    proof {
        lemma_block_size_facts(index as int);
    }
    let mut size: u64 = SMALLEST_BLOCK;
    let mut i: usize = 0;
    while i < index
        invariant
            i <= index < CLASS_COUNT,
            size == block_size_spec(i as int),
        decreases index - i,
    {
        proof {
            lemma_block_size_facts(i as int + 1);
        }
        size = size * 2;
        i = i + 1;
    }
    size
}

/// The size class that serves `layout`, or `None` where its size or
/// alignment passes the largest class.
pub fn list_index(layout: &Layout) -> (r: Option<usize>)
    ensures
        r is Some <==> list_index_spec(*layout) is Some,
        r matches Some(i) ==> i < CLASS_COUNT && list_index_spec(*layout) == Some(i as int),
{
    let required = if layout.size >= layout.align {
        layout.size
    } else {
        layout.align
    };
    assert(list_index_spec(*layout) == class_of(required as int));
    let mut i: usize = 0;
    while i < CLASS_COUNT
        invariant
            i <= CLASS_COUNT,
            list_index_spec(*layout) == class_from(required as int, i as int),
        decreases CLASS_COUNT - i,
    {
        if block_size(i) >= required {
            assert(class_from(required as int, i as int) == Some(i as int));
            return Some(i);
        }
        i = i + 1;
    }
    None
}

} // verus!
