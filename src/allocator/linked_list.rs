//! First-fit allocator over a list of free regions.
use crate::align::{
    align_up, align_up_spec, is_power_of_two, lemma_align_up_bounds, lemma_eight_is_pow2,
    lemma_align_up_of_multiple, lemma_aligned_room, lemma_multiple_transitive, lemma_pow2_divides,
    lemma_pow2_positive,
};
use crate::allocator::{Layout, ISIZE_MAX};
use vstd::prelude::*;

verus! {

/// Bytes a free region needs to hold its list header (a size and a link).
pub const NODE_SIZE: u64 = 16;

/// Alignment of a free region's list header.
pub const NODE_ALIGN: u64 = 8;

/// A free region: its start address and its size in bytes.
#[derive(Clone, Copy, Debug, PartialEq, Eq)]
pub struct ListNode {
    pub addr: u64,
    pub size: u64,
}

impl ListNode {
    /// The region can hold its header and ends inside the address space.
    pub open spec fn wf(&self) -> bool {
        self.addr % NODE_ALIGN == 0 && self.size >= NODE_SIZE && self.addr + self.size
            <= u64::MAX
    }

    pub open spec fn end_spec(&self) -> int {
        self.addr + self.size
    }

    pub fn new(addr: u64, size: u64) -> (r: ListNode)
        ensures
            r.addr == addr,
            r.size == size,
    {
        ListNode { addr, size }
    }

    pub fn start_addr(&self) -> (r: u64)
        ensures
            r == self.addr,
    {
        self.addr
    }

    pub fn end_addr(&self) -> (r: u64)
        requires
            self.addr + self.size <= u64::MAX,
        ensures
            r == self.end_spec(),
    {
        self.addr + self.size
    }
}

/// Whether `layout` is valid and stays valid once adjusted to hold a header.
pub fn is_adjustable(layout: &Layout) -> (r: bool)
    ensures
        r == adjustable(*layout),
{
    match Layout::from_size_align(layout.size, layout.align) {
        None => false,
        Some(_) => {
            let align = if layout.align < NODE_ALIGN {
                NODE_ALIGN
            } else {
                layout.align
            };
            layout.size <= ISIZE_MAX && align - 1 <= ISIZE_MAX - layout.size
        },
    }
}

/// Where an allocation of `size` bytes aligned to `align` starts inside
/// `region`, or `None` where it does not fit or would leave a tail too small
/// to hold a header.
pub open spec fn region_fit(region: ListNode, size: int, align: int) -> Option<int> {
    let start = align_up_spec(region.addr as int, align);
    let end = start + size;
    if region.addr + align - 1 > u64::MAX {
        None
    } else if end > region.end_spec() {
        None
    } else if end < region.end_spec() && region.end_spec() - end < NODE_SIZE {
        None
    } else {
        Some(start)
    }
}

/// Index of the first region, in list order, in which the request fits.
pub open spec fn first_fit(regions: Seq<ListNode>, size: int, align: int) -> Option<int>
    decreases regions.len(),
{
    if regions.len() == 0 {
        None
    } else if region_fit(regions[0], size, align) is Some {
        Some(0)
    } else {
        match first_fit(regions.drop_first(), size, align) {
            Some(i) => Some(i + 1),
            None => None,
        }
    }
}

/// Alignment of a request once raised to what a header needs.
pub open spec fn adjusted_align(layout: Layout) -> int {
    if layout.align < NODE_ALIGN {
        NODE_ALIGN as int
    } else {
        layout.align as int
    }
}

/// Size of a request once padded to its adjusted alignment and to at least a
/// header.
pub open spec fn adjusted_size(layout: Layout) -> int {
    let padded = align_up_spec(layout.size as int, adjusted_align(layout));
    if padded < NODE_SIZE {
        NODE_SIZE as int
    } else {
        padded
    }
}

/// A request whose adjusted form is still a valid layout.
pub open spec fn adjustable(layout: Layout) -> bool {
    layout.wf() && layout.size + adjusted_align(layout) - 1 <= ISIZE_MAX
}

/// The free list after an allocation of `size` bytes at `start` from the
/// region at index `i`: the region leaves the list and its tail, if any,
/// comes back at the head.
pub open spec fn list_after_alloc(regions: Seq<ListNode>, i: int, start: int, size: int) -> Seq<
    ListNode,
> {
    let region = regions[i];
    let rest = regions.remove(i);
    if start + size < region.end_spec() {
        seq![ListNode { addr: (start + size) as u64, size: (region.end_spec() - (start + size)) as u64 }] + rest
    } else {
        rest
    }
}

/// What an allocation returns and the free list it leaves behind.
pub open spec fn alloc_spec(regions: Seq<ListNode>, layout: Layout) -> (Option<u64>, Seq<ListNode>) {
    let size = adjusted_size(layout);
    let align = adjusted_align(layout);
    match first_fit(regions, size, align) {
        Some(i) => {
            let start = region_fit(regions[i], size, align)->Some_0;
            (Some(start as u64), list_after_alloc(regions, i, start, size))
        },
        None => (None, regions),
    }
}

/// The free list after the block at `addr` for `layout` is given back.
pub open spec fn dealloc_spec(regions: Seq<ListNode>, addr: int, layout: Layout) -> Seq<ListNode> {
    seq![ListNode { addr: addr as u64, size: adjusted_size(layout) as u64 }] + regions
}

/// Every region of the list is well formed.
pub open spec fn regions_wf(regions: Seq<ListNode>) -> bool {
    forall|i: int| 0 <= i < regions.len() ==> (#[trigger] regions[i]).wf()
}

/// Allocator that searches its free list first-fit and does not merge
/// neighbouring regions when they are freed.
pub struct LinkedListAllocator {
    regions: Vec<ListNode>,
}

impl View for LinkedListAllocator {
    type V = Seq<ListNode>;

    closed spec fn view(&self) -> Seq<ListNode> {
        self.regions@
    }
}

impl LinkedListAllocator {
    pub open spec fn wf(&self) -> bool {
        regions_wf(self@)
    }

    /// An allocator with an empty free list.
    pub fn new() -> (r: LinkedListAllocator)
        ensures
            r@ == Seq::<ListNode>::empty(),
            r.wf(),
    {
        LinkedListAllocator { regions: Vec::new() }
    }

    /// Hands the allocator the region `[heap_start, heap_start + heap_size)`.
    pub fn init(&mut self, heap_start: u64, heap_size: u64)
        requires
            old(self).wf(),
            heap_start % NODE_ALIGN == 0,
            heap_size >= NODE_SIZE,
            heap_start + heap_size <= u64::MAX,
        ensures
            final(self).wf(),
            final(self)@ == seq![ListNode { addr: heap_start, size: heap_size }] + old(self)@,
    {
        self.add_free_region(heap_start, heap_size);
    }

    /// Puts the region at `addr` of `size` bytes at the head of the free list.
    fn add_free_region(&mut self, addr: u64, size: u64)
        requires
            old(self).wf(),
            addr % NODE_ALIGN == 0,
            size >= NODE_SIZE,
            addr + size <= u64::MAX,
        ensures
            final(self).wf(),
            final(self)@ == seq![ListNode { addr, size }] + old(self)@,
    {
        self.regions.insert(0, ListNode::new(addr, size));
        assert(self@ =~= seq![ListNode { addr, size }] + old(self)@);
    }

    /// Where an allocation of `size` bytes aligned to `align` starts inside
    /// `region`; `Err` where it does not fit.
    pub fn alloc_from_region(region: &ListNode, size: u64, align: u64) -> (r: Result<
        u64,
        (),
    >)
        requires
            region.wf(),
            is_power_of_two(align as int),
        ensures
            r is Ok <==> region_fit(*region, size as int, align as int) is Some,
            r matches Ok(start) ==> start == region_fit(*region, size as int, align as int)->Some_0
                && start >= region.addr && start + size <= region.end_spec() && start % align == 0
                && (start + size == region.end_spec() || region.end_spec() - (start + size)
                >= NODE_SIZE),
    {
        proof {
            lemma_pow2_positive(align as int);
        }
        if region.start_addr() > u64::MAX - (align - 1) {
            return Err(());
        }
        let alloc_start = align_up(region.start_addr(), align);
        proof {
            lemma_align_up_bounds(region.addr as int, align as int);
        }
        let alloc_end = match alloc_start.checked_add(size) {
            Some(e) => e,
            None => return Err(()),
        };
        if alloc_end > region.end_addr() {
            return Err(());
        }
        let excess_size = region.end_addr() - alloc_end;
        if excess_size > 0 && excess_size < NODE_SIZE {
            return Err(());
        }
        Ok(alloc_start)
    }

    /// Removes the first region, in list order, in which the request fits,
    /// and returns it with the start of the allocation inside it.
    fn find_region(&mut self, size: u64, align: u64) -> (r: Option<(ListNode, u64)>)
        requires
            old(self).wf(),
            is_power_of_two(align as int),
        ensures
            final(self).wf(),
            match first_fit(old(self)@, size as int, align as int) {
                Some(i) => r == Some(
                    (old(self)@[i], region_fit(old(self)@[i], size as int, align as int)->Some_0 as u64),
                ) && final(self)@ == old(self)@.remove(i) && 0 <= i < old(self)@.len(),
                None => r is None && final(self)@ == old(self)@,
            },
            r matches Some((n, s)) ==> n.wf() && s >= n.addr && s + size <= n.end_spec() && s
                % align == 0 && (s + size == n.end_spec() || n.end_spec() - (s + size) >= NODE_SIZE),
    {
        let mut i: usize = 0;
        while i < self.regions.len()
            invariant
                self.wf(),
                self@ == old(self)@,
                is_power_of_two(align as int),
                0 <= i <= self@.len(),
                forall|j: int| 0 <= j < i ==> region_fit(#[trigger] self@[j], size as int, align as int) is None,
            decreases self@.len() - i,
        {
            match Self::alloc_from_region(&self.regions[i], size, align) {
                Ok(alloc_start) => {
                    proof {
                        lemma_first_fit_is(self@, i as int, size as int, align as int);
                    }
                    let region = self.regions.remove(i);
                    return Some((region, alloc_start));
                },
                Err(()) => {
                    i = i + 1;
                },
            }
        }
        proof {
            lemma_first_fit_none(self@, size as int, align as int);
        }
        None
    }

    /// Raises a request's alignment and size so that the block can hold a
    /// header once it is freed; returns the adjusted size and alignment.
    pub fn size_align(layout: Layout) -> (r: (u64, u64))
        requires
            adjustable(layout),
        ensures
            r.0 == adjusted_size(layout),
            r.1 == adjusted_align(layout),
            r.1 >= NODE_ALIGN,
            is_power_of_two(r.1 as int),
            r.0 % NODE_ALIGN == 0,
            r.0 >= NODE_SIZE,
            r.0 <= layout.size + r.1 - 1 || r.0 == NODE_SIZE,
    {
        let align = if layout.align < NODE_ALIGN {
            NODE_ALIGN
        } else {
            layout.align
        };
        proof {
            lemma_eight_is_pow2();
            lemma_pow2_divides(8, align as int);
        }
        let padded = align_up(layout.size, align);
        let size = if padded < NODE_SIZE {
            NODE_SIZE
        } else {
            padded
        };
        proof {
            if size == NODE_SIZE {
                if align <= 16 {
                    lemma_pow2_divides(align as int, 16);
                } else {
                    // a padded size below the alignment is zero
                    let (p, a) = (padded as int, align as int);
                    assert(p == 0) by (nonlinear_arith)
                        requires p % a == 0, 0 <= p < a;
                }
            }
            lemma_pow2_positive(align as int);
            if size == padded && size != 0 {
                lemma_multiple_transitive(size as int, align as int, 8);
            }
        }
        (size, align)
    }

    /// Allocates a block for `layout` from the first region in which it fits;
    /// `None` where no region can hold it.
    pub fn allocate(&mut self, layout: Layout) -> (r: Option<u64>)
        requires
            old(self).wf(),
            adjustable(layout),
        ensures
            final(self).wf(),
            r == alloc_spec(old(self)@, layout).0,
            final(self)@ == alloc_spec(old(self)@, layout).1,
            r matches Some(a) ==> a % layout.align == 0,
    {
        let ghost before = self@;
        let (size, align) = Self::size_align(layout);
        match self.find_region(size, align) {
            Some((region, alloc_start)) => {
                let ghost i = first_fit(before, size as int, align as int)->Some_0;
                proof {
                    lemma_first_fit_sound(before, size as int, align as int);
                }
                assert(region == before[i]);
                proof {
                    lemma_pow2_positive(align as int);
                    lemma_align_up_bounds(region.addr as int, align as int);
                }
                assert(region_fit(before[i], size as int, align as int)->Some_0 == alloc_start as int);
                let alloc_end = alloc_start + size;
                let excess_size = region.end_addr() - alloc_end;
                if excess_size > 0 {
                    proof {
                        lemma_eight_is_pow2();
                        lemma_pow2_divides(8, align as int);
                        lemma_multiple_transitive(alloc_start as int, align as int, 8);
                    }
                    self.add_free_region(alloc_end, excess_size);
                }
                assert(self@ =~= list_after_alloc(before, i, alloc_start as int, size as int));
                proof {
                    lemma_pow2_positive(layout.align as int);
                    lemma_pow2_divides(layout.align as int, align as int);
                    lemma_multiple_transitive(alloc_start as int, align as int, layout.align as int);
                }
                Some(alloc_start)
            },
            None => None,
        }
    }

    /// Gives the block at `addr`, allocated for `layout`, back to the head of
    /// the free list.
    pub fn deallocate(&mut self, addr: u64, layout: Layout)
        requires
            old(self).wf(),
            adjustable(layout),
            addr % NODE_ALIGN == 0,
            addr + adjusted_size(layout) <= u64::MAX,
        ensures
            final(self).wf(),
            final(self)@ == dealloc_spec(old(self)@, addr as int, layout),
    {
        let (size, _) = Self::size_align(layout);
        self.add_free_region(addr, size);
    }
}

/// The first region that fits, with none fitting before it, is the first fit.
proof fn lemma_first_fit_is(regions: Seq<ListNode>, i: int, size: int, align: int)
    requires
        0 <= i < regions.len(),
        region_fit(regions[i], size, align) is Some,
        forall|j: int| 0 <= j < i ==> region_fit(#[trigger] regions[j], size, align) is None,
    ensures
        first_fit(regions, size, align) == Some(i),
    decreases i,
{
    if i > 0 {
        let rest = regions.drop_first();
        assert forall|j: int| 0 <= j < i - 1 implies region_fit(#[trigger] rest[j], size, align) is None by {
            assert(rest[j] == regions[j + 1]);
        }
        lemma_first_fit_is(rest, i - 1, size, align);
    }
}

/// Freeing a block right after allocating it, then asking for the same
/// layout again, hands out the same address.
pub proof fn lemma_linked_list_reuse(regions: Seq<ListNode>, layout: Layout)
    requires
        regions_wf(regions),
        adjustable(layout),
        alloc_spec(regions, layout).0 is Some,
    ensures
        alloc_spec(
            dealloc_spec(alloc_spec(regions, layout).1, alloc_spec(regions, layout).0->Some_0 as int, layout),
            layout,
        ).0 == alloc_spec(regions, layout).0,
{
    let size = adjusted_size(layout);
    let align = adjusted_align(layout);
    lemma_first_fit_sound(regions, size, align);
    let i = first_fit(regions, size, align)->Some_0;
    let region = regions[i];
    let a = region_fit(region, size, align)->Some_0;
    assert(region.wf());
    lemma_adjusted_facts(layout);
    lemma_align_up_bounds(region.addr as int, align);
    let after = dealloc_spec(alloc_spec(regions, layout).1, a, layout);
    let head = after[0];
    assert(head == ListNode { addr: a as u64, size: size as u64 });
    lemma_align_up_of_multiple(a, align);
    lemma_aligned_room(a, align);
    assert(region_fit(head, size, align) == Some(a));
}

/// Total number of bytes the free list holds.
pub open spec fn free_total(regions: Seq<ListNode>) -> int
    decreases regions.len(),
{
    if regions.len() == 0 {
        0
    } else {
        regions[0].size + free_total(regions.drop_first())
    }
}

proof fn lemma_free_total_remove(regions: Seq<ListNode>, i: int)
    requires
        0 <= i < regions.len(),
    ensures
        free_total(regions.remove(i)) == free_total(regions) - regions[i].size,
    decreases i,
{
    if i == 0 {
        assert(regions.remove(0) =~= regions.drop_first());
    } else {
        let rest = regions.drop_first();
        lemma_free_total_remove(rest, i - 1);
        assert(regions.remove(i).drop_first() =~= rest.remove(i - 1));
        assert(regions.remove(i)[0] == regions[0]);
    }
}

proof fn lemma_free_total_prepend(n: ListNode, regions: Seq<ListNode>)
    ensures
        free_total(seq![n] + regions) == n.size + free_total(regions),
{
    assert((seq![n] + regions).drop_first() =~= regions);
}

/// An allocation takes from the free list at least the bytes it hands out,
/// and a free gives back exactly the adjusted size: so the free bytes and the
/// live bytes together never grow past the heap they started as.
pub proof fn lemma_linked_list_accounting(regions: Seq<ListNode>, layout: Layout, addr: int)
    requires
        regions_wf(regions),
        adjustable(layout),
    ensures
        alloc_spec(regions, layout).0 is Some ==> free_total(alloc_spec(regions, layout).1)
            + adjusted_size(layout) <= free_total(regions),
        free_total(dealloc_spec(regions, addr, layout)) == free_total(regions) + (adjusted_size(
            layout,
        ) as u64),
{
    let size = adjusted_size(layout);
    let align = adjusted_align(layout);
    lemma_free_total_prepend(ListNode { addr: addr as u64, size: size as u64 }, regions);
    lemma_first_fit_sound(regions, size, align);
    if let Some(i) = first_fit(regions, size, align) {
        let region = regions[i];
        let a = region_fit(region, size, align)->Some_0;
        assert(region.wf());
        lemma_adjusted_facts(layout);
        lemma_align_up_bounds(region.addr as int, align);
        lemma_free_total_remove(regions, i);
        let rest = regions.remove(i);
        if a + size < region.end_spec() {
            lemma_free_total_prepend(
                ListNode { addr: (a + size) as u64, size: (region.end_spec() - (a + size)) as u64 },
                rest,
            );
        }
    }
}

/// Right after `init` on an empty allocator the free list holds exactly the
/// heap's bytes.
pub proof fn lemma_free_total_after_init(heap_start: u64, heap_size: u64)
    ensures
        free_total(seq![ListNode { addr: heap_start, size: heap_size }]) == heap_size,
{
    lemma_free_total_prepend(ListNode { addr: heap_start, size: heap_size }, Seq::empty());
    assert(seq![ListNode { addr: heap_start, size: heap_size }] + Seq::<ListNode>::empty() =~= seq![
        ListNode { addr: heap_start, size: heap_size },
    ]);
}

/// The free bytes and the `live` bytes handed out stay within a heap of
/// `heap_size` bytes: an allocation keeps the bound with its block counted
/// as live, and freeing a live block keeps it with the block no longer live.
/// Since the bound holds right after `init`, the free total never passes the
/// heap's size.
pub proof fn lemma_linked_list_within_heap(
    regions: Seq<ListNode>,
    layout: Layout,
    addr: int,
    live: int,
    heap_size: int,
)
    requires
        regions_wf(regions),
        adjustable(layout),
        live >= 0,
        free_total(regions) + live <= heap_size,
    ensures
        alloc_spec(regions, layout).0 is Some ==> free_total(alloc_spec(regions, layout).1) + (live
            + adjusted_size(layout)) <= heap_size,
        live >= adjusted_size(layout) ==> free_total(dealloc_spec(regions, addr, layout)) + (live
            - adjusted_size(layout)) <= heap_size,
        free_total(alloc_spec(regions, layout).1) <= heap_size,
{
    lemma_linked_list_accounting(regions, layout, addr);
    lemma_adjusted_facts(layout);
    lemma_free_total_nonneg(regions);
}

proof fn lemma_free_total_nonneg(regions: Seq<ListNode>)
    ensures
        free_total(regions) >= 0,
    decreases regions.len(),
{
    if regions.len() > 0 {
        lemma_free_total_nonneg(regions.drop_first());
    }
}

/// The byte ranges `[x0, x1)` and `[y0, y1)` do not overlap.
pub open spec fn apart(x0: int, x1: int, y0: int, y1: int) -> bool {
    x1 <= y0 || y1 <= x0
}

/// No two regions of the free list overlap.
pub open spec fn regions_apart(regions: Seq<ListNode>) -> bool {
    forall|i: int, j: int|
        0 <= i < regions.len() && 0 <= j < regions.len() && i != j ==> apart(
            (#[trigger] regions[i]).addr as int,
            regions[i].end_spec(),
            (#[trigger] regions[j]).addr as int,
            regions[j].end_spec(),
        )
}

/// No two live blocks overlap, and none overlaps a free region.
pub open spec fn live_apart(regions: Seq<ListNode>, live: Seq<(int, int)>) -> bool {
    &&& forall|k: int, l: int|
        0 <= k < live.len() && 0 <= l < live.len() && k != l ==> apart(
            (#[trigger] live[k]).0,
            live[k].1,
            (#[trigger] live[l]).0,
            live[l].1,
        )
    &&& forall|i: int, k: int|
        0 <= i < regions.len() && 0 <= k < live.len() ==> apart(
            (#[trigger] regions[i]).addr as int,
            regions[i].end_spec(),
            (#[trigger] live[k]).0,
            live[k].1,
        )
}

/// Where free regions and live blocks do not overlap, a new allocation
/// overlaps neither a live block nor what stays free: with the new block
/// counted as live, still no two ranges overlap.
pub proof fn lemma_linked_list_no_overlap(
    regions: Seq<ListNode>,
    live: Seq<(int, int)>,
    layout: Layout,
)
    requires
        regions_wf(regions),
        adjustable(layout),
        regions_apart(regions),
        live_apart(regions, live),
        alloc_spec(regions, layout).0 is Some,
    ensures
        ({
            let a = alloc_spec(regions, layout).0->Some_0 as int;
            let after = alloc_spec(regions, layout).1;
            regions_apart(after) && live_apart(after, live.push((a, a + adjusted_size(layout))))
        }),
{
    let size = adjusted_size(layout);
    let align = adjusted_align(layout);
    lemma_first_fit_sound(regions, size, align);
    let i = first_fit(regions, size, align)->Some_0;
    let region = regions[i];
    let a = region_fit(region, size, align)->Some_0;
    assert(region.wf());
    lemma_adjusted_facts(layout);
    lemma_align_up_bounds(region.addr as int, align);
    let rest = regions.remove(i);
    let after = alloc_spec(regions, layout).1;
    let new_live = live.push((a, a + size));
    assert(alloc_spec(regions, layout).0->Some_0 as int == a);
    // each region that stays is one of the old ones other than the chosen one
    assert forall|j: int| 0 <= j < rest.len() implies #[trigger] rest[j] == regions[if j < i {
        j
    } else {
        j + 1
    }] by {}
    let tail = a + size < region.end_spec();
    let off: int = if tail { 1 } else { 0 };
    assert forall|j: int| off <= j < after.len() implies #[trigger] after[j] == rest[j - off] by {}
    assert forall|j: int|
        0 <= j < after.len() implies (#[trigger] after[j]).addr >= region.addr && after[j].end_spec()
        <= region.end_spec() && apart(after[j].addr as int, after[j].end_spec(), a, a + size) || (
    j >= off && apart(
        after[j].addr as int,
        after[j].end_spec(),
        region.addr as int,
        region.end_spec(),
    )) by {
        if j >= off {
            let o = if j - off < i { j - off } else { j - off + 1 };
            assert(after[j] == regions[o]);
            assert(o != i);
        }
    }
    assert(regions_apart(after)) by {
        assert forall|x: int, y: int|
            0 <= x < after.len() && 0 <= y < after.len() && x != y implies apart(
            (#[trigger] after[x]).addr as int,
            after[x].end_spec(),
            (#[trigger] after[y]).addr as int,
            after[y].end_spec(),
        ) by {
            if x >= off && y >= off {
                let ox = if x - off < i { x - off } else { x - off + 1 };
                let oy = if y - off < i { y - off } else { y - off + 1 };
                assert(after[x] == regions[ox] && after[y] == regions[oy]);
            }
        }
    }
    assert forall|k: int, l: int|
        0 <= k < new_live.len() && 0 <= l < new_live.len() && k != l implies apart(
        (#[trigger] new_live[k]).0,
        new_live[k].1,
        (#[trigger] new_live[l]).0,
        new_live[l].1,
    ) by {
        if k < live.len() && l < live.len() {
            assert(new_live[k] == live[k] && new_live[l] == live[l]);
        } else if k < live.len() {
            assert(apart(region.addr as int, region.end_spec(), live[k].0, live[k].1));
        } else {
            assert(apart(region.addr as int, region.end_spec(), live[l].0, live[l].1));
        }
    }
    assert forall|x: int, k: int| 0 <= x < after.len() && 0 <= k < new_live.len() implies apart(
        (#[trigger] after[x]).addr as int,
        after[x].end_spec(),
        (#[trigger] new_live[k]).0,
        new_live[k].1,
    ) by {
        if k < live.len() {
            assert(new_live[k] == live[k]);
            assert(apart(region.addr as int, region.end_spec(), live[k].0, live[k].1));
            if x >= off {
                let ox = if x - off < i { x - off } else { x - off + 1 };
                assert(after[x] == regions[ox]);
            }
        }
    }
}

/// The adjusted alignment is a power of two of at least 8, and the adjusted
/// size is at least a header.
proof fn lemma_adjusted_facts(layout: Layout)
    requires
        adjustable(layout),
    ensures
        is_power_of_two(adjusted_align(layout)),
        adjusted_align(layout) >= NODE_ALIGN,
        adjusted_size(layout) >= NODE_SIZE,
        adjusted_size(layout) <= u64::MAX,
        adjusted_align(layout) <= u64::MAX,
{
    lemma_eight_is_pow2();
    lemma_pow2_positive(adjusted_align(layout));
    lemma_align_up_bounds(layout.size as int, adjusted_align(layout));
}

/// The first fit is a region that fits, and none before it does.
pub proof fn lemma_first_fit_sound(regions: Seq<ListNode>, size: int, align: int)
    ensures
        first_fit(regions, size, align) matches Some(i) ==> 0 <= i < regions.len() && region_fit(
            regions[i],
            size,
            align,
        ) is Some && forall|j: int| 0 <= j < i ==> region_fit(#[trigger] regions[j], size, align) is None,
    decreases regions.len(),
{
    if regions.len() > 0 {
        let rest = regions.drop_first();
        lemma_first_fit_sound(rest, size, align);
        if let Some(i) = first_fit(regions, size, align) {
            if i > 0 {
                assert forall|j: int| 0 <= j < i implies region_fit(#[trigger] regions[j], size, align) is None by {
                    if j > 0 {
                        assert(regions[j] == rest[j - 1]);
                    }
                }
                assert(regions[i] == rest[i - 1]);
            }
        }
    }
}

/// Where no region fits there is no first fit.
proof fn lemma_first_fit_none(regions: Seq<ListNode>, size: int, align: int)
    requires
        forall|j: int| 0 <= j < regions.len() ==> region_fit(#[trigger] regions[j], size, align) is None,
    ensures
        first_fit(regions, size, align) is None,
    decreases regions.len(),
{
    if regions.len() > 0 {
        let rest = regions.drop_first();
        assert forall|j: int| 0 <= j < rest.len() implies region_fit(#[trigger] rest[j], size, align) is None by {
            assert(rest[j] == regions[j + 1]);
        }
        lemma_first_fit_none(rest, size, align);
    }
}

} // verus!
