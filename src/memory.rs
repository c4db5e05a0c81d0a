//! Physical frames for the heap: the frame source over the boot memory map
//! and the pages that the heap's virtual range covers.
use crate::align::{align_down, align_down_spec, is_power_of_two};
use vstd::prelude::*;

verus! {

/// Size in bytes of a page and of a physical frame.
pub const PAGE_SIZE: u64 = 4096;

/// Largest frame number whose frame lies inside a 64-bit address space.
pub const MAX_FRAME_NUMBER: u64 = 0x10_0000_0000_0000;

/// An entry of the boot memory map: frames `[start_frame, end_frame)` and
/// whether they are free for the kernel to use.
#[derive(Clone, Copy, Debug, PartialEq, Eq)]
pub struct MemoryRegion {
    pub start_frame: u64,
    pub end_frame: u64,
    pub usable: bool,
}

impl MemoryRegion {
    pub open spec fn wf(&self) -> bool {
        self.start_frame <= self.end_frame <= MAX_FRAME_NUMBER
    }
}

/// The frames of one region, as start addresses, in order; none for a
/// region that is not usable.
pub open spec fn frames_of(r: MemoryRegion) -> Seq<u64> {
    if r.usable {
        Seq::new((r.end_frame - r.start_frame) as nat, |k: int| ((r.start_frame + k) * PAGE_SIZE) as u64)
    } else {
        Seq::empty()
    }
}

/// The usable frames of a memory map, region after region.
pub open spec fn usable_frames(regions: Seq<MemoryRegion>) -> Seq<u64>
    decreases regions.len(),
{
    if regions.len() == 0 {
        Seq::empty()
    } else {
        usable_frames(regions.drop_last()) + frames_of(regions.last())
    }
}

/// Every region is well formed.
pub open spec fn map_wf(regions: Seq<MemoryRegion>) -> bool {
    forall|i: int| 0 <= i < regions.len() ==> (#[trigger] regions[i]).wf()
}

/// No two usable regions share a frame.
pub open spec fn usable_apart(regions: Seq<MemoryRegion>) -> bool {
    forall|i: int, j: int|
        0 <= i < regions.len() && 0 <= j < regions.len() && i != j && (#[trigger] regions[i]).usable
            && (#[trigger] regions[j]).usable ==> regions[i].end_frame <= regions[j].start_frame
            || regions[j].end_frame <= regions[i].start_frame
}

/// `addr` is the start of a frame inside a usable region of the map.
pub open spec fn in_usable_region(regions: Seq<MemoryRegion>, addr: int) -> bool {
    exists|i: int|
        0 <= i < regions.len() && (#[trigger] regions[i]).usable && regions[i].start_frame * PAGE_SIZE
            <= addr < regions[i].end_frame * PAGE_SIZE
}

/// Frame source that hands out the usable frames of the boot memory map in
/// map order, each once.
pub struct BootInfoFrameAllocator {
    memory_map: Vec<MemoryRegion>,
    next: u64,
}

impl BootInfoFrameAllocator {
    pub closed spec fn regions(&self) -> Seq<MemoryRegion> {
        self.memory_map@
    }

    /// Number of frames handed out so far.
    pub closed spec fn cursor(&self) -> int {
        self.next as int
    }

    pub open spec fn wf(&self) -> bool {
        map_wf(self.regions()) && 0 <= self.cursor() <= u64::MAX
    }

    /// A frame source over `memory_map`, none of whose frames is handed out
    /// yet. The caller vouches that the usable regions are really unused.
    pub fn init(memory_map: Vec<MemoryRegion>) -> (r: BootInfoFrameAllocator)
        requires
            map_wf(memory_map@),
        ensures
            r.wf(),
            r.regions() == memory_map@,
            r.cursor() == 0,
    {
        BootInfoFrameAllocator { memory_map, next: 0 }
    }

    /// The usable frame at the cursor, or `None` once the cursor has passed
    /// every usable frame; each call moves the cursor on by one.
    pub fn allocate_frame(&mut self) -> (r: Option<u64>)
        requires
            old(self).wf(),
        ensures
            final(self).wf(),
            final(self).regions() == old(self).regions(),
            old(self).cursor() < u64::MAX ==> final(self).cursor() == old(self).cursor() + 1,
            old(self).cursor() == u64::MAX ==> final(self).cursor() == old(self).cursor(),
            old(self).cursor() < usable_frames(old(self).regions()).len() && old(self).cursor()
                < u64::MAX ==> r == Some(usable_frames(old(self).regions())[old(self).cursor()]),
            !(old(self).cursor() < usable_frames(old(self).regions()).len() && old(self).cursor()
                < u64::MAX) ==> r is None,
            r matches Some(f) ==> f % PAGE_SIZE == 0 && in_usable_region(old(self).regions(), f as int),
    {
        if self.next == u64::MAX {
            return None;
        }
        let frame = nth_usable_frame(&self.memory_map, self.next);
        self.next = self.next + 1;
        frame
    }
}

/// The `n`-th usable frame of the map, counted from zero.
fn nth_usable_frame(regions: &Vec<MemoryRegion>, n: u64) -> (r: Option<u64>)
    requires
        map_wf(regions@),
    ensures
        n < usable_frames(regions@).len() ==> r == Some(usable_frames(regions@)[n as int]),
        n >= usable_frames(regions@).len() ==> r is None,
        r matches Some(f) ==> f % PAGE_SIZE == 0 && in_usable_region(regions@, f as int),
{
    let mut remaining: u64 = n;
    let mut i: usize = 0;
    while i < regions.len()
        invariant
            map_wf(regions@),
            i <= regions@.len(),
            remaining + usable_frames(regions@.subrange(0, i as int)).len() == n,
        decreases regions@.len() - i,
    {
        let region = regions[i];
        proof {
            assert(regions@.subrange(0, i + 1).drop_last() =~= regions@.subrange(0, i as int));
            assert(regions@[i as int].wf());
        }
        if region.usable {
            let count = region.end_frame - region.start_frame;
            if remaining < count {
                let frame = (region.start_frame + remaining) * PAGE_SIZE;
                proof {
                    let pre = usable_frames(regions@.subrange(0, i + 1));
                    lemma_usable_prefix(regions@, i + 1);
                    assert(pre[n as int] == frame);
                    assert(frame % PAGE_SIZE == 0);
                    assert(in_usable_region(regions@, frame as int));
                }
                return Some(frame);
            }
            remaining = remaining - count;
        }
        i = i + 1;
    }
    proof {
        assert(regions@.subrange(0, i as int) =~= regions@);
    }
    None
}

/// The usable frames of a prefix of the map begin the usable frames of the
/// whole map.
proof fn lemma_usable_prefix(regions: Seq<MemoryRegion>, j: int)
    requires
        0 <= j <= regions.len(),
    ensures
        usable_frames(regions.subrange(0, j)).len() <= usable_frames(regions).len(),
        forall|k: int|
            0 <= k < usable_frames(regions.subrange(0, j)).len() ==> #[trigger] usable_frames(
                regions.subrange(0, j),
            )[k] == usable_frames(regions)[k],
    decreases regions.len(),
{
    if j == regions.len() {
        assert(regions.subrange(0, j) =~= regions);
    } else {
        let front = regions.drop_last();
        assert(front.subrange(0, j) =~= regions.subrange(0, j));
        lemma_usable_prefix(front, j);
    }
}

/// The `k`-th usable frame is a frame of a usable region of the map.
proof fn lemma_frame_located(regions: Seq<MemoryRegion>, k: int) -> (i: int)
    requires
        map_wf(regions),
        0 <= k < usable_frames(regions).len(),
    ensures
        0 <= i < regions.len(),
        regions[i].usable,
        regions[i].start_frame * PAGE_SIZE <= usable_frames(regions)[k] < regions[i].end_frame
            * PAGE_SIZE,
    decreases regions.len(),
{
    let front = regions.drop_last();
    let last = regions.last();
    let u = usable_frames(front);
    assert(map_wf(front)) by {
        assert forall|x: int| 0 <= x < front.len() implies (#[trigger] front[x]).wf() by {
            assert(front[x] == regions[x]);
        }
    }
    assert(regions[regions.len() - 1].wf());
    if k < u.len() {
        let i = lemma_frame_located(front, k);
        assert(front[i] == regions[i]);
        assert(usable_frames(regions)[k] == u[k]);
        i
    } else {
        let m = k - u.len();
        assert(usable_frames(regions)[k] == frames_of(last)[m]);
        assert((last.start_frame + m) * PAGE_SIZE <= u64::MAX) by (nonlinear_arith)
            requires last.start_frame + m < last.end_frame, last.end_frame <= MAX_FRAME_NUMBER;
        assert(last.start_frame * PAGE_SIZE <= (last.start_frame + m) * PAGE_SIZE < last.end_frame
            * PAGE_SIZE) by (nonlinear_arith)
            requires 0 <= m, last.start_frame + m < last.end_frame;
        regions.len() - 1
    }
}

/// Where no two usable regions overlap, a frame source never hands out the
/// same frame twice: the frames at two different cursor positions differ.
pub proof fn lemma_frames_never_repeat(regions: Seq<MemoryRegion>, a: int, b: int)
    requires
        map_wf(regions),
        usable_apart(regions),
        0 <= a < usable_frames(regions).len(),
        0 <= b < usable_frames(regions).len(),
        a != b,
    ensures
        usable_frames(regions)[a] != usable_frames(regions)[b],
    decreases regions.len(),
{
    let front = regions.drop_last();
    let last = regions.last();
    let u = usable_frames(front);
    assert(map_wf(front)) by {
        assert forall|x: int| 0 <= x < front.len() implies (#[trigger] front[x]).wf() by {
            assert(front[x] == regions[x]);
        }
    }
    assert(usable_apart(front)) by {
        assert forall|x: int, y: int|
            0 <= x < front.len() && 0 <= y < front.len() && x != y && (#[trigger] front[x]).usable
                && (#[trigger] front[y]).usable implies front[x].end_frame <= front[y].start_frame
            || front[y].end_frame <= front[x].start_frame by {
            assert(front[x] == regions[x] && front[y] == regions[y]);
        }
    }
    assert(regions[regions.len() - 1].wf());
    if a < u.len() && b < u.len() {
        lemma_frames_never_repeat(front, a, b);
        assert(usable_frames(regions)[a] == u[a] && usable_frames(regions)[b] == u[b]);
    } else if a >= u.len() && b >= u.len() {
        let (ma, mb) = (a - u.len(), b - u.len());
        assert(usable_frames(regions)[a] == frames_of(last)[ma]);
        assert(usable_frames(regions)[b] == frames_of(last)[mb]);
        assert((last.start_frame + ma) * PAGE_SIZE != (last.start_frame + mb) * PAGE_SIZE) by (nonlinear_arith)
            requires ma != mb;
        assert((last.start_frame + ma) * PAGE_SIZE <= u64::MAX) by (nonlinear_arith)
            requires last.start_frame + ma < last.end_frame, last.end_frame <= MAX_FRAME_NUMBER;
        assert((last.start_frame + mb) * PAGE_SIZE <= u64::MAX) by (nonlinear_arith)
            requires last.start_frame + mb < last.end_frame, last.end_frame <= MAX_FRAME_NUMBER;
    } else {
        let (x, y) = if a < u.len() { (a, b) } else { (b, a) };
        let i = lemma_frame_located(front, x);
        let n = regions.len() - 1;
        assert(usable_frames(regions)[x] == u[x]);
        assert(front[i] == regions[i]);
        let m = y - u.len();
        assert(usable_frames(regions)[y] == frames_of(last)[m]);
        assert((last.start_frame + m) * PAGE_SIZE <= u64::MAX) by (nonlinear_arith)
            requires last.start_frame + m < last.end_frame, last.end_frame <= MAX_FRAME_NUMBER;
        assert(last.start_frame * PAGE_SIZE <= (last.start_frame + m) * PAGE_SIZE < last.end_frame
            * PAGE_SIZE) by (nonlinear_arith)
            requires 0 <= m, last.start_frame + m < last.end_frame;
        assert(regions[i].end_frame <= regions[n].start_frame || regions[n].end_frame
            <= regions[i].start_frame);
        let (fx, fy) = (u[x] as int, usable_frames(regions)[y] as int);
        let (si, ei, sn, en) = (
            regions[i].start_frame as int,
            regions[i].end_frame as int,
            regions[n].start_frame as int,
            regions[n].end_frame as int,
        );
        assert(fx != fy) by (nonlinear_arith)
            requires
                si * 4096 <= fx < ei * 4096,
                sn * 4096 <= fy < en * 4096,
                ei <= sn || en <= si,
        ;
    }
}

/// Frame source with no frame to give.
pub struct EmptyFrameAlocator;

impl EmptyFrameAlocator {
    pub fn allocate_frame(&mut self) -> (r: Option<u64>)
        ensures
            r is None,
    {
        None
    }
}

/// Start addresses of the first and the last page that the range
/// `[start, start + size)` touches.
pub fn heap_page_range(start: u64, size: u64) -> (r: (u64, u64))
    requires
        size > 0,
        start + size - 1 <= u64::MAX,
    ensures
        r.0 == align_down_spec(start as int, PAGE_SIZE as int),
        r.1 == align_down_spec(start + size - 1, PAGE_SIZE as int),
        r.0 % PAGE_SIZE == 0,
        r.1 % PAGE_SIZE == 0,
        r.0 <= start < r.0 + PAGE_SIZE,
        r.1 <= start + size - 1 < r.1 + PAGE_SIZE,
        r.0 <= r.1,
{
    proof {
        lemma_page_size_pow2();
        let (a, b) = (start as int, start + size - 1);
        assert((a / 4096) * 4096 <= (b / 4096) * 4096) by (nonlinear_arith)
            requires a <= b;
    }
    let first = align_down(start, PAGE_SIZE);
    let last = align_down(start + (size - 1), PAGE_SIZE);
    (first, last)
}

/// What the heap mapper asks for next.
#[derive(Clone, Copy, Debug, PartialEq, Eq)]
pub enum MapStep {
    /// Map the page at `page` to the frame at `frame`.
    MapPage { page: u64, frame: u64 },
    /// No frame was left for a page: the heap cannot be set up.
    OutOfFrames,
}

/// Walks the pages of the heap's range, first to last, pairing each with
/// the frame drawn for it.
pub struct HeapMapper {
    next_page: u64,
    last_page: u64,
    finished: bool,
}

impl HeapMapper {
    /// Start address of the page to map next, if any is left.
    pub closed spec fn pending(&self) -> Option<int> {
        if self.finished {
            None
        } else {
            Some(self.next_page as int)
        }
    }

    /// Start address of the last page of the range.
    pub closed spec fn last(&self) -> int {
        self.last_page as int
    }

    pub open spec fn wf(&self) -> bool {
        self.pending() matches Some(p) ==> p % 4096 == 0 && p <= self.last() && self.last() % 4096
            == 0 && self.last() + PAGE_SIZE <= u64::MAX + 1
    }

    /// A mapper over every page that `[start, start + size)` touches.
    pub fn new(start: u64, size: u64) -> (r: HeapMapper)
        requires
            size > 0,
            start + size - 1 <= u64::MAX,
        ensures
            r.wf(),
            r.pending() == Some(align_down_spec(start as int, PAGE_SIZE as int)),
            r.last() == align_down_spec(start + size - 1, PAGE_SIZE as int),
    {
        let (first, last) = heap_page_range(start, size);
        HeapMapper { next_page: first, last_page: last, finished: false }
    }

    /// The page to map next, or `None` once every page has been mapped or
    /// the frames ran out.
    pub fn next_page(&self) -> (r: Option<u64>)
        ensures
            r matches Some(p) ==> self.pending() == Some(p as int),
            r is None <==> self.pending() is None,
    {
        if self.finished {
            None
        } else {
            Some(self.next_page)
        }
    }

    /// Takes the frame drawn for the pending page: the page is to be mapped
    /// to it and the walk moves to the following page; without a frame the
    /// walk stops with the heap unmapped.
    pub fn step(&mut self, frame: Option<u64>) -> (r: MapStep)
        requires
            old(self).wf(),
            old(self).pending() is Some,
        ensures
            final(self).wf(),
            final(self).last() == old(self).last(),
            frame matches Some(f) ==> r == (MapStep::MapPage {
                page: old(self).pending()->Some_0 as u64,
                frame: f,
            }) && final(self).pending() == (if old(self).pending()->Some_0 < old(self).last() {
                Some(old(self).pending()->Some_0 + PAGE_SIZE)
            } else {
                None
            }),
            frame is None ==> r == MapStep::OutOfFrames && final(self).pending() is None,
    {
        match frame {
            Some(f) => {
                let page = self.next_page;
                if self.next_page < self.last_page {
                    proof {
                        let (p, l) = (self.next_page as int, self.last_page as int);
                        assert(p + PAGE_SIZE <= l) by (nonlinear_arith)
                            requires p % 4096 == 0, l % 4096 == 0, p < l;
                    }
                    self.next_page = self.next_page + PAGE_SIZE;
                } else {
                    self.finished = true;
                }
                MapStep::MapPage { page, frame: f }
            },
            None => {
                self.finished = true;
                MapStep::OutOfFrames
            },
        }
    }
}

proof fn lemma_page_size_pow2()
    ensures
        is_power_of_two(PAGE_SIZE as int),
{
    crate::align::lemma_eight_is_pow2();
    reveal(vstd::arithmetic::power2::is_pow2);
    assert(vstd::arithmetic::power2::is_pow2(32));
    assert(vstd::arithmetic::power2::is_pow2(64));
    assert(vstd::arithmetic::power2::is_pow2(128));
    assert(vstd::arithmetic::power2::is_pow2(256));
    assert(vstd::arithmetic::power2::is_pow2(512));
    assert(vstd::arithmetic::power2::is_pow2(1024));
    assert(vstd::arithmetic::power2::is_pow2(2048));
}

} // verus!
