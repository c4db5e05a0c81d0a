use blog_os::align::{align_down, align_up, is_power_of_two_exec};
use blog_os::allocator::bump::BumpAllocator;
use blog_os::allocator::fixed_size_block::{block_size, can_free, list_index, FixedSizeBlockAllocator};
use blog_os::allocator::linked_list::{LinkedListAllocator, ListNode};
use blog_os::allocator::{Layout, HEAP_SIZE, HEAP_START};

fn layout(size: u64, align: u64) -> Layout {
    Layout::from_size_align(size, align).unwrap()
}

#[test]
fn align_up_rounds_to_boundary() {
    assert_eq!(align_up(0, 8), 0);
    assert_eq!(align_up(1, 8), 8);
    assert_eq!(align_up(8, 8), 8);
    assert_eq!(align_up(9, 8), 16);
    assert_eq!(align_up(0x1001, 4096), 0x2000);
    assert_eq!(align_up(13, 1), 13);
}

#[test]
fn align_up_is_idempotent_and_bounded() {
    for a in [0u64, 1, 7, 63, 64, 65, 1000, 4095, 4097] {
        for n in [1u64, 2, 8, 64, 4096] {
            let r = align_up(a, n);
            assert_eq!(align_up(r, n), r);
            assert!(r >= a);
            assert!(r <= a + n - 1);
            assert_eq!(r % n, 0);
        }
    }
}

#[test]
fn align_down_rounds_to_boundary() {
    assert_eq!(align_down(0x1fff, 4096), 0x1000);
    assert_eq!(align_down(0x2000, 4096), 0x2000);
    assert_eq!(align_down(7, 8), 0);
}

#[test]
fn power_of_two_check() {
    assert!(is_power_of_two_exec(1));
    assert!(is_power_of_two_exec(4096));
    assert!(!is_power_of_two_exec(0));
    assert!(!is_power_of_two_exec(12));
    assert!(Layout::from_size_align(8, 3).is_none());
    assert!(Layout::from_size_align(8, 0).is_none());
    assert!(Layout::from_size_align(0x7fff_ffff_ffff_fff0, 32).is_none());
    assert_eq!(layout(10, 4).size, 10);
}

#[test]
fn bump_allocates_forward() {
    let mut a = BumpAllocator::new();
    a.init(0x1000, 256);
    assert_eq!(a.allocate(layout(10, 1)), Some(0x1000));
    assert_eq!(a.allocate(layout(8, 8)), Some(0x1010));
    assert_eq!(a.allocate(layout(300, 1)), None);
    assert_eq!(a.allocate(layout(16, 16)), Some(0x1020));
}

#[test]
fn bump_out_of_memory() {
    let mut a = BumpAllocator::new();
    a.init(0x1000, 64);
    assert_eq!(a.allocate(layout(64, 8)), Some(0x1000));
    assert_eq!(a.allocate(layout(1, 1)), None);
}

#[test]
fn bump_resets_after_last_free() {
    let mut a = BumpAllocator::new();
    a.init(0x1000, 1024);
    for _ in 0..5 {
        assert!(a.allocate(layout(100, 4)).is_some());
    }
    for _ in 0..4 {
        a.deallocate();
        assert_ne!(a.allocate(layout(1, 1)), Some(0x1000));
        a.deallocate();
    }
    a.deallocate();
    assert_eq!(a.allocate(layout(100, 4)), Some(0x1000));
}

#[test]
fn list_node_bounds() {
    let n = ListNode::new(0x2000, 48);
    assert_eq!(n.start_addr(), 0x2000);
    assert_eq!(n.end_addr(), 0x2030);
}

#[test]
fn size_align_raises_to_header() {
    assert_eq!(LinkedListAllocator::size_align(layout(1, 1)), (16, 8));
    assert_eq!(LinkedListAllocator::size_align(layout(20, 4)), (24, 8));
    assert_eq!(LinkedListAllocator::size_align(layout(40, 32)), (64, 32));
    assert_eq!(LinkedListAllocator::size_align(layout(0, 64)), (16, 64));
}

#[test]
fn alloc_from_region_rejects_small_tails() {
    let region = ListNode::new(0x1000, 64);
    assert_eq!(LinkedListAllocator::alloc_from_region(&region, 64, 8), Ok(0x1000));
    assert_eq!(LinkedListAllocator::alloc_from_region(&region, 48, 8), Ok(0x1000));
    assert_eq!(LinkedListAllocator::alloc_from_region(&region, 56, 8), Err(()));
    assert_eq!(LinkedListAllocator::alloc_from_region(&region, 72, 8), Err(()));
    let odd = ListNode::new(0x1008, 64);
    assert_eq!(LinkedListAllocator::alloc_from_region(&odd, 32, 16), Ok(0x1010));
}

#[test]
fn linked_list_first_fit_and_split() {
    let mut a = LinkedListAllocator::new();
    a.init(0x10000, 1024);
    let first = a.allocate(layout(100, 8)).unwrap();
    assert_eq!(first, 0x10000);
    let second = a.allocate(layout(100, 8)).unwrap();
    assert_eq!(second, 0x10000 + 104);
    assert!(a.allocate(layout(2048, 8)).is_none());
}

#[test]
fn linked_list_reuses_freed_block() {
    let mut a = LinkedListAllocator::new();
    a.init(0x10000, 4096);
    let l = layout(256, 16);
    let p = a.allocate(l).unwrap();
    a.deallocate(p, l);
    assert_eq!(a.allocate(l), Some(p));
}

#[test]
fn linked_list_freed_block_goes_to_head() {
    let mut a = LinkedListAllocator::new();
    a.init(0x10000, 1024);
    let p = a.allocate(layout(64, 8)).unwrap();
    let q = a.allocate(layout(64, 8)).unwrap();
    a.deallocate(p, layout(64, 8));
    assert_eq!(a.allocate(layout(32, 8)), Some(p));
    assert_ne!(p, q);
}

#[test]
fn list_index_picks_first_class() {
    assert_eq!(list_index(&layout(1, 1)), Some(0));
    assert_eq!(list_index(&layout(8, 8)), Some(0));
    assert_eq!(list_index(&layout(9, 1)), Some(1));
    assert_eq!(list_index(&layout(10, 64)), Some(3));
    assert_eq!(list_index(&layout(2048, 8)), Some(8));
    assert_eq!(list_index(&layout(2049, 8)), None);
    assert_eq!(list_index(&layout(8, 4096)), None);
    assert_eq!(block_size(0), 8);
    assert_eq!(block_size(8), 2048);
}

#[test]
fn fixed_size_block_pool_reuse() {
    let mut a = FixedSizeBlockAllocator::new();
    a.init(HEAP_START, HEAP_SIZE);
    let l = layout(100, 8);
    let p = a.allocate(l).unwrap();
    assert_eq!(p % 128, 0);
    a.deallocate(p, l);
    assert_eq!(a.allocate(layout(128, 128)), Some(p));
}

#[test]
fn fixed_size_block_large_goes_to_fallback() {
    let mut a = FixedSizeBlockAllocator::new();
    a.init(0x20000, 8192);
    let big = layout(3000, 8);
    let p = a.allocate(big).unwrap();
    assert_eq!(p, 0x20000);
    a.deallocate(p, big);
    assert_eq!(a.allocate(big), Some(p));
}

#[test]
fn fixed_size_block_empty_heap_fails() {
    let mut a = FixedSizeBlockAllocator::new();
    assert_eq!(a.allocate(layout(8, 8)), None);
    assert_eq!(a.allocate(layout(4000, 8)), None);
}

#[test]
fn heap_scenario_small_blocks_then_large() {
    let mut a = FixedSizeBlockAllocator::new();
    a.init(HEAP_START, 4096);
    let l = layout(64, 64);
    let mut blocks = Vec::new();
    for _ in 0..10 {
        let p = a.allocate(l).unwrap();
        assert_eq!(p % 64, 0);
        assert!(!blocks.contains(&p));
        blocks.push(p);
    }
    for &p in &blocks {
        a.deallocate(p, l);
    }
    for _ in 0..5 {
        let p = a.allocate(l).unwrap();
        assert!(blocks.contains(&p));
    }
    let big = a.allocate(layout(3000, 8));
    assert!(big.is_some());
    let b = big.unwrap();
    assert!(b >= HEAP_START + 640 && b + 3000 <= HEAP_START + 4096);
}

#[test]
fn linked_list_live_blocks_never_overlap() {
    let mut a = LinkedListAllocator::new();
    a.init(0x30000, 2048);
    let mut live: Vec<(u64, u64)> = Vec::new();
    let requests = [(24u64, 8u64), (100, 32), (7, 1), (64, 64), (300, 16), (16, 8)];
    for (i, &(size, align)) in requests.iter().enumerate() {
        let l = layout(size, align);
        let p = a.allocate(l).unwrap();
        assert_eq!(p % align, 0);
        let (adjusted, _) = LinkedListAllocator::size_align(l);
        assert!(p >= 0x30000 && p + adjusted <= 0x30000 + 2048);
        for &(s, e) in &live {
            assert!(p + adjusted <= s || e <= p);
        }
        live.push((p, p + adjusted));
        if i == 2 {
            let (s, _) = live.remove(0);
            a.deallocate(s, layout(24, 8));
        }
    }
}

#[test]
fn fixed_size_block_refuses_null_fallback_free() {
    let big = layout(3000, 8);
    assert!(!can_free(0, &big));
    assert!(can_free(0x20000, &big));
    assert!(can_free(0, &layout(64, 64)));
    assert!(!can_free(0x20020, &layout(64, 64)));
}
