use sentinel_boot::allocator::Allocator;
use sentinel_boot::ledger::{Alloc, AllocFlags};

const BASE: usize = 0x8110_0000;

fn heap(size: usize) -> Allocator {
    Allocator::init(BASE, size)
}

#[test]
fn init_makes_one_free_region() {
    let h = heap(256);
    assert_eq!(h.get_regions(), vec![(AllocFlags::Free, BASE, BASE + 256)]);
    assert_eq!(h.get_alloc_count(), 0);
    assert_eq!(h.heap_start(), BASE);
    assert_eq!(h.heap_end(), BASE + 256);
    assert_eq!(h.get_value(BASE + 17), 0);
}

#[test]
fn allocate_splits_first_free_region() {
    let mut h = heap(256);
    assert_eq!(h.allocate(10), Some(BASE));
    assert_eq!(
        h.get_regions(),
        vec![(AllocFlags::Allocated, BASE, BASE + 10), (AllocFlags::Free, BASE + 10, BASE + 256)]
    );
    assert_eq!(h.allocate(20), Some(BASE + 10));
    assert_eq!(h.get_alloc_count(), 30);
}

#[test]
fn allocate_exact_size_takes_whole_region() {
    let mut h = heap(64);
    assert_eq!(h.allocate(64), Some(BASE));
    assert_eq!(h.get_regions(), vec![(AllocFlags::Allocated, BASE, BASE + 64)]);
    assert_eq!(h.get_alloc_count(), 64);
}

#[test]
fn allocate_out_of_memory_returns_none() {
    let mut h = heap(64);
    assert_eq!(h.allocate(65), None);
    assert_eq!(h.allocate(40), Some(BASE));
    assert_eq!(h.allocate(40), None);
    assert_eq!(h.get_regions(), vec![(AllocFlags::Allocated, BASE, BASE + 40), (AllocFlags::Free, BASE + 40, BASE + 64)]);
}

#[test]
fn first_fit_prefers_first_large_enough_region() {
    // Free regions of 8, 32 and 16 bytes at increasing addresses.
    let mut h = heap(256);
    let a = h.allocate(8).unwrap();
    let _x1 = h.allocate(8).unwrap();
    let b = h.allocate(32).unwrap();
    let _x2 = h.allocate(8).unwrap();
    let c = h.allocate(16).unwrap();
    let _x3 = h.allocate(8).unwrap();
    let _rest = h.allocate(256 - 80).unwrap();
    h.deallocate(a, 8);
    h.deallocate(b, 32);
    h.deallocate(c, 16);
    let free: Vec<usize> = h
        .get_regions()
        .iter()
        .filter(|r| r.0 == AllocFlags::Free)
        .map(|r| r.2 - r.1)
        .collect();
    assert_eq!(free, vec![8, 32, 16]);
    assert_eq!(h.allocate(10), Some(b));
}

#[test]
fn coalescing_collapses_three_neighbours() {
    let mut h = heap(48);
    let a = h.allocate(16).unwrap();
    let b = h.allocate(16).unwrap();
    let c = h.allocate(16).unwrap();
    h.deallocate(b, 16);
    assert_eq!(
        h.get_regions(),
        vec![
            (AllocFlags::Allocated, a, a + 16),
            (AllocFlags::Free, b, b + 16),
            (AllocFlags::Allocated, c, c + 16),
        ]
    );
    h.deallocate(a, 16);
    assert_eq!(h.get_regions(), vec![(AllocFlags::Free, a, b + 16), (AllocFlags::Allocated, c, c + 16)]);
    h.deallocate(c, 16);
    assert_eq!(h.get_regions(), vec![(AllocFlags::Free, a, c + 16)]);
}

#[test]
fn coalescing_merges_with_trailing_free_region() {
    let mut h = heap(128);
    let a = h.allocate(16).unwrap();
    let b = h.allocate(16).unwrap();
    let c = h.allocate(16).unwrap();
    h.deallocate(b, 16);
    h.deallocate(c, 16);
    assert_eq!(h.get_regions(), vec![(AllocFlags::Allocated, a, a + 16), (AllocFlags::Free, b, BASE + 128)]);
    h.deallocate(a, 16);
    assert_eq!(h.get_regions(), vec![(AllocFlags::Free, BASE, BASE + 128)]);
}

#[test]
fn balanced_sequence_leaves_no_allocation() {
    let mut h = heap(512);
    let before = h.get_alloc_count();
    let p = h.allocate(24).unwrap();
    let q = h.allocate(40).unwrap();
    let r = h.allocate(8).unwrap();
    assert_eq!(h.get_alloc_count(), before + 72);
    h.deallocate(q, 40);
    let s = h.allocate(12).unwrap();
    h.deallocate(p, 24);
    h.deallocate(r, 8);
    h.deallocate(s, 12);
    assert_eq!(h.get_alloc_count(), before);
    assert_eq!(h.get_regions(), vec![(AllocFlags::Free, BASE, BASE + 512)]);
}

#[test]
fn freed_bytes_read_zero() {
    let mut h = heap(64);
    let p = h.allocate(8).unwrap();
    let q = h.allocate(8).unwrap();
    for i in 0..8 {
        h.set_value(p + i, 0xA0 + i as u8);
        h.set_value(q + i, 0xB0 + i as u8);
    }
    h.deallocate(p, 8);
    for i in 0..8 {
        assert_eq!(h.get_value(p + i), 0);
        assert_eq!(h.get_value(q + i), 0xB0 + i as u8);
    }
}

#[test]
fn allocate_zeroed_clears_bytes() {
    let mut h = heap(64);
    h.set_value(BASE + 3, 9);
    let p = h.allocate_zeroed(8).unwrap();
    assert_eq!(p, BASE);
    for i in 0..8 {
        assert_eq!(h.get_value(p + i), 0);
    }
    assert_eq!(h.get_alloc_count(), 8);
}

#[test]
fn allocate_keeps_stale_bytes() {
    let mut h = heap(64);
    h.set_value(BASE + 3, 9);
    let p = h.allocate(8).unwrap();
    assert_eq!(h.get_value(p + 3), 9);
}

#[test]
fn realloc_grow_preserves_data() {
    let mut h = heap(256);
    let p = h.allocate(8).unwrap();
    for i in 0..8 {
        h.set_value(p + i, i as u8);
    }
    assert_eq!(h.get_alloc_count(), 8);
    let q = h.reallocate(p, 8, 16).unwrap();
    for i in 0..8 {
        assert_eq!(h.get_value(q + i), i as u8);
    }
    assert_eq!(h.get_alloc_count(), 16);
}

#[test]
fn realloc_moves_past_allocated_neighbour() {
    let mut h = heap(256);
    let p = h.allocate(8).unwrap();
    let other = h.allocate(8).unwrap();
    for i in 0..8 {
        h.set_value(p + i, 10 + i as u8);
        h.set_value(other + i, 50);
    }
    let q = h.reallocate(p, 8, 16).unwrap();
    assert_eq!(q, other + 8);
    for i in 0..8 {
        assert_eq!(h.get_value(q + i), 10 + i as u8);
        assert_eq!(h.get_value(p + i), 0);
        assert_eq!(h.get_value(other + i), 50);
    }
}

#[test]
fn realloc_overlapping_move_down() {
    // The freed region merges with a free predecessor, so the data moves to
    // a lower, overlapping address.
    let mut h = heap(256);
    let a = h.allocate(4).unwrap();
    let p = h.allocate(8).unwrap();
    let _guard = h.allocate(8).unwrap();
    for i in 0..8 {
        h.set_value(p + i, 1 + i as u8);
    }
    h.deallocate(a, 4);
    let q = h.reallocate(p, 8, 10).unwrap();
    assert_eq!(q, a);
    for i in 0..8 {
        assert_eq!(h.get_value(q + i), 1 + i as u8);
    }
    // Inside the new region, past the copied bytes, the old bytes stay.
    assert_eq!(h.get_value(q + 8), 5);
    assert_eq!(h.get_value(q + 9), 6);
    // Old bytes outside the new region are zeroed.
    assert_eq!(h.get_value(q + 10), 0);
    assert_eq!(h.get_value(q + 11), 0);
}

#[test]
fn realloc_same_size_keeps_contents() {
    let mut h = heap(128);
    let _a = h.allocate(8).unwrap();
    let p = h.allocate(12).unwrap();
    for i in 0..12 {
        h.set_value(p + i, 200 + i as u8);
    }
    let q = h.reallocate(p, 12, 12).unwrap();
    for i in 0..12 {
        assert_eq!(h.get_value(q + i), 200 + i as u8);
    }
    assert_eq!(h.get_alloc_count(), 20);
}

#[test]
fn realloc_shrink_zeroes_tail() {
    let mut h = heap(64);
    let p = h.allocate(16).unwrap();
    for i in 0..16 {
        h.set_value(p + i, 7);
    }
    let q = h.reallocate(p, 16, 4).unwrap();
    assert_eq!(q, p);
    for i in 0..4 {
        assert_eq!(h.get_value(q + i), 7);
    }
    for i in 4..16 {
        assert_eq!(h.get_value(p + i), 0);
    }
    assert_eq!(h.get_alloc_count(), 4);
}

#[test]
fn realloc_without_room_releases_old_region() {
    let mut h = heap(32);
    let p = h.allocate(16).unwrap();
    let _q = h.allocate(16).unwrap();
    h.set_value(p, 5);
    assert_eq!(h.reallocate(p, 16, 20), None);
    assert_eq!(h.get_value(p), 0);
    assert_eq!(h.get_alloc_count(), 16);
}

#[test]
fn get_ptr_alloc_finds_only_allocations() {
    let mut h = heap(64);
    let p = h.allocate(8).unwrap();
    let handle = h.get_ptr_alloc(p).unwrap();
    let a = h.node(handle);
    assert_eq!(a.get_flag(), AllocFlags::Allocated);
    assert_eq!(a.get_start_address(), p);
    assert_eq!(a.get_end_address(&h), p + 8);
    assert_eq!(a.get_size(&h), 8);
    assert_eq!(h.get_ptr_alloc(p + 8), None);
    assert_eq!(h.get_ptr_alloc(p + 1), None);
}

#[test]
fn descriptor_links_follow_ledger_order() {
    let mut h = heap(64);
    let p = h.allocate(8).unwrap();
    let first = h.node(h.get_ptr_alloc(p).unwrap());
    let next = first.get_next_deref();
    let second = h.node(next);
    assert_eq!(second.get_flag(), AllocFlags::Free);
    assert_eq!(second.get_start_address(), p + 8);
    assert_eq!(second.get_size(&h), 56);
    assert_eq!(second.get_next(), None);
    assert_eq!(second.get_prev(), Some(h.get_ptr_alloc(p).unwrap()));
    assert!(first.get_prev().is_some());
}

#[test]
fn descriptor_setters() {
    let mut a = Alloc::new(AllocFlags::Free, 100, None, Some(3));
    a.set_flag(AllocFlags::Dead);
    a.set_start_address(200);
    a.set_prev(Some(1));
    a.set_next(None);
    assert_eq!(a, Alloc::new(AllocFlags::Dead, 200, Some(1), None));
    assert_eq!(a.get_prev_deref(), 1);
}

#[test]
fn dead_slots_are_reused() {
    let mut h = heap(256);
    for _ in 0..20 {
        let p = h.allocate(8).unwrap();
        let q = h.allocate(8).unwrap();
        h.deallocate(p, 8);
        h.deallocate(q, 8);
    }
    assert_eq!(h.get_regions(), vec![(AllocFlags::Free, BASE, BASE + 256)]);
}
