use sentinel_boot::allocator::Allocator;
use sentinel_boot::heap_vec::HeapVec;
use sentinel_boot::run_time_checks::{dual_alloc_check, expected, large_alloc_check, quad_alloc_check, simple_alloc_check};

fn heap() -> Allocator {
    Allocator::init(0x8110_0000, 1 << 16)
}

#[test]
fn simple_alloc_check_passes() {
    let mut h = heap();
    assert!(simple_alloc_check(&mut h));
    assert_eq!(h.get_alloc_count(), 0);
}

#[test]
fn dual_alloc_check_passes() {
    let mut h = heap();
    assert!(dual_alloc_check(&mut h));
    assert_eq!(h.get_alloc_count(), 0);
}

#[test]
fn quad_alloc_check_passes() {
    let mut h = heap();
    assert!(quad_alloc_check(&mut h));
    assert_eq!(h.get_alloc_count(), 0);
}

#[test]
fn large_alloc_check_passes() {
    let mut h = heap();
    assert!(large_alloc_check(&mut h));
    assert_eq!(h.get_alloc_count(), 0);
}

#[test]
fn checks_refuse_a_heap_in_use() {
    let mut h = heap();
    h.allocate(8).unwrap();
    assert!(!simple_alloc_check(&mut h));
}

#[test]
fn checks_fail_on_a_tiny_heap() {
    let mut h = Allocator::init(0x8110_0000, 12);
    assert!(!simple_alloc_check(&mut h));
}

#[test]
fn expected_values() {
    assert_eq!(expected(3, 16, false), 19);
    assert_eq!(expected(3, 255, true), 252);
}

#[test]
fn heap_vec_grows_by_doubling() {
    let mut h = heap();
    let mut v = HeapVec::new();
    assert!(v.push(&mut h, 1));
    assert_eq!(h.get_alloc_count(), 8);
    for i in 2..=9 {
        assert!(v.push(&mut h, i));
    }
    assert_eq!(h.get_alloc_count(), 16);
    assert_eq!(v.len(), 9);
    for i in 0..9 {
        assert_eq!(v.get(&h, i), Some(i as u8 + 1));
    }
    assert_eq!(v.get(&h, 9), None);
    assert!(v.check(&h));
    assert!(v.free(&mut h));
    assert_eq!(h.get_alloc_count(), 0);
}

#[test]
fn interleaved_vectors_keep_their_contents() {
    let mut h = heap();
    let mut vs = [HeapVec::new(), HeapVec::new(), HeapVec::new(), HeapVec::new()];
    let mut model: Vec<Vec<u8>> = vec![Vec::new(); 4];
    for step in 0..40u8 {
        for (k, v) in vs.iter_mut().enumerate() {
            let value = step.wrapping_mul(7).wrapping_add(k as u8 * 60);
            assert!(v.push(&mut h, value));
            model[k].push(value);
        }
        for (k, v) in vs.iter().enumerate() {
            for (i, b) in model[k].iter().enumerate() {
                assert_eq!(v.get(&h, i), Some(*b));
            }
        }
    }
    for v in vs {
        assert!(v.free(&mut h));
    }
    assert_eq!(h.get_alloc_count(), 0);
}

#[test]
fn checks_pass_on_the_smallest_heaps_they_need() {
    assert!(simple_alloc_check(&mut Allocator::init(0x8110_0000, 16)));
    assert!(dual_alloc_check(&mut Allocator::init(0x8110_0000, 64)));
    assert!(quad_alloc_check(&mut Allocator::init(0x8110_0000, 128)));
    assert!(large_alloc_check(&mut Allocator::init(0x8110_0000, 2048)));
}

#[test]
fn checks_fail_below_the_heaps_they_need() {
    assert!(!dual_alloc_check(&mut Allocator::init(0x8110_0000, 63)));
    assert!(!quad_alloc_check(&mut Allocator::init(0x8110_0000, 127)));
    assert!(!large_alloc_check(&mut Allocator::init(0x8110_0000, 2047)));
}
