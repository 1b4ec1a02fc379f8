//! Self-checks of the allocator, run on a heap with nothing allocated: byte
//! vectors grow through it and their contents and the allocated byte count
//! are checked at each stage. Each check returns whether all its
//! expectations held.
use vstd::prelude::*;
use crate::allocator::Allocator;
use crate::heap_vec::HeapVec;
use crate::heap_vec::MIN_CAPACITY;
use crate::ledger::{
    after_alloc, after_free, allocated_total, fits, has_fit, is_allocation, is_first_fit,
    lemma_nothing_allocated, AllocFlags, Region,
};

verus! {

/// The value expected at index `i` of a vector counting up from `base`, or
/// down from it when `down` holds.
pub fn expected(i: u8, base: u8, down: bool) -> (r: u8)
    requires
        down ==> i <= base,
        !down ==> base + i <= u8::MAX,
    ensures
        r == if down {
            base - i
        } else {
            base + i
        },
{
    if down {
        base - i
    } else {
        base + i
    }
}

/// The value expected at index `i` of a vector counting up from `base`, or
/// down from it when `down` holds.
pub open spec fn expected_value(i: int, base: int, down: bool) -> int {
    if down {
        base - i
    } else {
        base + i
    }
}

/// The ledger of the heap `[s, e)` when the storage of a single vector, of
/// `cap` bytes (none when `cap` is zero), sits at its start.
pub open spec fn sole_layout(s: int, e: int, cap: int) -> Seq<Region> {
    if cap == 0 {
        seq![Region { flag: AllocFlags::Free, start: s, end: e }]
    } else if cap < e - s {
        seq![
            Region { flag: AllocFlags::Allocated, start: s, end: s + cap },
            Region { flag: AllocFlags::Free, start: s + cap, end: e },
        ]
    } else {
        seq![Region { flag: AllocFlags::Allocated, start: s, end: e }]
    }
}

/// The capacity a full vector of capacity `cap` grows to.
pub open spec fn grown(cap: int) -> int {
    if cap == 0 {
        MIN_CAPACITY as int
    } else {
        2 * cap
    }
}

/// Pushes `b` onto `v`, the only vector in `heap`, whose storage sits at the
/// heap's start; the heap has room for the storage to grow when it must.
fn push_sole(v: &mut HeapVec, heap: &mut Allocator, b: u8) -> (r: bool)
    requires
        old(heap).wf(),
        old(v).inv(old(heap)),
        old(heap).regions() == sole_layout(
            old(heap).start(),
            old(heap).end(),
            old(v).cap_spec() as int,
        ),
        old(v).cap_spec() > 0 ==> old(v).ptr_spec() == old(heap).start(),
        old(v).cap_spec() <= old(heap).end() - old(heap).start(),
        old(v).len_spec() == old(v).cap_spec() ==> grown(old(v).cap_spec() as int) <= old(
            heap,
        ).end() - old(heap).start(),
    ensures
        r,
        final(heap).wf(),
        final(heap).start() == old(heap).start(),
        final(heap).end() == old(heap).end(),
        final(v).inv(final(heap)),
        final(v).cap_spec() == if old(v).len_spec() == old(v).cap_spec() {
            grown(old(v).cap_spec() as int)
        } else {
            old(v).cap_spec() as int
        },
        final(v).ptr_spec() == final(heap).start(),
        final(heap).regions() == sole_layout(
            final(heap).start(),
            final(heap).end(),
            final(v).cap_spec() as int,
        ),
        final(v).len_spec() == old(v).len_spec() + 1,
        final(v).view_in(final(heap)) == old(v).view_in(old(heap)).push(b),
{
    let ghost s = heap.start();
    let ghost e = heap.end();
    let ghost cap = v.cap_spec() as int;
    let ghost rs = heap.regions();
    proof {
        heap.lemma_wf_ledger();
        v.lemma_len_within(heap);
        let free = seq![Region { flag: AllocFlags::Free, start: s, end: e }];
        if v.len_spec() == v.cap_spec() {
            let n = grown(cap);
            assert(is_first_fit(free, n, 0));
            assert(after_alloc(free, 0, n) =~= sole_layout(s, e, n));
            if cap > 0 {
                assert(is_allocation(rs, v.ptr_spec(), 0));
                assert(after_free(rs, 0) =~= free);
                assert(fits(after_free(rs, 0)[0], n));
                assert(has_fit(after_free(rs, 0), n));
                assert forall|k: int| #[trigger]
                    is_allocation(old(heap).regions(), old(v).ptr_spec(), k) implies has_fit(
                    after_free(old(heap).regions(), k),
                    2 * old(v).cap_spec() as int,
                ) by {
                    if cap < e - s {
                        assert(rs[1].flag == AllocFlags::Free);
                        assert(rs.len() == 2);
                    } else {
                        assert(rs.len() == 1);
                    }
                    assert(k == 0);
                }
                assert(2 * old(v).cap_spec() <= usize::MAX);
            } else {
                assert(rs =~= free);
                assert(fits(rs[0], n));
                assert(has_fit(rs, n));
            }
        }
    }
    let r = v.push(heap, b);
    proof {
        if old(v).len_spec() == old(v).cap_spec() {
            let free = seq![Region { flag: AllocFlags::Free, start: s, end: e }];
            if cap > 0 {
                assert(is_allocation(rs, old(v).ptr_spec(), 0));
                assert(is_allocation(old(heap).regions(), old(v).ptr_spec(), 0));
                assert(after_free(rs, 0) =~= free);
                assert(exists|k2: int|
                    {
                        &&& is_first_fit(after_free(rs, 0), 2 * cap, k2)
                        &&& v.ptr_spec() == after_free(rs, 0)[k2].start
                        &&& heap.regions() == after_alloc(after_free(rs, 0), k2, 2 * cap)
                    });
                let k2 = choose|k2: int|
                    {
                        &&& is_first_fit(after_free(rs, 0), 2 * cap, k2)
                        &&& v.ptr_spec() == after_free(rs, 0)[k2].start
                        &&& heap.regions() == after_alloc(after_free(rs, 0), k2, 2 * cap)
                    };
                assert(k2 == 0);
            } else {
                let k = choose|k: int|
                    {
                        &&& is_first_fit(rs, MIN_CAPACITY as int, k)
                        &&& v.ptr_spec() == rs[k].start
                        &&& heap.regions() == after_alloc(rs, k, MIN_CAPACITY as int)
                    };
                assert(rs =~= free);
                assert(k == 0);
            }
        }
    }
    r
}

/// Whether `v` holds exactly `len` values, each the value expected at its
/// index.
fn holds(v: &HeapVec, heap: &Allocator, len: u8, base: u8, down: bool) -> (r: bool)
    requires
        heap.wf(),
        down ==> len <= base + 1,
        !down ==> base + len <= u8::MAX + 1,
    ensures
        r == (v.inv(heap) && v.len_spec() == len && forall|i: int|
            0 <= i < len ==> v.view_in(heap)[i] == expected_value(i, base as int, down)),
{
    if !v.check(heap) || v.len() != len as usize {
        return false;
    }
    let mut i: u8 = 0;
    while i < len
        invariant
            heap.wf(),
            v.inv(heap),
            v.len_spec() == len,
            i <= len,
            down ==> len <= base + 1,
            !down ==> base + len <= u8::MAX + 1,
            forall|j: int| 0 <= j < i ==> v.view_in(heap)[j] == expected_value(j, base as int, down),
        decreases len - i,
    {
        match v.get(heap, i as usize) {
            Some(b) => {
                if b != expected(i, base, down) {
                    assert(v.view_in(heap)[i as int] != expected_value(i as int, base as int, down));
                    return false;
                }
            },
            None => {
                return false;
            },
        }
        i = i + 1;
    }
    true
}

/// One vector of bytes grows from eight to sixteen bytes. The check wants a
/// heap of at least sixteen bytes with nothing allocated, and reports
/// failure at once otherwise; on such a heap every expectation holds.
pub fn simple_alloc_check(heap: &mut Allocator) -> (r: bool)
    requires
        old(heap).wf(),
    ensures
        final(heap).wf(),
        final(heap).start() == old(heap).start(),
        final(heap).end() == old(heap).end(),
        r <==> (allocated_total(old(heap).regions()) == 0 && old(heap).end() - old(heap).start()
            >= 16),
        r ==> allocated_total(final(heap).regions()) == 0,
{
    proof {
        heap.lemma_wf_ledger();
    }
    if heap.get_alloc_count() != 0 || heap.heap_end() - heap.heap_start() < 16 {
        return false;
    }
    let ghost s = heap.start();
    let ghost e = heap.end();
    proof {
        heap.lemma_wf_ledger();
        lemma_nothing_allocated(heap.regions(), s, e);
        assert(heap.regions() =~= sole_layout(s, e, 0));
    }
    let mut x = HeapVec::new();
    let mut i: u8 = 0;
    proof {
        x.lemma_empty(heap);
        assert(x.view_in(heap) =~= Seq::new(0 as nat, |j: int| j as u8));
    }
    while i < 16
        invariant
            heap.wf(),
            heap.start() == s,
            heap.end() == e,
            old(heap).start() == s,
            old(heap).end() == e,
            e - s >= 16,
            allocated_total(old(heap).regions()) == 0,
            i <= 16,
            x.inv(heap),
            x.len_spec() == i,
            x.cap_spec() == if i == 0 {
                0
            } else if i <= 8 {
                8
            } else {
                16int
            },
            x.cap_spec() > 0 ==> x.ptr_spec() == s,
            heap.regions() == sole_layout(s, e, x.cap_spec() as int),
            x.view_in(heap) == Seq::new(i as nat, |j: int| j as u8),
        decreases 16 - i,
    {
        let ghost before = x.view_in(heap);
        if !push_sole(&mut x, heap, i) {
            return false;
        }
        proof {
            assert(x.view_in(heap) =~= Seq::new((i + 1) as nat, |j: int| j as u8));
        }
        i = i + 1;
        if (i == 1 && heap.get_alloc_count() != 8) || (i == 9 && heap.get_alloc_count() != 16) {
            proof {
                let c = x.cap_spec() as int;
                assert(allocated_total(sole_layout(s, e, c)) == c) by {
                    reveal_with_fuel(allocated_total, 3);
                }
            }
            return false;
        }
    }
    if !holds(&x, heap, 16, 0, false) {
        return false;
    }
    if !x.free(heap) {
        return false;
    }
    proof {
        assert(allocated_total(sole_layout(s, e, 16)) == 16) by {
            reveal_with_fuel(allocated_total, 3);
        }
    }
    heap.get_alloc_count() == 0
}

/// The first `n` values of a vector counting up from `base`, or down from
/// it when `down` holds.
pub open spec fn counted(n: int, base: int, down: bool) -> Seq<u8> {
    Seq::new(n as nat, |j: int| expected_value(j, base, down) as u8)
}

/// Pushes the value expected at index `i` onto `v`, which has room for it,
/// and keeps every other vector intact.
fn push_within(v: &mut HeapVec, heap: &mut Allocator, i: u8, base: u8, down: bool) -> (r: bool)
    requires
        old(heap).wf(),
        old(v).inv(old(heap)),
        old(v).len_spec() < old(v).cap_spec(),
        old(v).len_spec() == i,
        down ==> i <= base,
        !down ==> base + i <= u8::MAX,
        old(v).view_in(old(heap)) == counted(i as int, base as int, down),
    ensures
        r,
        final(heap).wf(),
        final(heap).start() == old(heap).start(),
        final(heap).end() == old(heap).end(),
        final(heap).regions() == old(heap).regions(),
        final(v).inv(final(heap)),
        final(v).len_spec() == i + 1,
        final(v).cap_spec() == old(v).cap_spec(),
        final(v).ptr_spec() == old(v).ptr_spec(),
        final(v).view_in(final(heap)) == counted(i + 1, base as int, down),
        forall|w: HeapVec|
            #[trigger] w.inv(old(heap)) && w.cap_spec() > 0 && w.ptr_spec() != old(v).ptr_spec()
                ==> w.inv(final(heap)) && w.view_in(final(heap)) == w.view_in(old(heap)),
{
    let r = v.push(heap, expected(i, base, down));
    proof {
        assert(v.view_in(heap) =~= counted(i + 1, base as int, down));
    }
    r
}

/// Two vectors grow side by side, one counting up from 0 and one down from
/// 255. The check wants a heap of at least 64 bytes with nothing allocated,
/// and reports failure at once otherwise; on such a heap every expectation
/// holds.
pub fn dual_alloc_check(heap: &mut Allocator) -> (r: bool)
    requires
        old(heap).wf(),
    ensures
        final(heap).wf(),
        final(heap).start() == old(heap).start(),
        final(heap).end() == old(heap).end(),
        r <==> (allocated_total(old(heap).regions()) == 0 && old(heap).end() - old(heap).start()
            >= 64),
        r ==> allocated_total(final(heap).regions()) == 0,
{
    proof {
        heap.lemma_wf_ledger();
    }
    if heap.get_alloc_count() != 0 || heap.heap_end() - heap.heap_start() < 64 {
        return false;
    }
    let ghost s = heap.start();
    let ghost e = heap.end();
    let ghost l0 = seq![Region { flag: AllocFlags::Free, start: s, end: e }];
    let ghost l1 = seq![
        Region { flag: AllocFlags::Allocated, start: s, end: s + 8 },
        Region { flag: AllocFlags::Free, start: s + 8, end: e },
    ];
    let ghost l2 = seq![
        Region { flag: AllocFlags::Allocated, start: s, end: s + 8 },
        Region { flag: AllocFlags::Allocated, start: s + 8, end: s + 16 },
        Region { flag: AllocFlags::Free, start: s + 16, end: e },
    ];
    let ghost m2 = seq![
        Region { flag: AllocFlags::Free, start: s, end: s + 8 },
        Region { flag: AllocFlags::Allocated, start: s + 8, end: s + 16 },
        Region { flag: AllocFlags::Free, start: s + 16, end: e },
    ];
    let ghost l3 = seq![
        Region { flag: AllocFlags::Free, start: s, end: s + 8 },
        Region { flag: AllocFlags::Allocated, start: s + 8, end: s + 16 },
        Region { flag: AllocFlags::Allocated, start: s + 16, end: s + 32 },
        Region { flag: AllocFlags::Free, start: s + 32, end: e },
    ];
    let ghost m3 = seq![
        Region { flag: AllocFlags::Free, start: s, end: s + 16 },
        Region { flag: AllocFlags::Allocated, start: s + 16, end: s + 32 },
        Region { flag: AllocFlags::Free, start: s + 32, end: e },
    ];
    let ghost l4 = seq![
        Region { flag: AllocFlags::Allocated, start: s, end: s + 16 },
        Region { flag: AllocFlags::Allocated, start: s + 16, end: s + 32 },
        Region { flag: AllocFlags::Free, start: s + 32, end: e },
    ];
    proof {
        lemma_nothing_allocated(heap.regions(), s, e);
        assert(heap.regions() =~= l0);
    }
    let mut x = HeapVec::new();
    let mut y = HeapVec::new();
    proof {
        x.lemma_empty(heap);
        y.lemma_empty(heap);
        assert(is_first_fit(l0, 8, 0));
        assert(fits(l0[0], 8));
        assert(after_alloc(l0, 0, 8) =~= l1);
    }
    if !x.push(heap, 0) {
        return false;
    }
    proof {
        assert(heap.regions() =~= l1);
        assert(x.ptr_spec() == s);
        assert(x.view_in(heap) =~= counted(1, 0, false));
        y.lemma_empty(heap);
        assert(fits(l1[1], 8));
        assert(is_first_fit(l1, 8, 1));
        assert(after_alloc(l1, 1, 8) =~= l2);
    }
    if !y.push(heap, 255) {
        return false;
    }
    proof {
        assert(heap.regions() =~= l2);
        assert(y.ptr_spec() == s + 8);
        assert(y.view_in(heap) =~= counted(1, 255, true));
    }
    if heap.get_alloc_count() != 16 {
        return false;
    }
    let mut i: u8 = 1;
    while i < 8
        invariant
            heap.wf(),
            heap.start() == s,
            heap.end() == e,
            old(heap).start() == s,
            old(heap).end() == e,
            e - s >= 64,
            allocated_total(old(heap).regions()) == 0,
            1 <= i <= 8,
            heap.regions() == l2,
            x.inv(heap),
            y.inv(heap),
            x.len_spec() == i,
            y.len_spec() == i,
            x.cap_spec() == 8,
            y.cap_spec() == 8,
            x.ptr_spec() == s,
            y.ptr_spec() == s + 8,
            x.view_in(heap) == counted(i as int, 0, false),
            y.view_in(heap) == counted(i as int, 255, true),
            allocated_total(heap.regions()) == 16,
        decreases 8 - i,
    {
        if !push_within(&mut x, heap, i, 0, false) || !push_within(&mut y, heap, i, 255, true) {
            return false;
        }
        i = i + 1;
    }
    if !holds(&x, heap, 8, 0, false) || !holds(&y, heap, 8, 255, true) {
        return false;
    }
    proof {
        assert(is_allocation(l2, s, 0));
        assert(after_free(l2, 0) =~= m2);
        assert(fits(m2[2], 16));
        assert(has_fit(m2, 16));
        assert forall|k: int| #[trigger] is_allocation(heap.regions(), x.ptr_spec(), k) implies has_fit(
            after_free(heap.regions(), k),
            2 * x.cap_spec() as int,
        ) by {
            assert(k == 0);
        }
    }
    if !x.push(heap, 8) {
        return false;
    }
    proof {
        assert(is_allocation(l2, s, 0));
        let k2 = choose|k2: int|
            {
                &&& is_first_fit(m2, 16, k2)
                &&& x.ptr_spec() == m2[k2].start
                &&& heap.regions() == after_alloc(m2, k2, 16)
            };
        assert(k2 == 2);
        assert(heap.regions() =~= l3);
        assert(x.view_in(heap) =~= counted(9, 0, false));
        assert(is_allocation(l3, s + 8, 1));
        assert(after_free(l3, 1) =~= m3);
        assert(fits(m3[0], 16));
        assert(has_fit(m3, 16));
        assert forall|k: int| #[trigger] is_allocation(heap.regions(), y.ptr_spec(), k) implies has_fit(
            after_free(heap.regions(), k),
            2 * y.cap_spec() as int,
        ) by {
            assert(k == 1);
        }
    }
    if !y.push(heap, 247) {
        return false;
    }
    proof {
        assert(is_allocation(l3, s + 8, 1));
        let k2 = choose|k2: int|
            {
                &&& is_first_fit(m3, 16, k2)
                &&& y.ptr_spec() == m3[k2].start
                &&& heap.regions() == after_alloc(m3, k2, 16)
            };
        assert(k2 == 0);
        assert(heap.regions() =~= l4);
        assert(y.view_in(heap) =~= counted(9, 255, true));
    }
    if heap.get_alloc_count() != 32 {
        return false;
    }
    if !holds(&x, heap, 9, 0, false) || !holds(&y, heap, 9, 255, true) {
        return false;
    }
    let mut i: u8 = 9;
    while i < 16
        invariant
            heap.wf(),
            heap.start() == s,
            heap.end() == e,
            old(heap).start() == s,
            old(heap).end() == e,
            e - s >= 64,
            allocated_total(old(heap).regions()) == 0,
            9 <= i <= 16,
            heap.regions() == l4,
            x.inv(heap),
            y.inv(heap),
            x.len_spec() == i,
            y.len_spec() == i,
            x.cap_spec() == 16,
            y.cap_spec() == 16,
            x.ptr_spec() == s + 16,
            y.ptr_spec() == s,
            x.view_in(heap) == counted(i as int, 0, false),
            y.view_in(heap) == counted(i as int, 255, true),
            allocated_total(heap.regions()) == 32,
        decreases 16 - i,
    {
        if !push_within(&mut x, heap, i, 0, false) || !push_within(&mut y, heap, i, 255, true) {
            return false;
        }
        i = i + 1;
    }
    if !holds(&x, heap, 16, 0, false) || !holds(&y, heap, 16, 255, true) {
        return false;
    }
    if !x.free(heap) || !y.free(heap) {
        return false;
    }
    heap.get_alloc_count() == 0
}

/// Four interleaved vectors, holding `i`, `i + 16`, `i + 32` and `i + 48`
/// at index `i`, grow round-robin; every vector's contents are checked
/// after each round. The check wants a heap of at least 128 bytes with
/// nothing allocated, and reports failure at once otherwise; on such a heap
/// every expectation holds.
pub fn quad_alloc_check(heap: &mut Allocator) -> (r: bool)
    requires
        old(heap).wf(),
    ensures
        final(heap).wf(),
        final(heap).start() == old(heap).start(),
        final(heap).end() == old(heap).end(),
        r <==> (allocated_total(old(heap).regions()) == 0 && old(heap).end() - old(heap).start()
            >= 128),
        r ==> allocated_total(final(heap).regions()) == 0,
{
    proof {
        heap.lemma_wf_ledger();
    }
    if heap.get_alloc_count() != 0 || heap.heap_end() - heap.heap_start() < 128 {
        return false;
    }
    let ghost s = heap.start();
    let ghost e = heap.end();
    let ghost q0 = seq![
        Region { flag: AllocFlags::Free, start: s, end: e },
    ];
    let ghost q1 = seq![
        Region { flag: AllocFlags::Allocated, start: s, end: s + 8 },
        Region { flag: AllocFlags::Free, start: s + 8, end: e },
    ];
    let ghost q2 = seq![
        Region { flag: AllocFlags::Allocated, start: s, end: s + 8 },
        Region { flag: AllocFlags::Allocated, start: s + 8, end: s + 16 },
        Region { flag: AllocFlags::Free, start: s + 16, end: e },
    ];
    let ghost q3 = seq![
        Region { flag: AllocFlags::Allocated, start: s, end: s + 8 },
        Region { flag: AllocFlags::Allocated, start: s + 8, end: s + 16 },
        Region { flag: AllocFlags::Allocated, start: s + 16, end: s + 24 },
        Region { flag: AllocFlags::Free, start: s + 24, end: e },
    ];
    let ghost q4 = seq![
        Region { flag: AllocFlags::Allocated, start: s, end: s + 8 },
        Region { flag: AllocFlags::Allocated, start: s + 8, end: s + 16 },
        Region { flag: AllocFlags::Allocated, start: s + 16, end: s + 24 },
        Region { flag: AllocFlags::Allocated, start: s + 24, end: s + 32 },
        Region { flag: AllocFlags::Free, start: s + 32, end: e },
    ];
    let ghost m4 = seq![
        Region { flag: AllocFlags::Free, start: s, end: s + 8 },
        Region { flag: AllocFlags::Allocated, start: s + 8, end: s + 16 },
        Region { flag: AllocFlags::Allocated, start: s + 16, end: s + 24 },
        Region { flag: AllocFlags::Allocated, start: s + 24, end: s + 32 },
        Region { flag: AllocFlags::Free, start: s + 32, end: e },
    ];
    let ghost q5 = seq![
        Region { flag: AllocFlags::Free, start: s, end: s + 8 },
        Region { flag: AllocFlags::Allocated, start: s + 8, end: s + 16 },
        Region { flag: AllocFlags::Allocated, start: s + 16, end: s + 24 },
        Region { flag: AllocFlags::Allocated, start: s + 24, end: s + 32 },
        Region { flag: AllocFlags::Allocated, start: s + 32, end: s + 48 },
        Region { flag: AllocFlags::Free, start: s + 48, end: e },
    ];
    let ghost m5 = seq![
        Region { flag: AllocFlags::Free, start: s, end: s + 16 },
        Region { flag: AllocFlags::Allocated, start: s + 16, end: s + 24 },
        Region { flag: AllocFlags::Allocated, start: s + 24, end: s + 32 },
        Region { flag: AllocFlags::Allocated, start: s + 32, end: s + 48 },
        Region { flag: AllocFlags::Free, start: s + 48, end: e },
    ];
    let ghost q6 = seq![
        Region { flag: AllocFlags::Allocated, start: s, end: s + 16 },
        Region { flag: AllocFlags::Allocated, start: s + 16, end: s + 24 },
        Region { flag: AllocFlags::Allocated, start: s + 24, end: s + 32 },
        Region { flag: AllocFlags::Allocated, start: s + 32, end: s + 48 },
        Region { flag: AllocFlags::Free, start: s + 48, end: e },
    ];
    let ghost m6 = seq![
        Region { flag: AllocFlags::Allocated, start: s, end: s + 16 },
        Region { flag: AllocFlags::Free, start: s + 16, end: s + 24 },
        Region { flag: AllocFlags::Allocated, start: s + 24, end: s + 32 },
        Region { flag: AllocFlags::Allocated, start: s + 32, end: s + 48 },
        Region { flag: AllocFlags::Free, start: s + 48, end: e },
    ];
    let ghost q7 = seq![
        Region { flag: AllocFlags::Allocated, start: s, end: s + 16 },
        Region { flag: AllocFlags::Free, start: s + 16, end: s + 24 },
        Region { flag: AllocFlags::Allocated, start: s + 24, end: s + 32 },
        Region { flag: AllocFlags::Allocated, start: s + 32, end: s + 48 },
        Region { flag: AllocFlags::Allocated, start: s + 48, end: s + 64 },
        Region { flag: AllocFlags::Free, start: s + 64, end: e },
    ];
    let ghost m7 = seq![
        Region { flag: AllocFlags::Allocated, start: s, end: s + 16 },
        Region { flag: AllocFlags::Free, start: s + 16, end: s + 32 },
        Region { flag: AllocFlags::Allocated, start: s + 32, end: s + 48 },
        Region { flag: AllocFlags::Allocated, start: s + 48, end: s + 64 },
        Region { flag: AllocFlags::Free, start: s + 64, end: e },
    ];
    let ghost q8 = seq![
        Region { flag: AllocFlags::Allocated, start: s, end: s + 16 },
        Region { flag: AllocFlags::Allocated, start: s + 16, end: s + 32 },
        Region { flag: AllocFlags::Allocated, start: s + 32, end: s + 48 },
        Region { flag: AllocFlags::Allocated, start: s + 48, end: s + 64 },
        Region { flag: AllocFlags::Free, start: s + 64, end: e },
    ];
    proof {
        lemma_nothing_allocated(heap.regions(), s, e);
        assert(heap.regions() =~= q0);
    }
    let mut a = HeapVec::new();
    let mut b = HeapVec::new();
    let mut c = HeapVec::new();
    let mut d = HeapVec::new();
    proof {
        a.lemma_empty(heap);
        assert(fits(q0[0], 8));
        assert(is_first_fit(q0, 8, 0));
        assert(after_alloc(q0, 0, 8) =~= q1);
    }
    if !a.push(heap, 0) {
        return false;
    }
    proof {
        assert(heap.regions() =~= q1);
        assert(a.ptr_spec() == s);
        assert(a.view_in(heap) =~= counted(1, 0, false));
    }
    proof {
        b.lemma_empty(heap);
        assert(fits(q1[1], 8));
        assert(is_first_fit(q1, 8, 1));
        assert(after_alloc(q1, 1, 8) =~= q2);
    }
    if !b.push(heap, 16) {
        return false;
    }
    proof {
        assert(heap.regions() =~= q2);
        assert(b.ptr_spec() == s + 8);
        assert(b.view_in(heap) =~= counted(1, 16, false));
    }
    proof {
        c.lemma_empty(heap);
        assert(fits(q2[2], 8));
        assert(is_first_fit(q2, 8, 2));
        assert(after_alloc(q2, 2, 8) =~= q3);
    }
    if !c.push(heap, 32) {
        return false;
    }
    proof {
        assert(heap.regions() =~= q3);
        assert(c.ptr_spec() == s + 16);
        assert(c.view_in(heap) =~= counted(1, 32, false));
    }
    proof {
        d.lemma_empty(heap);
        assert(fits(q3[3], 8));
        assert(is_first_fit(q3, 8, 3));
        assert(after_alloc(q3, 3, 8) =~= q4);
    }
    if !d.push(heap, 48) {
        return false;
    }
    proof {
        assert(heap.regions() =~= q4);
        assert(d.ptr_spec() == s + 24);
        assert(d.view_in(heap) =~= counted(1, 48, false));
    }
    if heap.get_alloc_count() != 32 {
        return false;
    }
    let mut i: u8 = 1;
    if !holds(&a, heap, 1, 0, false) || !holds(&b, heap, 1, 16, false) || !holds(
        &c,
        heap,
        1,
        32,
        false,
    ) || !holds(&d, heap, 1, 48, false) {
        return false;
    }
    while i < 8
        invariant
            heap.wf(),
            heap.start() == s,
            heap.end() == e,
            old(heap).start() == s,
            old(heap).end() == e,
            e - s >= 128,
            allocated_total(old(heap).regions()) == 0,
            1 <= i <= 8,
            heap.regions() == q4,
            a.inv(heap),
            a.len_spec() == i,
            a.cap_spec() == 8,
            a.ptr_spec() == s,
            a.view_in(heap) == counted(i as int, 0, false),
            b.inv(heap),
            b.len_spec() == i,
            b.cap_spec() == 8,
            b.ptr_spec() == s + 8,
            b.view_in(heap) == counted(i as int, 16, false),
            c.inv(heap),
            c.len_spec() == i,
            c.cap_spec() == 8,
            c.ptr_spec() == s + 16,
            c.view_in(heap) == counted(i as int, 32, false),
            d.inv(heap),
            d.len_spec() == i,
            d.cap_spec() == 8,
            d.ptr_spec() == s + 24,
            d.view_in(heap) == counted(i as int, 48, false),
            allocated_total(heap.regions()) == 32,
        decreases 8 - i,
    {
        if !push_within(&mut a, heap, i, 0, false) || !push_within(&mut b, heap, i, 16, false)
            || !push_within(&mut c, heap, i, 32, false) || !push_within(&mut d, heap, i, 48, false) {
            return false;
        }
        i = i + 1;
        if !holds(&a, heap, i, 0, false) || !holds(&b, heap, i, 16, false) || !holds(
            &c,
            heap,
            i,
            32,
            false,
        ) || !holds(&d, heap, i, 48, false) {
            return false;
        }
    }
    let ghost old_ptr_a = a.ptr_spec();
    let ghost old_ptr_b = b.ptr_spec();
    let ghost old_ptr_c = c.ptr_spec();
    let ghost old_ptr_d = d.ptr_spec();
    proof {
        assert(is_allocation(q4, a.ptr_spec(), 0));
        assert(after_free(q4, 0) =~= m4);
        assert(fits(m4[4], 16));
        assert(has_fit(m4, 16));
        assert forall|k: int| #[trigger] is_allocation(heap.regions(), a.ptr_spec(), k) implies has_fit(
            after_free(heap.regions(), k),
            2 * a.cap_spec() as int,
        ) by {
            assert(k == 0);
        }
    }
    if !a.push(heap, 0 + 8) {
        return false;
    }
    proof {
        assert(is_allocation(q4, old_ptr_a, 0));
        let k2 = choose|k2: int|
            {
                &&& is_first_fit(m4, 16, k2)
                &&& a.ptr_spec() == m4[k2].start
                &&& heap.regions() == after_alloc(m4, k2, 16)
            };
        assert(k2 == 4);
        assert(heap.regions() =~= q5);
        assert(a.view_in(heap) =~= counted(9, 0, false));
    }
    proof {
        assert(is_allocation(q5, b.ptr_spec(), 1));
        assert(after_free(q5, 1) =~= m5);
        assert(fits(m5[0], 16));
        assert(has_fit(m5, 16));
        assert forall|k: int| #[trigger] is_allocation(heap.regions(), b.ptr_spec(), k) implies has_fit(
            after_free(heap.regions(), k),
            2 * b.cap_spec() as int,
        ) by {
            assert(k == 1);
        }
    }
    if !b.push(heap, 16 + 8) {
        return false;
    }
    proof {
        assert(is_allocation(q5, old_ptr_b, 1));
        let k2 = choose|k2: int|
            {
                &&& is_first_fit(m5, 16, k2)
                &&& b.ptr_spec() == m5[k2].start
                &&& heap.regions() == after_alloc(m5, k2, 16)
            };
        assert(k2 == 0);
        assert(heap.regions() =~= q6);
        assert(b.view_in(heap) =~= counted(9, 16, false));
    }
    proof {
        assert(is_allocation(q6, c.ptr_spec(), 1));
        assert(after_free(q6, 1) =~= m6);
        assert(fits(m6[4], 16));
        assert(has_fit(m6, 16));
        assert forall|k: int| #[trigger] is_allocation(heap.regions(), c.ptr_spec(), k) implies has_fit(
            after_free(heap.regions(), k),
            2 * c.cap_spec() as int,
        ) by {
            assert(k == 1);
        }
    }
    if !c.push(heap, 32 + 8) {
        return false;
    }
    proof {
        assert(is_allocation(q6, old_ptr_c, 1));
        let k2 = choose|k2: int|
            {
                &&& is_first_fit(m6, 16, k2)
                &&& c.ptr_spec() == m6[k2].start
                &&& heap.regions() == after_alloc(m6, k2, 16)
            };
        assert(k2 == 4);
        assert(heap.regions() =~= q7);
        assert(c.view_in(heap) =~= counted(9, 32, false));
    }
    proof {
        assert(is_allocation(q7, d.ptr_spec(), 2));
        assert(after_free(q7, 2) =~= m7);
        assert(fits(m7[1], 16));
        assert(has_fit(m7, 16));
        assert forall|k: int| #[trigger] is_allocation(heap.regions(), d.ptr_spec(), k) implies has_fit(
            after_free(heap.regions(), k),
            2 * d.cap_spec() as int,
        ) by {
            assert(k == 2);
        }
    }
    if !d.push(heap, 48 + 8) {
        return false;
    }
    proof {
        assert(is_allocation(q7, old_ptr_d, 2));
        let k2 = choose|k2: int|
            {
                &&& is_first_fit(m7, 16, k2)
                &&& d.ptr_spec() == m7[k2].start
                &&& heap.regions() == after_alloc(m7, k2, 16)
            };
        assert(k2 == 1);
        assert(heap.regions() =~= q8);
        assert(d.view_in(heap) =~= counted(9, 48, false));
    }
    if heap.get_alloc_count() != 64 {
        return false;
    }
    let mut i: u8 = 9;
    if !holds(&a, heap, 9, 0, false) || !holds(&b, heap, 9, 16, false) || !holds(
        &c,
        heap,
        9,
        32,
        false,
    ) || !holds(&d, heap, 9, 48, false) {
        return false;
    }
    while i < 16
        invariant
            heap.wf(),
            heap.start() == s,
            heap.end() == e,
            old(heap).start() == s,
            old(heap).end() == e,
            e - s >= 128,
            allocated_total(old(heap).regions()) == 0,
            9 <= i <= 16,
            heap.regions() == q8,
            a.inv(heap),
            a.len_spec() == i,
            a.cap_spec() == 16,
            a.ptr_spec() == s + 32,
            a.view_in(heap) == counted(i as int, 0, false),
            b.inv(heap),
            b.len_spec() == i,
            b.cap_spec() == 16,
            b.ptr_spec() == s,
            b.view_in(heap) == counted(i as int, 16, false),
            c.inv(heap),
            c.len_spec() == i,
            c.cap_spec() == 16,
            c.ptr_spec() == s + 48,
            c.view_in(heap) == counted(i as int, 32, false),
            d.inv(heap),
            d.len_spec() == i,
            d.cap_spec() == 16,
            d.ptr_spec() == s + 16,
            d.view_in(heap) == counted(i as int, 48, false),
            allocated_total(heap.regions()) == 64,
        decreases 16 - i,
    {
        if !push_within(&mut a, heap, i, 0, false) || !push_within(&mut b, heap, i, 16, false)
            || !push_within(&mut c, heap, i, 32, false) || !push_within(&mut d, heap, i, 48, false) {
            return false;
        }
        i = i + 1;
        if !holds(&a, heap, i, 0, false) || !holds(&b, heap, i, 16, false) || !holds(
            &c,
            heap,
            i,
            32,
            false,
        ) || !holds(&d, heap, i, 48, false) {
            return false;
        }
    }
    if !a.free(heap) || !b.free(heap) || !c.free(heap) || !d.free(heap) {
        return false;
    }
    heap.get_alloc_count() == 0
}

/// The `j`-th byte of a vector holding the two-byte values `0, 1, 2, ...`,
/// low byte first.
pub open spec fn counting_byte(j: int) -> u8 {
    if j % 2 == 0 {
        ((j / 2) % 256) as u8
    } else {
        ((j / 2) / 256) as u8
    }
}

/// The capacities a vector passes through on its way to 2048 bytes.
pub open spec fn doubling_capacity(cap: int) -> bool {
    cap == 0 || cap == 8 || cap == 16 || cap == 32 || cap == 64 || cap == 128 || cap == 256 || cap
        == 512 || cap == 1024 || cap == 2048
}

/// One vector grows to a thousand two-byte values, `i` at index `i` (low
/// byte first). The check wants a heap of at least 2048 bytes with nothing
/// allocated, and reports failure at once otherwise; on such a heap every
/// expectation holds.
pub fn large_alloc_check(heap: &mut Allocator) -> (r: bool)
    requires
        old(heap).wf(),
    ensures
        final(heap).wf(),
        final(heap).start() == old(heap).start(),
        final(heap).end() == old(heap).end(),
        r <==> (allocated_total(old(heap).regions()) == 0 && old(heap).end() - old(heap).start()
            >= 2048),
        r ==> allocated_total(final(heap).regions()) == 0,
{
    proof {
        heap.lemma_wf_ledger();
    }
    if heap.get_alloc_count() != 0 || heap.heap_end() - heap.heap_start() < 2048 {
        return false;
    }
    let ghost s = heap.start();
    let ghost e = heap.end();
    proof {
        lemma_nothing_allocated(heap.regions(), s, e);
        assert(heap.regions() =~= sole_layout(s, e, 0));
    }
    let mut x = HeapVec::new();
    proof {
        x.lemma_empty(heap);
        assert(x.view_in(heap) =~= Seq::new(0 as nat, |j: int| counting_byte(j)));
    }
    let mut i: usize = 0;
    while i < 1000
        invariant
            heap.wf(),
            heap.start() == s,
            heap.end() == e,
            old(heap).start() == s,
            old(heap).end() == e,
            e - s >= 2048,
            allocated_total(old(heap).regions()) == 0,
            i <= 1000,
            x.inv(heap),
            x.len_spec() == 2 * i,
            doubling_capacity(x.cap_spec() as int),
            x.cap_spec() > 0 ==> x.ptr_spec() == s,
            heap.regions() == sole_layout(s, e, x.cap_spec() as int),
            x.view_in(heap) == Seq::new((2 * i) as nat, |j: int| counting_byte(j)),
        decreases 1000 - i,
    {
        proof {
            x.lemma_len_within(heap);
        }
        if !push_sole(&mut x, heap, (i % 256) as u8) {
            return false;
        }
        proof {
            x.lemma_len_within(heap);
        }
        if !push_sole(&mut x, heap, (i / 256) as u8) {
            return false;
        }
        proof {
            assert(x.view_in(heap) =~= Seq::new((2 * i + 2) as nat, |j: int| counting_byte(j)));
        }
        i = i + 1;
    }
    let mut i: usize = 0;
    while i < 1000
        invariant
            heap.wf(),
            heap.start() == s,
            heap.end() == e,
            old(heap).start() == s,
            old(heap).end() == e,
            e - s >= 2048,
            allocated_total(old(heap).regions()) == 0,
            i <= 1000,
            x.inv(heap),
            x.len_spec() == 2000,
            doubling_capacity(x.cap_spec() as int),
            x.cap_spec() > 0 ==> x.ptr_spec() == s,
            heap.regions() == sole_layout(s, e, x.cap_spec() as int),
            x.view_in(heap) == Seq::new(2000, |j: int| counting_byte(j)),
        decreases 1000 - i,
    {
        match (x.get(heap, 2 * i), x.get(heap, 2 * i + 1)) {
            (Some(lo), Some(hi)) => {
                assert(lo == counting_byte(2 * i));
                assert(hi == counting_byte(2 * i + 1));
                if hi as usize * 256 + lo as usize != i {
                    return false;
                }
            },
            _ => {
                return false;
            },
        }
        i = i + 1;
    }
    let ghost cap = x.cap_spec() as int;
    if !x.free(heap) {
        return false;
    }
    proof {
        assert(allocated_total(sole_layout(s, e, cap)) == cap) by {
            reveal_with_fuel(allocated_total, 3);
        }
    }
    heap.get_alloc_count() == 0
}

} // verus!
