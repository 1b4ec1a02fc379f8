//! A growable byte vector whose storage is allocated from an `Allocator`'s
//! heap, growing as the standard vector does: eight bytes at first, then
//! twice its capacity, by reallocation.
use vstd::prelude::*;
use crate::allocator::Allocator;
use crate::ledger::{
    allocated_total, fits, is_allocation, is_first_fit, lemma_disjoint, lemma_allocated_region, lemma_allocation_unique, lemma_region_bounds,
    after_alloc, after_free, has_fit,
};

verus! {

/// The capacity of the first allocation.
pub const MIN_CAPACITY: usize = 8;

/// A byte vector stored in the heap of an `Allocator`.
pub struct HeapVec {
    ptr: usize,
    len: usize,
    cap: usize,
}

impl HeapVec {
    /// The number of bytes held.
    pub closed spec fn len_spec(&self) -> nat {
        self.len as nat
    }

    /// The number of bytes its storage holds.
    pub closed spec fn cap_spec(&self) -> nat {
        self.cap as nat
    }

    /// Where the storage starts.
    pub closed spec fn ptr_spec(&self) -> int {
        self.ptr as int
    }

    /// The vector's storage is an allocated region of `heap` of exactly its
    /// capacity (when it has any) that holds its length.
    pub closed spec fn inv(&self, heap: &Allocator) -> bool {
        &&& self.len <= self.cap
        &&& self.cap > 0 ==> exists|k: int|
            is_allocation(heap.regions(), self.ptr as int, k) && #[trigger] heap.regions()[k].size()
                == self.cap
    }

    /// The bytes held, as they stand in `heap`.
    pub closed spec fn view_in(&self, heap: &Allocator) -> Seq<u8> {
        Seq::new(self.len as nat, |i: int| heap.bytes()[self.ptr - heap.start() + i])
    }

    /// A vector's length is within its capacity.
    pub proof fn lemma_len_within(&self, heap: &Allocator)
        requires
            self.inv(heap),
        ensures
            self.len_spec() <= self.cap_spec(),
    {
    }

    /// An empty vector without storage is well formed against any heap, and
    /// holds nothing.
    pub proof fn lemma_empty(&self, heap: &Allocator)
        requires
            self.len_spec() == 0,
            self.cap_spec() == 0,
        ensures
            self.inv(heap),
            self.view_in(heap) == Seq::<u8>::empty(),
    {
        assert(self.view_in(heap) =~= Seq::<u8>::empty());
    }

    /// An empty vector, with no storage.
    pub fn new() -> (r: HeapVec)
        ensures
            r.len_spec() == 0,
            r.cap_spec() == 0,
    {
        HeapVec { ptr: 0, len: 0, cap: 0 }
    }

    /// The number of bytes held.
    pub fn len(&self) -> (r: usize)
        ensures
            r == self.len_spec(),
    {
        self.len
    }

    /// Checks the vector's invariant against `heap`.
    pub fn check(&self, heap: &Allocator) -> (r: bool)
        requires
            heap.wf(),
        ensures
            r == self.inv(heap),
    {
        if self.len > self.cap {
            return false;
        }
        if self.cap == 0 {
            return true;
        }
        match heap.get_ptr_alloc(self.ptr) {
            None => false,
            Some(h) => {
                proof {
                    let k = choose|k: int|
                        is_allocation(heap.regions(), self.ptr as int, k) && heap.handle(k) == h;
                    heap.lemma_wf_ledger();
                    assert forall|j: int|
                        is_allocation(heap.regions(), self.ptr as int, j) implies j == k by {
                        lemma_allocation_unique(
                            heap.regions(),
                            heap.start(),
                            heap.end(),
                            self.ptr as int,
                            k,
                            j,
                        );
                    }
                    assert(0 <= k < heap.regions().len() && heap.handle(k) == h);
                }
                let a = heap.node(h);
                proof {
                    let k = choose|k: int|
                        is_allocation(heap.regions(), self.ptr as int, k) && heap.handle(k) == h;
                    assert(a == heap.descriptor(k));
                }
                a.get_size(heap) == self.cap
            },
        }
    }

    /// The `i`-th byte, or `None` when `i` is not below the length.
    pub fn get(&self, heap: &Allocator, i: usize) -> (r: Option<u8>)
        requires
            heap.wf(),
            self.inv(heap),
        ensures
            r == if i < self.len_spec() {
                Some(self.view_in(heap)[i as int])
            } else {
                None::<u8>
            },
    {
        if i >= self.len {
            return None;
        }
        proof {
            self.lemma_in_heap(heap);
            heap.lemma_wf_ledger();
        }
        Some(heap.get_value(self.ptr + i))
    }

    /// The storage lies inside the heap.
    proof fn lemma_in_heap(&self, heap: &Allocator)
        requires
            heap.wf(),
            self.inv(heap),
            self.cap > 0,
        ensures
            heap.start() <= self.ptr,
            self.ptr + self.cap <= heap.end(),
    {
        let k = choose|k: int|
            is_allocation(heap.regions(), self.ptr as int, k) && #[trigger] heap.regions()[k].size()
                == self.cap;
        heap.lemma_wf_ledger();
        lemma_region_bounds(heap.regions(), heap.start(), heap.end(), k);
        assert(heap.regions()[k].start == self.ptr);
    }

    /// A vector whose storage region survives from `h0` into `h1`, at
    /// index `j1`, with its bytes unchanged, keeps its invariant and its
    /// contents.
    proof fn lemma_kept(&self, h0: &Allocator, h1: &Allocator, j1: int)
        requires
            self.inv(h0),
            self.cap > 0,
            h0.start() == h1.start(),
            is_allocation(h1.regions(), self.ptr as int, j1),
            h1.regions()[j1].size() == self.cap,
            forall|i: int|
                self.ptr - h0.start() <= i < self.ptr - h0.start() + self.cap ==> #[trigger] h1.bytes()[i]
                    == h0.bytes()[i],
        ensures
            self.inv(h1),
            self.view_in(h1) == self.view_in(h0),
    {
        assert(self.view_in(h1) =~= self.view_in(h0));
    }

    /// Pushing onto `new` (formerly `old`) moved the heap from `h0` through
    /// growth (`mode` 0: none, 1: a first allocation, 2: a reallocation) to
    /// `hg`, then wrote one byte into the new storage to give `hf`: every
    /// other vector keeps its storage and contents.
    proof fn lemma_frame(
        &self,
        old: HeapVec,
        h0: Allocator,
        hg: Allocator,
        hf: Allocator,
        old_k: int,
        new_k: int,
        mode: int,
    )
        requires
            h0.wf(),
            hg.wf(),
            hf.wf(),
            old.inv(&h0),
            self.inv(&hf),
            old.len < self.cap,
            self.len == old.len + 1,
            h0.start() == hg.start() && hg.start() == hf.start(),
            hg.end() == h0.end(),
            hf.regions() == hg.regions(),
            hf.bytes() == hg.bytes().update(self.ptr - hg.start() + old.len, hf.bytes()[self.ptr
                - hg.start() + old.len]),
            0 <= new_k < hg.regions().len(),
            is_allocation(hg.regions(), self.ptr as int, new_k),
            hg.regions()[new_k].size() == self.cap,
            old.cap > 0 ==> is_allocation(h0.regions(), old.ptr as int, old_k) && h0.regions()[old_k].size()
                == old.cap,
            mode == 0 ==> old.cap > 0 && hg == h0 && new_k == old_k && self.ptr == old.ptr,
            mode == 1 ==> old.cap == 0 && hg.bytes() == h0.bytes() && hg.regions() == after_alloc(
                h0.regions(),
                new_k,
                self.cap as int,
            ) && 0 <= new_k < h0.regions().len() && fits(h0.regions()[new_k], self.cap as int)
                && self.ptr == h0.regions()[new_k].start,
            mode == 2 ==> old.cap > 0 && hg.bytes() == crate::allocator::relocated(
                h0.bytes(),
                old.ptr - h0.start(),
                self.ptr - h0.start(),
                old.cap as int,
                self.cap as int,
            ) && hg.regions() == after_alloc(
                after_free(h0.regions(), old_k),
                new_k,
                self.cap as int,
            ) && 0 <= new_k < after_free(h0.regions(), old_k).len() && fits(
                after_free(h0.regions(), old_k)[new_k],
                self.cap as int,
            ) && self.ptr
                == after_free(h0.regions(), old_k)[new_k].start,
            mode == 0 || mode == 1 || mode == 2,
        ensures
            forall|w: HeapVec|
                #[trigger] w.inv(&h0) && w.cap_spec() > 0 && (old.cap_spec() == 0 || w.ptr_spec()
                    != old.ptr_spec()) ==> w.inv(&hf) && w.view_in(&hf) == w.view_in(&h0),
    {
        let rs0 = h0.regions();
        let s = h0.start();
        h0.lemma_wf_ledger();
        hg.lemma_wf_ledger();
        lemma_region_bounds(hg.regions(), s, hg.end(), new_k);
        assert forall|w: HeapVec|
            #[trigger] w.inv(&h0) && w.cap_spec() > 0 && (old.cap_spec() == 0 || w.ptr_spec()
                != old.ptr_spec()) implies w.inv(&hf) && w.view_in(&hf) == w.view_in(&h0) by {
            let j = choose|j: int| is_allocation(rs0, w.ptr as int, j) && #[trigger] rs0[j].size() == w.cap;
            if old.cap > 0 {
                assert(j != old_k);
                lemma_disjoint(rs0, s, h0.end(), j, old_k);
            }
            let jg: int = if mode == 0 {
                j
            } else if mode == 1 {
                lemma_disjoint(rs0, s, h0.end(), j, new_k);
                crate::ledger::lemma_alloc_keeps(rs0, new_k, self.cap as int, j);
                choose|j2: int| 0 <= j2 < hg.regions().len() && #[trigger] hg.regions()[j2] == rs0[j]
            } else {
                let mid = after_free(rs0, old_k);
                crate::ledger::lemma_after_free(rs0, s, h0.end(), old_k);
                crate::ledger::lemma_free_keeps(rs0, s, h0.end(), old_k, j);
                let jm = choose|jm: int| 0 <= jm < mid.len() && #[trigger] mid[jm] == rs0[j];
                lemma_disjoint(mid, s, h0.end(), jm, new_k);
                crate::ledger::lemma_alloc_keeps(mid, new_k, self.cap as int, jm);
                choose|j2: int| 0 <= j2 < hg.regions().len() && #[trigger] hg.regions()[j2] == mid[jm]
            };
            assert(hg.regions()[jg] == rs0[j]);
            assert(jg != new_k);
            lemma_disjoint(hg.regions(), s, hg.end(), jg, new_k);
            lemma_region_bounds(hg.regions(), s, hg.end(), jg);
            lemma_region_bounds(rs0, s, h0.end(), j);
            hf.lemma_wf_ledger();
            assert forall|i: int|
                w.ptr - s <= i < w.ptr - s + w.cap implies #[trigger] hf.bytes()[i] == h0.bytes()[i] by {
                assert(hf.bytes()[i] == hg.bytes()[i]);
                assert(hg.bytes()[i] == h0.bytes()[i]);
            }
            w.lemma_kept(&h0, &hf, jg);
        }
    }

    /// Appends `v`, first growing the storage when it is full: eight bytes
    /// are allocated when there is none, and it is reallocated to twice its
    /// capacity otherwise. Returns `false`, leaving the vector empty, when
    /// the vector's invariant does not hold against `heap` or the heap has
    /// no room.
    pub fn push(&mut self, heap: &mut Allocator, v: u8) -> (r: bool)
        requires
            old(heap).wf(),
        ensures
            final(heap).wf(),
            final(heap).start() == old(heap).start(),
            final(heap).end() == old(heap).end(),
            r ==> old(self).inv(old(heap)),
            r ==> final(self).inv(final(heap)),
            r ==> final(self).view_in(final(heap)) == old(self).view_in(old(heap)).push(v),
            r ==> final(self).len_spec() == old(self).len_spec() + 1,
            r ==> allocated_total(final(heap).regions()) == allocated_total(old(heap).regions())
                + final(self).cap_spec() - old(self).cap_spec(),
            old(self).inv(old(heap)) && old(self).len_spec() < old(self).cap_spec() ==> r
                && final(heap).regions() == old(heap).regions() && final(self).cap_spec() == old(
                self,
            ).cap_spec() && final(self).ptr_spec() == old(self).ptr_spec(),
            old(self).inv(old(heap)) && old(self).cap_spec() == 0 ==> (r <==> has_fit(
                old(heap).regions(),
                MIN_CAPACITY as int,
            )),
            old(self).inv(old(heap)) && old(self).cap_spec() == 0 && r ==> final(self).cap_spec()
                == MIN_CAPACITY && exists|k: int|
                {
                    &&& is_first_fit(old(heap).regions(), MIN_CAPACITY as int, k)
                    &&& final(self).ptr_spec() == old(heap).regions()[k].start
                    &&& final(heap).regions() == after_alloc(
                        old(heap).regions(),
                        k,
                        MIN_CAPACITY as int,
                    )
                },
            old(self).inv(old(heap)) && 0 < old(self).len_spec() == old(self).cap_spec() && r
                ==> final(self).cap_spec() == 2 * old(self).cap_spec() && forall|k: int| #[trigger]
                is_allocation(old(heap).regions(), old(self).ptr_spec(), k) ==> exists|k2: int|
                {
                    &&& is_first_fit(
                        after_free(old(heap).regions(), k),
                        2 * old(self).cap_spec() as int,
                        k2,
                    )
                    &&& final(self).ptr_spec() == after_free(old(heap).regions(), k)[k2].start
                    &&& final(heap).regions() == after_alloc(
                        after_free(old(heap).regions(), k),
                        k2,
                        2 * old(self).cap_spec() as int,
                    )
                },
            forall|w: HeapVec|
                r && #[trigger] w.inv(old(heap)) && w.cap_spec() > 0 && (old(self).cap_spec() == 0
                    || w.ptr_spec() != old(self).ptr_spec()) ==> w.inv(final(heap)) && w.view_in(
                    final(heap),
                ) == w.view_in(old(heap)),
            old(self).inv(old(heap)) && 0 < old(self).len_spec() == old(self).cap_spec() ==> (r
                <==> (2 * old(self).cap_spec() <= usize::MAX && forall|k: int| #[trigger]
                is_allocation(old(heap).regions(), old(self).ptr_spec(), k) ==> has_fit(
                after_free(old(heap).regions(), k),
                2 * old(self).cap_spec() as int,
            ))),
    {
        if !self.check(heap) {
            self.len = 0;
            self.cap = 0;
            return false;
        }
        let ghost old_heap = *heap;
        let ghost old_view = self.view_in(heap);
        let ghost rs0 = heap.regions();
        let ghost old_k: int = if self.cap > 0 {
            choose|k: int| is_allocation(rs0, self.ptr as int, k) && #[trigger] rs0[k].size() == self.cap
        } else {
            -1
        };
        let ghost mut new_k: int = old_k;
        let ghost mut mode: int = 0;
        proof {
            if self.cap > 0 {
                self.lemma_in_heap(heap);
            }
            heap.lemma_wf_ledger();
        }
        if self.len == self.cap {
            if self.cap == 0 {
                let ghost rs = heap.regions();
                match heap.allocate(MIN_CAPACITY) {
                    None => {
                        return false;
                    },
                    Some(p) => {
                        self.ptr = p;
                        proof {
                            let k = choose|k: int|
                                {
                                    &&& is_first_fit(rs, MIN_CAPACITY as int, k)
                                    &&& p == rs[k].start
                                    &&& heap.regions() == after_alloc(rs, k, MIN_CAPACITY as int)
                                };
                            lemma_allocated_region(rs, k, MIN_CAPACITY as int);
                            new_k = k;
                            mode = 1;
                            assert(heap.regions()[k].size() == MIN_CAPACITY);
                            assert(is_allocation(heap.regions(), self.ptr as int, k));
                        }
                    },
                }
            } else {
                if self.cap > usize::MAX / 2 {
                    self.len = 0;
                    self.cap = 0;
                    return false;
                }
                let new_cap = self.cap * 2;
                let ghost rs = heap.regions();
                let ghost k = choose|k: int|
                    is_allocation(rs, self.ptr as int, k) && #[trigger] rs[k].size() == self.cap;
                proof {
                    assert forall|j: int| #[trigger] is_allocation(rs, self.ptr as int, j) implies j
                        == k by {
                        lemma_allocation_unique(rs, heap.start(), heap.end(), self.ptr as int, k, j);
                    }
                }
                match heap.reallocate(self.ptr, self.cap, new_cap) {
                    None => {
                        proof {
                            assert(is_allocation(old(heap).regions(), old(self).ptr_spec(), k));
                            assert(!has_fit(after_free(rs, k), new_cap as int));
                        }
                        self.len = 0;
                        self.cap = 0;
                        return false;
                    },
                    Some(p) => {
                        self.ptr = p;
                        proof {
                            let mid = after_free(rs, k);
                            let k2 = choose|k2: int|
                                {
                                    &&& is_first_fit(mid, new_cap as int, k2)
                                    &&& p == mid[k2].start
                                    &&& heap.regions() == after_alloc(mid, k2, new_cap as int)
                                };
                            lemma_allocated_region(mid, k2, new_cap as int);
                            new_k = k2;
                            mode = 2;
                            assert(has_fit(mid, new_cap as int));
                            assert(heap.regions()[k2].size() == new_cap);
                            assert(is_allocation(heap.regions(), self.ptr as int, k2));
                            let s0 = old_heap.start();
                            assert(heap.bytes() == crate::allocator::relocated(
                                old_heap.bytes(),
                                old(self).ptr - s0,
                                p - s0,
                                old(self).cap as int,
                                new_cap as int,
                            ));
                            heap.lemma_wf_ledger();
                            lemma_region_bounds(heap.regions(), heap.start(), heap.end(), k2);
                            assert forall|i: int| 0 <= i < self.len implies #[trigger] heap.bytes()[p
                                - s0 + i] == old_heap.bytes()[old(self).ptr - s0 + i] by {}
                            assert(self.view_in(heap) =~= old_view);
                        }
                    },
                }
            }
            self.cap = if self.cap == 0 {
                MIN_CAPACITY
            } else {
                self.cap * 2
            };
        }
        let ghost grown = *heap;
        assert(self.len < self.cap);
        proof {
            self.lemma_in_heap(heap);
            heap.lemma_wf_ledger();
            assert(self.view_in(heap) =~= old_view);
        }
        heap.set_value(self.ptr + self.len, v);
        self.len = self.len + 1;
        proof {
            heap.lemma_wf_ledger();
            let off = self.ptr - heap.start();
            assert forall|i: int| 0 <= i < self.len - 1 implies #[trigger] heap.bytes()[off + i]
                == grown.bytes()[off + i] by {}
            assert(heap.bytes()[off + self.len - 1] == v);
            assert(self.view_in(heap) =~= old_view.push(v));
            self.lemma_frame(*old(self), old_heap, grown, *heap, old_k, new_k, mode);
        }
        true
    }

    /// Releases the storage back to `heap`. Returns `false`, leaving `heap`
    /// as it was, when the vector's invariant does not hold against it.
    pub fn free(self, heap: &mut Allocator) -> (r: bool)
        requires
            old(heap).wf(),
        ensures
            final(heap).wf(),
            final(heap).start() == old(heap).start(),
            final(heap).end() == old(heap).end(),
            r == self.inv(old(heap)),
            r ==> allocated_total(final(heap).regions()) == allocated_total(old(heap).regions())
                - self.cap_spec(),
            !r ==> final(heap).regions() == old(heap).regions(),
            forall|w: HeapVec|
                r && #[trigger] w.inv(old(heap)) && w.cap_spec() > 0 && (self.cap_spec() == 0
                    || w.ptr_spec() != self.ptr_spec()) ==> w.inv(final(heap)) && w.view_in(
                    final(heap),
                ) == w.view_in(old(heap)),
    {
        if !self.check(heap) {
            return false;
        }
        if self.cap > 0 {
            let ghost h0 = *heap;
            let ghost rs0 = heap.regions();
            let ghost k = choose|k: int|
                is_allocation(rs0, self.ptr as int, k) && #[trigger] rs0[k].size() == self.cap;
            proof {
                h0.lemma_wf_ledger();
                lemma_region_bounds(rs0, h0.start(), h0.end(), k);
            }
            heap.deallocate(self.ptr, self.cap);
            proof {
                let s = h0.start();
                crate::ledger::lemma_after_free(rs0, s, h0.end(), k);
                assert forall|w: HeapVec|
                    #[trigger] w.inv(&h0) && w.cap_spec() > 0 && w.ptr_spec() != self.ptr_spec()
                        implies w.inv(heap) && w.view_in(heap) == w.view_in(&h0) by {
                    let j = choose|j: int|
                        is_allocation(rs0, w.ptr as int, j) && #[trigger] rs0[j].size() == w.cap;
                    lemma_disjoint(rs0, s, h0.end(), j, k);
                    lemma_region_bounds(rs0, s, h0.end(), j);
                    crate::ledger::lemma_free_keeps(rs0, s, h0.end(), k, j);
                    let j2 = choose|j2: int|
                        0 <= j2 < heap.regions().len() && #[trigger] heap.regions()[j2] == rs0[j];
                    assert forall|i: int|
                        w.ptr - s <= i < w.ptr - s + w.cap implies #[trigger] heap.bytes()[i]
                            == h0.bytes()[i] by {}
                    w.lemma_kept(&h0, heap, j2);
                }
            }
        }
        true
    }
}

} // verus!
