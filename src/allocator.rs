//! The allocator engine: first-fit allocation over the ledger, with eager
//! coalescing on free, zero-on-free, and copying reallocation.
use vstd::prelude::*;
use crate::ledger::{
    after_alloc, after_free, allocated_total, fits, has_fit, is_allocation, is_first_fit, ledger_ok,
    lemma_after_alloc, lemma_after_free, lemma_allocation_unique, lemma_region_bounds,
    lemma_starts_increase,
    merge_hi, merge_lo, region_ok, seam_ok, Alloc, AllocFlags, Region,
};

verus! {

/// The model of the ledger held in `nodes` along the handles `order`
/// (the root sentinel first): region `i` is described by `order[i + 1]` and
/// ends where the next described region starts, or at `end`.
pub open spec fn view_of(nodes: Seq<Alloc>, order: Seq<usize>, end: int) -> Seq<Region> {
    Seq::new(
        (order.len() - 1) as nat,
        |i: int|
            Region {
                flag: nodes[order[i + 1] as int].flag,
                start: nodes[order[i + 1] as int].curr as int,
                end: if i + 2 < order.len() {
                    nodes[order[i + 2] as int].curr as int
                } else {
                    end
                },
            },
    )
}

/// Descriptor `b` describes the same place, with the same state, as `a`.
pub open spec fn same_place(a: Alloc, b: Alloc) -> bool {
    a.flag == b.flag && a.curr == b.curr
}

/// Splitting region `k` by linking a new descriptor in slot `slot` after it
/// yields the split ledger.
proof fn lemma_split_view(
    nodes: Seq<Alloc>,
    nn: Seq<Alloc>,
    order: Seq<usize>,
    k: int,
    slot: usize,
    end: int,
    n: int,
)
    requires
        order.len() >= 2,
        0 <= k < order.len() - 1,
        forall|i: int| 0 <= i < order.len() ==> (#[trigger] order[i] as int) < nodes.len(),
        forall|i: int, j: int| 0 <= i < j < order.len() ==> order[i] != order[j],
        !order.contains(slot),
        nodes.len() <= nn.len(),
        (slot as int) < nn.len(),
        forall|i: int|
            0 <= i < order.len() && i != k + 1 ==> same_place(
                #[trigger] nodes[order[i] as int],
                nn[order[i] as int],
            ),
        nn[order[k + 1] as int].flag == AllocFlags::Allocated,
        nn[order[k + 1] as int].curr == nodes[order[k + 1] as int].curr,
        nn[slot as int].flag == AllocFlags::Free,
        nn[slot as int].curr == nodes[order[k + 1] as int].curr + n,
        view_of(nodes, order, end)[k].size() != n,
    ensures
        view_of(nn, order.insert(k + 2, slot), end) == after_alloc(view_of(nodes, order, end), k, n),
{
    let rs = view_of(nodes, order, end);
    let no = order.insert(k + 2, slot);
    let got = view_of(nn, no, end);
    let want = after_alloc(rs, k, n);
    assert(got.len() == want.len());
    assert forall|i: int| 0 <= i < got.len() implies got[i] == want[i] by {
        if i < k {
            assert(same_place(nodes[order[i + 1] as int], nn[order[i + 1] as int]));
            if i + 2 < order.len() && i + 1 != k {
                assert(same_place(nodes[order[i + 2] as int], nn[order[i + 2] as int]));
            }
        } else if i == k {
        } else if i == k + 1 {
            if k + 2 < order.len() {
                assert(same_place(nodes[order[k + 2] as int], nn[order[k + 2] as int]));
            }
        } else {
            assert(same_place(nodes[order[i] as int], nn[order[i] as int]));
            if i + 1 < order.len() {
                assert(same_place(nodes[order[i + 1] as int], nn[order[i + 1] as int]));
            }
        }
    }
    assert(got =~= want);
}

/// Changing only the state of region `k`'s descriptor changes only that
/// region's state.
proof fn lemma_flag_view(
    nodes: Seq<Alloc>,
    nn: Seq<Alloc>,
    order: Seq<usize>,
    k: int,
    end: int,
    flag: AllocFlags,
)
    requires
        order.len() >= 2,
        0 <= k < order.len() - 1,
        forall|i: int| 0 <= i < order.len() ==> (#[trigger] order[i] as int) < nodes.len(),
        forall|i: int, j: int| 0 <= i < j < order.len() ==> order[i] != order[j],
        nodes.len() <= nn.len(),
        forall|i: int|
            0 <= i < order.len() && i != k + 1 ==> same_place(
                #[trigger] nodes[order[i] as int],
                nn[order[i] as int],
            ),
        nn[order[k + 1] as int].flag == flag,
        nn[order[k + 1] as int].curr == nodes[order[k + 1] as int].curr,
    ensures
        view_of(nn, order, end) == view_of(nodes, order, end).update(
            k,
            Region {
                flag,
                start: view_of(nodes, order, end)[k].start,
                end: view_of(nodes, order, end)[k].end,
            },
        ),
{
    let got = view_of(nn, order, end);
    let want = view_of(nodes, order, end).update(
        k,
        Region {
            flag,
            start: view_of(nodes, order, end)[k].start,
            end: view_of(nodes, order, end)[k].end,
        },
    );
    assert forall|i: int| 0 <= i < got.len() implies got[i] == want[i] by {
        if i != k {
            assert(same_place(nodes[order[i + 1] as int], nn[order[i + 1] as int]));
        }
        if i + 2 < order.len() && i + 1 != k {
            assert(same_place(nodes[order[i + 2] as int], nn[order[i + 2] as int]));
        }
    }
    assert(got =~= want);
}

/// Region `k` of `rs` extended over region `k + 1`, which disappears.
pub open spec fn absorb(rs: Seq<Region>, k: int) -> Seq<Region> {
    rs.take(k) + seq![Region { flag: rs[k].flag, start: rs[k].start, end: rs[k + 1].end }] + rs.skip(
        k + 2,
    )
}

/// Unlinking the descriptor at position `q` of `order` makes the region
/// before it absorb its region.
proof fn lemma_absorb_view(nodes: Seq<Alloc>, nn: Seq<Alloc>, order: Seq<usize>, q: int, end: int)
    requires
        2 <= q < order.len(),
        forall|i: int| 0 <= i < order.len() ==> (#[trigger] order[i] as int) < nodes.len(),
        forall|i: int, j: int| 0 <= i < j < order.len() ==> order[i] != order[j],
        nodes.len() <= nn.len(),
        forall|i: int|
            0 <= i < order.len() && i != q ==> same_place(
                #[trigger] nodes[order[i] as int],
                nn[order[i] as int],
            ),
    ensures
        view_of(nn, order.remove(q), end) == absorb(view_of(nodes, order, end), q - 2),
{
    let rs = view_of(nodes, order, end);
    let got = view_of(nn, order.remove(q), end);
    let want = absorb(rs, q - 2);
    assert(got.len() == want.len());
    assert forall|i: int| 0 <= i < got.len() implies got[i] == want[i] by {
        if i < q - 1 {
            assert(same_place(nodes[order[i + 1] as int], nn[order[i + 1] as int]));
            if i + 2 < q {
                assert(same_place(nodes[order[i + 2] as int], nn[order[i + 2] as int]));
            } else if q + 1 < order.len() {
                assert(same_place(nodes[order[q + 1] as int], nn[order[q + 1] as int]));
            }
        } else {
            assert(same_place(nodes[order[i + 2] as int], nn[order[i + 2] as int]));
            if i + 3 < order.len() {
                assert(same_place(nodes[order[i + 3] as int], nn[order[i + 3] as int]));
            }
        }
    }
    assert(got =~= want);
}

/// Marking region `k` free, then letting its free predecessor absorb it, then
/// letting the result absorb a free successor, coalesces as `after_free`.
proof fn lemma_free_steps(rs: Seq<Region>, k: int)
    requires
        0 <= k < rs.len(),
    ensures
        ({
            let rs1 = rs.update(k, Region { flag: AllocFlags::Free, start: rs[k].start, end: rs[k].end });
            let back = k > 0 && rs[k - 1].flag == AllocFlags::Free;
            let rs2 = if back { absorb(rs1, k - 1) } else { rs1 };
            let k2 = if back { k - 1 } else { k };
            let fwd = k2 + 1 < rs2.len() && rs2[k2 + 1].flag == AllocFlags::Free;
            let rs3 = if fwd { absorb(rs2, k2) } else { rs2 };
            &&& fwd == (k + 1 < rs.len() && rs[k + 1].flag == AllocFlags::Free)
            &&& rs3 == after_free(rs, k)
        }),
{
    let rs1 = rs.update(k, Region { flag: AllocFlags::Free, start: rs[k].start, end: rs[k].end });
    let back = k > 0 && rs[k - 1].flag == AllocFlags::Free;
    let rs2 = if back { absorb(rs1, k - 1) } else { rs1 };
    let k2 = if back { k - 1 } else { k };
    if back {
        assert(rs2.len() == rs.len() - 1);
        assert(forall|i: int| k2 < i < rs2.len() ==> rs2[i] == rs[i + 1]);
    }
    let fwd = k2 + 1 < rs2.len() && rs2[k2 + 1].flag == AllocFlags::Free;
    let rs3 = if fwd { absorb(rs2, k2) } else { rs2 };
    assert(rs3 =~= after_free(rs, k));
}

/// `b` with the `len` bytes from index `from` set to zero.
pub open spec fn zeroed(b: Seq<u8>, from: int, len: int) -> Seq<u8> {
    Seq::new(b.len(), |i: int| if from <= i < from + len { 0u8 } else { b[i] })
}

/// `b` with the `len` bytes from index `from` copied to index `to`, as a
/// copy that is correct when the two ranges overlap.
pub open spec fn copied(b: Seq<u8>, from: int, to: int, len: int) -> Seq<u8> {
    Seq::new(b.len(), |i: int| if to <= i < to + len { b[from + (i - to)] } else { b[i] })
}

/// The heap bytes `b` after the `old_len` bytes at index `from` move to the
/// `new_len` bytes at index `to`: the first `min(old_len, new_len)` bytes
/// are carried over, the old bytes outside the new range are zeroed, and the
/// rest is left as it was.
pub open spec fn relocated(b: Seq<u8>, from: int, to: int, old_len: int, new_len: int) -> Seq<u8> {
    let n = if old_len < new_len { old_len } else { new_len };
    Seq::new(
        b.len(),
        |i: int|
            if to <= i < to + n {
                b[from + (i - to)]
            } else if from <= i < from + old_len && !(to <= i < to + new_len) {
                0u8
            } else {
                b[i]
            },
    )
}

/// The heap allocator. Descriptors live in `nodes`, an arena of their own
/// that is never carved from the heap it manages; `memory` holds the heap's
/// bytes, the byte at address `a` being `memory[a - heap_start]`.
pub struct Allocator {
    nodes: Vec<Alloc>,
    memory: Vec<u8>,
    heap_start: usize,
    heap_size: usize,
    root: usize,
    order: Ghost<Seq<usize>>,
}

impl Allocator {
    /// First address of the heap.
    pub closed spec fn start(&self) -> int {
        self.heap_start as int
    }

    /// One past the last address of the heap.
    pub closed spec fn end(&self) -> int {
        self.heap_start + self.heap_size
    }

    /// The heap's bytes; the byte at address `a` is `bytes()[a - start()]`.
    pub closed spec fn bytes(&self) -> Seq<u8> {
        self.memory@
    }

    /// The ledger's regions in address order.
    pub closed spec fn regions(&self) -> Seq<Region> {
        view_of(self.nodes@, self.order@, self.end())
    }

    /// Descriptor `i` of the ledger order is in the arena and linked to its
    /// neighbours in that order.
    closed spec fn linked_at(&self, i: int) -> bool {
        let h = self.order@[i];
        &&& (h as int) < self.nodes@.len()
        &&& self.nodes@[h as int].prev == if i == 0 {
            None::<usize>
        } else {
            Some(self.order@[i - 1])
        }
        &&& self.nodes@[h as int].next == if i + 1 < self.order@.len() {
            Some(self.order@[i + 1])
        } else {
            None::<usize>
        }
    }

    /// The allocator's invariant.
    pub closed spec fn wf(&self) -> bool {
        &&& self.structure()
        &&& ledger_ok(self.regions(), self.start(), self.end())
    }

    /// A well-formed allocator's ledger is well formed.
    pub proof fn lemma_wf_ledger(&self)
        requires
            self.wf(),
        ensures
            ledger_ok(self.regions(), self.start(), self.end()),
            self.bytes().len() == self.end() - self.start(),
            0 <= self.start() < self.end(),
            self.end() <= usize::MAX,
    {
    }

    /// The arena links the descriptors along `order`, the root first.
    closed spec fn structure(&self) -> bool {
        &&& self.heap_size > 0
        &&& self.heap_start + self.heap_size <= usize::MAX
        &&& self.memory@.len() == self.heap_size
        &&& self.order@.len() >= 2
        &&& self.order@[0] == self.root
        &&& (self.root as int) < self.nodes@.len()
        &&& self.nodes@[self.root as int].flag == AllocFlags::Root
        &&& self.nodes@[self.root as int].curr == self.heap_start
        &&& forall|i: int| 0 <= i < self.order@.len() ==> #[trigger] self.linked_at(i)
        &&& forall|i: int, j: int|
            0 <= i < j < self.order@.len() ==> self.order@[i] != self.order@[j]
    }
}


impl Allocator {
    /// The descriptor of region `k`.
    pub closed spec fn descriptor(&self, k: int) -> Alloc {
        self.nodes@[self.order@[k + 1] as int]
    }

    /// The arena handle of the descriptor of region `k`.
    pub closed spec fn handle(&self, k: int) -> usize {
        self.order@[k + 1]
    }

    /// Creates the allocator for the heap `[heap_start, heap_start +
    /// heap_size)`, zero-filled, whose ledger is one free region spanning it.
    pub fn init(heap_start: usize, heap_size: usize) -> (r: Allocator)
        requires
            heap_size > 0,
            heap_start + heap_size <= usize::MAX,
        ensures
            r.wf(),
            r.start() == heap_start,
            r.end() == heap_start + heap_size,
            r.regions() == seq![
                Region {
                    flag: AllocFlags::Free,
                    start: heap_start as int,
                    end: heap_start + heap_size,
                },
            ],
            r.bytes() == Seq::new(heap_size as nat, |i: int| 0u8),
    {
        let mut memory: Vec<u8> = Vec::new();
        let mut i: usize = 0;
        while i < heap_size
            invariant
                i <= heap_size,
                memory@ == Seq::new(i as nat, |j: int| 0u8),
            decreases heap_size - i,
        {
            memory.push(0);
            i = i + 1;
            proof {
                assert(memory@ =~= Seq::new(i as nat, |j: int| 0u8));
            }
        }
        let ghost order = seq![0usize, 1usize];
        let mut nodes: Vec<Alloc> = Vec::new();
        nodes.push(Alloc::new(AllocFlags::Root, heap_start, None, Some(1)));
        nodes.push(Alloc::new(AllocFlags::Free, heap_start, Some(0), None));
        let r = Allocator {
            nodes,
            memory,
            heap_start,
            heap_size,
            root: 0,
            order: Ghost(order),
        };
        proof {
            assert(r.linked_at(0));
            assert(r.linked_at(1));
            assert(r.regions() =~= seq![
                Region {
                    flag: AllocFlags::Free,
                    start: heap_start as int,
                    end: heap_start + heap_size,
                },
            ]);
        }
        r
    }

    /// A copy of the descriptor with handle `h`.
    pub fn node(&self, h: usize) -> (r: Alloc)
        requires
            self.wf(),
            exists|k: int| 0 <= k < self.regions().len() && self.handle(k) == h,
        ensures
            forall|k: int|
                0 <= k < self.regions().len() && self.handle(k) == h ==> r == self.descriptor(k),
    {
        proof {
            let k = choose|k: int| 0 <= k < self.regions().len() && self.handle(k) == h;
            assert(self.linked_at(k + 1));
        }
        self.nodes[h]
    }

    /// First address of the heap.
    pub fn heap_start(&self) -> (r: usize)
        ensures
            r == self.start(),
    {
        self.heap_start
    }

    /// One past the last address of the heap.
    pub fn heap_end(&self) -> (r: usize)
        requires
            self.wf(),
        ensures
            r == self.end(),
    {
        self.heap_start + self.heap_size
    }

    /// Reads the heap byte at `address`.
    pub fn get_value(&self, address: usize) -> (r: u8)
        requires
            self.wf(),
            self.start() <= address < self.end(),
        ensures
            r == self.bytes()[address - self.start()],
    {
        self.memory[address - self.heap_start]
    }

    /// Writes the heap byte at `address`; the ledger is unchanged.
    pub fn set_value(&mut self, address: usize, value: u8)
        requires
            old(self).wf(),
            old(self).start() <= address < old(self).end(),
        ensures
            final(self).wf(),
            final(self).start() == old(self).start(),
            final(self).end() == old(self).end(),
            final(self).regions() == old(self).regions(),
            final(self).bytes() == old(self).bytes().update(address - old(self).start(), value),
    {
        let i = address - self.heap_start;
        self.memory.set(i, value);
        proof {
            assert forall|i: int| 0 <= i < self.order@.len() implies #[trigger] self.linked_at(i) by {
                assert(old(self).linked_at(i));
            }
        }
    }
}

impl Allocator {
    /// Finds the handle of the first region, in ledger order, that is free
    /// and holds at least `size` bytes.
    fn find_first_fit(&self, size: usize) -> (r: Option<usize>)
        requires
            self.wf(),
        ensures
            match r {
                Some(h) => exists|k: int|
                    is_first_fit(self.regions(), size as int, k) && self.handle(k) == h,
                None => !has_fit(self.regions(), size as int),
            },
    {
        let ghost rs = self.regions();
        proof {
            assert(self.linked_at(0));
        }
        let mut cur = self.nodes[self.root].get_next_deref();
        let ghost mut k: int = 0;
        loop
            invariant
                self.wf(),
                rs == self.regions(),
                0 <= k < rs.len(),
                cur == self.handle(k),
                forall|j: int| 0 <= j < k ==> !fits(#[trigger] rs[j], size as int),
            decreases rs.len() - k,
        {
            proof {
                assert(self.linked_at(k + 1));
            }
            let a = self.nodes[cur];
            assert(a == self.descriptor(k));
            let sz = a.get_size(self);
            if a.get_flag() == AllocFlags::Free && sz >= size {
                return Some(cur);
            }
            match a.get_next() {
                None => {
                    proof {
                        assert forall|j: int| 0 <= j < rs.len() implies !fits(
                            #[trigger] rs[j],
                            size as int,
                        ) by {}
                    }
                    return None;
                },
                Some(n) => {
                    cur = n;
                    proof {
                        k = k + 1;
                    }
                },
            }
        }
    }

    /// Finds the handle of the allocated region that starts at `ptr`.
    pub fn get_ptr_alloc(&self, ptr: usize) -> (r: Option<usize>)
        requires
            self.wf(),
        ensures
            match r {
                Some(h) => exists|k: int| is_allocation(self.regions(), ptr as int, k) && self.handle(k) == h,
                None => !exists|k: int| is_allocation(self.regions(), ptr as int, k),
            },
    {
        let ghost rs = self.regions();
        proof {
            assert(self.linked_at(0));
        }
        let mut cur = self.nodes[self.root].get_next_deref();
        let ghost mut k: int = 0;
        loop
            invariant
                self.wf(),
                rs == self.regions(),
                0 <= k < rs.len(),
                cur == self.handle(k),
                forall|j: int| 0 <= j < k ==> !is_allocation(rs, ptr as int, j),
            decreases rs.len() - k,
        {
            proof {
                assert(self.linked_at(k + 1));
            }
            let a = self.nodes[cur];
            assert(a == self.descriptor(k));
            if a.get_flag() == AllocFlags::Allocated && a.get_start_address() == ptr {
                return Some(cur);
            }
            match a.get_next() {
                None => {
                    proof {
                        assert forall|j: int| 0 <= j < rs.len() implies !is_allocation(rs, ptr as int, j) by {}
                    }
                    return None;
                },
                Some(n) => {
                    cur = n;
                    proof {
                        k = k + 1;
                    }
                },
            }
        }
    }

    /// Walks the ledger from its first region and lists each region's state,
    /// start address and end address.
    pub fn get_regions(&self) -> (r: Vec<(AllocFlags, usize, usize)>)
        requires
            self.wf(),
        ensures
            r@.len() == self.regions().len(),
            forall|i: int|
                0 <= i < r@.len() ==> {
                    &&& (#[trigger] r@[i]).0 == self.regions()[i].flag
                    &&& r@[i].1 == self.regions()[i].start
                    &&& r@[i].2 == self.regions()[i].end
                },
    {
        let ghost rs = self.regions();
        proof {
            assert(self.linked_at(0));
        }
        let mut out: Vec<(AllocFlags, usize, usize)> = Vec::new();
        let mut cur = self.nodes[self.root].get_next_deref();
        let ghost mut k: int = 0;
        loop
            invariant
                self.wf(),
                rs == self.regions(),
                0 <= k < rs.len(),
                cur == self.handle(k),
                out@.len() == k,
                forall|i: int|
                    0 <= i < k ==> {
                        &&& (#[trigger] out@[i]).0 == rs[i].flag
                        &&& out@[i].1 == rs[i].start
                        &&& out@[i].2 == rs[i].end
                    },
            decreases rs.len() - k,
        {
            proof {
                assert(self.linked_at(k + 1));
            }
            let a = self.nodes[cur];
            assert(a == self.descriptor(k));
            let end = a.get_end_address(self);
            out.push((a.get_flag(), a.get_start_address(), end));
            match a.get_next() {
                None => {
                    return out;
                },
                Some(n) => {
                    cur = n;
                    proof {
                        k = k + 1;
                    }
                },
            }
        }
    }

    /// Returns the number of bytes in allocated regions.
    pub fn get_alloc_count(&self) -> (r: usize)
        requires
            self.wf(),
        ensures
            r == allocated_total(self.regions()),
    {
        let ghost rs = self.regions();
        proof {
            assert(self.linked_at(0));
        }
        let mut cur = self.nodes[self.root].get_next_deref();
        let mut count: usize = 0;
        let ghost mut k: int = 0;
        loop
            invariant
                self.wf(),
                rs == self.regions(),
                0 <= k < rs.len(),
                cur == self.handle(k),
                count == allocated_total(rs.take(k)),
                count <= rs[k].start - self.start(),
            decreases rs.len() - k,
        {
            proof {
                assert(self.linked_at(k + 1));
                assert(rs.take(k + 1).drop_last() =~= rs.take(k));
                assert(region_ok(rs, k));
            }
            let a = self.nodes[cur];
            assert(a == self.descriptor(k));
            if a.get_flag() == AllocFlags::Allocated {
                count = count + a.get_size(self);
            }
            match a.get_next() {
                None => {
                    proof {
                        assert(rs.take(k + 1) =~= rs);
                    }
                    return count;
                },
                Some(n) => {
                    cur = n;
                    proof {
                        assert(seam_ok(rs, k));
                        k = k + 1;
                    }
                },
            }
        }
    }
}

impl Allocator {
    /// A descriptor marked dead is not linked into the ledger.
    proof fn lemma_dead_unlinked(&self, h: usize)
        requires
            self.wf(),
            (h as int) < self.nodes@.len(),
            self.nodes@[h as int].flag == AllocFlags::Dead,
        ensures
            !self.order@.contains(h),
    {
        if self.order@.contains(h) {
            let i = choose|i: int| 0 <= i < self.order@.len() && self.order@[i] == h;
            if i > 0 {
                assert(region_ok(self.regions(), i - 1));
            }
        }
    }

    /// Returns the handle of an arena slot that holds no live descriptor: the
    /// first dead one, or one past the arena's end when none is dead.
    fn find_alloc_space(&self) -> (r: usize)
        requires
            self.wf(),
        ensures
            r <= self.nodes@.len(),
            !self.order@.contains(r),
    {
        let mut i: usize = 0;
        while i < self.nodes.len()
            invariant
                self.wf(),
                i <= self.nodes@.len(),
            decreases self.nodes@.len() - i,
        {
            if self.nodes[i].get_flag() == AllocFlags::Dead {
                proof {
                    self.lemma_dead_unlinked(i);
                }
                return i;
            }
            i = i + 1;
        }
        proof {
            if self.order@.contains(i) {
                let j = choose|j: int| 0 <= j < self.order@.len() && self.order@[j] == i;
                assert(self.linked_at(j));
            }
        }
        i
    }

    /// Stores `a` in slot `h` of the arena, which holds no live descriptor.
    fn store_descriptor(&mut self, h: usize, a: Alloc)
        requires
            h <= old(self).nodes@.len(),
            !old(self).order@.contains(h),
        ensures
            final(self).nodes@.len() as int == if h == old(self).nodes@.len() {
                old(self).nodes@.len() + 1int
            } else {
                old(self).nodes@.len() as int
            },
            final(self).nodes@ == old(self).nodes@.push(a).update(h as int, a).take(
                final(self).nodes@.len() as int,
            ),
            final(self).memory == old(self).memory,
            final(self).order == old(self).order,
            final(self).heap_start == old(self).heap_start,
            final(self).heap_size == old(self).heap_size,
            final(self).root == old(self).root,
    {
        if h < self.nodes.len() {
            self.nodes.set(h, a);
            proof {
                assert(self.nodes@ =~= old(self).nodes@.push(a).update(h as int, a).take(
                    self.nodes@.len() as int,
                ));
            }
        } else {
            self.nodes.push(a);
            proof {
                assert(self.nodes@ =~= old(self).nodes@.push(a).update(h as int, a).take(
                    self.nodes@.len() as int,
                ));
            }
        }
    }

    /// Allocates `size` bytes from the first free region that can hold them
    /// (first fit), splitting off the rest of that region as a new free
    /// region. The neighbour after a free region is never free (free
    /// regions are coalesced when they arise), so the rest always becomes a
    /// region of its own. Returns the start address of the allocation, or
    /// `None` when no free region is large enough. The heap's bytes are left
    /// as they are.
    pub fn allocate(&mut self, size: usize) -> (r: Option<usize>)
        requires
            old(self).wf(),
            size > 0,
        ensures
            final(self).wf(),
            final(self).start() == old(self).start(),
            final(self).end() == old(self).end(),
            final(self).bytes() == old(self).bytes(),
            match r {
                Some(p) => exists|k: int|
                    {
                        &&& is_first_fit(old(self).regions(), size as int, k)
                        &&& p == old(self).regions()[k].start
                        &&& final(self).regions() == after_alloc(
                            old(self).regions(),
                            k,
                            size as int,
                        )
                    },
                None => !has_fit(old(self).regions(), size as int) && final(self).regions()
                    == old(self).regions(),
            },
            r is Some ==> allocated_total(final(self).regions()) == allocated_total(
                old(self).regions(),
            ) + size,
    {
        let found = self.find_first_fit(size);
        let cur = match found {
            None => {
                return None;
            },
            Some(cur) => cur,
        };
        let ghost rs = self.regions();
        let ghost k = choose|k: int| is_first_fit(rs, size as int, k) && self.handle(k) == cur;
        let ghost old_nodes = self.nodes@;
        let ghost order = self.order@;
        proof {
            assert(self.linked_at(k + 1));
            lemma_after_alloc(rs, self.start(), self.end(), k, size as int);
        }
        let mut a = self.nodes[cur];
        assert(a == self.descriptor(k));
        let sz = a.get_size(self);
        let start = a.get_start_address();
        if sz == size {
            a.set_flag(AllocFlags::Allocated);
            self.nodes.set(cur, a);
            proof {
                assert forall|i: int| 0 <= i < self.order@.len() implies #[trigger] self.linked_at(
                    i,
                ) by {
                    assert(old(self).linked_at(i));
                }
                assert forall|i: int| 0 <= i < order.len() implies (#[trigger] order[i] as int)
                    < old_nodes.len() by {
                    assert(old(self).linked_at(i));
                }
                assert forall|i: int| 0 <= i < order.len() && i != k + 1 implies same_place(
                    #[trigger] old_nodes[order[i] as int],
                    self.nodes@[order[i] as int],
                ) by {
                    assert(order[i] != order[k + 1]);
                }
                lemma_flag_view(old_nodes, self.nodes@, order, k, self.end(), AllocFlags::Allocated);
                assert(self.regions() =~= after_alloc(rs, k, size as int));
            }
            return Some(start);
        }
        let new_end = start + size;
        let slot = self.find_alloc_space();
        let next = a.get_next();
        self.store_descriptor(slot, Alloc::new(AllocFlags::Free, new_end, Some(cur), next));
        a.set_flag(AllocFlags::Allocated);
        a.set_next(Some(slot));
        self.nodes.set(cur, a);
        let ghost mid_nodes = self.nodes@;
        match next {
            Some(nx) => {
                proof {
                    assert(old(self).linked_at(k + 2));
                    assert(order[k + 2] != slot);
                    assert(order[k + 2] != order[k + 1]);
                }
                let mut b = self.nodes[nx];
                b.set_prev(Some(slot));
                self.nodes.set(nx, b);
            },
            None => {},
        }
        proof {
            self.order = Ghost(order.insert(k + 2, slot));
            let no = self.order@;
            let nn = self.nodes@;
            assert forall|i: int| 0 <= i < no.len() implies #[trigger] self.linked_at(i) by {
                if i <= k {
                    assert(old(self).linked_at(i));
                    assert(order[i] != slot);
                    if k + 2 < order.len() {
                        assert(order[i] != order[k + 2]);
                    }
                } else if i == k + 1 {
                    assert(old(self).linked_at(i));
                    if k + 2 < order.len() {
                        assert(order[i] != order[k + 2]);
                    }
                } else if i == k + 2 {
                } else if i == k + 3 {
                    assert(old(self).linked_at(k + 2));
                } else {
                    assert(old(self).linked_at(i - 1));
                    assert(order[i - 1] != slot);
                    assert(order[i - 1] != order[k + 2]);
                    assert(order[i - 1] != order[k + 1]);
                }
            }
            assert forall|i: int, j: int| 0 <= i < j < no.len() implies no[i] != no[j] by {
                if i == k + 2 {
                    assert(order.contains(no[j]));
                } else if j == k + 2 {
                    assert(order.contains(no[i]));
                }
            }
            assert forall|i: int| 0 <= i < order.len() implies (#[trigger] order[i] as int)
                < old_nodes.len() by {
                assert(old(self).linked_at(i));
            }
            assert forall|i: int| 0 <= i < order.len() && i != k + 1 implies same_place(
                #[trigger] old_nodes[order[i] as int],
                nn[order[i] as int],
            ) by {
                assert(order[i] != order[k + 1]);
                assert(order[i] != slot);
            }
            lemma_split_view(old_nodes, nn, order, k, slot, old(self).end(), size as int);
        }
        Some(start)
    }
}

impl Allocator {
    /// Every handle along the ledger order is a slot of the arena.
    proof fn lemma_handles_in_arena(&self)
        requires
            self.structure(),
        ensures
            forall|i: int|
                0 <= i < self.order@.len() ==> (#[trigger] self.order@[i] as int)
                    < self.nodes@.len(),
    {
        assert forall|i: int| 0 <= i < self.order@.len() implies (#[trigger] self.order@[i] as int)
            < self.nodes@.len() by {
            assert(self.linked_at(i));
        }
    }

    /// Sets the state of region `k`, whose descriptor has handle `h`.
    fn set_region_flag(&mut self, h: usize, flag: AllocFlags, Ghost(k): Ghost<int>)
        requires
            old(self).structure(),
            0 <= k < old(self).regions().len(),
            old(self).handle(k) == h,
        ensures
            final(self).structure(),
            final(self).memory == old(self).memory,
            final(self).heap_start == old(self).heap_start,
            final(self).heap_size == old(self).heap_size,
            final(self).order == old(self).order,
            final(self).root == old(self).root,
            final(self).regions() == old(self).regions().update(
                k,
                Region {
                    flag,
                    start: old(self).regions()[k].start,
                    end: old(self).regions()[k].end,
                },
            ),
    {
        proof {
            assert(self.linked_at(k + 1));
            self.lemma_handles_in_arena();
        }
        let mut a = self.nodes[h];
        a.set_flag(flag);
        self.nodes.set(h, a);
        proof {
            let order = self.order@;
            assert forall|i: int| 0 <= i < order.len() implies #[trigger] self.linked_at(i) by {
                assert(old(self).linked_at(i));
            }
            assert forall|i: int| 0 <= i < order.len() && i != k + 1 implies same_place(
                #[trigger] old(self).nodes@[order[i] as int],
                self.nodes@[order[i] as int],
            ) by {
                assert(order[i] != order[k + 1]);
            }
            lemma_flag_view(old(self).nodes@, self.nodes@, order, k, self.end(), flag);
        }
    }

    /// Unlinks the descriptor of region `k + 1` and marks it dead, so that
    /// region `k`, whose descriptor has handle `h`, extends over it.
    fn absorb_next(&mut self, h: usize, Ghost(k): Ghost<int>)
        requires
            old(self).structure(),
            0 <= k,
            k + 1 < old(self).regions().len(),
            old(self).handle(k) == h,
        ensures
            final(self).structure(),
            final(self).memory == old(self).memory,
            final(self).heap_start == old(self).heap_start,
            final(self).heap_size == old(self).heap_size,
            final(self).order@ == old(self).order@.remove(k + 2),
            final(self).root == old(self).root,
            final(self).regions() == absorb(old(self).regions(), k),
    {
        let ghost order = self.order@;
        proof {
            assert(self.linked_at(k + 1));
            assert(self.linked_at(k + 2));
            if k + 3 < order.len() {
                assert(self.linked_at(k + 3));
            }
            self.lemma_handles_in_arena();
        }
        let mut a = self.nodes[h];
        let nx = a.get_next_deref();
        let mut b = self.nodes[nx];
        let after = b.get_next();
        a.set_next(after);
        self.nodes.set(h, a);
        match after {
            Some(m) => {
                proof {
                    assert(order[k + 3] != order[k + 1]);
                }
                let mut c = self.nodes[m];
                c.set_prev(Some(h));
                self.nodes.set(m, c);
            },
            None => {},
        }
        b.set_flag(AllocFlags::Dead);
        self.nodes.set(nx, b);
        proof {
            let nn = self.nodes@;
            let on = old(self).nodes@;
            assert(order[k + 2] != order[k + 1]);
            assert forall|i: int| 0 <= i < order.len() && i != k + 2 implies same_place(
                #[trigger] on[order[i] as int],
                nn[order[i] as int],
            ) by {
                assert(order[i] != order[k + 2]);
            }
            lemma_absorb_view(on, nn, order, k + 2, self.end());
            self.order = Ghost(order.remove(k + 2));
            let no = self.order@;
            assert forall|i: int| 0 <= i < no.len() implies #[trigger] self.linked_at(i) by {
                if i <= k + 1 {
                    assert(old(self).linked_at(i));
                    assert(order[i] != order[k + 2]);
                    if k + 3 < order.len() && i != k + 3 {
                        assert(order[i] != order[k + 3]);
                    }
                } else {
                    assert(old(self).linked_at(i + 1));
                    assert(order[i + 1] != order[k + 2]);
                    assert(order[i + 1] != order[k + 1]);
                    if i + 1 != k + 3 && k + 3 < order.len() {
                        assert(order[i + 1] != order[k + 3]);
                    }
                }
            }
            assert forall|i: int, j: int| 0 <= i < j < no.len() implies no[i] != no[j] by {
                if i < k + 2 && j >= k + 2 {
                    assert(order[i] != order[j + 1]);
                } else if i >= k + 2 {
                    assert(order[i + 1] != order[j + 1]);
                } else {
                    assert(order[i] != order[j]);
                }
            }
            assert(no[0] == order[0]);
        }
    }
}

impl Allocator {
    /// Frees region `k`, whose descriptor has handle `h`, and coalesces it
    /// with its free neighbours. The heap's bytes are left as they are.
    fn release(&mut self, h: usize, Ghost(k): Ghost<int>)
        requires
            old(self).wf(),
            0 <= k < old(self).regions().len(),
            old(self).handle(k) == h,
            old(self).regions()[k].flag == AllocFlags::Allocated,
        ensures
            final(self).wf(),
            final(self).memory == old(self).memory,
            final(self).heap_start == old(self).heap_start,
            final(self).heap_size == old(self).heap_size,
            final(self).regions() == after_free(old(self).regions(), k),
    {
        let ghost rs = self.regions();
        proof {
            lemma_after_free(rs, self.start(), self.end(), k);
            lemma_free_steps(rs, k);
            assert(self.linked_at(k + 1));
            assert(self.linked_at(k));
            self.lemma_handles_in_arena();
        }
        self.set_region_flag(h, AllocFlags::Free, Ghost(k));
        proof {
            assert(self.linked_at(k + 1));
            assert(self.linked_at(k));
            self.lemma_handles_in_arena();
        }
        let pv = self.nodes[h].get_prev_deref();
        let mut cur = h;
        let ghost mut kk = k;
        if self.nodes[pv].get_flag() == AllocFlags::Free {
            self.absorb_next(pv, Ghost(k - 1));
            cur = pv;
            proof {
                kk = k - 1;
            }
        }
        proof {
            assert(self.linked_at(kk + 1));
            if kk + 2 < self.order@.len() {
                assert(self.linked_at(kk + 2));
            }
            self.lemma_handles_in_arena();
        }
        match self.nodes[cur].get_next() {
            Some(nx) => {
                if self.nodes[nx].get_flag() == AllocFlags::Free {
                    self.absorb_next(cur, Ghost(kk));
                }
            },
            None => {},
        }
    }

    /// Frees the allocated region that starts at `ptr` and holds `size`
    /// bytes: its bytes are zeroed, and it is coalesced with its free
    /// neighbours.
    pub fn deallocate(&mut self, ptr: usize, size: usize)
        requires
            old(self).wf(),
            exists|k: int|
                is_allocation(old(self).regions(), ptr as int, k) && old(self).regions()[k].size()
                    == size,
        ensures
            final(self).wf(),
            final(self).start() == old(self).start(),
            final(self).end() == old(self).end(),
            forall|k: int|
                is_allocation(old(self).regions(), ptr as int, k) ==> final(self).regions()
                    == after_free(old(self).regions(), k),
            final(self).bytes() == zeroed(old(self).bytes(), ptr - old(self).start(), size as int),
            allocated_total(final(self).regions()) == allocated_total(old(self).regions()) - size,
    {
        let ghost rs = self.regions();
        let ghost k = choose|k: int| is_allocation(rs, ptr as int, k) && rs[k].size() == size;
        let h = match self.get_ptr_alloc(ptr) {
            Some(h) => h,
            None => {
                proof {
                    assert(false);
                }
                return ;
            },
        };
        proof {
            let k2 = choose|k2: int| is_allocation(rs, ptr as int, k2) && self.handle(k2) == h;
            lemma_allocation_unique(rs, self.start(), self.end(), ptr as int, k, k2);
            assert(region_ok(rs, k));
            if k > 0 {
                lemma_starts_increase(rs, self.start(), self.end(), 0, k);
            }
            assert(rs[k].end <= self.end()) by {
                if k + 1 < rs.len() {
                    lemma_starts_increase(rs, self.start(), self.end(), k, rs.len() - 1);
                    assert(region_ok(rs, rs.len() - 1));
                }
            }
            lemma_after_free(rs, self.start(), self.end(), k);
            assert forall|k2: int| is_allocation(rs, ptr as int, k2) implies k2 == k by {
                lemma_allocation_unique(rs, self.start(), self.end(), ptr as int, k, k2);
            }
        }
        self.zero_range(ptr, size);
        self.release(h, Ghost(k));
    }

    /// Zeroes the `len` heap bytes from address `from`; the ledger is
    /// unchanged.
    fn zero_range(&mut self, from: usize, len: usize)
        requires
            old(self).wf(),
            old(self).start() <= from,
            from + len <= old(self).end(),
        ensures
            final(self).wf(),
            final(self).nodes == old(self).nodes,
            final(self).order == old(self).order,
            final(self).root == old(self).root,
            final(self).heap_start == old(self).heap_start,
            final(self).heap_size == old(self).heap_size,
            final(self).memory@ == zeroed(old(self).memory@, from - old(self).start(), len as int),
    {
        let base = from - self.heap_start;
        let mut i: usize = 0;
        while i < len
            invariant
                i <= len,
                base + len <= self.memory@.len(),
                self.memory@.len() == self.heap_size,
                base == from - old(self).start(),
                self.nodes == old(self).nodes,
                self.order == old(self).order,
                self.root == old(self).root,
                self.heap_start == old(self).heap_start,
                self.heap_size == old(self).heap_size,
                self.memory@ == zeroed(old(self).memory@, base as int, i as int),
            decreases len - i,
        {
            self.memory.set(base + i, 0);
            i = i + 1;
            proof {
                assert(self.memory@ =~= zeroed(old(self).memory@, base as int, i as int));
            }
        }
        proof {
            assert forall|i: int| 0 <= i < self.order@.len() implies #[trigger] self.linked_at(i) by {
                assert(old(self).linked_at(i));
            }
        }
    }
}

impl Allocator {
    /// Copies the `len` heap bytes at address `from` to address `to`,
    /// choosing the direction of the copy so that overlapping ranges are
    /// handled; the ledger is unchanged.
    fn move_bytes(&mut self, from: usize, to: usize, len: usize)
        requires
            old(self).wf(),
            old(self).start() <= from,
            from + len <= old(self).end(),
            old(self).start() <= to,
            to + len <= old(self).end(),
        ensures
            final(self).wf(),
            final(self).nodes == old(self).nodes,
            final(self).order == old(self).order,
            final(self).root == old(self).root,
            final(self).heap_start == old(self).heap_start,
            final(self).heap_size == old(self).heap_size,
            final(self).memory@ == copied(
                old(self).memory@,
                from - old(self).start(),
                to - old(self).start(),
                len as int,
            ),
    {
        let src = from - self.heap_start;
        let dst = to - self.heap_start;
        let ghost orig = self.memory@;
        if dst <= src {
            let mut i: usize = 0;
            while i < len
                invariant
                    i <= len,
                    dst <= src,
                    src + len <= self.memory@.len(),
                    self.memory@.len() == orig.len(),
                    self.memory@.len() == self.heap_size,
                self.memory@.len() == self.heap_size,
                    self.nodes == old(self).nodes,
                    self.order == old(self).order,
                    self.root == old(self).root,
                    self.heap_start == old(self).heap_start,
                    self.heap_size == old(self).heap_size,
                    self.memory@ == copied(orig, src as int, dst as int, i as int),
                decreases len - i,
            {
                let v = self.memory[src + i];
                self.memory.set(dst + i, v);
                i = i + 1;
                proof {
                    assert(self.memory@ =~= copied(orig, src as int, dst as int, i as int));
                }
            }
        } else {
            let mut i: usize = len;
            while i > 0
                invariant
                    i <= len,
                    src < dst,
                    dst + len <= self.memory@.len(),
                    self.memory@.len() == orig.len(),
                    self.memory@.len() == self.heap_size,
                self.memory@.len() == self.heap_size,
                    self.nodes == old(self).nodes,
                    self.order == old(self).order,
                    self.root == old(self).root,
                    self.heap_start == old(self).heap_start,
                    self.heap_size == old(self).heap_size,
                    self.memory@ == Seq::new(
                        orig.len(),
                        |j: int|
                            if dst + i <= j < dst + len {
                                orig[src + (j - dst)]
                            } else {
                                orig[j]
                            },
                    ),
                decreases i,
            {
                let v = self.memory[src + i - 1];
                self.memory.set(dst + i - 1, v);
                i = i - 1;
                proof {
                    assert(self.memory@ =~= Seq::new(
                        orig.len(),
                        |j: int|
                            if dst + i <= j < dst + len {
                                orig[src + (j - dst)]
                            } else {
                                orig[j]
                            },
                    ));
                }
            }
            proof {
                assert(self.memory@ =~= copied(orig, src as int, dst as int, len as int));
            }
        }
        proof {
            assert forall|i: int| 0 <= i < self.order@.len() implies #[trigger] self.linked_at(i) by {
                assert(old(self).linked_at(i));
            }
        }
    }

    /// Zeroes the `old_len` heap bytes at address `from` that lie outside the
    /// `new_len` bytes at address `to`; the ledger is unchanged.
    fn zero_outside(&mut self, from: usize, old_len: usize, to: usize, new_len: usize)
        requires
            old(self).wf(),
            old(self).start() <= from,
            from + old_len <= old(self).end(),
            old(self).start() <= to,
            to + new_len <= old(self).end(),
        ensures
            final(self).wf(),
            final(self).nodes == old(self).nodes,
            final(self).order == old(self).order,
            final(self).root == old(self).root,
            final(self).heap_start == old(self).heap_start,
            final(self).heap_size == old(self).heap_size,
            final(self).memory@ == Seq::new(
                old(self).memory@.len(),
                |j: int|
                    if from - old(self).start() <= j < from - old(self).start() + old_len && !(to
                        - old(self).start() <= j < to - old(self).start() + new_len) {
                        0u8
                    } else {
                        old(self).memory@[j]
                    },
            ),
    {
        let src = from - self.heap_start;
        let dst = to - self.heap_start;
        let ghost orig = self.memory@;
        let mut i: usize = 0;
        while i < old_len
            invariant
                i <= old_len,
                src + old_len <= self.memory@.len(),
                dst + new_len <= self.memory@.len(),
                self.memory@.len() == orig.len(),
                self.memory@.len() == self.heap_size,
                self.nodes == old(self).nodes,
                self.order == old(self).order,
                self.root == old(self).root,
                self.heap_start == old(self).heap_start,
                self.heap_size == old(self).heap_size,
                self.memory@ == Seq::new(
                    orig.len(),
                    |j: int|
                        if src <= j < src + i && !(dst <= j < dst + new_len) {
                            0u8
                        } else {
                            orig[j]
                        },
                ),
            decreases old_len - i,
        {
            let a = src + i;
            if a < dst || a >= dst + new_len {
                self.memory.set(a, 0);
            }
            i = i + 1;
            proof {
                assert(self.memory@ =~= Seq::new(
                    orig.len(),
                    |j: int|
                        if src <= j < src + i && !(dst <= j < dst + new_len) {
                            0u8
                        } else {
                            orig[j]
                        },
                ));
            }
        }
        proof {
            assert forall|i: int| 0 <= i < self.order@.len() implies #[trigger] self.linked_at(i) by {
                assert(old(self).linked_at(i));
            }
        }
    }

    /// Allocates `size` bytes as `allocate` does, and zeroes them.
    pub fn allocate_zeroed(&mut self, size: usize) -> (r: Option<usize>)
        requires
            old(self).wf(),
            size > 0,
        ensures
            final(self).wf(),
            final(self).start() == old(self).start(),
            final(self).end() == old(self).end(),
            match r {
                Some(p) => {
                    &&& exists|k: int|
                        {
                            &&& is_first_fit(old(self).regions(), size as int, k)
                            &&& p == old(self).regions()[k].start
                            &&& final(self).regions() == after_alloc(
                                old(self).regions(),
                                k,
                                size as int,
                            )
                        }
                    &&& final(self).bytes() == zeroed(
                        old(self).bytes(),
                        p - old(self).start(),
                        size as int,
                    )
                },
                None => {
                    &&& !has_fit(old(self).regions(), size as int)
                    &&& final(self).regions() == old(self).regions()
                    &&& final(self).bytes() == old(self).bytes()
                },
            },
            r is Some ==> allocated_total(final(self).regions()) == allocated_total(
                old(self).regions(),
            ) + size,
    {
        let ghost rs = self.regions();
        match self.allocate(size) {
            None => None,
            Some(p) => {
                proof {
                    let k = choose|k: int|
                        {
                            &&& is_first_fit(rs, size as int, k)
                            &&& p == rs[k].start
                            &&& self.regions() == after_alloc(rs, k, size as int)
                        };
                    lemma_region_bounds(rs, self.start(), self.end(), k);
                }
                self.zero_range(p, size);
                Some(p)
            },
        }
    }
}

impl Allocator {
    /// Moves the allocated region that starts at `ptr` and holds `old_size`
    /// bytes to a region of `new_size` bytes: the old region is freed
    /// (without zeroing) and coalesced, a new region is allocated first-fit
    /// (possibly at the same address), the first `min(old_size, new_size)`
    /// bytes are carried over, and the old bytes outside the new region are
    /// zeroed. When no region fits, the old region stays freed, its bytes
    /// zeroed, and `None` is returned.
    pub fn reallocate(&mut self, ptr: usize, old_size: usize, new_size: usize) -> (r: Option<usize>)
        requires
            old(self).wf(),
            exists|k: int|
                is_allocation(old(self).regions(), ptr as int, k) && old(self).regions()[k].size()
                    == old_size,
            new_size > 0,
        ensures
            final(self).wf(),
            final(self).start() == old(self).start(),
            final(self).end() == old(self).end(),
            forall|k: int| #[trigger]
                is_allocation(old(self).regions(), ptr as int, k) ==> {
                    let mid = after_free(old(self).regions(), k);
                    match r {
                        Some(p) => {
                            &&& exists|k2: int|
                                {
                                    &&& is_first_fit(mid, new_size as int, k2)
                                    &&& p == mid[k2].start
                                    &&& final(self).regions() == after_alloc(
                                        mid,
                                        k2,
                                        new_size as int,
                                    )
                                }
                            &&& final(self).bytes() == relocated(
                                old(self).bytes(),
                                ptr - old(self).start(),
                                p - old(self).start(),
                                old_size as int,
                                new_size as int,
                            )
                        },
                        None => {
                            &&& !has_fit(mid, new_size as int)
                            &&& final(self).regions() == mid
                            &&& final(self).bytes() == zeroed(
                                old(self).bytes(),
                                ptr - old(self).start(),
                                old_size as int,
                            )
                        },
                    }
                },
            r is Some ==> allocated_total(final(self).regions()) == allocated_total(
                old(self).regions(),
            ) - old_size + new_size,
            r is None ==> allocated_total(final(self).regions()) == allocated_total(
                old(self).regions(),
            ) - old_size,
            match r {
                Some(p) => old_size == new_size ==> forall|i: int|
                    0 <= i < old_size ==> #[trigger] final(self).bytes()[p - final(self).start()
                        + i] == old(self).bytes()[ptr - old(self).start() + i],
                None => true,
            },
    {
        let ghost rs = self.regions();
        let ghost orig = self.memory@;
        let ghost k = choose|k: int| is_allocation(rs, ptr as int, k) && rs[k].size() == old_size;
        let h = match self.get_ptr_alloc(ptr) {
            Some(h) => h,
            None => {
                proof {
                    assert(false);
                }
                return None;
            },
        };
        proof {
            let k2 = choose|k2: int| is_allocation(rs, ptr as int, k2) && self.handle(k2) == h;
            lemma_allocation_unique(rs, self.start(), self.end(), ptr as int, k, k2);
            lemma_region_bounds(rs, self.start(), self.end(), k);
            lemma_after_free(rs, self.start(), self.end(), k);
            assert forall|k2: int| is_allocation(rs, ptr as int, k2) implies k2 == k by {
                lemma_allocation_unique(rs, self.start(), self.end(), ptr as int, k, k2);
            }
        }
        self.release(h, Ghost(k));
        let ghost mid = self.regions();
        match self.allocate(new_size) {
            None => {
                self.zero_range(ptr, old_size);
                None
            },
            Some(p) => {
                proof {
                    let k2 = choose|k2: int|
                        {
                            &&& is_first_fit(mid, new_size as int, k2)
                            &&& p == mid[k2].start
                            &&& self.regions() == after_alloc(mid, k2, new_size as int)
                        };
                    lemma_region_bounds(mid, self.start(), self.end(), k2);
                }
                let n = if old_size < new_size {
                    old_size
                } else {
                    new_size
                };
                self.move_bytes(ptr, p, n);
                let ghost moved = self.memory@;
                self.zero_outside(ptr, old_size, p, new_size);
                proof {
                    let s = self.start();
                    assert(self.memory@ =~= relocated(
                        orig,
                        ptr - s,
                        p - s,
                        old_size as int,
                        new_size as int,
                    ));
                }
                Some(p)
            },
        }
    }
}

impl Alloc {
    /// Returns the address one past the last byte of this region of
    /// `ledger`: the next region's start, or the heap's end for the last one.
    pub fn get_end_address(&self, ledger: &Allocator) -> (r: usize)
        requires
            ledger.wf(),
            exists|k: int| 0 <= k < ledger.regions().len() && ledger.descriptor(k) == *self,
        ensures
            forall|k: int|
                0 <= k < ledger.regions().len() && ledger.descriptor(k) == *self ==> r
                    == ledger.regions()[k].end,
    {
        proof {
            let k = choose|k: int| 0 <= k < ledger.regions().len() && ledger.descriptor(k) == *self;
            assert(ledger.linked_at(k + 1));
            if k + 2 < ledger.order@.len() {
                assert(ledger.linked_at(k + 2));
            }
            assert forall|j: int|
                0 <= j < ledger.regions().len() && ledger.descriptor(j) == *self implies j == k by {
                if j != k {
                    assert(ledger.linked_at(j + 1));
                    if j < k {
                        assert(ledger.linked_at(j + 2));
                    } else {
                        assert(ledger.linked_at(k + 2));
                    }
                }
            }
        }
        match self.next {
            None => ledger.heap_start + ledger.heap_size,
            Some(n) => ledger.nodes[n].curr,
        }
    }

    /// Returns the number of bytes of this region of `ledger`.
    pub fn get_size(&self, ledger: &Allocator) -> (r: usize)
        requires
            ledger.wf(),
            exists|k: int| 0 <= k < ledger.regions().len() && ledger.descriptor(k) == *self,
        ensures
            forall|k: int|
                0 <= k < ledger.regions().len() && ledger.descriptor(k) == *self ==> r
                    == ledger.regions()[k].size(),
    {
        let end = self.get_end_address(ledger);
        proof {
            let k = choose|k: int| 0 <= k < ledger.regions().len() && ledger.descriptor(k) == *self;
            let rs = ledger.regions();
            assert(region_ok(rs, k));
            assert(rs[k].start == self.curr);
            assert(end == rs[k].end);
        }
        end - self.curr
    }
}

} // verus!
