//! Heap region descriptors and the mathematical model of the ledger.
use vstd::prelude::*;

verus! {

/// State of one heap region descriptor.
#[derive(PartialEq, Eq, Structural, Clone, Copy, Debug)]
pub enum AllocFlags {
    /// Currently handed out to a caller.
    Allocated,
    /// Available for allocation.
    Free,
    /// Unlinked from the ledger; its arena slot may be reused.
    Dead,
    /// Zero-size sentinel at the head of the ledger.
    Root,
}

/// A heap region descriptor. `prev` and `next` are handles (arena slot
/// indices) of the neighbouring descriptors in ledger order; the region ends
/// where the next one starts, or at the heap's end when `next` is `None`.
#[derive(PartialEq, Eq, Structural, Clone, Copy, Debug)]
pub struct Alloc {
    pub flag: AllocFlags,
    pub curr: usize,
    pub prev: Option<usize>,
    pub next: Option<usize>,
}

impl Alloc {
    /// A descriptor with the given fields.
    pub fn new(flag: AllocFlags, curr: usize, prev: Option<usize>, next: Option<usize>) -> (r: Alloc)
        ensures
            r == (Alloc { flag, curr, prev, next }),
    {
        Alloc { flag, curr, prev, next }
    }

    /// Returns the state of the region.
    pub fn get_flag(&self) -> (r: AllocFlags)
        ensures
            r == self.flag,
    {
        self.flag
    }

    /// Sets the state of the region.
    pub fn set_flag(&mut self, flag: AllocFlags)
        ensures
            *final(self) == (Alloc { flag, ..*old(self) }),
    {
        self.flag = flag;
    }

    /// Returns the address where the region's usable bytes begin.
    pub fn get_start_address(&self) -> (r: usize)
        ensures
            r == self.curr,
    {
        self.curr
    }

    /// Sets the address where the region's usable bytes begin.
    pub fn set_start_address(&mut self, curr: usize)
        ensures
            *final(self) == (Alloc { curr, ..*old(self) }),
    {
        self.curr = curr;
    }

    /// Returns the handle of the previous descriptor.
    pub fn get_prev(&self) -> (r: Option<usize>)
        ensures
            r == self.prev,
    {
        self.prev
    }

    /// Sets the handle of the previous descriptor.
    pub fn set_prev(&mut self, prev: Option<usize>)
        ensures
            *final(self) == (Alloc { prev, ..*old(self) }),
    {
        self.prev = prev;
    }

    /// Returns the handle of the next descriptor.
    pub fn get_next(&self) -> (r: Option<usize>)
        ensures
            r == self.next,
    {
        self.next
    }

    /// Sets the handle of the next descriptor.
    pub fn set_next(&mut self, next: Option<usize>)
        ensures
            *final(self) == (Alloc { next, ..*old(self) }),
    {
        self.next = next;
    }

    /// Returns the handle of the next descriptor, which must exist.
    pub fn get_next_deref(&self) -> (r: usize)
        requires
            self.next is Some,
        ensures
            self.next == Some(r),
    {
        self.next.unwrap()
    }

    /// Returns the handle of the previous descriptor, which must exist.
    pub fn get_prev_deref(&self) -> (r: usize)
        requires
            self.prev is Some,
        ensures
            self.prev == Some(r),
    {
        self.prev.unwrap()
    }
}

/// The model of one region of the ledger: its state and its extent
/// `[start, end)`.
pub struct Region {
    pub flag: AllocFlags,
    pub start: int,
    pub end: int,
}

impl Region {
    pub open spec fn size(self) -> int {
        self.end - self.start
    }
}

/// A region that can serve a request for `n` bytes.
pub open spec fn fits(r: Region, n: int) -> bool {
    r.flag == AllocFlags::Free && r.size() >= n
}

/// `k` is the first region, in ledger order, that can serve `n` bytes.
pub open spec fn is_first_fit(rs: Seq<Region>, n: int, k: int) -> bool {
    &&& 0 <= k < rs.len()
    &&& fits(rs[k], n)
    &&& forall|j: int| 0 <= j < k ==> !fits(#[trigger] rs[j], n)
}

/// Some region can serve `n` bytes.
pub open spec fn has_fit(rs: Seq<Region>, n: int) -> bool {
    exists|k: int| 0 <= k < rs.len() && fits(#[trigger] rs[k], n)
}

/// `k` is the allocated region that starts at `p`.
pub open spec fn is_allocation(rs: Seq<Region>, p: int, k: int) -> bool {
    &&& 0 <= k < rs.len()
    &&& rs[k].flag == AllocFlags::Allocated
    &&& rs[k].start == p
}

/// The ledger after the first `n` bytes of free region `k` are allocated:
/// the region is allocated whole when it has exactly `n` bytes, and is split
/// into an allocated head and a free tail otherwise.
pub open spec fn after_alloc(rs: Seq<Region>, k: int, n: int) -> Seq<Region> {
    let r = rs[k];
    if r.size() == n {
        rs.update(k, Region { flag: AllocFlags::Allocated, start: r.start, end: r.end })
    } else {
        rs.take(k) + seq![
            Region { flag: AllocFlags::Allocated, start: r.start, end: r.start + n },
            Region { flag: AllocFlags::Free, start: r.start + n, end: r.end },
        ] + rs.skip(k + 1)
    }
}

/// The first region of the free run that region `k` joins when it is freed.
pub open spec fn merge_lo(rs: Seq<Region>, k: int) -> int {
    if k > 0 && rs[k - 1].flag == AllocFlags::Free {
        k - 1
    } else {
        k
    }
}

/// The last region of the free run that region `k` joins when it is freed.
pub open spec fn merge_hi(rs: Seq<Region>, k: int) -> int {
    if k + 1 < rs.len() && rs[k + 1].flag == AllocFlags::Free {
        k + 1
    } else {
        k
    }
}

/// The ledger after region `k` is freed and coalesced with its free
/// neighbours.
pub open spec fn after_free(rs: Seq<Region>, k: int) -> Seq<Region> {
    let lo = merge_lo(rs, k);
    let hi = merge_hi(rs, k);
    rs.take(lo) + seq![Region { flag: AllocFlags::Free, start: rs[lo].start, end: rs[hi].end }]
        + rs.skip(hi + 1)
}

/// Region `i` is non-empty and either free or allocated.
pub open spec fn region_ok(rs: Seq<Region>, i: int) -> bool {
    &&& rs[i].start < rs[i].end
    &&& (rs[i].flag == AllocFlags::Free || rs[i].flag == AllocFlags::Allocated)
}

/// Region `i + 1` starts where region `i` ends, and the two are not both
/// free.
pub open spec fn seam_ok(rs: Seq<Region>, i: int) -> bool {
    &&& rs[i].end == rs[i + 1].start
    &&& !(rs[i].flag == AllocFlags::Free && rs[i + 1].flag == AllocFlags::Free)
}

/// A well-formed ledger of the heap `[start, end)`: non-empty regions that
/// tile the heap in address order, each free or allocated, and no two free
/// regions side by side.
pub open spec fn ledger_ok(rs: Seq<Region>, start: int, end: int) -> bool {
    &&& rs.len() >= 1
    &&& rs[0].start == start
    &&& rs.last().end == end
    &&& forall|i: int| 0 <= i < rs.len() ==> #[trigger] region_ok(rs, i)
    &&& forall|i: int| 0 <= i < rs.len() - 1 ==> #[trigger] seam_ok(rs, i)
}

/// The number of bytes in allocated regions.
pub open spec fn allocated_total(rs: Seq<Region>) -> int
    decreases rs.len(),
{
    if rs.len() == 0 {
        0
    } else {
        allocated_total(rs.drop_last()) + if rs.last().flag == AllocFlags::Allocated {
            rs.last().size()
        } else {
            0
        }
    }
}


/// In a well-formed ledger, later regions start at higher addresses.
pub proof fn lemma_starts_increase(rs: Seq<Region>, start: int, end: int, i: int, j: int)
    requires
        ledger_ok(rs, start, end),
        0 <= i < j < rs.len(),
    ensures
        rs[i].start < rs[j].start,
        rs[i].end <= rs[j].start,
    decreases j - i,
{
    assert(region_ok(rs, i));
    assert(seam_ok(rs, i));
    if i + 1 < j {
        lemma_starts_increase(rs, start, end, i + 1, j);
        assert(region_ok(rs, i + 1));
    }
}

/// Every region lies inside the heap.
pub proof fn lemma_region_bounds(rs: Seq<Region>, start: int, end: int, k: int)
    requires
        ledger_ok(rs, start, end),
        0 <= k < rs.len(),
    ensures
        start <= rs[k].start < rs[k].end <= end,
{
    assert(region_ok(rs, k));
    if k > 0 {
        lemma_starts_increase(rs, start, end, 0, k);
    }
    if k + 1 < rs.len() {
        lemma_starts_increase(rs, start, end, k, rs.len() - 1);
        assert(region_ok(rs, rs.len() - 1));
    }
}

/// Distinct regions do not overlap.
pub proof fn lemma_disjoint(rs: Seq<Region>, start: int, end: int, j: int, k: int)
    requires
        ledger_ok(rs, start, end),
        0 <= j < rs.len(),
        0 <= k < rs.len(),
        j != k,
    ensures
        rs[j].end <= rs[k].start || rs[k].end <= rs[j].start,
        rs[j].start != rs[k].start,
{
    if j < k {
        lemma_starts_increase(rs, start, end, j, k);
    } else {
        lemma_starts_increase(rs, start, end, k, j);
    }
}

/// At most one allocated region starts at a given address.
pub proof fn lemma_allocation_unique(rs: Seq<Region>, start: int, end: int, p: int, k: int, l: int)
    requires
        ledger_ok(rs, start, end),
        is_allocation(rs, p, k),
        is_allocation(rs, p, l),
    ensures
        k == l,
{
    if k < l {
        lemma_starts_increase(rs, start, end, k, l);
    } else if l < k {
        lemma_starts_increase(rs, start, end, l, k);
    }
}

/// The allocated bytes of a concatenation are the sum of its parts'.
pub proof fn lemma_total_concat(a: Seq<Region>, b: Seq<Region>)
    ensures
        allocated_total(a + b) == allocated_total(a) + allocated_total(b),
    decreases b.len(),
{
    if b.len() == 0 {
        assert(a + b =~= a);
    } else {
        assert((a + b).drop_last() =~= a + b.drop_last());
        lemma_total_concat(a, b.drop_last());
    }
}

/// The allocated bytes of a single region.
pub proof fn lemma_total_one(r: Region)
    ensures
        allocated_total(seq![r]) == if r.flag == AllocFlags::Allocated {
            r.size()
        } else {
            0
        },
{
    assert(seq![r].drop_last() =~= Seq::<Region>::empty());
    assert(allocated_total(Seq::<Region>::empty()) == 0);
}

/// `rs` split around its slice `[lo, hi]`.
pub proof fn lemma_total_split(rs: Seq<Region>, lo: int, hi: int)
    requires
        0 <= lo <= hi < rs.len(),
    ensures
        allocated_total(rs) == allocated_total(rs.take(lo)) + allocated_total(
            rs.subrange(lo, hi + 1),
        ) + allocated_total(rs.skip(hi + 1)),
{
    assert(rs =~= rs.take(lo) + rs.subrange(lo, hi + 1) + rs.skip(hi + 1));
    lemma_total_concat(rs.take(lo) + rs.subrange(lo, hi + 1), rs.skip(hi + 1));
    lemma_total_concat(rs.take(lo), rs.subrange(lo, hi + 1));
}

/// Allocating `n` bytes from a fitting region adds `n` allocated bytes and
/// keeps the ledger well formed.
pub proof fn lemma_after_alloc(rs: Seq<Region>, start: int, end: int, k: int, n: int)
    requires
        ledger_ok(rs, start, end),
        0 <= k < rs.len(),
        fits(rs[k], n),
        n > 0,
    ensures
        ledger_ok(after_alloc(rs, k, n), start, end),
        allocated_total(after_alloc(rs, k, n)) == allocated_total(rs) + n,
{
    let r = rs[k];
    let a = Region { flag: AllocFlags::Allocated, start: r.start, end: r.start + n };
    let f = Region { flag: AllocFlags::Free, start: r.start + n, end: r.end };
    let out = after_alloc(rs, k, n);
    lemma_total_split(rs, k, k);
    lemma_total_one(r);
    assert(rs.subrange(k, k + 1) =~= seq![r]);
    if r.size() == n {
        let a2 = Region { flag: AllocFlags::Allocated, start: r.start, end: r.end };
        assert(out.subrange(k, k + 1) =~= seq![a2]);
        assert(out.take(k) =~= rs.take(k));
        assert(out.skip(k + 1) =~= rs.skip(k + 1));
        lemma_total_split(out, k, k);
        lemma_total_one(a2);
        assert forall|i: int| 0 <= i < out.len() implies #[trigger] region_ok(out, i) by {
            assert(region_ok(rs, i));
        }
        assert forall|i: int| 0 <= i < out.len() - 1 implies #[trigger] seam_ok(out, i) by {
            assert(seam_ok(rs, i));
        }
        if k > 0 {
            assert(seam_ok(rs, k - 1));
        }
    } else {
        assert(out.len() == rs.len() + 1);
        assert(out.subrange(k, k + 2) =~= seq![a, f]);
        assert(out.take(k) =~= rs.take(k));
        assert(out.skip(k + 2) =~= rs.skip(k + 1));
        assert(seq![a, f] =~= seq![a] + seq![f]);
        lemma_total_concat(seq![a], seq![f]);
        lemma_total_one(a);
        lemma_total_one(f);
        assert(out =~= out.take(k) + out.subrange(k, k + 2) + out.skip(k + 2));
        lemma_total_concat(out.take(k) + out.subrange(k, k + 2), out.skip(k + 2));
        lemma_total_concat(out.take(k), out.subrange(k, k + 2));
        assert(region_ok(rs, k));
        assert forall|i: int| 0 <= i < out.len() implies #[trigger] region_ok(out, i) by {
            if i < k {
                assert(region_ok(rs, i));
            } else if i > k + 1 {
                assert(region_ok(rs, i - 1));
            }
        }
        assert forall|i: int| 0 <= i < out.len() - 1 implies #[trigger] seam_ok(out, i) by {
            if i < k - 1 {
                assert(seam_ok(rs, i));
            } else if i == k - 1 {
                assert(seam_ok(rs, k - 1));
            } else if i == k + 1 {
                assert(seam_ok(rs, k));
            } else if i > k + 1 {
                assert(seam_ok(rs, i - 1));
            }
        }
    }
}


/// Freeing allocated region `k` removes its bytes from the allocated total
/// and keeps the ledger well formed.
pub proof fn lemma_after_free(rs: Seq<Region>, start: int, end: int, k: int)
    requires
        ledger_ok(rs, start, end),
        0 <= k < rs.len(),
        rs[k].flag == AllocFlags::Allocated,
    ensures
        ledger_ok(after_free(rs, k), start, end),
        allocated_total(after_free(rs, k)) == allocated_total(rs) - rs[k].size(),
        after_free(rs, k).len() == rs.len() - (merge_hi(rs, k) - merge_lo(rs, k)),
{
    let lo = merge_lo(rs, k);
    let hi = merge_hi(rs, k);
    let m = Region { flag: AllocFlags::Free, start: rs[lo].start, end: rs[hi].end };
    let out = after_free(rs, k);
    assert(out =~= rs.take(lo) + seq![m] + rs.skip(hi + 1));
    lemma_total_concat(rs.take(lo) + seq![m], rs.skip(hi + 1));
    lemma_total_concat(rs.take(lo), seq![m]);
    lemma_total_one(m);
    lemma_total_split(rs, lo, hi);
    let mid = rs.subrange(lo, hi + 1);
    lemma_total_one(rs[k]);
    if lo < k {
        lemma_total_one(rs[lo]);
        assert(seam_ok(rs, lo));
    }
    if hi > k {
        lemma_total_one(rs[hi]);
        assert(seam_ok(rs, k));
    }
    if lo < k && hi > k {
        assert(mid =~= seq![rs[lo]] + seq![rs[k]] + seq![rs[hi]]);
        lemma_total_concat(seq![rs[lo]] + seq![rs[k]], seq![rs[hi]]);
        lemma_total_concat(seq![rs[lo]], seq![rs[k]]);
    } else if lo < k {
        assert(mid =~= seq![rs[lo]] + seq![rs[k]]);
        lemma_total_concat(seq![rs[lo]], seq![rs[k]]);
    } else if hi > k {
        assert(mid =~= seq![rs[k]] + seq![rs[hi]]);
        lemma_total_concat(seq![rs[k]], seq![rs[hi]]);
    } else {
        assert(mid =~= seq![rs[k]]);
    }
    assert(region_ok(rs, lo));
    assert(region_ok(rs, hi));
    if lo < hi {
        lemma_starts_increase(rs, start, end, lo, hi);
    }
    assert(out.len() == lo + 1 + rs.len() - hi - 1);
    assert forall|i: int| 0 <= i < out.len() implies #[trigger] region_ok(out, i) by {
        if i < lo {
            assert(region_ok(rs, i));
        } else if i > lo {
            assert(region_ok(rs, i - lo + hi));
        }
    }
    assert forall|i: int| 0 <= i < out.len() - 1 implies #[trigger] seam_ok(out, i) by {
        if i < lo - 1 {
            assert(seam_ok(rs, i));
        } else if i == lo - 1 {
            assert(seam_ok(rs, lo - 1));
            if lo < k {
                assert(seam_ok(rs, lo - 1));
                assert(rs[lo].flag == AllocFlags::Free);
            }
        } else if i == lo {
            assert(seam_ok(rs, hi));
            if hi > k {
                assert(seam_ok(rs, hi));
            }
        } else {
            assert(seam_ok(rs, i - lo + hi));
        }
    }
    if lo == 0 {
    } else {
        assert(out[0] == rs[0]);
    }
    if hi + 1 < rs.len() {
        assert(out.last() == rs.last());
    }
}

/// The region made by an allocation starts where the fitting region did and
/// holds exactly the bytes asked for.
pub proof fn lemma_allocated_region(rs: Seq<Region>, k: int, n: int)
    requires
        0 <= k < rs.len(),
        fits(rs[k], n),
    ensures
        is_allocation(after_alloc(rs, k, n), rs[k].start, k),
        after_alloc(rs, k, n)[k].size() == n,
{
}

/// No leak: freeing an allocation right after making it restores the ledger
/// exactly, and with it the allocated total; making it adds exactly its size
/// to that total.
pub proof fn lemma_alloc_then_free_restores(rs: Seq<Region>, start: int, end: int, n: int, k: int)
    requires
        ledger_ok(rs, start, end),
        is_first_fit(rs, n, k),
        n > 0,
    ensures
        is_allocation(after_alloc(rs, k, n), rs[k].start, k),
        after_alloc(rs, k, n)[k].size() == n,
        allocated_total(after_alloc(rs, k, n)) == allocated_total(rs) + n,
        after_free(after_alloc(rs, k, n), k) == rs,
{
    lemma_after_alloc(rs, start, end, k, n);
    let rs2 = after_alloc(rs, k, n);
    if k > 0 {
        assert(seam_ok(rs, k - 1));
    }
    if k + 1 < rs.len() {
        assert(seam_ok(rs, k));
    }
    let out = after_free(rs2, k);
    if rs[k].size() == n {
        assert(out =~= rs);
    } else {
        assert(rs2[k + 1].flag == AllocFlags::Free);
        assert(merge_hi(rs2, k) == k + 1);
        assert(out =~= rs);
    }
}

/// One call on the allocator: an allocation of some bytes, or the freeing of
/// the allocation that starts at some address.
pub enum HeapOp {
    Allocate(int),
    Free(int),
}

/// The region that first fit serves for `n` bytes.
pub open spec fn first_fit_at(rs: Seq<Region>, n: int) -> int {
    choose|k: int| is_first_fit(rs, n, k)
}

/// The allocated region that starts at `p`.
pub open spec fn allocation_at(rs: Seq<Region>, p: int) -> int {
    choose|k: int| is_allocation(rs, p, k)
}

/// The position in `live` of the entry for address `p`.
pub open spec fn live_index(live: Seq<(int, int)>, p: int) -> int {
    choose|i: int| 0 <= i < live.len() && live[i].0 == p
}

/// The bytes of the outstanding allocations `live`, as (address, size)
/// pairs.
pub open spec fn live_total(live: Seq<(int, int)>) -> int
    decreases live.len(),
{
    if live.len() == 0 {
        0
    } else {
        live_total(live.drop_last()) + live.last().1
    }
}

/// Runs `ops` on the ledger `rs`, where `live` lists the allocations made
/// by earlier operations and not yet freed. Each allocation must be served
/// and each free must name an outstanding allocation of the run; otherwise
/// the run is `None`. Gives the final ledger and outstanding allocations.
pub open spec fn run(rs: Seq<Region>, live: Seq<(int, int)>, ops: Seq<HeapOp>) -> Option<
    (Seq<Region>, Seq<(int, int)>),
>
    decreases ops.len(),
{
    if ops.len() == 0 {
        Some((rs, live))
    } else {
        match ops[0] {
            HeapOp::Allocate(n) => if n > 0 && has_fit(rs, n) {
                let k = first_fit_at(rs, n);
                run(after_alloc(rs, k, n), live.push((rs[k].start, n)), ops.skip(1))
            } else {
                None
            },
            HeapOp::Free(p) => if exists|i: int| 0 <= i < live.len() && live[i].0 == p {
                run(after_free(rs, allocation_at(rs, p)), live.remove(live_index(live, p)), ops.skip(1))
            } else {
                None
            },
        }
    }
}

/// The outstanding allocation `e`, as (address, size), is an allocated
/// region of `rs` of its size.
pub open spec fn is_live_in(rs: Seq<Region>, e: (int, int)) -> bool {
    exists|j: int| is_allocation(rs, e.0, j) && rs[j].size() == e.1
}

/// Each outstanding allocation is an allocated region of `rs` of its size,
/// and no address is outstanding twice.
pub open spec fn live_ok(rs: Seq<Region>, live: Seq<(int, int)>) -> bool {
    &&& forall|i: int| 0 <= i < live.len() ==> #[trigger] is_live_in(rs, live[i])
    &&& forall|i1: int, i2: int| 0 <= i1 < i2 < live.len() ==> live[i1].0 != live[i2].0
}

/// Allocating from free region `k` leaves every allocated region in place.
pub proof fn lemma_alloc_keeps(rs: Seq<Region>, k: int, n: int, j: int)
    requires
        0 <= k < rs.len(),
        fits(rs[k], n),
        0 <= j < rs.len(),
        rs[j].flag == AllocFlags::Allocated,
    ensures
        exists|j2: int|
            0 <= j2 < after_alloc(rs, k, n).len() && #[trigger] after_alloc(rs, k, n)[j2] == rs[j],
{
    let out = after_alloc(rs, k, n);
    if j < k || rs[k].size() == n {
        assert(out[j] == rs[j]);
    } else {
        assert(out[j + 1] == rs[j]);
    }
}

/// Freeing region `k` leaves every other allocated region in place.
pub proof fn lemma_free_keeps(rs: Seq<Region>, start: int, end: int, k: int, j: int)
    requires
        ledger_ok(rs, start, end),
        0 <= k < rs.len(),
        rs[k].flag == AllocFlags::Allocated,
        0 <= j < rs.len(),
        j != k,
        rs[j].flag == AllocFlags::Allocated,
    ensures
        exists|j2: int|
            0 <= j2 < after_free(rs, k).len() && #[trigger] after_free(rs, k)[j2] == rs[j],
{
    let lo = merge_lo(rs, k);
    let hi = merge_hi(rs, k);
    let out = after_free(rs, k);
    lemma_after_free(rs, start, end, k);
    if j < lo {
        assert(out[j] == rs[j]);
    } else {
        assert(j > hi);
        assert(out[j - (hi - lo)] == rs[j]);
    }
}

/// Removing entry `i` removes its size from the total.
proof fn lemma_live_total_remove(live: Seq<(int, int)>, i: int)
    requires
        0 <= i < live.len(),
    ensures
        live_total(live.remove(i)) == live_total(live) - live[i].1,
    decreases live.len(),
{
    if i == live.len() - 1 {
        assert(live.remove(i) =~= live.drop_last());
    } else {
        lemma_live_total_remove(live.drop_last(), i);
        assert(live.remove(i).drop_last() =~= live.drop_last().remove(i));
    }
}

/// A run keeps the ledger well formed and its outstanding allocations in
/// place, and moves the allocated total exactly as the outstanding total.
pub proof fn lemma_run_accounts(
    rs: Seq<Region>,
    start: int,
    end: int,
    live: Seq<(int, int)>,
    ops: Seq<HeapOp>,
)
    requires
        ledger_ok(rs, start, end),
        live_ok(rs, live),
        run(rs, live, ops) is Some,
    ensures
        ({
            let (out, out_live) = run(rs, live, ops)->0;
            &&& ledger_ok(out, start, end)
            &&& live_ok(out, out_live)
            &&& allocated_total(out) - live_total(out_live) == allocated_total(rs) - live_total(
                live,
            )
        }),
    decreases ops.len(),
{
    if ops.len() == 0 {
        return;
    }
    match ops[0] {
        HeapOp::Allocate(n) => {
            assert(n > 0 && has_fit(rs, n));
            let k = first_fit_at(rs, n);
            assert(is_first_fit(rs, n, k)) by {
                let w = choose|w: int| 0 <= w < rs.len() && fits(#[trigger] rs[w], n);
                lemma_first_fit_exists(rs, n, w);
            }
            let rs2 = after_alloc(rs, k, n);
            let live2 = live.push((rs[k].start, n));
            lemma_after_alloc(rs, start, end, k, n);
            lemma_allocated_region(rs, k, n);
            assert forall|i: int| 0 <= i < live2.len() implies #[trigger] is_live_in(rs2, live2[i]) by {
                if i < live.len() {
                    assert(is_live_in(rs, live[i]));
                    let j = choose|j: int|
                        is_allocation(rs, live[i].0, j) && rs[j].size() == live[i].1;
                    lemma_alloc_keeps(rs, k, n, j);
                    let j2 = choose|j2: int| 0 <= j2 < rs2.len() && #[trigger] rs2[j2] == rs[j];
                    assert(is_allocation(rs2, live2[i].0, j2));
                } else {
                    assert(is_allocation(rs2, live2[i].0, k));
                }
            }
            assert forall|i1: int, i2: int| 0 <= i1 < i2 < live2.len() implies live2[i1].0
                != live2[i2].0 by {
                if i2 == live.len() {
                    assert(is_live_in(rs, live[i1]));
                    let j = choose|j: int|
                        is_allocation(rs, live[i1].0, j) && rs[j].size() == live[i1].1;
                    if j < k {
                        lemma_starts_increase(rs, start, end, j, k);
                    } else if k < j {
                        lemma_starts_increase(rs, start, end, k, j);
                    }
                }
            }
            assert(live2.drop_last() =~= live);
            assert(run(rs, live, ops) == run(rs2, live2, ops.skip(1)));
            lemma_run_accounts(rs2, start, end, live2, ops.skip(1));
        },
        HeapOp::Free(p) => {
            assert(exists|i: int| 0 <= i < live.len() && live[i].0 == p);
            let i = live_index(live, p);
            assert(is_live_in(rs, live[i]));
            let j = choose|j: int| is_allocation(rs, live[i].0, j) && rs[j].size() == live[i].1;
            let k = allocation_at(rs, p);
            lemma_allocation_unique(rs, start, end, p, j, k);
            let rs2 = after_free(rs, k);
            let live2 = live.remove(i);
            lemma_after_free(rs, start, end, k);
            lemma_live_total_remove(live, i);
            assert forall|i3: int| 0 <= i3 < live2.len() implies #[trigger] is_live_in(
                rs2,
                live2[i3],
            ) by {
                let io = if i3 < i { i3 } else { i3 + 1 };
                assert(live2[i3] == live[io]);
                assert(is_live_in(rs, live[io]));
                let jo = choose|jo: int|
                    is_allocation(rs, live[io].0, jo) && rs[jo].size() == live[io].1;
                assert(jo != k);
                lemma_free_keeps(rs, start, end, k, jo);
                let j2 = choose|j2: int| 0 <= j2 < rs2.len() && #[trigger] rs2[j2] == rs[jo];
                assert(is_allocation(rs2, live2[i3].0, j2));
            }
            assert forall|i1: int, i2: int| 0 <= i1 < i2 < live2.len() implies live2[i1].0
                != live2[i2].0 by {
                let a = if i1 < i { i1 } else { i1 + 1 };
                let b = if i2 < i { i2 } else { i2 + 1 };
                assert(live2[i1] == live[a] && live2[i2] == live[b]);
            }
            assert(run(rs, live, ops) == run(rs2, live2, ops.skip(1)));
            lemma_run_accounts(rs2, start, end, live2, ops.skip(1));
        },
    }
}

/// When some region can serve `n` bytes, first fit finds one.
proof fn lemma_first_fit_exists(rs: Seq<Region>, n: int, w: int)
    requires
        0 <= w < rs.len(),
        fits(rs[w], n),
    ensures
        exists|k: int| is_first_fit(rs, n, k),
    decreases w,
{
    if forall|j: int| 0 <= j < w ==> !fits(#[trigger] rs[j], n) {
        assert(is_first_fit(rs, n, w));
    } else {
        let j = choose|j: int| 0 <= j < w && fits(#[trigger] rs[j], n);
        lemma_first_fit_exists(rs, n, j);
    }
}

/// No leak: a run of allocations and frees in which every allocation is
/// freed exactly once, and only allocations of the run are freed, leaves the
/// allocated byte count where it started.
pub proof fn lemma_balanced_run_restores_count(
    rs: Seq<Region>,
    start: int,
    end: int,
    ops: Seq<HeapOp>,
)
    requires
        ledger_ok(rs, start, end),
        run(rs, Seq::<(int, int)>::empty(), ops) is Some,
        ({
            let (_, live) = run(rs, Seq::<(int, int)>::empty(), ops)->0;
            live.len() == 0
        }),
    ensures
        ({
            let (out, _) = run(rs, Seq::<(int, int)>::empty(), ops)->0;
            allocated_total(out) == allocated_total(rs)
        }),
{
    lemma_run_accounts(rs, start, end, Seq::<(int, int)>::empty(), ops);
}

/// A well-formed ledger holds no fewer allocated bytes than any one of its
/// allocated regions.
proof fn lemma_total_covers(rs: Seq<Region>, start: int, end: int, j: int)
    requires
        ledger_ok(rs, start, end),
        0 <= j < rs.len(),
        rs[j].flag == AllocFlags::Allocated,
    ensures
        allocated_total(rs) >= rs[j].size(),
{
    lemma_total_split(rs, j, j);
    lemma_total_one(rs[j]);
    assert(rs.subrange(j, j + 1) =~= seq![rs[j]]);
    let a = rs.take(j);
    let b = rs.skip(j + 1);
    assert forall|i: int| 0 <= i < a.len() implies #[trigger] a[i].start <= a[i].end by {
        assert(region_ok(rs, i));
    }
    assert forall|i: int| 0 <= i < b.len() implies #[trigger] b[i].start <= b[i].end by {
        assert(region_ok(rs, i + j + 1));
    }
    lemma_total_nonneg(rs.take(j));
    lemma_total_nonneg(rs.skip(j + 1));
}

/// Allocated totals are never negative when allocated regions are not
/// reversed.
proof fn lemma_total_nonneg(rs: Seq<Region>)
    requires
        forall|i: int| 0 <= i < rs.len() ==> #[trigger] rs[i].start <= rs[i].end,
    ensures
        allocated_total(rs) >= 0,
    decreases rs.len(),
{
    if rs.len() > 0 {
        assert(rs.last().start <= rs.last().end);
        lemma_total_nonneg(rs.drop_last());
    }
}

/// A well-formed ledger with nothing allocated is one free region spanning
/// the heap.
pub proof fn lemma_nothing_allocated(rs: Seq<Region>, start: int, end: int)
    requires
        ledger_ok(rs, start, end),
        allocated_total(rs) == 0,
    ensures
        rs == seq![Region { flag: AllocFlags::Free, start, end }],
{
    assert forall|i: int| 0 <= i < rs.len() implies rs[i].flag == AllocFlags::Free by {
        assert(region_ok(rs, i));
        if rs[i].flag == AllocFlags::Allocated {
            assert forall|m: int| 0 <= m < rs.len() implies #[trigger] rs[m].start <= rs[m].end by {
                assert(region_ok(rs, m));
            }
            lemma_total_covers(rs, start, end, i);
        }
    }
    if rs.len() > 1 {
        assert(seam_ok(rs, 0));
    }
    assert(rs =~= seq![Region { flag: AllocFlags::Free, start, end }]);
}

} // verus!
