//! A first-fit free-list allocator over one contiguous heap region, with
//! permanent reservations and an extensible upper bound.
use vstd::prelude::*;
use crate::region::{
    MemoryRegion, covers, cover_set, nonempty, bounded, well_ordered, subtract_all,
    pairwise_apart, total_length, lemma_splice, lemma_covers_push, lemma_covers_remove, lemma_subtract_all,
    lemma_sorted_apart, lemma_cover_len, subtract_each, addressable, lemma_subtract_each, lemma_concat,
    subtract_region, subtract_regions,
};
use vstd::set_lib::{set_int_range, lemma_int_range, lemma_set_disjoint_lens};
use vstd::arithmetic::div_mod::{lemma_mod_pos_bound, lemma_fundamental_div_mod, lemma_mod_multiples_basic};

verus! {

/// Why a reservation was refused: the region overlaps a block that is
/// currently allocated to a caller.
#[derive(Clone, Copy, Debug, PartialEq, Eq, Structural)]
pub enum ReserveError {
    ReservationConflict,
}

/// No address is held by both lists.
pub open spec fn apart(s: Seq<MemoryRegion>, t: Seq<MemoryRegion>) -> bool {
    forall|a: int| !(#[trigger] covers(s, a) && #[trigger] covers(t, a))
}

/// The least multiple of `align` that is at least `x`.
pub open spec fn align_up(x: int, align: int) -> int {
    if x % align == 0 {
        x
    } else {
        x - x % align + align
    }
}

/// A block of `size` bytes aligned to `align` fits in `b`.
pub open spec fn fits(b: MemoryRegion, size: int, align: int) -> bool {
    align_up(b.start as int, align) + size <= b.end()
}

/// `i` is the first block of `s` in which the request fits.
pub open spec fn is_first_fit(s: Seq<MemoryRegion>, i: int, size: int, align: int) -> bool {
    &&& 0 <= i < s.len()
    &&& fits(s[i], size, align)
    &&& forall|j: int| 0 <= j < i ==> !fits(#[trigger] s[j], size, align)
}

/// The block handed out when the request is served from `b`: the lowest
/// aligned address of `b`.
pub open spec fn carve(b: MemoryRegion, size: int, align: int) -> MemoryRegion {
    MemoryRegion { start: align_up(b.start as int, align) as u64, length: size as u64 }
}

/// What stays free of `b` once `h` is cut out of it: the part below `h` and
/// the part above it, each only if it is not empty.
pub open spec fn leftovers(b: MemoryRegion, h: MemoryRegion) -> Seq<MemoryRegion> {
    let front = MemoryRegion { start: b.start, length: (h.start - b.start) as u64 };
    let back = MemoryRegion { start: h.end() as u64, length: (b.end() - h.end()) as u64 };
    (if front.length > 0 { seq![front] } else { Seq::<MemoryRegion>::empty() })
        + (if back.length > 0 { seq![back] } else { Seq::<MemoryRegion>::empty() })
}

/// Some block of `s` shares an address with the non-empty region `r`.
pub open spec fn conflicts(s: Seq<MemoryRegion>, r: MemoryRegion) -> bool {
    r.length > 0 && exists|k: int| 0 <= k < s.len() && (#[trigger] s[k]).overlaps(r)
}

/// The part of `r` that `rs` does not reserve yet, as a well-ordered list.
pub open spec fn fresh_part(r: MemoryRegion, rs: Seq<MemoryRegion>) -> Seq<MemoryRegion> {
    subtract_each(if r.length > 0 { seq![r] } else { Seq::<MemoryRegion>::empty() }, rs)
}

/// The free blocks that raising the heap's end from `lo` to `hi` adds: the
/// new range, less what `rs` reserves.
pub open spec fn new_space(lo: int, hi: int, rs: Seq<MemoryRegion>) -> Seq<MemoryRegion> {
    subtract_each(seq![MemoryRegion { start: lo as u64, length: (hi - lo) as u64 }], rs)
}

/// Every region of `s` ends strictly before the next one starts: no two
/// free blocks are adjacent without being merged.
pub open spec fn coalesced(s: Seq<MemoryRegion>) -> bool {
    forall|i: int, j: int| 0 <= i < j < s.len() ==> (#[trigger] s[i]).end() < (#[trigger] s[j]).start
}

/// Two coalesced lists of non-empty regions that cover the same addresses
/// are the same list.
proof fn lemma_canonical(s: Seq<MemoryRegion>, t: Seq<MemoryRegion>)
    requires
        coalesced(s),
        coalesced(t),
        nonempty(s),
        nonempty(t),
        cover_set(s) == cover_set(t),
    ensures
        s == t,
    decreases s.len() + t.len(),
{
    if s.len() == 0 || t.len() == 0 {
        if s.len() > 0 {
            assert(s[0].contains_addr(s[0].start as int));
            assert(cover_set(s).contains(s[0].start as int));
        }
        if t.len() > 0 {
            assert(t[0].contains_addr(t[0].start as int));
            assert(cover_set(t).contains(t[0].start as int));
        }
        assert(s =~= t);
    } else {
        // every covered address lies at or above the first start
        assert forall|a: int| covers(s, a) implies a >= s[0].start by {
            let k = choose|k: int| 0 <= k < s.len() && (#[trigger] s[k]).contains_addr(a);
            if k > 0 {
                assert(s[0].end() < s[k].start);
            }
        }
        assert forall|a: int| covers(t, a) implies a >= t[0].start by {
            let k = choose|k: int| 0 <= k < t.len() && (#[trigger] t[k]).contains_addr(a);
            if k > 0 {
                assert(t[0].end() < t[k].start);
            }
        }
        assert(s[0].contains_addr(s[0].start as int));
        assert(t[0].contains_addr(t[0].start as int));
        assert(cover_set(s).contains(s[0].start as int));
        assert(cover_set(t).contains(t[0].start as int));
        assert(s[0].start == t[0].start);
        // the first end is the first address above the start that is not covered
        assert forall|k: int| 0 <= k < s.len() implies !(#[trigger] s[k]).contains_addr(s[0].end()) by {
            if k > 0 {
                assert(s[0].end() < s[k].start);
            }
        }
        assert forall|k: int| 0 <= k < t.len() implies !(#[trigger] t[k]).contains_addr(t[0].end()) by {
            if k > 0 {
                assert(t[0].end() < t[k].start);
            }
        }
        if s[0].end() < t[0].end() {
            assert(t[0].contains_addr(s[0].end()));
            assert(cover_set(t).contains(s[0].end()));
        }
        if t[0].end() < s[0].end() {
            assert(s[0].contains_addr(t[0].end()));
            assert(cover_set(s).contains(t[0].end()));
        }
        assert(s[0] == t[0]);
        let s1 = s.subrange(1, s.len() as int);
        let t1 = t.subrange(1, t.len() as int);
        assert forall|a: int| covers(s1, a) <==> covers(s, a) && !s[0].contains_addr(a) by {
            if covers(s1, a) {
                let k = choose|k: int| 0 <= k < s1.len() && (#[trigger] s1[k]).contains_addr(a);
                assert(s[k + 1].contains_addr(a));
                assert(s[0].end() < s[k + 1].start);
            }
            if covers(s, a) && !s[0].contains_addr(a) {
                let k = choose|k: int| 0 <= k < s.len() && (#[trigger] s[k]).contains_addr(a);
                assert(s1[k - 1].contains_addr(a));
            }
        }
        assert forall|a: int| covers(t1, a) <==> covers(t, a) && !t[0].contains_addr(a) by {
            if covers(t1, a) {
                let k = choose|k: int| 0 <= k < t1.len() && (#[trigger] t1[k]).contains_addr(a);
                assert(t[k + 1].contains_addr(a));
                assert(t[0].end() < t[k + 1].start);
            }
            if covers(t, a) && !t[0].contains_addr(a) {
                let k = choose|k: int| 0 <= k < t.len() && (#[trigger] t[k]).contains_addr(a);
                assert(t1[k - 1].contains_addr(a));
            }
        }
        assert forall|a: int| cover_set(s1).contains(a) <==> cover_set(t1).contains(a) by {
            assert(cover_set(s).contains(a) == cover_set(t).contains(a));
            assert(covers(s1, a) == (covers(s, a) && !s[0].contains_addr(a)));
            assert(covers(t1, a) == (covers(t, a) && !t[0].contains_addr(a)));
            assert(cover_set(s1).contains(a) == covers(s1, a));
            assert(cover_set(t1).contains(a) == covers(t1, a));
            assert(cover_set(s).contains(a) == covers(s, a));
            assert(cover_set(t).contains(a) == covers(t, a));
        }
        assert(cover_set(s1) =~= cover_set(t1));
        assert forall|i: int, j: int| 0 <= i < j < s1.len() implies (#[trigger] s1[i]).end() < (#[trigger] s1[j]).start by {
            assert(s[i + 1].end() < s[j + 1].start);
        }
        assert forall|i: int, j: int| 0 <= i < j < t1.len() implies (#[trigger] t1[i]).end() < (#[trigger] t1[j]).start by {
            assert(t[i + 1].end() < t[j + 1].start);
        }
        assert forall|i: int| 0 <= i < s1.len() implies (#[trigger] s1[i]).length > 0 by {
            assert(s[i + 1].length > 0);
        }
        assert forall|i: int| 0 <= i < t1.len() implies (#[trigger] t1[i]).length > 0 by {
            assert(t[i + 1].length > 0);
        }
        lemma_canonical(s1, t1);
        assert(s =~= seq![s[0]] + s1);
        assert(t =~= seq![t[0]] + t1);
    }
}

/// `k` is where `h` belongs in the sorted list `s`: the blocks before it end
/// at or below `h`, the others start at or above its end.
pub open spec fn insert_pos(s: Seq<MemoryRegion>, h: MemoryRegion, k: int) -> bool {
    &&& 0 <= k <= s.len()
    &&& forall|j: int| 0 <= j < k ==> (#[trigger] s[j]).end() <= h.start
    &&& forall|j: int| k <= j < s.len() ==> (#[trigger] s[j]).start >= h.end()
}

/// `h` touches the block just below position `k`.
pub open spec fn joins_left(s: Seq<MemoryRegion>, h: MemoryRegion, k: int) -> bool {
    k > 0 && s[k - 1].end() == h.start
}

/// `h` touches the block at position `k`.
pub open spec fn joins_right(s: Seq<MemoryRegion>, h: MemoryRegion, k: int) -> bool {
    k < s.len() && s[k].start == h.end()
}

/// The block that `h` becomes once merged with the free blocks it touches.
pub open spec fn merged(s: Seq<MemoryRegion>, h: MemoryRegion, k: int) -> MemoryRegion {
    let lo = if joins_left(s, h, k) { s[k - 1].start as int } else { h.start as int };
    let hi = if joins_right(s, h, k) { s[k].end() } else { h.end() };
    MemoryRegion { start: lo as u64, length: (hi - lo) as u64 }
}

/// The free list after returning `h`, which belongs at position `k`: `h`
/// and the free blocks it touches are replaced by one block.
pub open spec fn give_back(s: Seq<MemoryRegion>, h: MemoryRegion, k: int) -> Seq<MemoryRegion> {
    let lo = if joins_left(s, h, k) { k - 1 } else { k };
    let hi = if joins_right(s, h, k) { k + 1 } else { k };
    s.take(lo) + seq![merged(s, h, k)] + s.skip(hi)
}

/// The free-list allocator. It owns the heap region `[start, end)` and keeps
/// three lists of regions: the free blocks (sorted by address), the blocks
/// handed out to callers, and the reserved blocks.
pub struct Allocator {
    start: u64,
    end: u64,
    free: Vec<MemoryRegion>,
    allocated: Vec<MemoryRegion>,
    reserved: Vec<MemoryRegion>,
}

impl Allocator {
    /// First address of the heap region.
    pub closed spec fn heap_start(&self) -> int {
        self.start as int
    }

    /// One past the last address of the heap region.
    pub closed spec fn heap_end(&self) -> int {
        self.end as int
    }

    /// The free blocks, in increasing address order.
    pub closed spec fn free_view(&self) -> Seq<MemoryRegion> {
        self.free@
    }

    /// The blocks currently owned by callers, in order of allocation.
    pub closed spec fn allocated_view(&self) -> Seq<MemoryRegion> {
        self.allocated@
    }

    /// The reserved regions, kept whole; no two share an address.
    pub closed spec fn reserved_view(&self) -> Seq<MemoryRegion> {
        self.reserved@
    }

    pub open spec fn heap_set(&self) -> Set<int> {
        Set::new(|a: int| self.heap_start() <= a < self.heap_end())
    }

    pub open spec fn free_set(&self) -> Set<int> {
        cover_set(self.free_view())
    }

    pub open spec fn allocated_set(&self) -> Set<int> {
        cover_set(self.allocated_view())
    }

    /// Every reserved address, inside the heap or beyond its current end.
    pub open spec fn reserved_set(&self) -> Set<int> {
        cover_set(self.reserved_view())
    }

    /// The allocator's invariant: the free list is sorted, disjoint and has
    /// no empty block; free and allocated blocks lie in the heap; reserved
    /// regions share no address with each other; free, allocated and
    /// reserved blocks share no address and together cover the heap.
    pub closed spec fn wf(&self) -> bool {
        &&& self.start <= self.end
        &&& well_ordered(self.free@, self.start as int, self.end as int)
        &&& nonempty(self.allocated@)
        &&& bounded(self.allocated@, self.start as int, self.end as int)
        &&& pairwise_apart(self.allocated@)
        &&& addressable(self.reserved@)
        &&& pairwise_apart(self.reserved@)
        &&& apart(self.free@, self.allocated@)
        &&& apart(self.free@, self.reserved@)
        &&& apart(self.allocated@, self.reserved@)
        &&& forall|a: int|
            self.start <= a < self.end ==> #[trigger] covers(self.free@, a) || #[trigger] covers(self.allocated@, a) || #[trigger] covers(self.reserved@, a)
    }

    /// Sets up an allocator whose only free block is the whole `region`.
    pub fn init(region: MemoryRegion) -> (r: Allocator)
        requires
            region.end() <= u64::MAX,
        ensures
            r.wf(),
            r.heap_start() == region.start,
            r.heap_end() == region.end(),
            r.free_view() == (if region.length > 0 { seq![region] } else { Seq::<MemoryRegion>::empty() }),
            r.allocated_view() == Seq::<MemoryRegion>::empty(),
            r.reserved_view() == Seq::<MemoryRegion>::empty(),
    {
        let mut free: Vec<MemoryRegion> = Vec::new();
        if region.length > 0 {
            free.push(region);
        }
        let r = Allocator {
            start: region.start,
            end: region.start + region.length,
            free,
            allocated: Vec::new(),
            reserved: Vec::new(),
        };
        assert forall|a: int| r.start <= a < r.end implies #[trigger] covers(r.free@, a) || #[trigger] covers(r.allocated@, a) || #[trigger] covers(r.reserved@, a) by {
            assert(r.free@[0].contains_addr(a));
        }
        r
    }

    /// The free blocks, in increasing address order.
    pub fn free_blocks(&self) -> (r: &Vec<MemoryRegion>)
        ensures
            r@ == self.free_view(),
    {
        &self.free
    }

    /// The blocks currently owned by callers.
    pub fn allocated_blocks(&self) -> (r: &Vec<MemoryRegion>)
        ensures
            r@ == self.allocated_view(),
    {
        &self.allocated
    }

    /// The reserved blocks.
    pub fn reserved_blocks(&self) -> (r: &Vec<MemoryRegion>)
        ensures
            r@ == self.reserved_view(),
    {
        &self.reserved
    }

    /// The heap region the allocator manages.
    pub fn heap_region(&self) -> (r: MemoryRegion)
        requires
            self.wf(),
        ensures
            r.start == self.heap_start(),
            r.end() == self.heap_end(),
    {
        MemoryRegion { start: self.start, length: self.end - self.start }
    }

    /// Raises the end of the heap region to `new_end`. The new space, less
    /// any reserved region, becomes free blocks appended after the existing
    /// ones; nothing else changes. An end that does not lie above the
    /// current one changes nothing.
    pub fn extend_upper_bound(&mut self, new_end: u64)
        requires
            old(self).wf(),
        ensures
            final(self).wf(),
            final(self).heap_start() == old(self).heap_start(),
            final(self).allocated_view() == old(self).allocated_view(),
            final(self).reserved_view() == old(self).reserved_view(),
            new_end > old(self).heap_end() ==> {
                &&& final(self).heap_end() == new_end
                &&& final(self).free_view() == old(self).free_view() + new_space(old(self).heap_end(), new_end as int, old(self).reserved_view())
            },
            new_end <= old(self).heap_end() ==> *final(self) == *old(self),
    {
        if new_end <= self.end {
            return;
        }
        let block = MemoryRegion { start: self.end, length: new_end - self.end };
        let ghost s = self.free@;
        let ghost old_end = self.end as int;
        let ghost lo = if s.len() > 0 { s[s.len() - 1].end() } else { self.start as int };
        proof {
            assert(well_ordered(seq![block], 0, u64::MAX as int));
            assert(well_ordered(seq![block], old_end, new_end as int));
            lemma_subtract_each(seq![block], self.reserved@, old_end, new_end as int);
        }
        let mut whole: Vec<MemoryRegion> = Vec::new();
        whole.push(block);
        proof {
            assert(whole@ == seq![block]);
        }
        let mut pieces = subtract_regions(whole, &self.reserved);
        let ghost p = pieces@;
        proof {
            assert(bounded(s, self.start as int, new_end as int));
            assert(well_ordered(p, lo, new_end as int));
            lemma_splice(s, s.len() as int, s.len() as int, p, lo, new_end as int, self.start as int, new_end as int);
            assert(s.take(s.len() as int) + p + s.skip(s.len() as int) == s + p);
            assert forall|a: int| #[trigger] covers(seq![block], a) <==> block.contains_addr(a) by {
                if block.contains_addr(a) {
                    assert(seq![block][0] == block);
                }
            }
            assert forall|a: int| #[trigger] covers(p, a) implies !covers(self.allocated@, a) && !covers(self.reserved@, a) && a >= old_end by {
                assert(covers(seq![block], a));
                if covers(self.allocated@, a) {
                    let k = choose|k: int| 0 <= k < self.allocated@.len() && (#[trigger] self.allocated@[k]).contains_addr(a);
                }
            }
        }
        self.free.append(&mut pieces);
        self.end = new_end;
        proof {
            let n = self.free@;
            assert(n == s + p);
            assert forall|a: int| #[trigger] covers(n, a) implies covers(s, a) || covers(p, a) by {}
            assert forall|a: int| self.start <= a < self.end implies #[trigger] covers(self.free@, a) || #[trigger] covers(self.allocated@, a) || #[trigger] covers(self.reserved@, a) by {
                if a >= old_end {
                    assert(block.contains_addr(a));
                    assert(covers(seq![block], a));
                    if !covers(self.reserved@, a) {
                        assert(covers(p, a));
                    }
                } else {
                    if covers(s, a) {
                        let k = choose|k: int| 0 <= k < s.len() && (#[trigger] s[k]).contains_addr(a);
                        assert(n[k].contains_addr(a));
                    }
                }
            }
            assert forall|a: int| !(#[trigger] covers(self.free@, a) && #[trigger] covers(self.allocated@, a)) by {
                if covers(n, a) && !covers(s, a) {
                    assert(covers(p, a));
                }
            }
            assert forall|a: int| !(#[trigger] covers(self.free@, a) && #[trigger] covers(self.reserved@, a)) by {
                if covers(n, a) && !covers(s, a) {
                    assert(covers(p, a));
                }
            }
            assert(bounded(self.allocated@, self.start as int, self.end as int));
        }
    }

    /// Cutting `h` out of free block `i` and handing it out keeps the
    /// invariant.
    proof fn lemma_carve(pre: &Allocator, post: &Allocator, i: int, h: MemoryRegion)
        requires
            pre.wf(),
            0 <= i < pre.free@.len(),
            h.length > 0,
            h.within(pre.free@[i]),
            post.start == pre.start,
            post.end == pre.end,
            post.reserved@ == pre.reserved@,
            post.allocated@ == pre.allocated@.push(h),
            post.free@ == pre.free@.take(i) + leftovers(pre.free@[i], h) + pre.free@.skip(i + 1),
        ensures
            post.wf(),
            h.addrs().subset_of(pre.free_set()),
            post.free_set() == pre.free_set().difference(h.addrs()),
            post.allocated_set() == pre.allocated_set().union(h.addrs()),
            coalesced(pre.free@) ==> coalesced(post.free@),
    {
        let s = pre.free@;
        let b = s[i];
        let pieces = leftovers(b, h);
        let gap_lo = if i > 0 { s[i - 1].end() } else { pre.start as int };
        let gap_hi = if i + 1 < s.len() { s[i + 1].start as int } else { pre.end as int };
        assert(gap_lo <= b.start) by {
            if i > 0 {
                assert(s[i - 1].end() <= s[i].start);
            }
        }
        assert(b.end() <= gap_hi) by {
            if i + 1 < s.len() {
                assert(s[i].end() <= s[i + 1].start);
            }
        }
        assert(well_ordered(pieces, gap_lo, gap_hi));
        lemma_splice(s, i, i + 1, pieces, gap_lo, gap_hi, pre.start as int, pre.end as int);
        lemma_covers_push(pre.allocated@, h);
        let n = post.free@;
        assert forall|a: int| #[trigger] covers(pieces, a) implies b.contains_addr(a) && !h.contains_addr(a) by {
            let q = choose|q: int| 0 <= q < pieces.len() && (#[trigger] pieces[q]).contains_addr(a);
        }
        assert forall|a: int| h.contains_addr(a) implies covers(s, a) && forall|j: int| 0 <= j < s.len() && j != i ==> !(#[trigger] s[j]).contains_addr(a) by {
            assert(s[i].contains_addr(a));
            assert forall|j: int| 0 <= j < s.len() && j != i implies !(#[trigger] s[j]).contains_addr(a) by {
                if j < i {
                    assert(s[j].end() <= s[i].start);
                } else {
                    assert(s[i].end() <= s[j].start);
                }
            }
        }
        assert forall|a: int| #[trigger] covers(n, a) implies covers(s, a) && !h.contains_addr(a) by {
            if covers(pieces, a) {
                assert(s[i].contains_addr(a));
            } else {
                let j = choose|j: int| (0 <= j < i || i + 1 <= j < s.len()) && (#[trigger] s[j]).contains_addr(a);
            }
        }
        assert(bounded(post.allocated@, post.start as int, post.end as int)) by {
            assert forall|k: int| 0 <= k < post.allocated@.len() implies post.start <= (#[trigger] post.allocated@[k]).start && post.allocated@[k].end() <= post.end by {
                if k == pre.allocated@.len() {
                    assert(post.allocated@[k] == h);
                } else {
                    assert(post.allocated@[k] == pre.allocated@[k]);
                }
            }
        }
        assert(nonempty(post.allocated@)) by {
            assert forall|k: int| 0 <= k < post.allocated@.len() implies (#[trigger] post.allocated@[k]).length > 0 by {
                if k < pre.allocated@.len() {
                    assert(post.allocated@[k] == pre.allocated@[k]);
                }
            }
        }
        assert(pairwise_apart(post.allocated@)) by {
            let al = post.allocated@;
            let m = pre.allocated@.len() as int;
            assert forall|p: int, q: int, a: int| 0 <= p < al.len() && 0 <= q < al.len() && p != q implies !(#[trigger] al[p].contains_addr(a) && #[trigger] al[q].contains_addr(a)) by {
                if p == m && al[q].contains_addr(a) && h.contains_addr(a) {
                    assert(pre.allocated@[q].contains_addr(a));
                    assert(covers(pre.allocated@, a));
                    assert(covers(s, a));
                } else if q == m && al[p].contains_addr(a) && h.contains_addr(a) {
                    assert(pre.allocated@[p].contains_addr(a));
                    assert(covers(pre.allocated@, a));
                    assert(covers(s, a));
                } else if p != m && q != m {
                    assert(al[p] == pre.allocated@[p]);
                    assert(al[q] == pre.allocated@[q]);
                }
            }
        }
        assert forall|a: int| !(#[trigger] covers(post.free@, a) && #[trigger] covers(post.allocated@, a)) by {
            if covers(n, a) && covers(post.allocated@, a) {
                assert(covers(s, a));
            }
        }
        assert forall|a: int| !(#[trigger] covers(post.free@, a) && #[trigger] covers(post.reserved@, a)) by {
            if covers(n, a) {
                assert(covers(s, a));
            }
        }
        assert forall|a: int| !(#[trigger] covers(post.allocated@, a) && #[trigger] covers(post.reserved@, a)) by {
            if covers(post.allocated@, a) && h.contains_addr(a) {
                assert(covers(s, a));
            }
        }
        assert forall|a: int| covers(s, a) && !h.contains_addr(a) implies #[trigger] covers(post.free@, a) by {
            if covers(s, a) && !h.contains_addr(a) {
                let j = choose|j: int| 0 <= j < s.len() && (#[trigger] s[j]).contains_addr(a);
                if j == i {
                    let front = MemoryRegion { start: b.start, length: (h.start - b.start) as u64 };
                    let back = MemoryRegion { start: h.end() as u64, length: (b.end() - h.end()) as u64 };
                    if a < h.start {
                        assert(front.contains_addr(a));
                        assert(pieces[0] == front);
                    } else {
                        assert(back.contains_addr(a));
                        assert(pieces[pieces.len() - 1] == back);
                    }
                    assert(covers(pieces, a));
                }
            }
        }
        assert forall|a: int| post.start <= a < post.end implies #[trigger] covers(post.free@, a) || #[trigger] covers(post.allocated@, a) || #[trigger] covers(post.reserved@, a) by {
            if covers(s, a) && !h.contains_addr(a) {
                assert(covers(post.free@, a));
            }
        }
        assert(post.free_set() =~= pre.free_set().difference(h.addrs()));
        assert(post.allocated_set() =~= pre.allocated_set().union(h.addrs()));
        if coalesced(s) {
            let pl = pieces.len();
            assert forall|q: int| 0 <= q < pl implies b.start <= (#[trigger] pieces[q]).start && pieces[q].end() <= b.end() by {}
            assert(pl == 2 ==> pieces[0].end() < pieces[1].start);
            assert forall|p: int, q: int| 0 <= p < q < n.len() implies (#[trigger] n[p]).end() < (#[trigger] n[q]).start by {
                if p < i && q >= i && q < i + pl {
                    assert(s[p].end() < s[i].start);
                } else if p >= i && p < i + pl && q >= i + pl {
                    assert(s[i].end() < s[q - pl + 1].start);
                } else if p < i && q >= i + pl {
                    assert(s[p].end() < s[q - pl + 1].start);
                } else if p >= i + pl {
                    assert(s[p - pl + 1].end() < s[q - pl + 1].start);
                }
            }
        }
    }

    /// The lowest multiple of `align` at or above `x`, if it fits in 64 bits.
    fn align_up_exec(x: u64, align: u64) -> (r: Option<u64>)
        requires
            align > 0,
        ensures
            r == (if align_up(x as int, align as int) <= u64::MAX { Some(align_up(x as int, align as int) as u64) } else { None::<u64> }),
            align_up(x as int, align as int) >= x,
            align_up(x as int, align as int) % (align as int) == 0,
    {
        proof {
            lemma_mod_pos_bound(x as int, align as int);
            lemma_fundamental_div_mod(x as int, align as int);
            if (x as int) % (align as int) != 0 {
                lemma_mod_multiples_basic((x as int) / (align as int) + 1, align as int);
                assert((x as int) - (x as int) % (align as int) + align == ((x as int) / (align as int) + 1) * align) by (nonlinear_arith)
                    requires (x as int) == align * ((x as int) / (align as int)) + (x as int) % (align as int);
            }
        }
        let rem = x % align;
        if rem == 0 {
            Some(x)
        } else {
            (x - rem).checked_add(align)
        }
    }

    /// First-fit allocation of `size` bytes aligned to `align`. The first
    /// free block with room for an aligned block of that size is split: the
    /// block at its lowest aligned address goes to the caller, what lies
    /// below and above stays free. When no free block has room, or `size` is
    /// zero, nothing changes and `None` comes back.
    pub fn allocate(&mut self, size: u64, align: u64) -> (r: Option<MemoryRegion>)
        requires
            old(self).wf(),
            align > 0,
        ensures
            final(self).wf(),
            final(self).heap_start() == old(self).heap_start(),
            final(self).heap_end() == old(self).heap_end(),
            final(self).reserved_view() == old(self).reserved_view(),
            match r {
                Some(h) => exists|i: int| {
                    &&& #[trigger] is_first_fit(old(self).free_view(), i, size as int, align as int)
                    &&& h == carve(old(self).free_view()[i], size as int, align as int)
                    &&& final(self).free_view() == old(self).free_view().take(i) + leftovers(old(self).free_view()[i], h)
                        + old(self).free_view().skip(i + 1)
                    &&& final(self).allocated_view() == old(self).allocated_view().push(h)
                },
                None => {
                    &&& size == 0 || forall|i: int| 0 <= i < old(self).free_view().len() ==> !fits(#[trigger] old(self).free_view()[i], size as int, align as int)
                    &&& *final(self) == *old(self)
                },
            },
            size == 0 ==> r is None,
            r matches Some(h) ==> took(*old(self), *final(self), h),
            r matches Some(h) ==> (h.start as int) % (align as int) == 0 && h.length == size,
            r matches Some(h) ==> {
                &&& h.addrs().subset_of(old(self).free_set())
                &&& final(self).free_set() == old(self).free_set().difference(h.addrs())
                &&& final(self).allocated_set() == old(self).allocated_set().union(h.addrs())
            },
            coalesced(old(self).free_view()) ==> coalesced(final(self).free_view()),
    {
        if size == 0 {
            return None;
        }
        let n = self.free.len();
        let mut i: usize = 0;
        while i < n
            invariant
                self.wf(),
                *self == *old(self),
                n == self.free@.len(),
                0 <= i <= n,
                size > 0,
                align > 0,
                forall|j: int| 0 <= j < i ==> !fits(#[trigger] self.free@[j], size as int, align as int),
            decreases n - i,
        {
            let b = self.free[i];
            proof {
                assert(b.end() <= self.end);
            }
            let b_end = b.start + b.length;
            match Self::align_up_exec(b.start, align) {
                Some(a) => {
                    if size <= b_end && a <= b_end - size {
                        let h = MemoryRegion { start: a, length: size };
                        let front = MemoryRegion { start: b.start, length: a - b.start };
                        let back = MemoryRegion { start: a + size, length: b_end - (a + size) };
                        let ghost s = self.free@;
                        let ghost ii = i as int;
                        let ghost pieces = leftovers(b, h);
                        self.free.remove(i);
                        if back.length > 0 {
                            self.free.insert(i, back);
                        }
                        if front.length > 0 {
                            self.free.insert(i, front);
                        }
                        self.allocated.push(h);
                        proof {
                            assert(self.free@ =~= s.take(ii) + pieces + s.skip(ii + 1));
                            Self::lemma_carve(old(self), self, ii, h);
                            assert(is_first_fit(s, ii, size as int, align as int));
                            assert(h == carve(s[ii], size as int, align as int));
                            assert(self.free_view() == old(self).free_view().take(ii) + leftovers(old(self).free_view()[ii], h) + old(self).free_view().skip(ii + 1));
                            assert(self.allocated_view() == old(self).allocated_view().push(h));
                        }
                        return Some(h);
                    }
                },
                None => {},
            }
            i += 1;
        }
        None
    }

    /// Removes `region` from allocation, for good: its addresses leave the
    /// free list and join the reserved ones, also those beyond the heap's
    /// current end, so that a later `extend_upper_bound` keeps them out.
    /// Refused, with nothing changed, when `region` shares an address with a
    /// block that a caller holds.
    pub fn reserve(&mut self, region: MemoryRegion) -> (r: Result<(), ReserveError>)
        requires
            old(self).wf(),
            region.end() <= u64::MAX,
        ensures
            final(self).wf(),
            r is Err <==> conflicts(old(self).allocated_view(), region),
            r is Err ==> *final(self) == *old(self),
            r is Ok ==> {
                &&& final(self).heap_start() == old(self).heap_start()
                &&& final(self).heap_end() == old(self).heap_end()
                &&& final(self).allocated_view() == old(self).allocated_view()
                &&& final(self).free_view() == subtract_all(old(self).free_view(), region)
                &&& final(self).reserved_view() == old(self).reserved_view() + fresh_part(region, old(self).reserved_view())
                &&& final(self).free_set() == old(self).free_set().difference(region.addrs())
                &&& final(self).reserved_set() == old(self).reserved_set().union(region.addrs())
            },
    {
        let n = self.allocated.len();
        let mut k: usize = 0;
        while k < n
            invariant
                self.wf(),
                *self == *old(self),
                n == self.allocated@.len(),
                0 <= k <= n,
                region.length == 0 || forall|j: int| 0 <= j < k ==> !(#[trigger] self.allocated@[j]).overlaps(region),
            decreases n - k,
        {
            if region.length > 0 && self.allocated[k].overlaps_exec(&region) {
                return Err(ReserveError::ReservationConflict);
            }
            k += 1;
        }
        proof {
            assert(addressable(self.free@)) by {
                assert forall|i: int| 0 <= i < self.free@.len() implies (#[trigger] self.free@[i]).end() <= u64::MAX by {}
            }
        }
        let free = subtract_region(&self.free, region);
        let mut whole: Vec<MemoryRegion> = Vec::new();
        if region.length > 0 {
            whole.push(region);
        }
        proof {
            assert(whole@ == (if region.length > 0 { seq![region] } else { Seq::<MemoryRegion>::empty() }));
            assert(well_ordered(whole@, 0, u64::MAX as int));
        }
        let mut fresh = subtract_regions(whole, &self.reserved);
        self.free = free;
        self.reserved.append(&mut fresh);
        proof {
            Self::lemma_reserve(old(self), self, region);
        }
        Ok(())
    }

    /// Taking a region that no allocated block touches out of the free list
    /// and into the reserved list keeps the invariant.
    proof fn lemma_reserve(pre: &Allocator, post: &Allocator, region: MemoryRegion)
        requires
            pre.wf(),
            region.end() <= u64::MAX,
            !conflicts(pre.allocated@, region),
            post.start == pre.start,
            post.end == pre.end,
            post.allocated@ == pre.allocated@,
            post.free@ == subtract_all(pre.free@, region),
            post.reserved@ == pre.reserved@ + fresh_part(region, pre.reserved@),
        ensures
            post.wf(),
            post.free_set() == pre.free_set().difference(region.addrs()),
            post.reserved_set() == pre.reserved_set().union(region.addrs()),
    {
        let whole = if region.length > 0 { seq![region] } else { Seq::<MemoryRegion>::empty() };
        let fresh = fresh_part(region, pre.reserved@);
        assert(well_ordered(whole, region.start as int, region.end()));
        lemma_subtract_each(whole, pre.reserved@, region.start as int, region.end());
        assert forall|a: int| #[trigger] covers(whole, a) <==> region.contains_addr(a) by {
            if region.contains_addr(a) {
                assert(whole[0] == region);
            }
        }
        lemma_subtract_all(pre.free@, region, pre.start as int, pre.end as int);
        lemma_sorted_apart(fresh);
        lemma_concat(pre.reserved@, fresh);
        assert forall|a: int| #[trigger] covers(post.reserved@, a) <==> (covers(pre.reserved@, a) || region.contains_addr(a)) by {}
        assert forall|a: int| region.contains_addr(a) implies !#[trigger] covers(pre.allocated@, a) by {
            if covers(pre.allocated@, a) {
                let k = choose|k: int| 0 <= k < pre.allocated@.len() && (#[trigger] pre.allocated@[k]).contains_addr(a);
                assert(pre.allocated@[k].overlaps(region));
            }
        }
        assert(addressable(post.reserved@)) by {
            assert forall|k: int| 0 <= k < post.reserved@.len() implies (#[trigger] post.reserved@[k]).end() <= u64::MAX by {
                if k < pre.reserved@.len() {
                    assert(post.reserved@[k] == pre.reserved@[k]);
                } else {
                    assert(post.reserved@[k] == fresh[k - pre.reserved@.len()]);
                }
            }
        }
        assert(pairwise_apart(post.reserved@));
        assert forall|a: int| !(#[trigger] covers(post.free@, a) && #[trigger] covers(post.allocated@, a)) by {}
        assert forall|a: int| !(#[trigger] covers(post.free@, a) && #[trigger] covers(post.reserved@, a)) by {}
        assert forall|a: int| !(#[trigger] covers(post.allocated@, a) && #[trigger] covers(post.reserved@, a)) by {
            if covers(post.allocated@, a) && covers(post.reserved@, a) && !covers(pre.reserved@, a) {
                assert(region.contains_addr(a));
            }
        }
        assert forall|a: int| post.start <= a < post.end implies #[trigger] covers(post.free@, a) || #[trigger] covers(post.allocated@, a) || #[trigger] covers(post.reserved@, a) by {
            if region.contains_addr(a) {
                assert(covers(post.reserved@, a));
            }
        }
        assert(post.free_set() =~= pre.free_set().difference(region.addrs()));
        assert(post.reserved_set() =~= pre.reserved_set().union(region.addrs()));
    }

    /// Returns the block `h`, which a caller holds, to the free list, merged
    /// with the free blocks directly below and above it.
    pub fn deallocate(&mut self, h: MemoryRegion)
        requires
            old(self).wf(),
            old(self).allocated_view().contains(h),
        ensures
            final(self).wf(),
            final(self).heap_start() == old(self).heap_start(),
            final(self).heap_end() == old(self).heap_end(),
            final(self).reserved_view() == old(self).reserved_view(),
            exists|j: int| 0 <= j < old(self).allocated_view().len() && old(self).allocated_view()[j] == h
                && final(self).allocated_view() == old(self).allocated_view().remove(j),
            exists|k: int| #[trigger] insert_pos(old(self).free_view(), h, k)
                && final(self).free_view() == give_back(old(self).free_view(), h, k),
            final(self).free_set() == old(self).free_set().union(h.addrs()),
            final(self).allocated_set() == old(self).allocated_set().difference(h.addrs()),
            coalesced(old(self).free_view()) ==> coalesced(final(self).free_view()),
            gave_back(*old(self), *final(self), h),
    {
        let ghost pre_alloc = self.allocated@;
        let n = self.allocated.len();
        let mut j: usize = 0;
        while j < n && !(self.allocated[j] == h)
            invariant
                self.wf(),
                *self == *old(self),
                n == self.allocated@.len(),
                0 <= j <= n,
                self.allocated@.contains(h),
                forall|p: int| 0 <= p < j ==> self.allocated@[p] != h,
            decreases n - j,
        {
            j += 1;
        }
        proof {
            if j == n {
                let p = choose|p: int| 0 <= p < pre_alloc.len() && pre_alloc[p] == h;
            }
            assert(pre_alloc[j as int] == h);
        }
        let ghost s = self.free@;
        let m = self.free.len();
        let mut k: usize = 0;
        while k < m && self.free[k].start <= h.start
            invariant
                self.wf(),
                *self == *old(self),
                s == self.free@,
                m == s.len(),
                0 <= k <= m,
                forall|p: int| 0 <= p < k ==> (#[trigger] s[p]).start <= h.start,
            decreases m - k,
        {
            k += 1;
        }
        proof {
            self.lemma_insert_pos(h, j as int, k as int);
        }
        self.allocated.remove(j);
        let h_end = h.start + h.length;
        let left = k > 0 && self.free[k - 1].start + self.free[k - 1].length == h.start;
        let right = k < m && self.free[k].start == h_end;
        if left && right {
            let mrg = MemoryRegion { start: self.free[k - 1].start, length: self.free[k].start + self.free[k].length - self.free[k - 1].start };
            self.free.set(k - 1, mrg);
            self.free.remove(k);
        } else if left {
            let mrg = MemoryRegion { start: self.free[k - 1].start, length: h_end - self.free[k - 1].start };
            self.free.set(k - 1, mrg);
        } else if right {
            let mrg = MemoryRegion { start: h.start, length: self.free[k].start + self.free[k].length - h.start };
            self.free.set(k, mrg);
        } else {
            self.free.insert(k, h);
        }
        proof {
            assert(self.free@ =~= give_back(s, h, k as int));
            Self::lemma_give_back(old(self), self, h, j as int, k as int);
        }
    }

    /// A block that a caller holds sits between the free blocks: `k`, the
    /// number of free blocks that start at or below it, is its place.
    proof fn lemma_insert_pos(&self, h: MemoryRegion, j: int, k: int)
        requires
            self.wf(),
            0 <= j < self.allocated@.len(),
            self.allocated@[j] == h,
            0 <= k <= self.free@.len(),
            forall|p: int| 0 <= p < k ==> (#[trigger] self.free@[p]).start <= h.start,
            k < self.free@.len() ==> self.free@[k].start > h.start,
        ensures
            insert_pos(self.free@, h, k),
            h.end() <= self.end,
            h.length > 0,
    {
        let s = self.free@;
        assert(h.contains_addr(h.start as int));
        assert(covers(self.allocated@, h.start as int));
        assert forall|p: int| 0 <= p < k implies (#[trigger] s[p]).end() <= h.start by {
            if s[p].end() > h.start {
                assert(s[p].contains_addr(h.start as int));
                assert(covers(s, h.start as int));
            }
        }
        assert forall|p: int| k <= p < s.len() implies (#[trigger] s[p]).start >= h.end() by {
            if p > k {
                assert(s[k].end() <= s[p].start);
            }
            if s[p].start < h.end() {
                assert(h.contains_addr(s[p].start as int));
                assert(s[p].contains_addr(s[p].start as int));
                assert(covers(self.allocated@, s[p].start as int));
                assert(covers(s, s[p].start as int));
            }
        }
    }

    /// Returning an allocated block to the free list keeps the invariant.
    proof fn lemma_give_back(pre: &Allocator, post: &Allocator, h: MemoryRegion, j: int, k: int)
        requires
            pre.wf(),
            0 <= j < pre.allocated@.len(),
            pre.allocated@[j] == h,
            insert_pos(pre.free@, h, k),
            post.start == pre.start,
            post.end == pre.end,
            post.reserved@ == pre.reserved@,
            post.allocated@ == pre.allocated@.remove(j),
            post.free@ == give_back(pre.free@, h, k),
        ensures
            post.wf(),
            post.free_set() == pre.free_set().union(h.addrs()),
            post.allocated_set() == pre.allocated_set().difference(h.addrs()),
            coalesced(pre.free@) ==> coalesced(post.free@),
    {
        let s = pre.free@;
        let al = pre.allocated@;
        let mg = merged(s, h, k);
        let lo = if joins_left(s, h, k) { k - 1 } else { k };
        let hi = if joins_right(s, h, k) { k + 1 } else { k };
        assert(h.contains_addr(h.start as int));
        assert(h.length > 0 && h.start >= pre.start && h.end() <= pre.end);
        let gap_lo = if lo > 0 { s[lo - 1].end() } else { pre.start as int };
        let gap_hi = if hi < s.len() { s[hi].start as int } else { pre.end as int };
        assert(gap_lo <= mg.start) by {
            if lo > 0 && lo == k - 1 {
                assert(s[k - 2].end() <= s[k - 1].start);
            }
        }
        assert(mg.end() <= gap_hi) by {
            if hi < s.len() && hi == k + 1 {
                assert(s[k].end() <= s[k + 1].start);
            }
        }
        assert(well_ordered(seq![mg], gap_lo, gap_hi));
        lemma_splice(s, lo, hi, seq![mg], gap_lo, gap_hi, pre.start as int, pre.end as int);
        lemma_covers_remove(al, j);
        let n = post.free@;
        assert forall|a: int| #[trigger] covers(n, a) <==> (covers(s, a) || h.contains_addr(a)) by {
            if covers(seq![mg], a) {
                assert(seq![mg][0].contains_addr(a));
                if !h.contains_addr(a) {
                    if a < h.start {
                        assert(s[k - 1].contains_addr(a));
                    } else {
                        assert(s[k].contains_addr(a));
                    }
                }
            }
            if h.contains_addr(a) {
                assert(seq![mg][0].contains_addr(a));
            }
            if covers(s, a) {
                let p = choose|p: int| 0 <= p < s.len() && (#[trigger] s[p]).contains_addr(a);
                if lo <= p < hi {
                    assert(seq![mg][0].contains_addr(a));
                }
            }
        }
        assert forall|a: int| h.contains_addr(a) implies !#[trigger] covers(post.allocated@, a) by {
            if covers(post.allocated@, a) {
                let q = choose|q: int| 0 <= q < al.len() && q != j && (#[trigger] al[q]).contains_addr(a);
                assert(al[j].contains_addr(a));
            }
        }
        assert forall|a: int| h.contains_addr(a) implies !#[trigger] covers(pre.reserved@, a) by {
            assert(al[j].contains_addr(a));
            assert(covers(al, a));
        }
        let pa = post.allocated@;
        assert forall|q: int| 0 <= q < pa.len() implies #[trigger] pa[q] == (if q < j { al[q] } else { al[q + 1] }) by {}
        assert(nonempty(pa));
        assert(bounded(pa, post.start as int, post.end as int));
        assert(pairwise_apart(pa)) by {
            assert forall|p: int, q: int, a: int| 0 <= p < pa.len() && 0 <= q < pa.len() && p != q implies !(#[trigger] pa[p].contains_addr(a) && #[trigger] pa[q].contains_addr(a)) by {
                let pp = if p < j { p } else { p + 1 };
                let qq = if q < j { q } else { q + 1 };
                assert(pa[p] == al[pp]);
                assert(pa[q] == al[qq]);
            }
        }
        assert forall|a: int| !(#[trigger] covers(post.free@, a) && #[trigger] covers(post.allocated@, a)) by {
            if covers(post.allocated@, a) && covers(s, a) {
                let q = choose|q: int| 0 <= q < al.len() && q != j && (#[trigger] al[q]).contains_addr(a);
                assert(covers(al, a));
            }
        }
        assert forall|a: int| !(#[trigger] covers(post.free@, a) && #[trigger] covers(post.reserved@, a)) by {}
        assert forall|a: int| !(#[trigger] covers(post.allocated@, a) && #[trigger] covers(post.reserved@, a)) by {
            if covers(post.allocated@, a) {
                let q = choose|q: int| 0 <= q < al.len() && q != j && (#[trigger] al[q]).contains_addr(a);
                assert(covers(al, a));
            }
        }
        assert forall|a: int| post.start <= a < post.end implies #[trigger] covers(post.free@, a) || #[trigger] covers(post.allocated@, a) || #[trigger] covers(post.reserved@, a) by {
            if covers(al, a) && !h.contains_addr(a) {
                let q = choose|q: int| 0 <= q < al.len() && (#[trigger] al[q]).contains_addr(a);
                assert(q != j);
            }
        }
        assert(post.free_set() =~= pre.free_set().union(h.addrs()));
        assert forall|a: int| #[trigger] covers(post.allocated@, a) <==> (covers(al, a) && !h.contains_addr(a)) by {
            if covers(al, a) && !h.contains_addr(a) {
                let q = choose|q: int| 0 <= q < al.len() && (#[trigger] al[q]).contains_addr(a);
                assert(q != j);
            }
            if covers(post.allocated@, a) {
                let q = choose|q: int| 0 <= q < al.len() && q != j && (#[trigger] al[q]).contains_addr(a);
                assert(!(al[q].contains_addr(a) && al[j].contains_addr(a)));
            }
        }
        assert(post.allocated_set() =~= pre.allocated_set().difference(h.addrs()));
        if coalesced(s) {
            assert forall|p: int, q: int| 0 <= p < q < n.len() implies (#[trigger] n[p]).end() < (#[trigger] n[q]).start by {
                if p < lo && q == lo {
                    if lo == k - 1 {
                        assert(s[p].end() < s[k - 1].start);
                    } else {
                        assert(s[p].end() <= s[k - 1].end());
                    }
                } else if p == lo && q > lo {
                    let qq = q - lo - 1 + hi;
                    if hi == k + 1 {
                        assert(s[k].end() < s[qq].start);
                    } else {
                        assert(s[k].start <= s[qq].start);
                    }
                } else if p < lo && q > lo {
                    assert(s[p].end() < s[q - lo - 1 + hi].start);
                }
            }
        }
    }

    /// Free, allocated and reserved addresses never overlap, and together
    /// they make up the heap region exactly (reserved addresses beyond the
    /// heap's end aside); the free blocks are sorted, disjoint and
    /// non-empty, and no two reserved regions share an address.
    pub proof fn lemma_partition(&self)
        requires
            self.wf(),
        ensures
            self.free_set().disjoint(self.allocated_set()),
            self.free_set().disjoint(self.reserved_set()),
            self.allocated_set().disjoint(self.reserved_set()),
            self.free_set().union(self.allocated_set()).union(self.reserved_set().intersect(self.heap_set())) == self.heap_set(),
            well_ordered(self.free_view(), self.heap_start(), self.heap_end()),
            pairwise_apart(self.reserved_view()),
    {
        let u = self.free_set().union(self.allocated_set()).union(self.reserved_set().intersect(self.heap_set()));
        assert forall|a: int| #[trigger] u.contains(a) implies self.heap_set().contains(a) by {
            if covers(self.free@, a) {
                let k = choose|k: int| 0 <= k < self.free@.len() && (#[trigger] self.free@[k]).contains_addr(a);
            } else if covers(self.allocated@, a) {
                let k = choose|k: int| 0 <= k < self.allocated@.len() && (#[trigger] self.allocated@[k]).contains_addr(a);
            }
        }
        assert(u =~= self.heap_set());
    }

    /// Once a region of the heap is reserved, no block that the allocator
    /// can still hand out (one made of free addresses) overlaps it.
    pub proof fn lemma_reservation_exclusive(&self, region: MemoryRegion, h: MemoryRegion)
        requires
            self.wf(),
            region.addrs().subset_of(self.reserved_set()),
            h.addrs().subset_of(self.free_set()),
        ensures
            h.addrs().disjoint(region.addrs()),
    {
        assert forall|a: int| h.addrs().contains(a) implies !region.addrs().contains(a) by {
            assert(covers(self.free@, a));
            if region.addrs().contains(a) {
                assert(covers(self.reserved@, a));
            }
        }
    }

    /// A request larger than every free block finds no block with room,
    /// whatever its alignment; `allocate` then fails and changes nothing.
    pub proof fn lemma_exhaustion(&self, size: u64, align: u64)
        requires
            align > 0,
            forall|i: int| 0 <= i < self.free_view().len() ==> (#[trigger] self.free_view()[i]).length < size,
        ensures
            forall|i: int| 0 <= i < self.free_view().len() ==> !fits(#[trigger] self.free_view()[i], size as int, align as int),
    {
        assert forall|i: int| 0 <= i < self.free_view().len() implies !fits(#[trigger] self.free_view()[i], size as int, align as int) by {
            let b = self.free_view()[i];
            lemma_mod_pos_bound(b.start as int, align as int);
        }
    }

    /// The lengths of the free, allocated and reserved blocks add up to the
    /// length of the heap, when every reserved region lies in the heap.
    pub proof fn lemma_lengths(&self)
        requires
            self.wf(),
            self.reserved_set().subset_of(self.heap_set()),
        ensures
            total_length(self.free_view()) + total_length(self.allocated_view()) + total_length(self.reserved_view())
                == self.heap_end() - self.heap_start(),
    {
        self.lemma_partition();
        lemma_sorted_apart(self.free@);
        lemma_cover_len(self.free@);
        lemma_cover_len(self.allocated@);
        lemma_cover_len(self.reserved@);
        assert(self.heap_set() =~= set_int_range(self.heap_start(), self.heap_end()));
        lemma_int_range(self.heap_start(), self.heap_end());
        let f = self.free_set();
        let al = self.allocated_set();
        let rs = self.reserved_set();
        assert(rs.intersect(self.heap_set()) == rs);
        assert(f.union(al) == f + al);
        lemma_set_disjoint_lens(f, al);
        assert((f + al).disjoint(rs));
        lemma_set_disjoint_lens(f + al, rs);
        assert(f.union(al).union(rs) == (f + al) + rs);
    }

    /// Two allocators whose free lists are coalesced and hold the same free
    /// addresses have the same free blocks.
    pub proof fn lemma_same_free_blocks(&self, other: &Allocator)
        requires
            self.wf(),
            other.wf(),
            coalesced(self.free_view()),
            coalesced(other.free_view()),
            self.free_set() == other.free_set(),
        ensures
            self.free_view() == other.free_view(),
    {
        lemma_canonical(self.free@, other.free@);
    }
}

/// What `allocate` guarantees when it hands out `h`: the allocator goes from
/// `pre` to `post` with `h`'s addresses moved from free to allocated.
pub open spec fn took(pre: Allocator, post: Allocator, h: MemoryRegion) -> bool {
    &&& post.wf()
    &&& h.addrs().subset_of(pre.free_set())
    &&& post.free_set() == pre.free_set().difference(h.addrs())
    &&& post.allocated_set() == pre.allocated_set().union(h.addrs())
    &&& post.reserved_view() == pre.reserved_view()
    &&& coalesced(pre.free_view()) ==> coalesced(post.free_view())
}

/// What `deallocate` guarantees when `h` comes back: its addresses move
/// from allocated to free.
pub open spec fn gave_back(pre: Allocator, post: Allocator, h: MemoryRegion) -> bool {
    &&& post.wf()
    &&& post.free_set() == pre.free_set().union(h.addrs())
    &&& post.allocated_set() == pre.allocated_set().difference(h.addrs())
    &&& post.reserved_view() == pre.reserved_view()
    &&& coalesced(pre.free_view()) ==> coalesced(post.free_view())
}

proof fn lemma_run_out(states: Seq<Allocator>, hs: Seq<MemoryRegion>, k: int)
    requires
        0 <= k <= hs.len(),
        states.len() > hs.len(),
        states[0].wf(),
        forall|i: int| 0 <= i < hs.len() ==> took(#[trigger] states[i], states[i + 1], hs[i]),
    ensures
        states[k].wf(),
        states[k].reserved_view() == states[0].reserved_view(),
        coalesced(states[0].free_view()) ==> coalesced(states[k].free_view()),
        forall|a: int| #[trigger] states[k].free_set().contains(a) <==> (states[0].free_set().contains(a) && !covers(hs.take(k), a)),
        forall|a: int| #[trigger] states[k].allocated_set().contains(a) <==> (states[0].allocated_set().contains(a) || covers(hs.take(k), a)),
    decreases k,
{
    if k == 0 {
        assert forall|a: int| !covers(hs.take(0), a) by {}
    } else {
        lemma_run_out(states, hs, k - 1);
        assert(took(states[k - 1], states[k], hs[k - 1]));
        assert(hs.take(k) == hs.take(k - 1).push(hs[k - 1]));
        lemma_covers_push(hs.take(k - 1), hs[k - 1]);
        assert forall|a: int| #[trigger] states[k].free_set().contains(a) <==> (states[0].free_set().contains(a) && !covers(hs.take(k), a)) by {
            assert(hs[k - 1].addrs().contains(a) == hs[k - 1].contains_addr(a));
            assert(states[k - 1].free_set().contains(a) == (states[0].free_set().contains(a) && !covers(hs.take(k - 1), a)));
        }
        assert forall|a: int| #[trigger] states[k].allocated_set().contains(a) <==> (states[0].allocated_set().contains(a) || covers(hs.take(k), a)) by {
            assert(hs[k - 1].addrs().contains(a) == hs[k - 1].contains_addr(a));
            assert(states[k - 1].allocated_set().contains(a) == (states[0].allocated_set().contains(a) || covers(hs.take(k - 1), a)));
        }
    }
}

proof fn lemma_run_back(states: Seq<Allocator>, hs: Seq<MemoryRegion>, order: Seq<int>, j: int)
    requires
        0 <= j <= hs.len(),
        order.len() == hs.len(),
        states.len() == 2 * hs.len() + 1,
        forall|i: int| 0 <= i < order.len() ==> 0 <= #[trigger] order[i] < hs.len(),
        forall|i: int| 0 <= i < hs.len() ==> gave_back(#[trigger] states[hs.len() + i], states[hs.len() + i + 1], hs[order[i]]),
    ensures
        j > 0 ==> states[hs.len() + j].wf(),
        states[hs.len() + j].reserved_view() == states[hs.len() as int].reserved_view(),
        coalesced(states[hs.len() as int].free_view()) ==> coalesced(states[hs.len() + j].free_view()),
        forall|a: int| #[trigger] states[hs.len() + j].free_set().contains(a) <==> (states[hs.len() as int].free_set().contains(a)
            || exists|i: int| 0 <= i < j && (#[trigger] hs[order[i]]).contains_addr(a)),
        forall|a: int| #[trigger] states[hs.len() + j].allocated_set().contains(a) <==> (states[hs.len() as int].allocated_set().contains(a)
            && !exists|i: int| 0 <= i < j && (#[trigger] hs[order[i]]).contains_addr(a)),
    decreases j,
{
    let n = hs.len() as int;
    if j > 0 {
        lemma_run_back(states, hs, order, j - 1);
        assert(gave_back(states[n + j - 1], states[n + j], hs[order[j - 1]]));
        assert forall|a: int| #[trigger] states[n + j].free_set().contains(a) <==> (states[n].free_set().contains(a)
            || exists|i: int| 0 <= i < j && (#[trigger] hs[order[i]]).contains_addr(a)) by {
            assert(hs[order[j - 1]].addrs().contains(a) == hs[order[j - 1]].contains_addr(a));
            assert(states[n + j - 1].free_set().contains(a) == (states[n].free_set().contains(a)
                || exists|i: int| 0 <= i < j - 1 && (#[trigger] hs[order[i]]).contains_addr(a)));
        }
        assert forall|a: int| #[trigger] states[n + j].allocated_set().contains(a) <==> (states[n].allocated_set().contains(a)
            && !exists|i: int| 0 <= i < j && (#[trigger] hs[order[i]]).contains_addr(a)) by {
            assert(hs[order[j - 1]].addrs().contains(a) == hs[order[j - 1]].contains_addr(a));
            assert(states[n + j - 1].allocated_set().contains(a) == (states[n].allocated_set().contains(a)
                && !exists|i: int| 0 <= i < j - 1 && (#[trigger] hs[order[i]]).contains_addr(a)));
        }
    }
}

/// Handing out blocks `hs` one after the other (`states[0]` to `states[n]`)
/// and then taking every one of them back in any order (`order`, from
/// `states[n]` to `states[2n]`) leaves the free, allocated and reserved
/// addresses as they were; when the free list was coalesced at the start,
/// the free blocks themselves come back.
pub proof fn lemma_round_trip_run(states: Seq<Allocator>, hs: Seq<MemoryRegion>, order: Seq<int>)
    requires
        states.len() == 2 * hs.len() + 1,
        states[0].wf(),
        forall|i: int| 0 <= i < hs.len() ==> took(#[trigger] states[i], states[i + 1], hs[i]),
        order.len() == hs.len(),
        forall|i: int| 0 <= i < order.len() ==> 0 <= #[trigger] order[i] < hs.len(),
        forall|m: int| 0 <= m < hs.len() ==> #[trigger] order.contains(m),
        forall|i: int| 0 <= i < hs.len() ==> gave_back(#[trigger] states[hs.len() + i], states[hs.len() + i + 1], hs[order[i]]),
    ensures
        states[2 * hs.len() as int].free_set() == states[0].free_set(),
        states[2 * hs.len() as int].allocated_set() == states[0].allocated_set(),
        states[2 * hs.len() as int].reserved_view() == states[0].reserved_view(),
        coalesced(states[0].free_view()) ==> states[2 * hs.len() as int].free_view() == states[0].free_view(),
{
    let n = hs.len() as int;
    let s0 = states[0];
    let last = states[2 * n];
    lemma_run_out(states, hs, n);
    lemma_run_back(states, hs, order, n);
    assert(hs.take(n) == hs);
    s0.lemma_partition();
    // every handed-out address was free at the start
    assert forall|a: int| covers(hs, a) implies #[trigger] s0.free_set().contains(a) by {
        let m = choose|m: int| 0 <= m < hs.len() && (#[trigger] hs[m]).contains_addr(a);
        lemma_run_out(states, hs, m);
        assert(took(states[m], states[m + 1], hs[m]));
        assert(hs[m].addrs().contains(a));
        assert(states[m].free_set().contains(a));
    }
    assert forall|a: int| (exists|i: int| 0 <= i < n && (#[trigger] hs[order[i]]).contains_addr(a)) <==> covers(hs, a) by {
        if covers(hs, a) {
            let m = choose|m: int| 0 <= m < hs.len() && (#[trigger] hs[m]).contains_addr(a);
            assert(order.contains(m));
            let i = choose|i: int| 0 <= i < order.len() && order[i] == m;
            assert(hs[order[i]].contains_addr(a));
        }
        if exists|i: int| 0 <= i < n && (#[trigger] hs[order[i]]).contains_addr(a) {
            let i = choose|i: int| 0 <= i < n && (#[trigger] hs[order[i]]).contains_addr(a);
            assert(hs[order[i]].contains_addr(a));
        }
    }
    assert forall|a: int| last.free_set().contains(a) <==> s0.free_set().contains(a) by {
        assert(states[n + n] == last);
        assert(last.free_set().contains(a) == (states[n].free_set().contains(a) || exists|i: int| 0 <= i < n && (#[trigger] hs[order[i]]).contains_addr(a)));
        assert(states[n].free_set().contains(a) == (s0.free_set().contains(a) && !covers(hs, a)));
    }
    assert forall|a: int| last.allocated_set().contains(a) <==> s0.allocated_set().contains(a) by {
        assert(states[n + n] == last);
        assert(last.allocated_set().contains(a) == (states[n].allocated_set().contains(a) && !exists|i: int| 0 <= i < n && (#[trigger] hs[order[i]]).contains_addr(a)));
        assert(states[n].allocated_set().contains(a) == (s0.allocated_set().contains(a) || covers(hs, a)));
        if covers(hs, a) {
            assert(s0.free_set().contains(a));
        }
    }
    assert(last.free_set() =~= s0.free_set());
    assert(last.allocated_set() =~= s0.allocated_set());
    assert(states[n + n] == last);
    if coalesced(s0.free_view()) {
        if n > 0 {
            last.lemma_same_free_blocks(&s0);
        }
    }
}

} // verus!
