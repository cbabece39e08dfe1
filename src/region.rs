//! Memory regions and ordered lists of disjoint regions.
use vstd::prelude::*;
use vstd::set_lib::{set_int_range, lemma_int_range, lemma_set_disjoint_lens};

verus! {

/// A contiguous range of physical addresses `[start, start + length)`.
/// The allocator also hands these out as allocation handles.
#[derive(Clone, Copy, Debug, PartialEq, Eq, Structural)]
pub struct MemoryRegion {
    pub start: u64,
    pub length: u64,
}

impl MemoryRegion {
    /// One past the last address of the region.
    pub open spec fn end(self) -> int {
        self.start + self.length
    }

    pub open spec fn contains_addr(self, a: int) -> bool {
        self.start <= a < self.end()
    }

    /// The addresses of the region, as a set.
    pub open spec fn addrs(self) -> Set<int> {
        Set::new(|a: int| self.contains_addr(a))
    }

    /// The two regions share at least one address.
    pub open spec fn overlaps(self, other: MemoryRegion) -> bool {
        self.start < other.end() && other.start < self.end()
    }

    /// `self` lies inside `other`.
    pub open spec fn within(self, other: MemoryRegion) -> bool {
        other.start <= self.start && self.end() <= other.end()
    }

    pub fn new(start: u64, length: u64) -> (r: MemoryRegion)
        ensures
            r.start == start,
            r.length == length,
    {
        MemoryRegion { start, length }
    }

    /// One past the last address, or `None` if that does not fit in 64 bits.
    pub fn checked_end(&self) -> (r: Option<u64>)
        ensures
            r == (if self.end() <= u64::MAX { Some(self.end() as u64) } else { None::<u64> }),
    {
        self.start.checked_add(self.length)
    }

    /// Whether the two regions share at least one address.
    pub fn overlaps_exec(&self, other: &MemoryRegion) -> (r: bool)
        ensures
            r == self.overlaps(*other),
    {
        (self.start as u128) < (other.start as u128) + (other.length as u128)
            && (other.start as u128) < (self.start as u128) + (self.length as u128)
    }
}

/// Some region of `s` holds address `a`.
pub open spec fn covers(s: Seq<MemoryRegion>, a: int) -> bool {
    exists|i: int| 0 <= i < s.len() && (#[trigger] s[i]).contains_addr(a)
}

/// All addresses held by the regions of `s`.
pub open spec fn cover_set(s: Seq<MemoryRegion>) -> Set<int> {
    Set::new(|a: int| covers(s, a))
}

/// Regions in increasing address order, none overlapping the next.
pub open spec fn sorted(s: Seq<MemoryRegion>) -> bool {
    forall|i: int, j: int| 0 <= i < j < s.len() ==> (#[trigger] s[i]).end() <= (#[trigger] s[j]).start
}

/// No region of `s` is empty.
pub open spec fn nonempty(s: Seq<MemoryRegion>) -> bool {
    forall|i: int| 0 <= i < s.len() ==> (#[trigger] s[i]).length > 0
}

/// Every region of `s` lies in `[lo, hi)`.
pub open spec fn bounded(s: Seq<MemoryRegion>, lo: int, hi: int) -> bool {
    forall|i: int| 0 <= i < s.len() ==> lo <= (#[trigger] s[i]).start && s[i].end() <= hi
}

/// A sorted list of non-empty disjoint regions inside `[lo, hi)`.
pub open spec fn well_ordered(s: Seq<MemoryRegion>, lo: int, hi: int) -> bool {
    sorted(s) && nonempty(s) && bounded(s, lo, hi)
}

/// Replacing the regions `s[lo..hi)` by a well-ordered list that lies in the
/// gap they leave keeps the list well ordered, and changes the addresses
/// covered only within that gap.
pub proof fn lemma_splice(s: Seq<MemoryRegion>, lo: int, hi: int, pieces: Seq<MemoryRegion>, gap_lo: int, gap_hi: int, blo: int, bhi: int)
    requires
        well_ordered(s, blo, bhi),
        0 <= lo <= hi <= s.len(),
        gap_lo == (if lo > 0 { s[lo - 1].end() } else { blo }),
        gap_hi == (if hi < s.len() { s[hi].start as int } else { bhi }),
        well_ordered(pieces, gap_lo, gap_hi),
    ensures
        well_ordered(s.take(lo) + pieces + s.skip(hi), blo, bhi),
        forall|a: int| #[trigger] covers(s.take(lo) + pieces + s.skip(hi), a) <==> (covers(pieces, a) || exists|j: int| (0 <= j < lo || hi <= j < s.len()) && (#[trigger] s[j]).contains_addr(a)),
{
    let n = s.take(lo) + pieces + s.skip(hi);
    let pl = pieces.len();
    assert forall|p: int| 0 <= p < n.len() implies #[trigger] n[p] == (if p < lo { s[p] } else if p < lo + pl { pieces[p - lo] } else { s[p - lo - pl + hi] }) by {}
    assert forall|i: int, j: int| 0 <= i < j < n.len() implies (#[trigger] n[i]).end() <= (#[trigger] n[j]).start by {
        if j < lo {
        } else if j < lo + pl {
            if i < lo {
                assert(s[i].end() <= s[lo - 1].end()) by {
                    if i < lo - 1 {
                        assert(s[i].end() <= s[lo - 1].start);
                    }
                }
            }
        } else {
            let jj = j - lo - pl + hi;
            if i < lo {
                if hi < s.len() {
                    assert(s[i].end() <= s[jj].start);
                }
            } else if i < lo + pl {
                assert(s[hi].start <= s[jj].start) by {
                    if hi < jj {
                        assert(s[hi].end() <= s[jj].start);
                    }
                }
            }
        }
    }
    assert(bounded(pieces, blo, bhi)) by {
        assert forall|i: int| 0 <= i < pieces.len() implies blo <= (#[trigger] pieces[i]).start && pieces[i].end() <= bhi by {
            if lo > 0 {
                assert(blo <= s[lo - 1].start);
            }
            if hi < s.len() {
                assert(s[hi].end() <= bhi);
            }
        }
    }
    assert forall|a: int| #[trigger] covers(n, a) <==> (covers(pieces, a) || exists|j: int| (0 <= j < lo || hi <= j < s.len()) && (#[trigger] s[j]).contains_addr(a)) by {
        if covers(n, a) {
            let p = choose|p: int| 0 <= p < n.len() && (#[trigger] n[p]).contains_addr(a);
            if p < lo {
                assert(s[p].contains_addr(a));
            } else if p < lo + pl {
                assert(pieces[p - lo].contains_addr(a));
            } else {
                assert(s[p - lo - pl + hi].contains_addr(a));
            }
        }
        if covers(pieces, a) {
            let q = choose|q: int| 0 <= q < pieces.len() && (#[trigger] pieces[q]).contains_addr(a);
            assert(n[q + lo].contains_addr(a));
        }
        if exists|j: int| (0 <= j < lo || hi <= j < s.len()) && (#[trigger] s[j]).contains_addr(a) {
            let j = choose|j: int| (0 <= j < lo || hi <= j < s.len()) && (#[trigger] s[j]).contains_addr(a);
            if j < lo {
                assert(n[j].contains_addr(a));
            } else {
                assert(n[j - hi + lo + pl].contains_addr(a));
            }
        }
    }
}

/// The addresses covered after appending `b` are those covered before and
/// those of `b`.
pub proof fn lemma_covers_push(s: Seq<MemoryRegion>, b: MemoryRegion)
    ensures
        forall|a: int| #[trigger] covers(s.push(b), a) <==> (covers(s, a) || b.contains_addr(a)),
{
    assert forall|a: int| #[trigger] covers(s.push(b), a) <==> (covers(s, a) || b.contains_addr(a)) by {
        if covers(s, a) {
            let k = choose|k: int| 0 <= k < s.len() && (#[trigger] s[k]).contains_addr(a);
            assert(s.push(b)[k] == s[k]);
        }
        if b.contains_addr(a) {
            assert(s.push(b)[s.len() as int] == b);
        }
        if covers(s.push(b), a) {
            let k = choose|k: int| 0 <= k < s.len() + 1 && (#[trigger] s.push(b)[k]).contains_addr(a);
            if k < s.len() {
                assert(s[k].contains_addr(a));
            }
        }
    }
}

/// The addresses covered after removing entry `k` are those of the other
/// entries.
pub proof fn lemma_covers_remove(s: Seq<MemoryRegion>, k: int)
    requires
        0 <= k < s.len(),
    ensures
        forall|a: int| #[trigger] covers(s.remove(k), a) <==> exists|j: int| 0 <= j < s.len() && j != k && (#[trigger] s[j]).contains_addr(a),
{
    let n = s.remove(k);
    assert forall|a: int| #[trigger] covers(n, a) <==> exists|j: int| 0 <= j < s.len() && j != k && (#[trigger] s[j]).contains_addr(a) by {
        if covers(n, a) {
            let p = choose|p: int| 0 <= p < n.len() && (#[trigger] n[p]).contains_addr(a);
            if p < k {
                assert(s[p].contains_addr(a));
            } else {
                assert(s[p + 1].contains_addr(a));
            }
        }
        if exists|j: int| 0 <= j < s.len() && j != k && (#[trigger] s[j]).contains_addr(a) {
            let j = choose|j: int| 0 <= j < s.len() && j != k && (#[trigger] s[j]).contains_addr(a);
            if j < k {
                assert(n[j].contains_addr(a));
            } else {
                assert(n[j - 1].contains_addr(a));
            }
        }
    }
}

/// What stays of `b` once the addresses of `r` are taken out: nothing, one
/// or two regions.
pub open spec fn subtract_one(b: MemoryRegion, r: MemoryRegion) -> Seq<MemoryRegion> {
    if r.length == 0 || !b.overlaps(r) {
        seq![b]
    } else {
        let front = MemoryRegion { start: b.start, length: (r.start - b.start) as u64 };
        let back = MemoryRegion { start: r.end() as u64, length: (b.end() - r.end()) as u64 };
        (if r.start > b.start { seq![front] } else { Seq::<MemoryRegion>::empty() })
            + (if r.end() < b.end() { seq![back] } else { Seq::<MemoryRegion>::empty() })
    }
}

/// The list `s` with the addresses of `r` taken out of each region, in order.
pub open spec fn subtract_all(s: Seq<MemoryRegion>, r: MemoryRegion) -> Seq<MemoryRegion>
    decreases s.len(),
{
    if s.len() == 0 {
        Seq::<MemoryRegion>::empty()
    } else {
        subtract_all(s.drop_last(), r) + subtract_one(s.last(), r)
    }
}

proof fn lemma_subtract_one(b: MemoryRegion, r: MemoryRegion)
    requires
        b.length > 0,
        r.end() <= u64::MAX,
    ensures
        well_ordered(subtract_one(b, r), b.start as int, b.end()),
        forall|a: int| #[trigger] covers(subtract_one(b, r), a) <==> (b.contains_addr(a) && !r.contains_addr(a)),
{
    let p = subtract_one(b, r);
    if r.length == 0 || !b.overlaps(r) {
        assert forall|a: int| #[trigger] covers(p, a) <==> (b.contains_addr(a) && !r.contains_addr(a)) by {
            if b.contains_addr(a) {
                assert(p[0].contains_addr(a));
            }
        }
    } else {
        let front = MemoryRegion { start: b.start, length: (r.start - b.start) as u64 };
        let back = MemoryRegion { start: r.end() as u64, length: (b.end() - r.end()) as u64 };
        let fs = if r.start > b.start { seq![front] } else { Seq::<MemoryRegion>::empty() };
        let bs = if r.end() < b.end() { seq![back] } else { Seq::<MemoryRegion>::empty() };
        assert(p == fs + bs);
        assert forall|q: int| 0 <= q < p.len() implies (#[trigger] p[q]) == (if q < fs.len() { front } else { back }) by {}
        assert forall|a: int| #[trigger] covers(p, a) <==> (b.contains_addr(a) && !r.contains_addr(a)) by {
            if b.contains_addr(a) && !r.contains_addr(a) {
                if a < r.start {
                    assert(p[0].contains_addr(a));
                } else {
                    assert(p[fs.len() as int].contains_addr(a));
                }
            }
            if covers(p, a) {
                let q = choose|q: int| 0 <= q < p.len() && (#[trigger] p[q]).contains_addr(a);
            }
        }
    }
}

/// Taking the addresses of `r` out of a well-ordered list leaves a
/// well-ordered list that covers exactly the addresses outside `r`.
pub proof fn lemma_subtract_all(s: Seq<MemoryRegion>, r: MemoryRegion, lo: int, hi: int)
    requires
        well_ordered(s, lo, hi),
        r.end() <= u64::MAX,
    ensures
        well_ordered(subtract_all(s, r), lo, hi),
        forall|a: int| #[trigger] covers(subtract_all(s, r), a) <==> (covers(s, a) && !r.contains_addr(a)),
    decreases s.len(),
{
    if s.len() == 0 {
        assert forall|a: int| #[trigger] covers(subtract_all(s, r), a) <==> (covers(s, a) && !r.contains_addr(a)) by {}
    } else {
        let pre = s.drop_last();
        let last = s.last();
        assert(well_ordered(pre, lo, last.start as int)) by {
            assert forall|i: int| 0 <= i < pre.len() implies lo <= (#[trigger] pre[i]).start && pre[i].end() <= last.start by {
                assert(s[i].end() <= s[s.len() - 1].start);
            }
        }
        lemma_subtract_all(pre, r, lo, last.start as int);
        lemma_subtract_one(last, r);
        let m = subtract_all(pre, r);
        let p = subtract_one(last, r);
        let gap_lo = if m.len() > 0 { m[m.len() - 1].end() } else { lo };
        assert(bounded(m, lo, hi));
        assert(well_ordered(p, gap_lo, hi)) by {
            if m.len() > 0 {
                assert(m[m.len() - 1].end() <= last.start);
            }
        }
        lemma_splice(m, m.len() as int, m.len() as int, p, gap_lo, hi, lo, hi);
        assert(m.take(m.len() as int) + p + m.skip(m.len() as int) == m + p);
        assert forall|a: int| #[trigger] covers(subtract_all(s, r), a) <==> (covers(s, a) && !r.contains_addr(a)) by {
            if covers(s, a) {
                let j = choose|j: int| 0 <= j < s.len() && (#[trigger] s[j]).contains_addr(a);
                if j < s.len() - 1 {
                    assert(pre[j].contains_addr(a));
                }
            }
            if covers(pre, a) {
                let j = choose|j: int| 0 <= j < pre.len() && (#[trigger] pre[j]).contains_addr(a);
                assert(s[j].contains_addr(a));
            }
            if covers(m, a) {
                let j = choose|j: int| 0 <= j < m.len() && (#[trigger] m[j]).contains_addr(a);
            }
        }
    }
}

/// No address is held by two different regions of the list.
pub open spec fn pairwise_apart(s: Seq<MemoryRegion>) -> bool {
    forall|i: int, j: int, a: int|
        0 <= i < s.len() && 0 <= j < s.len() && i != j ==> !(#[trigger] s[i].contains_addr(a) && #[trigger] s[j].contains_addr(a))
}

/// The sum of the lengths of the regions of `s`.
pub open spec fn total_length(s: Seq<MemoryRegion>) -> int
    decreases s.len(),
{
    if s.len() == 0 {
        0
    } else {
        total_length(s.drop_last()) + s.last().length
    }
}

/// Sorted regions share no address.
pub proof fn lemma_sorted_apart(s: Seq<MemoryRegion>)
    requires
        sorted(s),
    ensures
        pairwise_apart(s),
{
    assert forall|i: int, j: int, a: int| 0 <= i < s.len() && 0 <= j < s.len() && i != j implies !(#[trigger] s[i].contains_addr(a) && #[trigger] s[j].contains_addr(a)) by {
        if i < j {
            assert(s[i].end() <= s[j].start);
        } else {
            assert(s[j].end() <= s[i].start);
        }
    }
}

/// Regions that share no address cover as many addresses as their lengths
/// add up to.
pub proof fn lemma_cover_len(s: Seq<MemoryRegion>)
    requires
        pairwise_apart(s),
    ensures
        cover_set(s).finite(),
        cover_set(s).len() == total_length(s),
    decreases s.len(),
{
    if s.len() == 0 {
        assert(cover_set(s) =~= Set::<int>::empty());
    } else {
        let p = s.drop_last();
        let b = s.last();
        assert(pairwise_apart(p)) by {
            assert forall|i: int, j: int, a: int| 0 <= i < p.len() && 0 <= j < p.len() && i != j implies !(#[trigger] p[i].contains_addr(a) && #[trigger] p[j].contains_addr(a)) by {
                assert(p[i] == s[i] && p[j] == s[j]);
            }
        }
        lemma_cover_len(p);
        lemma_covers_push(p, b);
        assert(p.push(b) == s);
        assert(cover_set(s) =~= cover_set(p) + b.addrs());
        assert(b.addrs() =~= set_int_range(b.start as int, b.end()));
        lemma_int_range(b.start as int, b.end());
        assert(cover_set(p).disjoint(b.addrs())) by {
            assert forall|a: int| !(cover_set(p).contains(a) && b.addrs().contains(a)) by {
                if covers(p, a) && b.contains_addr(a) {
                    let k = choose|k: int| 0 <= k < p.len() && (#[trigger] p[k]).contains_addr(a);
                    assert(s[k].contains_addr(a) && s[s.len() - 1].contains_addr(a));
                }
            }
        }
        lemma_set_disjoint_lens(cover_set(p), b.addrs());
    }
}

/// The list `s` with the addresses of every region of `rs` taken out.
pub open spec fn subtract_each(s: Seq<MemoryRegion>, rs: Seq<MemoryRegion>) -> Seq<MemoryRegion>
    decreases rs.len(),
{
    if rs.len() == 0 {
        s
    } else {
        subtract_all(subtract_each(s, rs.drop_last()), rs.last())
    }
}

/// Every region of `s` ends within the 64-bit address space.
pub open spec fn addressable(s: Seq<MemoryRegion>) -> bool {
    forall|i: int| 0 <= i < s.len() ==> (#[trigger] s[i]).end() <= u64::MAX
}

/// Taking several regions out of a well-ordered list leaves a well-ordered
/// list that covers exactly the addresses that none of them holds.
pub proof fn lemma_subtract_each(s: Seq<MemoryRegion>, rs: Seq<MemoryRegion>, lo: int, hi: int)
    requires
        well_ordered(s, lo, hi),
        addressable(rs),
    ensures
        well_ordered(subtract_each(s, rs), lo, hi),
        forall|a: int| #[trigger] covers(subtract_each(s, rs), a) <==> (covers(s, a) && !covers(rs, a)),
    decreases rs.len(),
{
    if rs.len() == 0 {
        assert forall|a: int| #[trigger] covers(subtract_each(s, rs), a) <==> (covers(s, a) && !covers(rs, a)) by {}
    } else {
        let p = rs.drop_last();
        assert(addressable(p)) by {
            assert forall|i: int| 0 <= i < p.len() implies (#[trigger] p[i]).end() <= u64::MAX by {
                assert(p[i] == rs[i]);
            }
        }
        lemma_subtract_each(s, p, lo, hi);
        assert(rs[rs.len() - 1].end() <= u64::MAX);
        lemma_subtract_all(subtract_each(s, p), rs.last(), lo, hi);
        lemma_covers_push(p, rs.last());
        assert(p.push(rs.last()) == rs);
        assert forall|a: int| #[trigger] covers(subtract_each(s, rs), a) <==> (covers(s, a) && !covers(rs, a)) by {
            assert(covers(subtract_each(s, p), a) == (covers(s, a) && !covers(p, a)));
            assert(covers(p.push(rs.last()), a) == (covers(p, a) || rs.last().contains_addr(a)));
        }
    }
}

/// Addresses covered by a concatenation are those of either part; parts
/// that share no address, each without overlaps, give a list without
/// overlaps.
pub proof fn lemma_concat(s: Seq<MemoryRegion>, p: Seq<MemoryRegion>)
    ensures
        forall|a: int| #[trigger] covers(s + p, a) <==> (covers(s, a) || covers(p, a)),
        pairwise_apart(s) && pairwise_apart(p) && (forall|a: int| !(#[trigger] covers(s, a) && covers(p, a)))
            ==> pairwise_apart(s + p),
{
    let n = s + p;
    assert forall|a: int| #[trigger] covers(n, a) <==> (covers(s, a) || covers(p, a)) by {
        if covers(n, a) {
            let k = choose|k: int| 0 <= k < n.len() && (#[trigger] n[k]).contains_addr(a);
            if k < s.len() {
                assert(s[k].contains_addr(a));
            } else {
                assert(p[k - s.len()].contains_addr(a));
            }
        }
        if covers(s, a) {
            let k = choose|k: int| 0 <= k < s.len() && (#[trigger] s[k]).contains_addr(a);
            assert(n[k].contains_addr(a));
        }
        if covers(p, a) {
            let k = choose|k: int| 0 <= k < p.len() && (#[trigger] p[k]).contains_addr(a);
            assert(n[k + s.len()].contains_addr(a));
        }
    }
    if pairwise_apart(s) && pairwise_apart(p) && (forall|a: int| !(#[trigger] covers(s, a) && covers(p, a))) {
        assert forall|i: int, j: int, a: int| 0 <= i < n.len() && 0 <= j < n.len() && i != j implies !(#[trigger] n[i].contains_addr(a) && #[trigger] n[j].contains_addr(a)) by {
            if n[i].contains_addr(a) && n[j].contains_addr(a) {
                if i < s.len() && j < s.len() {
                    assert(s[i] == n[i] && s[j] == n[j]);
                } else if i >= s.len() && j >= s.len() {
                    assert(p[i - s.len()] == n[i] && p[j - s.len()] == n[j]);
                } else if i < s.len() {
                    assert(s[i].contains_addr(a));
                    assert(p[j - s.len()].contains_addr(a));
                    assert(covers(s, a));
                } else {
                    assert(s[j].contains_addr(a));
                    assert(p[i - s.len()].contains_addr(a));
                    assert(covers(s, a));
                }
            }
        }
    }
}

/// The regions of `list` with the addresses of `r` taken out.
pub fn subtract_region(list: &Vec<MemoryRegion>, r: MemoryRegion) -> (out: Vec<MemoryRegion>)
    requires
        r.end() <= u64::MAX,
        addressable(list@),
    ensures
        out@ == subtract_all(list@, r),
{
    let ghost s = list@;
    let mut out: Vec<MemoryRegion> = Vec::new();
    let m = list.len();
    let r_end = r.start + r.length;
    let mut i: usize = 0;
    while i < m
        invariant
            m == s.len(),
            s == list@,
            addressable(s),
            0 <= i <= m,
            r_end == r.end(),
            out@ == subtract_all(s.take(i as int), r),
        decreases m - i,
    {
        let b = list[i];
        proof {
            assert(s.take(i + 1).drop_last() == s.take(i as int));
            assert(b.end() <= u64::MAX);
        }
        if r.length == 0 || !b.overlaps_exec(&r) {
            out.push(b);
        } else {
            if r.start > b.start {
                out.push(MemoryRegion { start: b.start, length: r.start - b.start });
            }
            let b_end = b.start + b.length;
            if r_end < b_end {
                out.push(MemoryRegion { start: r_end, length: b_end - r_end });
            }
        }
        proof {
            assert(out@ =~= subtract_all(s.take(i + 1), r));
        }
        i += 1;
    }
    proof {
        assert(s.take(m as int) == s);
    }
    out
}

/// The regions of `list` with the addresses of every region of `rs` taken
/// out.
pub fn subtract_regions(list: Vec<MemoryRegion>, rs: &Vec<MemoryRegion>) -> (out: Vec<MemoryRegion>)
    requires
        well_ordered(list@, 0, u64::MAX as int),
        addressable(rs@),
    ensures
        out@ == subtract_each(list@, rs@),
{
    let ghost s = list@;
    let mut cur = list;
    let n = rs.len();
    let mut k: usize = 0;
    while k < n
        invariant
            n == rs@.len(),
            addressable(rs@),
            well_ordered(s, 0, u64::MAX as int),
            0 <= k <= n,
            cur@ == subtract_each(s, rs@.take(k as int)),
        decreases n - k,
    {
        let q = rs[k];
        proof {
            assert(rs@.take(k + 1).drop_last() == rs@.take(k as int));
            assert(rs@.take(k + 1).last() == q);
            assert(q.end() <= u64::MAX);
            assert(addressable(rs@.take(k as int)));
            lemma_subtract_each(s, rs@.take(k as int), 0, u64::MAX as int);
            assert(addressable(cur@));
        }
        cur = subtract_region(&cur, q);
        k += 1;
    }
    proof {
        assert(rs@.take(n as int) == rs@);
    }
    cur
}

} // verus!
