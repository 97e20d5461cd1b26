//! Bookkeeping of free physical memory as a list of page ranges.
use vstd::prelude::*;

use crate::collections::intrusive_list::{select, IntrusiveItem, IntrusiveList};
use crate::collections::OwnedMutPtr;
use crate::memory::address::{Address, PhysicalAddress, PAGE_SIZE_BYTES};

verus! {

#[derive(Debug, Clone)]
pub enum Error {
    RegionNotAvailable,
    /// Holds the region that overlaps.
    RegionOverlapsWith(PhysicalAddress, usize),
}

/// Page frame number of an address.
pub open spec fn pfn(addr: u64) -> int {
    addr as int / 0x4000
}

/// Number of page frames in a 64-bit address space.
pub open spec fn max_pfn() -> int {
    0x4_0000_0000_0000
}

fn pfn_from_pa(pa: PhysicalAddress) -> (n: u64)
    requires
        pa.addr() % PAGE_SIZE_BYTES == 0,
    ensures
        n == pfn(pa.addr()),
        n < max_pfn(),
{
    pa.page_number()
}

/// A physical page frame.
pub struct PhysicalPage {
    _pfn: usize,
}

/// A run of `num_pages` pages starting at `pa`.
#[derive(Debug, Clone, PartialEq, Eq, Structural)]
pub struct PhysicalMemoryRegion {
    pa: PhysicalAddress,
    num_pages: usize,
}

/// A region as its start address and page count.
pub type RegionView = (u64, int);

/// The range `(pa, n)` is page aligned and lies below the end of the
/// address space.
pub open spec fn range_ok(pa: u64, n: int) -> bool {
    &&& pa % 0x4000 == 0
    &&& 0 <= n
    &&& pfn(pa) + n < max_pfn()
}

pub open spec fn overlaps(r: RegionView, pa: u64, n: int) -> bool {
    pfn(r.0) < pfn(pa) + n && pfn(r.0) + r.1 > pfn(pa)
}

pub open spec fn adjacent(r: RegionView, pa: u64, n: int) -> bool {
    pfn(r.0) == pfn(pa) + n || pfn(r.0) + r.1 == pfn(pa)
}

pub open spec fn contains(r: RegionView, pa: u64, n: int) -> bool {
    pfn(pa) >= pfn(r.0) && pfn(pa) + n <= pfn(r.0) + r.1
}

impl PhysicalMemoryRegion {
    pub closed spec fn view(&self) -> RegionView {
        (self.pa.addr(), self.num_pages as int)
    }

    pub fn new(pa: PhysicalAddress, num_pages: usize) -> (region: Self)
        ensures
            region.view() == (pa.addr(), num_pages as int),
    {
        Self { pa, num_pages }
    }

    pub fn base_address(&self) -> (pa: PhysicalAddress)
        ensures
            pa.addr() == self.view().0,
    {
        self.pa
    }

    pub fn num_pages(&self) -> (n: usize)
        ensures
            n == self.view().1,
    {
        self.num_pages
    }

    fn overlaps(&self, pa: PhysicalAddress, num_pages: usize) -> (b: bool)
        requires
            range_ok(self.view().0, self.view().1),
            range_ok(pa.addr(), num_pages as int),
        ensures
            b == overlaps(self.view(), pa.addr(), num_pages as int),
    {
        let self_pfn_start = pfn_from_pa(self.pa);
        let self_pfn_end = self_pfn_start + self.num_pages as u64;
        let other_pfn_start = pfn_from_pa(pa);
        let other_pfn_end = other_pfn_start + num_pages as u64;
        self_pfn_start < other_pfn_end && self_pfn_end > other_pfn_start
    }

    fn can_be_consolidated_with(&self, pa: PhysicalAddress, num_pages: usize) -> (b: bool)
        requires
            range_ok(self.view().0, self.view().1),
            range_ok(pa.addr(), num_pages as int),
        ensures
            b == adjacent(self.view(), pa.addr(), num_pages as int),
    {
        let self_pfn_start = pfn_from_pa(self.pa);
        let self_pfn_end = self_pfn_start + self.num_pages as u64;
        let other_pfn_start = pfn_from_pa(pa);
        let other_pfn_end = other_pfn_start + num_pages as u64;
        self_pfn_start == other_pfn_end || self_pfn_end == other_pfn_start
    }

    fn contains(&self, pa: PhysicalAddress, num_pages: usize) -> (b: bool)
        requires
            range_ok(self.view().0, self.view().1),
            range_ok(pa.addr(), num_pages as int),
        ensures
            b == contains(self.view(), pa.addr(), num_pages as int),
    {
        let self_pfn_start = pfn_from_pa(self.pa);
        let self_pfn_end = self_pfn_start + self.num_pages as u64;
        let other_pfn_start = pfn_from_pa(pa);
        let other_pfn_end = other_pfn_start + num_pages as u64;
        other_pfn_start >= self_pfn_start && other_pfn_end <= self_pfn_end
    }

    fn matches_start(&self, pa: PhysicalAddress) -> (b: bool)
        requires
            range_ok(self.view().0, self.view().1),
            pa.addr() % PAGE_SIZE_BYTES == 0,
        ensures
            b == (pfn(self.view().0) == pfn(pa.addr())),
    {
        let self_pfn_start = pfn_from_pa(self.pa);
        let other_pfn_start = pfn_from_pa(pa);
        self_pfn_start == other_pfn_start
    }

    fn matches_end(&self, pa: PhysicalAddress, num_pages: usize) -> (b: bool)
        requires
            range_ok(self.view().0, self.view().1),
            range_ok(pa.addr(), num_pages as int),
        ensures
            b == (pfn(self.view().0) + self.view().1 == pfn(pa.addr()) + num_pages),
    {
        let self_pfn_start = pfn_from_pa(self.pa);
        let self_pfn_end = self_pfn_start + self.num_pages as u64;
        let other_pfn_start = pfn_from_pa(pa);
        let other_pfn_end = other_pfn_start + num_pages as u64;
        self_pfn_end == other_pfn_end
    }
}

/// The views of the regions in a list.
pub open spec fn region_views(s: Seq<PhysicalMemoryRegion>) -> Seq<RegionView> {
    s.map_values(|r: PhysicalMemoryRegion| r.view())
}

/// Which regions of `s` are adjacent to `(pa, n)`.
pub open spec fn adjacency(s: Seq<RegionView>, pa: u64, n: int) -> Seq<bool> {
    Seq::new(s.len(), |i: int| adjacent(s[i], pa, n))
}

/// The lowest start address of the regions in `s`, or `pa` if lower.
pub open spec fn min_start(s: Seq<RegionView>, pa: u64) -> u64
    decreases s.len(),
{
    if s.len() == 0 {
        pa
    } else {
        let m = min_start(s.drop_last(), pa);
        if s.last().0 < m {
            s.last().0
        } else {
            m
        }
    }
}

/// The total page count of the regions in `s`.
pub open spec fn total_pages(s: Seq<RegionView>) -> int
    decreases s.len(),
{
    if s.len() == 0 {
        0
    } else {
        total_pages(s.drop_last()) + s.last().1
    }
}

/// Index of the first region of `s` that overlaps `(pa, n)`.
pub open spec fn first_overlap(s: Seq<RegionView>, pa: u64, n: int) -> Option<int> {
    if exists|i: int| 0 <= i < s.len() && overlaps(s[i], pa, n) {
        Some(
            choose|i: int|
                0 <= i < s.len() && overlaps(s[i], pa, n) && forall|j: int|
                    0 <= j < i ==> !overlaps(#[trigger] s[j], pa, n),
        )
    } else {
        None
    }
}

/// The region that joining `(pa, n)` with the adjacent regions of `s` gives.
pub open spec fn joined_region(s: Seq<RegionView>, pa: u64, n: int) -> RegionView {
    let joined = select(s, adjacency(s, pa, n), true);
    (min_start(joined, pa), n + total_pages(joined))
}

/// What is left of region `r` once `(pa, n)`, which it contains, is taken
/// out of it.
pub open spec fn remainder(r: RegionView, pa: u64, n: int) -> Seq<RegionView> {
    let rs = pfn(r.0);
    let re = rs + r.1;
    let ps = pfn(pa);
    let pe = ps + n;
    if rs == ps && re == pe {
        seq![]
    } else if rs == ps {
        seq![((pa + n * 0x4000) as u64, r.1 - n)]
    } else if re == pe {
        seq![(r.0, r.1 - n)]
    } else {
        seq![(r.0, ps - rs), ((pa + n * 0x4000) as u64, r.1 - (pe - rs))]
    }
}


/// No region of `s` overlaps another.
pub open spec fn disjoint_regions(s: Seq<RegionView>) -> bool {
    forall|i: int, j: int|
        0 <= i < s.len() && 0 <= j < s.len() && i != j ==> !overlaps(#[trigger] s[i], s[j].0, #[trigger] s[j].1)
}

#[verifier::spinoff_prover]
proof fn lemma_select_member(s: Seq<RegionView>, d: Seq<bool>, keep: bool)
    requires
        d.len() == s.len(),
    ensures
        forall|i: int|
            0 <= i < select(s, d, keep).len() ==> exists|j: int|
                0 <= j < s.len() && #[trigger] select(s, d, keep)[i] == s[j] && d[j] == keep,
    decreases s.len(),
{
    if s.len() > 0 {
        lemma_select_member(s.drop_last(), d.drop_last(), keep);
        let rest = select(s.drop_last(), d.drop_last(), keep);
        assert forall|i: int| 0 <= i < select(s, d, keep).len() implies exists|j: int|
            0 <= j < s.len() && #[trigger] select(s, d, keep)[i] == s[j] && d[j] == keep by {
            if i < rest.len() {
                let j = choose|j: int|
                    0 <= j < s.drop_last().len() && rest[i] == s.drop_last()[j] && d.drop_last()[j] == keep;
                assert(s[j] == s.drop_last()[j] && d[j] == d.drop_last()[j]);
            } else {
                assert(d.last() == keep);
                assert(select(s, d, keep) == rest.push(s.last()));
                assert(select(s, d, keep)[i] == s[s.len() - 1] && d[s.len() - 1] == keep);
            }
        }
    }
}

proof fn lemma_select_disjoint(s: Seq<RegionView>, d: Seq<bool>, keep: bool)
    requires
        d.len() == s.len(),
        disjoint_regions(s),
    ensures
        disjoint_regions(select(s, d, keep)),
    decreases s.len(),
{
    if s.len() > 0 {
        let sd = s.drop_last();
        assert forall|i: int, j: int|
            0 <= i < sd.len() && 0 <= j < sd.len() && i != j implies !overlaps(#[trigger] sd[i], sd[j].0, #[trigger] sd[j].1) by {
            assert(sd[i] == s[i] && sd[j] == s[j]);
        }
        lemma_select_disjoint(sd, d.drop_last(), keep);
        lemma_select_member(sd, d.drop_last(), keep);
        let rest = select(sd, d.drop_last(), keep);
        if d.last() == keep {
            let t = rest.push(s.last());
            assert forall|a: int, b: int|
                0 <= a < t.len() && 0 <= b < t.len() && a != b implies !overlaps(#[trigger] t[a], t[b].0, #[trigger] t[b].1) by {
                if a < rest.len() && b < rest.len() {
                    assert(t[a] == rest[a] && t[b] == rest[b]);
                } else if a < rest.len() {
                    let j = choose|j: int| 0 <= j < sd.len() && #[trigger] rest[a] == sd[j] && d.drop_last()[j] == keep;
                    assert(t[a] == s[j] && t[b] == s[s.len() - 1]);
                } else {
                    let j = choose|j: int| 0 <= j < sd.len() && #[trigger] rest[b] == sd[j] && d.drop_last()[j] == keep;
                    assert(t[b] == s[j] && t[a] == s[s.len() - 1]);
                }
            }
        }
    }
}

/// The regions of `j`, each adjacent to `(pa, n)` and none overlapping
/// another, join with it into one run: from `min_start` for `n` plus their
/// pages; a run that starts before `pa` starts at one of them, and one that
/// ends after the range ends at one of them.
proof fn lemma_joined_run(j: Seq<RegionView>, pa: u64, n: int)
    requires
        range_ok(pa, n),
        disjoint_regions(j),
        forall|i: int| 0 <= i < j.len() ==> adjacent(#[trigger] j[i], pa, n) && range_ok(j[i].0, j[i].1),
    ensures
        min_start(j, pa) % 0x4000 == 0,
        pfn(min_start(j, pa)) <= pfn(pa),
        pfn(min_start(j, pa)) + n + total_pages(j) >= pfn(pa) + n,
        pfn(min_start(j, pa)) < pfn(pa) ==> exists|i: int|
            0 <= i < j.len() && #[trigger] j[i].1 > 0 && pfn(j[i].0) == pfn(min_start(j, pa)) && pfn(j[i].0) + j[i].1 == pfn(pa),
        pfn(min_start(j, pa)) + n + total_pages(j) > pfn(pa) + n ==> exists|i: int|
            0 <= i < j.len() && #[trigger] j[i].1 > 0 && pfn(j[i].0) == pfn(pa) + n && pfn(j[i].0) + j[i].1
                == pfn(min_start(j, pa)) + n + total_pages(j),
        forall|i: int|
            0 <= i < j.len() && #[trigger] j[i].1 > 0 ==> pfn(min_start(j, pa)) <= pfn(j[i].0) && pfn(j[i].0)
                + j[i].1 <= pfn(min_start(j, pa)) + n + total_pages(j),
    decreases j.len(),
{
    if j.len() > 0 {
        let jd = j.drop_last();
        assert forall|a: int, b: int|
            0 <= a < jd.len() && 0 <= b < jd.len() && a != b implies !overlaps(#[trigger] jd[a], jd[b].0, #[trigger] jd[b].1) by {
            assert(jd[a] == j[a] && jd[b] == j[b]);
        }
        assert forall|i: int| 0 <= i < jd.len() implies adjacent(#[trigger] jd[i], pa, n) && range_ok(jd[i].0, jd[i].1) by {
            assert(jd[i] == j[i]);
        }
        lemma_joined_run(jd, pa, n);
        let x = j.last();
        let last = j.len() - 1;
        assert(x == j[last]);
        let m = min_start(jd, pa);
        let s0 = pfn(m);
        let e0 = s0 + n + total_pages(jd);
        let ps = pfn(pa);
        let pe = ps + n;
        assert(adjacent(x, pa, n) && range_ok(x.0, x.1));
        assert(x.0 == pfn(x.0) * 0x4000 && m == pfn(m) * 0x4000);
        if x.1 > 0 && pfn(x.0) + x.1 == ps {
            if s0 < ps {
                let i = choose|i: int|
                    0 <= i < jd.len() && #[trigger] jd[i].1 > 0 && pfn(jd[i].0) == s0 && pfn(jd[i].0) + jd[i].1 == ps;
                assert(jd[i] == j[i]);
                assert(overlaps(j[last], j[i].0, j[i].1));
            }
            assert(pfn(x.0) < s0);
            assert(x.0 < m);
        } else if x.1 > 0 && pfn(x.0) == pe {
            if e0 > pe {
                let i = choose|i: int|
                    0 <= i < jd.len() && #[trigger] jd[i].1 > 0 && pfn(jd[i].0) == pe && pfn(jd[i].0) + jd[i].1 == e0;
                assert(jd[i] == j[i]);
                assert(overlaps(j[last], j[i].0, j[i].1));
            }
            assert(pfn(x.0) >= s0);
            assert(!(x.0 < m));
        } else {
            assert(pfn(x.0) >= s0);
            assert(!(x.0 < m));
        }
        assert forall|i: int|
            0 <= i < j.len() && #[trigger] j[i].1 > 0 implies pfn(min_start(j, pa)) <= pfn(j[i].0) && pfn(j[i].0)
                + j[i].1 <= pfn(min_start(j, pa)) + n + total_pages(j) by {
            if i < last {
                assert(jd[i] == j[i]);
            }
        }
        if pfn(min_start(j, pa)) < ps {
            if x.1 > 0 && pfn(x.0) + x.1 == ps {
                assert(j[last].1 > 0);
            } else {
                let i = choose|i: int|
                    0 <= i < jd.len() && #[trigger] jd[i].1 > 0 && pfn(jd[i].0) == s0 && pfn(jd[i].0) + jd[i].1 == ps;
                assert(jd[i] == j[i]);
            }
        }
        if pfn(min_start(j, pa)) + n + total_pages(j) > pe {
            if x.1 > 0 && pfn(x.0) == pe {
                assert(j[last].1 > 0);
            } else {
                let i = choose|i: int|
                    0 <= i < jd.len() && #[trigger] jd[i].1 > 0 && pfn(jd[i].0) == pe && pfn(jd[i].0) + jd[i].1 == e0;
                assert(jd[i] == j[i]);
            }
        }
    }
}

proof fn lemma_add_keeps_disjoint(v: Seq<RegionView>, pa: u64, n: int)
    requires
        disjoint_regions(v),
        range_ok(pa, n),
        forall|i: int| 0 <= i < v.len() ==> range_ok(#[trigger] v[i].0, v[i].1),
        forall|i: int| 0 <= i < v.len() ==> !overlaps(#[trigger] v[i], pa, n),
    ensures
        disjoint_regions(select(v, adjacency(v, pa, n), false).push(joined_region(v, pa, n))),
{
    let adj = adjacency(v, pa, n);
    let kept = select(v, adj, false);
    let jv = select(v, adj, true);
    let t = joined_region(v, pa, n);
    lemma_select_disjoint(v, adj, false);
    lemma_select_disjoint(v, adj, true);
    lemma_select_member(v, adj, false);
    lemma_select_member(v, adj, true);
    assert forall|i: int| 0 <= i < jv.len() implies adjacent(#[trigger] jv[i], pa, n) && range_ok(jv[i].0, jv[i].1) by {
        let j = choose|j: int| 0 <= j < v.len() && #[trigger] jv[i] == v[j] && adj[j] == true;
    }
    lemma_joined_run(jv, pa, n);
    let ps = pfn(pa);
    let pe = ps + n;
    let st = pfn(t.0);
    let et = st + t.1;
    let w = kept.push(t);
    assert forall|c: int| 0 <= c < kept.len() implies !(pfn(#[trigger] kept[c].0) < et && pfn(kept[c].0) + kept[c].1 > st) by {
        let j = choose|j: int| 0 <= j < v.len() && #[trigger] kept[c] == v[j] && adj[j] == false;
        let r = v[j];
        assert(!adjacent(r, pa, n));
        assert(!overlaps(r, pa, n));
        if pfn(r.0) < et && pfn(r.0) + r.1 > st {
            if pfn(r.0) >= pe {
                let i = choose|i: int|
                    0 <= i < jv.len() && #[trigger] jv[i].1 > 0 && pfn(jv[i].0) == pe && pfn(jv[i].0) + jv[i].1 == et;
                let j2 = choose|j2: int| 0 <= j2 < v.len() && #[trigger] jv[i] == v[j2] && adj[j2] == true;
                assert(overlaps(v[j], v[j2].0, v[j2].1));
            } else {
                assert(pfn(r.0) + r.1 <= ps);
                let i = choose|i: int|
                    0 <= i < jv.len() && #[trigger] jv[i].1 > 0 && pfn(jv[i].0) == st && pfn(jv[i].0) + jv[i].1 == ps;
                let j2 = choose|j2: int| 0 <= j2 < v.len() && #[trigger] jv[i] == v[j2] && adj[j2] == true;
                assert(overlaps(v[j], v[j2].0, v[j2].1));
            }
        }
    }
    assert forall|a: int, b: int|
        0 <= a < w.len() && 0 <= b < w.len() && a != b implies !overlaps(#[trigger] w[a], w[b].0, #[trigger] w[b].1) by {
        if a < kept.len() && b < kept.len() {
            assert(w[a] == kept[a] && w[b] == kept[b]);
        } else if a < kept.len() {
            assert(w[a] == kept[a] && w[b] == t);
            assert(!(pfn(kept[a].0) < et && pfn(kept[a].0) + kept[a].1 > st));
        } else {
            assert(w[b] == kept[b] && w[a] == t);
            assert(!(pfn(kept[b].0) < et && pfn(kept[b].0) + kept[b].1 > st));
        }
    }
}

proof fn lemma_pfn_after(pa: u64, n: int)
    requires
        range_ok(pa, n),
    ensures
        pa + n * 0x4000 < 0x1_0000_0000_0000_0000,
        pfn((pa + n * 0x4000) as u64) == pfn(pa) + n,
{
    assert(pa == pfn(pa) * 0x4000);
    assert(pa + n * 0x4000 == (pfn(pa) + n) * 0x4000);
    assert(((pfn(pa) + n) * 0x4000) / 0x4000 == pfn(pa) + n) by (nonlinear_arith)
        requires
            pfn(pa) + n >= 0,
    ;
}

proof fn lemma_steal_keeps_disjoint(v: Seq<RegionView>, pa: u64, n: int, k: int)
    requires
        disjoint_regions(v),
        range_ok(pa, n),
        0 <= k < v.len(),
        forall|i: int| 0 <= i < v.len() ==> range_ok(#[trigger] v[i].0, v[i].1),
        contains(v[k], pa, n),
    ensures
        disjoint_regions(v.remove(k) + remainder(v[k], pa, n)),
{
    let r = v[k];
    let rs = pfn(r.0);
    let re = rs + r.1;
    let ps = pfn(pa);
    let pe = ps + n;
    let rem = remainder(r, pa, n);
    lemma_pfn_after(pa, n);
    // every piece of what is left lies inside `r`
    assert forall|p: int| 0 <= p < rem.len() implies rs <= pfn(#[trigger] rem[p].0) && pfn(rem[p].0) + rem[p].1 <= re && rem[p].1 >= 0 by {}
    assert(rem.len() == 2 ==> pfn(rem[0].0) + rem[0].1 <= pfn(rem[1].0));
    let rv = v.remove(k);
    let w = rv + rem;
    assert forall|a: int| 0 <= a < rv.len() implies #[trigger] rv[a] == v[if a < k { a } else { a + 1 }] by {}
    assert forall|a: int, b: int|
        0 <= a < w.len() && 0 <= b < w.len() && a != b implies !overlaps(#[trigger] w[a], w[b].0, #[trigger] w[b].1) by {
        if a < rv.len() && b < rv.len() {
            let ia = if a < k { a } else { a + 1 };
            let ib = if b < k { b } else { b + 1 };
            assert(w[a] == v[ia] && w[b] == v[ib]);
        } else if a < rv.len() {
            let ia = if a < k { a } else { a + 1 };
            assert(w[a] == v[ia] && w[b] == rem[b - rv.len()]);
            assert(!overlaps(v[ia], v[k].0, v[k].1));
        } else if b < rv.len() {
            let ib = if b < k { b } else { b + 1 };
            assert(w[b] == v[ib] && w[a] == rem[a - rv.len()]);
            assert(!overlaps(v[k], v[ib].0, v[ib].1));
        } else {
            assert(w[a] == rem[a - rv.len()] && w[b] == rem[b - rv.len()]);
        }
    }
}

/// Whether region `r` holds page frame `p`.
pub open spec fn covers(r: RegionView, p: int) -> bool {
    pfn(r.0) <= p < pfn(r.0) + r.1
}

/// The free page frames: those that some region holds.
pub open spec fn free_pages(v: Seq<RegionView>) -> Set<int> {
    Set::new(|p: int| exists|i: int| 0 <= i < v.len() && covers(#[trigger] v[i], p))
}

/// Where element `j` of `s` lands in the selection it goes to.
proof fn lemma_select_index(s: Seq<RegionView>, d: Seq<bool>, j: int) -> (a: int)
    requires
        d.len() == s.len(),
        0 <= j < s.len(),
    ensures
        0 <= a < select(s, d, d[j]).len(),
        select(s, d, d[j])[a] == s[j],
    decreases s.len(),
{
    let sd = s.drop_last();
    let dd = d.drop_last();
    let keep = d[j];
    let rest = select(sd, dd, keep);
    if j < s.len() - 1 {
        let a = lemma_select_index(sd, dd, j);
        assert(sd[j] == s[j] && dd[j] == d[j]);
        if d.last() == keep {
            assert(select(s, d, keep) == rest.push(s.last()));
        } else {
            assert(select(s, d, keep) == rest);
        }
        a
    } else {
        assert(select(s, d, keep) == rest.push(s.last()));
        rest.len() as int
    }
}

/// The pieces that taking `(pa, n)` out of `r` leaves: the part before the
/// range and the part after it, each when it is not empty.
proof fn lemma_remainder_pieces(r: RegionView, pa: u64, n: int)
    requires
        range_ok(r.0, r.1),
        range_ok(pa, n),
        contains(r, pa, n),
    ensures
        forall|q: int|
            0 <= q < remainder(r, pa, n).len() ==> range_ok(#[trigger] remainder(r, pa, n)[q].0, remainder(r, pa, n)[q].1)
                && ((pfn(remainder(r, pa, n)[q].0) == pfn(r.0) && pfn(remainder(r, pa, n)[q].0) + remainder(r, pa, n)[q].1
                == pfn(pa)) || (pfn(remainder(r, pa, n)[q].0) == pfn(pa) + n && pfn(remainder(r, pa, n)[q].0)
                + remainder(r, pa, n)[q].1 == pfn(r.0) + r.1)),
        pfn(r.0) < pfn(pa) ==> exists|q: int|
            0 <= q < remainder(r, pa, n).len() && pfn(#[trigger] remainder(r, pa, n)[q].0) == pfn(r.0) && remainder(r, pa, n)[q].1
                == pfn(pa) - pfn(r.0),
        pfn(pa) + n < pfn(r.0) + r.1 ==> exists|q: int|
            0 <= q < remainder(r, pa, n).len() && pfn(#[trigger] remainder(r, pa, n)[q].0) == pfn(pa) + n
                && remainder(r, pa, n)[q].1 == pfn(r.0) + r.1 - pfn(pa) - n,
{
    lemma_pfn_after(pa, n);
    let rem = remainder(r, pa, n);
    let rs = pfn(r.0);
    let ps = pfn(pa);
    if rs < ps {
        assert(pfn(rem[0].0) == rs);
    }
    if ps + n < rs + r.1 {
        if rs == ps {
            assert(pfn(rem[0].0) == ps + n);
        } else {
            assert(pfn(rem[1].0) == ps + n);
        }
    }
}

/// The page frames of the range `(pa, n)`.
pub open spec fn page_range(pa: u64, n: int) -> Set<int> {
    Set::new(|p: int| pfn(pa) <= p < pfn(pa) + n)
}

/// Taking pages out of the free memory removes exactly those pages from the
/// free page frames.
pub proof fn law_request_takes_its_pages(v: Seq<RegionView>, pa: u64, n: int, k: int)
    requires
        forall|i: int| 0 <= i < v.len() ==> range_ok(#[trigger] v[i].0, v[i].1),
        disjoint_regions(v),
        range_ok(pa, n),
        0 <= k < v.len(),
        contains(v[k], pa, n),
    ensures
        free_pages(v.remove(k) + remainder(v[k], pa, n)) == free_pages(v).difference(page_range(pa, n)),
{
    let r = v[k];
    let ps = pfn(pa);
    let pe = ps + n;
    let rem = remainder(r, pa, n);
    let rv = v.remove(k);
    let v1 = rv + rem;
    lemma_pfn_after(pa, n);
    lemma_remainder_pieces(r, pa, n);
    assert forall|a: int| 0 <= a < rv.len() implies #[trigger] rv[a] == v[if a < k { a } else { a + 1 }] by {}
    assert forall|p: int| free_pages(v1).contains(p) <==> free_pages(v).difference(page_range(pa, n)).contains(p) by {
        if free_pages(v1).contains(p) {
            let i = choose|i: int| 0 <= i < v1.len() && covers(#[trigger] v1[i], p);
            if i < rv.len() {
                let ii = if i < k { i } else { i + 1 };
                assert(v1[i] == v[ii]);
                assert(covers(v[ii], p));
                if ps <= p < pe {
                    assert(overlaps(v[ii], v[k].0, v[k].1));
                }
            } else {
                assert(v1[i] == rem[i - rv.len()]);
                assert(covers(v[k], p));
            }
        }
        if free_pages(v).difference(page_range(pa, n)).contains(p) {
            let i = choose|i: int| 0 <= i < v.len() && covers(#[trigger] v[i], p);
            assert(!(ps <= p < pe));
            if i != k {
                let a = if i < k { i } else { i - 1 };
                assert(v1[a] == v[i]);
                assert(covers(v1[a], p));
            } else if p < ps {
                let q = choose|q: int|
                    0 <= q < rem.len() && pfn(#[trigger] rem[q].0) == pfn(r.0) && rem[q].1 == ps - pfn(r.0);
                assert(v1[rv.len() + q] == rem[q]);
                assert(covers(v1[rv.len() + q], p));
            } else {
                let q = choose|q: int|
                    0 <= q < rem.len() && pfn(#[trigger] rem[q].0) == pe && rem[q].1 == pfn(r.0) + r.1 - pe;
                assert(v1[rv.len() + q] == rem[q]);
                assert(covers(v1[rv.len() + q], p));
            }
        }
    }
    assert(free_pages(v1) =~= free_pages(v).difference(page_range(pa, n)));
}

/// Taking pages out of the free memory and handing them back leaves the
/// same pages free: what a request takes out of a free region, a release
/// of the same range can add back, since nothing free overlaps it, and the
/// free page frames are then those there were before the request.
#[verifier::rlimit(100)]
#[verifier::spinoff_prover]
pub proof fn law_request_then_release(v: Seq<RegionView>, pa: u64, n: int, k: int)
    requires
        forall|i: int| 0 <= i < v.len() ==> range_ok(#[trigger] v[i].0, v[i].1),
        disjoint_regions(v),
        range_ok(pa, n),
        0 <= k < v.len(),
        contains(v[k], pa, n),
    ensures
        ({
            let v1 = v.remove(k) + remainder(v[k], pa, n);
            &&& first_overlap(v1, pa, n) is None
            &&& range_ok(joined_region(v1, pa, n).0, joined_region(v1, pa, n).1)
            &&& free_pages(select(v1, adjacency(v1, pa, n), false).push(joined_region(v1, pa, n))) == free_pages(v)
        }),
{
    let r = v[k];
    let ps = pfn(pa);
    let pe = ps + n;
    let rem = remainder(r, pa, n);
    let rv = v.remove(k);
    let v1 = rv + rem;
    lemma_pfn_after(pa, n);
    lemma_remainder_pieces(r, pa, n);
    lemma_steal_keeps_disjoint(v, pa, n, k);
    assert forall|a: int| 0 <= a < rv.len() implies #[trigger] rv[a] == v[if a < k { a } else { a + 1 }] by {}
    // every region left is one of `v` other than `r`, or a piece of `r`
    assert forall|i: int| 0 <= i < v1.len() implies range_ok(#[trigger] v1[i].0, v1[i].1) && !overlaps(v1[i], pa, n)
        && (forall|p: int| covers(v1[i], p) ==> free_pages(v).contains(p)) by {
        if i < rv.len() {
            let ii = if i < k { i } else { i + 1 };
            assert(v1[i] == v[ii]);
            assert(!overlaps(v[ii], v[k].0, v[k].1));
            assert forall|p: int| covers(v1[i], p) implies free_pages(v).contains(p) by {
                assert(covers(v[ii], p));
            }
        } else {
            assert(v1[i] == rem[i - rv.len()]);
            assert forall|p: int| covers(v1[i], p) implies free_pages(v).contains(p) by {
                assert(covers(v[k], p));
            }
        }
    }
    assert(first_overlap(v1, pa, n) is None);
    let adj = adjacency(v1, pa, n);
    let kept = select(v1, adj, false);
    let jv = select(v1, adj, true);
    let t = joined_region(v1, pa, n);
    lemma_select_member(v1, adj, false);
    lemma_select_member(v1, adj, true);
    lemma_select_disjoint(v1, adj, true);
    assert forall|i: int| 0 <= i < jv.len() implies adjacent(#[trigger] jv[i], pa, n) && range_ok(jv[i].0, jv[i].1) by {
        let j = choose|j: int| 0 <= j < v1.len() && #[trigger] jv[i] == v1[j] && adj[j] == true;
    }
    lemma_joined_run(jv, pa, n);
    let st = pfn(t.0);
    let et = st + t.1;
    let v2 = kept.push(t);
    if et > pe {
        let a = choose|a: int|
            0 <= a < jv.len() && #[trigger] jv[a].1 > 0 && pfn(jv[a].0) == pe && pfn(jv[a].0) + jv[a].1 == et;
        assert(range_ok(jv[a].0, jv[a].1));
    }
    assert(range_ok(t.0, t.1));
    // what a region left holds stays free after the release
    assert forall|j: int, p: int| 0 <= j < v1.len() && #[trigger] covers(v1[j], p) implies free_pages(v2).contains(p) by {
        let a = lemma_select_index(v1, adj, j);
        if adj[j] {
            assert(jv[a] == v1[j] && jv[a].1 > 0);
            assert(covers(v2[kept.len() as int], p));
        } else {
            assert(v2[a] == kept[a]);
            assert(covers(v2[a], p));
        }
    }
    assert forall|p: int| free_pages(v2).contains(p) <==> free_pages(v).contains(p) by {
        if free_pages(v2).contains(p) {
            let i = choose|i: int| 0 <= i < v2.len() && covers(#[trigger] v2[i], p);
            if i < kept.len() {
                let j = choose|j: int| 0 <= j < v1.len() && #[trigger] kept[i] == v1[j] && adj[j] == false;
                assert(covers(v1[j], p));
            } else if p < ps {
                let a = choose|a: int|
                    0 <= a < jv.len() && #[trigger] jv[a].1 > 0 && pfn(jv[a].0) == st && pfn(jv[a].0) + jv[a].1 == ps;
                let j = choose|j: int| 0 <= j < v1.len() && #[trigger] jv[a] == v1[j] && adj[j] == true;
                assert(covers(v1[j], p));
            } else if p < pe {
                assert(covers(v[k], p));
            } else {
                let a = choose|a: int|
                    0 <= a < jv.len() && #[trigger] jv[a].1 > 0 && pfn(jv[a].0) == pe && pfn(jv[a].0) + jv[a].1 == et;
                let j = choose|j: int| 0 <= j < v1.len() && #[trigger] jv[a] == v1[j] && adj[j] == true;
                assert(covers(v1[j], p));
            }
        }
        if free_pages(v).contains(p) {
            let i = choose|i: int| 0 <= i < v.len() && covers(#[trigger] v[i], p);
            if i != k {
                let a = if i < k { i } else { i - 1 };
                assert(v1[a] == v[i]);
                assert(covers(v1[a], p));
            } else if p < ps {
                let q = choose|q: int|
                    0 <= q < rem.len() && pfn(#[trigger] rem[q].0) == pfn(r.0) && rem[q].1 == ps - pfn(r.0);
                assert(v1[rv.len() + q] == rem[q]);
                assert(covers(v1[rv.len() + q], p));
            } else if p < pe {
                assert(covers(v2[kept.len() as int], p));
            } else {
                let q = choose|q: int|
                    0 <= q < rem.len() && pfn(#[trigger] rem[q].0) == pe && rem[q].1 == pfn(r.0) + r.1 - pe;
                assert(v1[rv.len() + q] == rem[q]);
                assert(covers(v1[rv.len() + q], p));
            }
        }
    }
    assert(free_pages(v2) =~= free_pages(v));
}

proof fn lemma_select_views(s: Seq<PhysicalMemoryRegion>, d: Seq<bool>, keep: bool)
    requires
        d.len() == s.len(),
    ensures
        region_views(select(s, d, keep)) == select(region_views(s), d, keep),
    decreases s.len(),
{
    if s.len() > 0 {
        lemma_select_views(s.drop_last(), d.drop_last(), keep);
        assert(region_views(s.drop_last()) =~= region_views(s).drop_last());
        let rest = select(s.drop_last(), d.drop_last(), keep);
        assert(region_views(rest.push(s.last())) =~= region_views(rest).push(s.last().view()));
    }
}

proof fn lemma_select_none<T>(s: Seq<T>, d: Seq<bool>)
    requires
        d.len() == s.len(),
        forall|i: int| 0 <= i < d.len() ==> !d[i],
    ensures
        select(s, d, false) == s,
        select(s, d, true) == Seq::<T>::empty(),
    decreases s.len(),
{
    if s.len() > 0 {
        lemma_select_none(s.drop_last(), d.drop_last());
        assert(s.drop_last().push(s.last()) =~= s);
    }
}

proof fn lemma_select_one<T>(s: Seq<T>, d: Seq<bool>, k: int)
    requires
        d.len() == s.len(),
        0 <= k < s.len(),
        d[k],
        forall|i: int| 0 <= i < d.len() && i != k ==> !d[i],
    ensures
        select(s, d, false) == s.remove(k),
        select(s, d, true) == seq![s[k]],
    decreases s.len(),
{
    if k == s.len() - 1 {
        lemma_select_none(s.drop_last(), d.drop_last());
        assert(s.remove(k) =~= s.drop_last());
        assert(Seq::<T>::empty().push(s[k]) =~= seq![s[k]]);
    } else {
        lemma_select_one(s.drop_last(), d.drop_last(), k);
        assert(s.drop_last().remove(k).push(s.last()) =~= s.remove(k));
    }
}

proof fn lemma_total_pages_prefix(s: Seq<RegionView>, k: int)
    requires
        0 <= k <= s.len(),
        forall|i: int| 0 <= i < s.len() ==> #[trigger] s[i].1 >= 0,
    ensures
        0 <= total_pages(s.take(k)) <= total_pages(s),
    decreases s.len(),
{
    if s.len() > 0 {
        if k == s.len() {
            assert(s.take(k) =~= s);
            lemma_total_pages_prefix(s.drop_last(), k - 1);
            assert(s.drop_last().take(k - 1) =~= s.drop_last());
        } else {
            lemma_total_pages_prefix(s.drop_last(), k);
            assert(s.drop_last().take(k) =~= s.take(k));
        }
    }
}

#[verifier::spinoff_prover]
proof fn lemma_select_nonneg(s: Seq<RegionView>, d: Seq<bool>, keep: bool)
    requires
        d.len() == s.len(),
        forall|i: int| 0 <= i < s.len() ==> #[trigger] s[i].1 >= 0,
    ensures
        forall|i: int| 0 <= i < select(s, d, keep).len() ==> #[trigger] select(s, d, keep)[i].1 >= 0,
        forall|i: int| 0 <= i < select(s, d, keep).len() ==> exists|j: int| 0 <= j < s.len() && #[trigger] select(s, d, keep)[i] == s[j],
    decreases s.len(),
{
    if s.len() > 0 {
        lemma_select_nonneg(s.drop_last(), d.drop_last(), keep);
        let rest = select(s.drop_last(), d.drop_last(), keep);
        assert forall|i: int| 0 <= i < select(s, d, keep).len() implies exists|j: int| 0 <= j < s.len() && #[trigger] select(s, d, keep)[i] == s[j] by {
            if i < rest.len() {
                let j = choose|j: int| 0 <= j < s.drop_last().len() && rest[i] == s.drop_last()[j];
                assert(s[j] == s.drop_last()[j]);
            } else {
                assert(select(s, d, keep)[i] == s[s.len() - 1]);
            }
        }
    }
}

/// The free physical memory.
pub struct PhysicalPageAllocator {
    regions: IntrusiveList<PhysicalMemoryRegion>,
}

impl PhysicalPageAllocator {
    /// The free regions, in list order.
    pub closed spec fn view(&self) -> Seq<RegionView> {
        region_views(self.regions@)
    }

    /// Every free region is page aligned and lies in the address space, and
    /// no free region overlaps another.
    pub open spec fn wf(&self) -> bool {
        &&& forall|i: int| 0 <= i < self.view().len() ==> range_ok(#[trigger] self.view()[i].0, self.view()[i].1)
        &&& disjoint_regions(self.view())
    }

    pub fn new() -> (allocator: Self)
        ensures
            allocator.view() == Seq::<RegionView>::empty(),
            allocator.wf(),
    {
        let allocator = Self { regions: IntrusiveList::new() };
        assert(allocator.view() =~= Seq::<RegionView>::empty());
        allocator
    }

    /// The regions, first to last.
    pub fn regions(&self) -> (regions: Vec<PhysicalMemoryRegion>)
        ensures
            region_views(regions@) == self.view(),
    {
        let mut regions: Vec<PhysicalMemoryRegion> = Vec::new();
        let mut iter = self.regions.iter();
        let ghost all = self.regions@;
        loop
            invariant
                all == self.regions@,
                regions@ + iter.remaining() == all,
            ensures
                regions@ == all,
            decreases iter.remaining().len(),
        {
            let ghost rest = iter.remaining();
            match iter.next() {
                Some(item) => {
                    let region = item.get();
                    regions.push(PhysicalMemoryRegion { pa: region.pa, num_pages: region.num_pages });
                    proof {
                        assert(regions@ + iter.remaining() =~= all);
                    }
                },
                None => {
                    proof {
                        assert(regions@ =~= all);
                    }
                    break;
                },
            }
        }
        regions
    }

    /// Adds the pages of `(pa, num_pages)` to the free memory, joining them
    /// with the free regions they touch. Fails, changing nothing, when they
    /// overlap a free region.
    pub fn add_region(&mut self, pa: PhysicalAddress, num_pages: usize) -> (result: Result<
        (),
        Error,
    >)
        requires
            old(self).wf(),
            range_ok(pa.addr(), num_pages as int),
            first_overlap(old(self).view(), pa.addr(), num_pages as int) is None ==> {
                let j = joined_region(old(self).view(), pa.addr(), num_pages as int);
                &&& j.1 <= usize::MAX
                &&& range_ok(j.0, j.1)
            },
        ensures
            match first_overlap(old(self).view(), pa.addr(), num_pages as int) {
                Some(i) => {
                    &&& result matches Err(Error::RegionOverlapsWith(p, k)) && p.addr() == old(self).view()[i].0 && k == old(self).view()[i].1
                    &&& final(self).view() == old(self).view()
                },
                None => {
                    &&& result is Ok
                    &&& final(self).view() == select(
                        old(self).view(),
                        adjacency(old(self).view(), pa.addr(), num_pages as int),
                        false,
                    ).push(joined_region(old(self).view(), pa.addr(), num_pages as int))
                },
            },
            final(self).wf(),
    {
        let ghost v = self.view();
        let ghost n = num_pages as int;
        let ghost all = self.regions@;
        let mut iter = self.regions.iter();
        let ghost mut k: int = 0;
        loop
            invariant
                v == self.view(),
                all == self.regions@,
                v == region_views(all),
                self.wf(),
                range_ok(pa.addr(), n),
                n == num_pages,
                0 <= k <= all.len(),
                iter.remaining() == all.skip(k),
                forall|j: int| 0 <= j < k ==> !overlaps(#[trigger] v[j], pa.addr(), n),
            ensures
                forall|j: int| 0 <= j < v.len() ==> !overlaps(#[trigger] v[j], pa.addr(), n),
            decreases all.len() - k,
        {
            match iter.next() {
                Some(item) => {
                    let region = item.get();
                    proof {
                        assert(all.skip(k)[0] == all[k]);
                        assert(v[k] == region.view());
                    }
                    if region.overlaps(pa, num_pages) {
                        proof {
                            assert(overlaps(v[k], pa.addr(), n));
                            let fo = first_overlap(v, pa.addr(), n);
                            assert(fo is Some);
                            let i = fo.unwrap();
                            if i < k {
                                assert(!overlaps(v[i], pa.addr(), n));
                            }
                            if k < i {
                                assert(!overlaps(v[k], pa.addr(), n));
                            }
                        }
                        return Err(Error::RegionOverlapsWith(region.pa, region.num_pages));
                    }
                    proof {
                        assert(all.skip(k).drop_first() =~= all.skip(k + 1));
                        k = k + 1;
                    }
                },
                None => {
                    proof {
                        assert(all.skip(k).len() == 0);
                    }
                    break;
                },
            }
        }
        assert(first_overlap(v, pa.addr(), n) is None);
        let ghost adj = adjacency(v, pa.addr(), n);
        let is_adjacent = |region: &PhysicalMemoryRegion| -> (b: bool)
            requires
                range_ok(region.view().0, region.view().1),
                range_ok(pa.addr(), num_pages as int),
            ensures
                b == adjacent(region.view(), pa.addr(), num_pages as int),
            { region.can_be_consolidated_with(pa, num_pages) };
        assert forall|i: int| 0 <= i < all.len() implies #[trigger] (&is_adjacent).requires(
            (&all[i],),
        ) by {
            assert(v[i] == all[i].view());
        }
        let mut ranges_to_join = self.regions.drain_filter(&is_adjacent);
        proof {
            let d = choose|d: Seq<bool>|
                {
                    &&& d.len() == all.len()
                    &&& forall|i: int|
                        0 <= i < d.len() ==> #[trigger] (&is_adjacent).ensures((&all[i],), d[i])
                    &&& self.regions@ == select(all, d, false)
                    &&& ranges_to_join@ == select(all, d, true)
                };
            assert forall|i: int| 0 <= i < d.len() implies d[i] == adj[i] by {
                assert((&is_adjacent).ensures((&all[i],), d[i]));
                assert(v[i] == all[i].view());
            }
            assert(d =~= adj);
        }
        let ghost kept = select(all, adj, false);
        let ghost joined = select(all, adj, true);
        proof {
            lemma_select_views(all, adj, false);
            lemma_select_views(all, adj, true);
            assert forall|i: int| 0 <= i < v.len() implies #[trigger] v[i].1 >= 0 by {}
            lemma_select_nonneg(v, adj, true);
            lemma_select_nonneg(v, adj, false);
        }
        let ghost jv = select(v, adj, true);
        let ghost target = joined_region(v, pa.addr(), n);
        if !ranges_to_join.is_empty() {
            let mut min_pa = pa.as_u64();
            let mut total_num_pages = num_pages;
            let mut joined_iter = ranges_to_join.iter();
            let ghost mut k: int = 0;
            proof {
                lemma_total_pages_prefix(jv, 0);
            }
            loop
                invariant
                    jv == region_views(joined),
                    joined == ranges_to_join@,
                    0 <= k <= joined.len(),
                    joined_iter.remaining() == joined.skip(k),
                    min_pa == min_start(jv.take(k), pa.addr()),
                    total_num_pages == n + total_pages(jv.take(k)),
                    target == joined_region(v, pa.addr(), n),
                    target.1 <= usize::MAX,
                    target.0 == min_start(jv, pa.addr()),
                    target.1 == n + total_pages(jv),
                    forall|i: int| 0 <= i < jv.len() ==> #[trigger] jv[i].1 >= 0,
                ensures
                    min_pa == target.0,
                    total_num_pages == target.1,
                decreases joined.len() - k,
            {
                match joined_iter.next() {
                    Some(item) => {
                        let region = item.get();
                        proof {
                            assert(joined.skip(k)[0] == joined[k]);
                            assert(jv[k] == region.view());
                            assert(jv.take(k + 1).drop_last() =~= jv.take(k));
                            assert(jv.take(k + 1).last() == jv[k]);
                            lemma_total_pages_prefix(jv, k + 1);
                        }
                        let region_pa = region.pa.as_u64();
                        if region_pa < min_pa {
                            min_pa = region_pa;
                        }
                        total_num_pages = total_num_pages + region.num_pages;
                        proof {
                            assert(joined.skip(k).drop_first() =~= joined.skip(k + 1));
                            k = k + 1;
                        }
                    },
                    None => {
                        proof {
                            assert(joined.skip(k).len() == 0);
                            assert(jv.take(k) =~= jv);
                        }
                        break;
                    },
                }
            }
            let range = ranges_to_join.pop();
            match range {
                Some(mut range) => {
                    let new_pa = match PhysicalAddress::try_from_ptr(min_pa) {
                        Ok(p) => p,
                        Err(_) => {
                            assert(false);
                            PhysicalAddress::new_unchecked(0)
                        },
                    };
                    range.set(
                        IntrusiveItem::new(
                            PhysicalMemoryRegion { pa: new_pa, num_pages: total_num_pages },
                        ),
                    );
                    self.regions.push(range);
                },
                None => {},
            }
            ranges_to_join.release(|item: OwnedMutPtr<IntrusiveItem<PhysicalMemoryRegion>>| {});
        } else {
            proof {
                assert(jv.len() == 0);
                assert(jv.take(0) =~= jv);
            }
            let region = PhysicalMemoryRegion::new(pa, num_pages);
            self.regions.push(OwnedMutPtr::new_from_box(Box::new(IntrusiveItem::new(region))));
        }
        proof {
            assert(self.view() =~= select(v, adj, false).push(target));
            lemma_add_keeps_disjoint(v, pa.addr(), n);
            assert forall|i: int| 0 <= i < self.view().len() implies range_ok(
                #[trigger] self.view()[i].0,
                self.view()[i].1,
            ) by {
                if i < select(v, adj, false).len() {
                    let j = choose|j: int| 0 <= j < v.len() && select(v, adj, false)[i] == v[j];
                    assert(range_ok(v[j].0, v[j].1));
                }
            }
        }
        Ok(())
    }

    /// Takes the pages of `(pa, num_pages)` out of the free memory. They must
    /// lie inside one free region; what is left of that region goes to the
    /// end of the list.
    pub fn steal_region(&mut self, pa: PhysicalAddress, num_pages: usize) -> (result: Result<
        (),
        Error,
    >)
        requires
            old(self).wf(),
            range_ok(pa.addr(), num_pages as int),
            num_pages == 0 ==> forall|i: int, j: int|
                0 <= i < old(self).view().len() && 0 <= j < old(self).view().len() && contains(
                    #[trigger] old(self).view()[i],
                    pa.addr(),
                    num_pages as int,
                ) && contains(#[trigger] old(self).view()[j], pa.addr(), num_pages as int) ==> i
                    == j,
        ensures
            final(self).wf(),
            (forall|i: int|
                0 <= i < old(self).view().len() ==> !contains(
                    #[trigger] old(self).view()[i],
                    pa.addr(),
                    num_pages as int,
                )) ==> (result matches Err(Error::RegionNotAvailable)) && final(self).view() == old(self).view(),
            forall|i: int|
                0 <= i < old(self).view().len() && contains(
                    #[trigger] old(self).view()[i],
                    pa.addr(),
                    num_pages as int,
                ) ==> result is Ok && final(self).view() == old(self).view().remove(i) + remainder(
                    old(self).view()[i],
                    pa.addr(),
                    num_pages as int,
                ),
    {
        let ghost v = self.view();
        let ghost n = num_pages as int;
        let ghost all = self.regions@;
        proof {
            assert forall|i: int, j: int|
                0 <= i < v.len() && 0 <= j < v.len() && contains(#[trigger] v[i], pa.addr(), n) && contains(
                    #[trigger] v[j],
                    pa.addr(),
                    n,
                ) implies i == j by {
                if n > 0 && i != j {
                    assert(overlaps(v[i], v[j].0, v[j].1));
                }
            }
        }
        let is_container = |region: &PhysicalMemoryRegion| -> (b: bool)
            requires
                range_ok(region.view().0, region.view().1),
                range_ok(pa.addr(), num_pages as int),
            ensures
                b == contains(region.view(), pa.addr(), num_pages as int),
            { region.contains(pa, num_pages) };
        assert forall|i: int| 0 <= i < all.len() implies #[trigger] (&is_container).requires(
            (&all[i],),
        ) by {
            assert(v[i] == all[i].view());
        }
        let mut contained_ranges = self.regions.drain_filter(&is_container);
        let ghost cont = Seq::new(v.len(), |i: int| contains(v[i], pa.addr(), n));
        proof {
            let d = choose|d: Seq<bool>|
                {
                    &&& d.len() == all.len()
                    &&& forall|i: int|
                        0 <= i < d.len() ==> #[trigger] (&is_container).ensures((&all[i],), d[i])
                    &&& self.regions@ == select(all, d, false)
                    &&& contained_ranges@ == select(all, d, true)
                };
            assert forall|i: int| 0 <= i < d.len() implies d[i] == cont[i] by {
                assert((&is_container).ensures((&all[i],), d[i]));
                assert(v[i] == all[i].view());
            }
            assert(d =~= cont);
            if forall|i: int| 0 <= i < v.len() ==> !contains(#[trigger] v[i], pa.addr(), n) {
                lemma_select_none(all, cont);
            } else {
                let k = choose|i: int| 0 <= i < v.len() && contains(#[trigger] v[i], pa.addr(), n);
                lemma_select_one(all, cont, k);
                assert(region_views(all.remove(k)) =~= v.remove(k));
            }
        }
        if contained_ranges.is_empty() {
            return Err(Error::RegionNotAvailable);
        }
        let ghost k = choose|i: int| 0 <= i < v.len() && contains(#[trigger] v[i], pa.addr(), n);
        let region = match contained_ranges.pop() {
            Some(region) => region,
            None => {
                assert(false);
                return Err(Error::RegionNotAvailable);
            },
        };
        let r = region.get().get();
        assert(r.view() == v[k]);
        let rpa = r.pa;
        let rnum = r.num_pages;
        let matches_start = r.matches_start(pa);
        let matches_end = r.matches_end(pa, num_pages);
        proof {
            assert(pa.addr() == pfn(pa.addr()) * 0x4000);
            assert(rpa.addr() == pfn(rpa.addr()) * 0x4000);
        }
        if matches_start && matches_end {
        } else if matches_start {
            let mut region = region;
            let new_pa = PhysicalAddress::new_unchecked(pa.as_u64() + num_pages as u64 * PAGE_SIZE_BYTES);
            region.set(IntrusiveItem::new(PhysicalMemoryRegion { pa: new_pa, num_pages: rnum - num_pages }));
            self.regions.push(region);
        } else if matches_end {
            let mut region = region;
            region.set(IntrusiveItem::new(PhysicalMemoryRegion { pa: rpa, num_pages: rnum - num_pages }));
            self.regions.push(region);
        } else {
            let mut region = region;
            let first_num_pages = ((pa.as_u64() - rpa.as_u64()) / PAGE_SIZE_BYTES) as usize;
            let second_pa = PhysicalAddress::new_unchecked(pa.as_u64() + num_pages as u64 * PAGE_SIZE_BYTES);
            let second_num_pages = rnum - ((second_pa.as_u64() - rpa.as_u64()) / PAGE_SIZE_BYTES) as usize;
            region.set(IntrusiveItem::new(PhysicalMemoryRegion { pa: rpa, num_pages: first_num_pages }));
            self.regions.push(region);
            let new_region = PhysicalMemoryRegion::new(second_pa, second_num_pages);
            self.regions.push(OwnedMutPtr::new_from_box(Box::new(IntrusiveItem::new(new_region))));
        }
        proof {
            assert(self.view() =~= v.remove(k) + remainder(v[k], pa.addr(), n));
            lemma_steal_keeps_disjoint(v, pa.addr(), n, k);
            assert forall|i: int| 0 <= i < self.view().len() implies range_ok(
                #[trigger] self.view()[i].0,
                self.view()[i].1,
            ) by {
                if i < k {
                    assert(self.view()[i] == v[i]);
                } else if i < v.len() - 1 {
                    assert(self.view()[i] == v[i + 1]);
                }
            }
        }
        Ok(())
    }

    /// Takes the pages of `(pa, num_pages)` for the caller.
    pub fn request_pages(&mut self, pa: PhysicalAddress, num_pages: usize) -> (result: Result<
        PhysicalMemoryRegion,
        Error,
    >)
        requires
            old(self).wf(),
            range_ok(pa.addr(), num_pages as int),
            num_pages == 0 ==> forall|i: int, j: int|
                0 <= i < old(self).view().len() && 0 <= j < old(self).view().len() && contains(
                    #[trigger] old(self).view()[i],
                    pa.addr(),
                    num_pages as int,
                ) && contains(#[trigger] old(self).view()[j], pa.addr(), num_pages as int) ==> i
                    == j,
        ensures
            final(self).wf(),
            (forall|i: int|
                0 <= i < old(self).view().len() ==> !contains(
                    #[trigger] old(self).view()[i],
                    pa.addr(),
                    num_pages as int,
                )) ==> (result matches Err(Error::RegionNotAvailable)) && final(self).view() == old(self).view(),
            forall|i: int|
                0 <= i < old(self).view().len() && contains(
                    #[trigger] old(self).view()[i],
                    pa.addr(),
                    num_pages as int,
                ) ==> (result matches Ok(r) && r.view() == (pa.addr(), num_pages as int)) && final(self).view() == old(self).view().remove(i) + remainder(
                    old(self).view()[i],
                    pa.addr(),
                    num_pages as int,
                ),
    {
        match self.steal_region(pa, num_pages) {
            Ok(()) => Ok(PhysicalMemoryRegion::new(pa, num_pages)),
            Err(e) => Err(e),
        }
    }

    /// Gives the pages of `region` back to the free memory.
    pub fn release_pages(&mut self, region: PhysicalMemoryRegion) -> (result: Result<(), Error>)
        requires
            old(self).wf(),
            range_ok(region.view().0, region.view().1),
            first_overlap(old(self).view(), region.view().0, region.view().1) is None ==> {
                let j = joined_region(old(self).view(), region.view().0, region.view().1);
                &&& j.1 <= usize::MAX
                &&& range_ok(j.0, j.1)
            },
        ensures
            match first_overlap(old(self).view(), region.view().0, region.view().1) {
                Some(i) => {
                    &&& result matches Err(Error::RegionOverlapsWith(p, k)) && p.addr() == old(self).view()[i].0 && k == old(self).view()[i].1
                    &&& final(self).view() == old(self).view()
                },
                None => {
                    &&& result is Ok
                    &&& final(self).view() == select(
                        old(self).view(),
                        adjacency(old(self).view(), region.view().0, region.view().1),
                        false,
                    ).push(joined_region(old(self).view(), region.view().0, region.view().1))
                },
            },
            final(self).wf(),
    {
        self.add_region(region.pa, region.num_pages)
    }
}

} // verus!
