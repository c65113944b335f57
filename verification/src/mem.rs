//! Per-task virtual-memory state: the frame pool, the region manager that
//! `mmap`/`munmap` mutate, per-page address translation, and writes into
//! physical memory through that translation.
//!
//! Every operation is specified against a mathematical model: `FrameAllocModel`
//! for the frame pool, `RegionModel` for one mapped range, and `MemModel` for a
//! whole address space.  The executable operations are proved equal to the
//! spec-level transitions `spec_mmap` / `spec_munmap`, and the laws about
//! round trips and overlap are proved of those transitions.

use vstd::prelude::*;

use crate::config::PAGE_SIZE;

verus! {

// ------------------------------------------------------------------
// Page arithmetic
// ------------------------------------------------------------------

/// A virtual address is page-aligned when it is a whole multiple of the
/// page size.
pub open spec fn spec_aligned(va: int) -> bool {
    va % (PAGE_SIZE as int) == 0
}

/// Page number of the page holding `va`.
pub open spec fn spec_floor_vpn(va: int) -> int {
    va / (PAGE_SIZE as int)
}

/// First page number at or after `va`.
pub open spec fn spec_ceil_vpn(va: int) -> int {
    if va % (PAGE_SIZE as int) == 0 {
        va / (PAGE_SIZE as int)
    } else {
        va / (PAGE_SIZE as int) + 1
    }
}

/// Whether a virtual address lies on a page boundary.
pub fn page_aligned(va: usize) -> (b: bool)
    ensures
        b == spec_aligned(va as int),
{
    va % PAGE_SIZE == 0
}

/// Page number of the page holding `va`.
pub fn floor_vpn(va: usize) -> (vpn: usize)
    ensures
        vpn == spec_floor_vpn(va as int),
{
    va / PAGE_SIZE
}

/// First page number at or after `va`.
pub fn ceil_vpn(va: usize) -> (vpn: usize)
    ensures
        vpn == spec_ceil_vpn(va as int),
{
    if va % PAGE_SIZE == 0 {
        va / PAGE_SIZE
    } else {
        va / PAGE_SIZE + 1
    }
}

// ------------------------------------------------------------------
// Frame pool
// ------------------------------------------------------------------

/// Mathematical state of the frame pool: `cap` frames exist, frames
/// `[0, next)` have been handed out at least once, `in_use` are currently
/// allocated, and `recycled` holds the freed ones available for reuse.
pub struct FrameAllocModel {
    pub next: int,
    pub cap: int,
    pub in_use: int,
    pub recycled: Seq<usize>,
}

/// Well-formedness of the frame pool: the recycled stack holds exactly the
/// handed-out-but-freed frames, every frame number stays below `cap`, and
/// all `cap` pages of physical memory are addressable.
pub open spec fn alloc_wf(a: FrameAllocModel) -> bool {
    &&& 0 <= a.in_use
    &&& a.in_use <= a.next
    &&& a.next <= a.cap
    &&& a.cap * (PAGE_SIZE as int) <= usize::MAX as int
    &&& a.recycled.len() == a.next - a.in_use
    &&& forall|i: int| 0 <= i < a.recycled.len() ==> (#[trigger] a.recycled[i]) < a.cap
}

/// Frames still available for allocation.
pub open spec fn avail_frames(a: FrameAllocModel) -> int {
    a.cap - a.in_use
}

/// One allocation: reuse the most recently freed frame, else a fresh one.
pub open spec fn spec_alloc(a: FrameAllocModel) -> (FrameAllocModel, usize) {
    if a.recycled.len() > 0 {
        (
            FrameAllocModel {
                next: a.next,
                cap: a.cap,
                in_use: a.in_use + 1,
                recycled: a.recycled.drop_last(),
            },
            a.recycled.last(),
        )
    } else {
        (
            FrameAllocModel {
                next: a.next + 1,
                cap: a.cap,
                in_use: a.in_use + 1,
                recycled: a.recycled,
            },
            a.next as usize,
        )
    }
}

/// `n` allocations in a row, returning the frames in allocation order.
pub open spec fn spec_alloc_n(a: FrameAllocModel, n: nat) -> (FrameAllocModel, Seq<usize>)
    decreases n,
{
    if n == 0 {
        (a, Seq::<usize>::empty())
    } else {
        let r = spec_alloc_n(a, (n - 1) as nat);
        let s = spec_alloc(r.0);
        (s.0, r.1.push(s.1))
    }
}

/// Returning one frame to the pool.
pub open spec fn spec_free(a: FrameAllocModel, f: usize) -> FrameAllocModel {
    FrameAllocModel {
        next: a.next,
        cap: a.cap,
        in_use: a.in_use - 1,
        recycled: a.recycled.push(f),
    }
}

/// Returning a sequence of frames to the pool, in order.
pub open spec fn spec_free_seq(a: FrameAllocModel, fs: Seq<usize>) -> FrameAllocModel
    decreases fs.len(),
{
    if fs.len() == 0 {
        a
    } else {
        spec_free(spec_free_seq(a, fs.drop_last()), fs.last())
    }
}

/// A run of `n` allocations keeps the pool well formed, raises `in_use` by
/// exactly `n`, and hands out `n` frame numbers below `cap`.
proof fn lemma_alloc_n_props(a: FrameAllocModel, n: nat)
    requires
        alloc_wf(a),
        a.in_use + n <= a.cap,
    ensures
        ({
            let (a1, fs) = spec_alloc_n(a, n);
            &&& alloc_wf(a1)
            &&& a1.cap == a.cap
            &&& a1.next >= a.next
            &&& a1.in_use == a.in_use + n
            &&& fs.len() == n
            &&& forall|i: int| 0 <= i < fs.len() ==> (#[trigger] fs[i]) < a.cap
        }),
    decreases n,
{
    if n > 0 {
        lemma_alloc_n_props(a, (n - 1) as nat);
        let (a1, fs) = spec_alloc_n(a, (n - 1) as nat);
        if a1.recycled.len() > 0 {
            assert(forall|i: int|
                0 <= i < a1.recycled.drop_last().len() ==> (#[trigger] a1.recycled.drop_last()[i])
                    < a1.cap);
        }
    }
}

/// Freeing `fs` appends them to the recycled stack and lowers `in_use` by
/// `fs.len()`; when every freed frame is below `cap` and the pool had at
/// least `fs.len()` frames in use, the pool stays well formed.
proof fn lemma_free_seq_props(a: FrameAllocModel, fs: Seq<usize>)
    requires
        alloc_wf(a),
        fs.len() <= a.in_use,
        forall|i: int| 0 <= i < fs.len() ==> (#[trigger] fs[i]) < a.cap,
    ensures
        ({
            let a1 = spec_free_seq(a, fs);
            &&& a1.next == a.next
            &&& a1.cap == a.cap
            &&& a1.in_use == a.in_use - fs.len()
            &&& a1.recycled == a.recycled + fs
            &&& alloc_wf(a1)
        }),
    decreases fs.len(),
{
    if fs.len() > 0 {
        assert(forall|i: int|
            0 <= i < fs.drop_last().len() ==> (#[trigger] fs.drop_last()[i]) < a.cap);
        lemma_free_seq_props(a, fs.drop_last());
        let a1 = spec_free_seq(a, fs.drop_last());
        assert(a1.recycled.push(fs.last()) =~= a.recycled + fs);
        assert(forall|i: int|
            0 <= i < a1.recycled.push(fs.last()).len() ==> (#[trigger] a1.recycled.push(
                fs.last(),
            )[i]) < a.cap);
    } else {
        assert(a.recycled + fs =~= a.recycled);
    }
}

/// The frame pool.  Frames are identified by their physical page number.
pub struct FrameAllocator {
    pub next: usize,
    pub cap: usize,
    pub in_use: usize,
    pub recycled: Vec<usize>,
}

impl View for FrameAllocator {
    type V = FrameAllocModel;

    open spec fn view(&self) -> FrameAllocModel {
        FrameAllocModel {
            next: self.next as int,
            cap: self.cap as int,
            in_use: self.in_use as int,
            recycled: self.recycled@,
        }
    }
}

impl FrameAllocator {
    /// An empty pool of `cap` frames.
    pub fn new(cap: usize) -> (a: FrameAllocator)
        requires
            cap <= usize::MAX / PAGE_SIZE,
        ensures
            alloc_wf(a@),
            a@.next == 0,
            a@.cap == cap,
            a@.in_use == 0,
            a@.recycled == Seq::<usize>::empty(),
    {
        let a = FrameAllocator { next: 0, cap, in_use: 0, recycled: Vec::new() };
        proof {
            assert(cap * (PAGE_SIZE as int) <= usize::MAX as int) by (nonlinear_arith)
                requires
                    cap <= usize::MAX / PAGE_SIZE,
                    PAGE_SIZE == 4096,
            ;
            assert(a@.recycled =~= Seq::<usize>::empty());
        }
        a
    }

    /// Allocate one frame; the pool must not be exhausted.
    pub fn alloc_frame(&mut self) -> (f: usize)
        requires
            alloc_wf(old(self)@),
            avail_frames(old(self)@) > 0,
        ensures
            (final(self)@, f) == spec_alloc(old(self)@),
            alloc_wf(final(self)@),
            f < old(self)@.cap,
    {
        let popped = self.recycled.pop();
        match popped {
            Some(f) => {
                self.in_use = self.in_use + 1;
                f
            },
            None => {
                let f = self.next;
                self.next = self.next + 1;
                self.in_use = self.in_use + 1;
                f
            },
        }
    }

    /// Return one frame to the pool.
    pub fn free_frame(&mut self, f: usize)
        requires
            alloc_wf(old(self)@),
            old(self)@.in_use > 0,
            f < old(self)@.cap,
        ensures
            final(self)@ == spec_free(old(self)@, f),
            alloc_wf(final(self)@),
    {
        self.recycled.push(f);
        self.in_use = self.in_use - 1;
    }
}

// ------------------------------------------------------------------
// Regions
// ------------------------------------------------------------------

/// One mapped range of virtual pages `[start_vpn, end_vpn)`, its permission
/// bits, and the physical frame backing each page in order.
pub struct MemRegion {
    pub start_vpn: usize,
    pub end_vpn: usize,
    pub port: usize,
    pub frames: Vec<usize>,
}

/// Mathematical shadow of one region.
#[verifier::ext_equal]
pub struct RegionModel {
    pub start: int,
    pub end: int,
    pub port: int,
    pub frames: Seq<usize>,
}

impl View for MemRegion {
    type V = RegionModel;

    open spec fn view(&self) -> RegionModel {
        RegionModel {
            start: self.start_vpn as int,
            end: self.end_vpn as int,
            port: self.port as int,
            frames: self.frames@,
        }
    }
}

/// A region is well formed when it is nonempty, carries one backing frame
/// per page, uses only the three low permission bits with at least one set,
/// and every frame number lies below `cap`.
pub open spec fn region_wf(r: RegionModel, cap: int) -> bool {
    &&& 0 <= r.start < r.end
    &&& r.frames.len() == r.end - r.start
    &&& 0 < r.port < 8
    &&& forall|k: int| 0 <= k < r.frames.len() ==> (#[trigger] r.frames[k]) < cap
}

/// Two half-open ranges intersect.
pub open spec fn ranges_overlap(s1: int, e1: int, s2: int, e2: int) -> bool {
    s1 < e2 && s2 < e1
}

/// `vpn` lies in region `r`.
pub open spec fn region_contains(r: RegionModel, vpn: int) -> bool {
    r.start <= vpn < r.end
}

/// No region of `rs` intersects `[s, e)`.
pub open spec fn range_free(rs: Seq<RegionModel>, s: int, e: int) -> bool {
    forall|i: int|
        0 <= i < rs.len() ==> !ranges_overlap((#[trigger] rs[i]).start, rs[i].end, s, e)
}

/// Some region of `rs` holds `vpn`.
pub open spec fn is_mapped(rs: Seq<RegionModel>, vpn: int) -> bool {
    exists|i: int| 0 <= i < rs.len() && region_contains(#[trigger] rs[i], vpn)
}

/// Every page of `[s, e)` is mapped.
pub open spec fn range_mapped(rs: Seq<RegionModel>, s: int, e: int) -> bool {
    forall|vpn: int| s <= vpn < e ==> #[trigger] is_mapped(rs, vpn)
}

/// Total number of frames held by the regions.
pub open spec fn frame_count(rs: Seq<RegionModel>) -> int
    decreases rs.len(),
{
    if rs.len() == 0 {
        0
    } else {
        frame_count(rs.drop_last()) + rs.last().frames.len()
    }
}

// ------------------------------------------------------------------
// Whole address space
// ------------------------------------------------------------------

/// Mathematical shadow of a task's address space.
#[verifier::ext_equal]
pub struct MemModel {
    pub token: int,
    pub regions: Seq<RegionModel>,
    pub alloc: FrameAllocModel,
}

/// Well-formedness of an address space: a well-formed pool, well-formed
/// pairwise-disjoint regions, and no more frames mapped than are in use.
pub open spec fn mem_wf(m: MemModel) -> bool {
    &&& alloc_wf(m.alloc)
    &&& forall|i: int| 0 <= i < m.regions.len() ==> region_wf(#[trigger] m.regions[i], m.alloc.cap)
    &&& forall|i: int, j: int|
        0 <= i < m.regions.len() && 0 <= j < m.regions.len() && i != j ==> !ranges_overlap(
            (#[trigger] m.regions[i]).start,
            m.regions[i].end,
            (#[trigger] m.regions[j]).start,
            m.regions[j].end,
        )
    &&& frame_count(m.regions) <= m.alloc.in_use
}

/// The `mmap` transition on the model: reject an intersecting range and an
/// exhausted pool, otherwise append the new region backed by freshly
/// allocated frames.
pub open spec fn spec_mmap(m: MemModel, s: int, e: int, port: int) -> (MemModel, int) {
    if !range_free(m.regions, s, e) {
        (m, -1)
    } else if e - s > avail_frames(m.alloc) {
        (m, -1)
    } else {
        let r = spec_alloc_n(m.alloc, (e - s) as nat);
        (
            MemModel {
                token: m.token,
                regions: m.regions.push(
                    RegionModel { start: s, end: e, port: port, frames: r.1 },
                ),
                alloc: r.0,
            },
            0,
        )
    }
}

/// What is left of region `r` after the pages of `[s, e)` are removed:
/// nothing, the whole region, or one or two pieces.
pub open spec fn region_cut(r: RegionModel, s: int, e: int) -> Seq<RegionModel> {
    if !ranges_overlap(r.start, r.end, s, e) {
        seq![r]
    } else {
        let left = if r.start < s {
            seq![
                RegionModel {
                    start: r.start,
                    end: s,
                    port: r.port,
                    frames: r.frames.subrange(0, s - r.start),
                },
            ]
        } else {
            Seq::<RegionModel>::empty()
        };
        let right = if e < r.end {
            seq![
                RegionModel {
                    start: e,
                    end: r.end,
                    port: r.port,
                    frames: r.frames.subrange(e - r.start, r.end - r.start),
                },
            ]
        } else {
            Seq::<RegionModel>::empty()
        };
        left + right
    }
}

/// The frames of `r` that back pages of `[s, e)`, in page order.
pub open spec fn region_cut_freed(r: RegionModel, s: int, e: int) -> Seq<usize> {
    if !ranges_overlap(r.start, r.end, s, e) {
        Seq::<usize>::empty()
    } else {
        let lo = if r.start < s {
            s
        } else {
            r.start
        };
        let hi = if e < r.end {
            e
        } else {
            r.end
        };
        r.frames.subrange(lo - r.start, hi - r.start)
    }
}

/// All regions after the pages of `[s, e)` are removed, keeping order.
pub open spec fn cut_all(rs: Seq<RegionModel>, s: int, e: int) -> Seq<RegionModel>
    decreases rs.len(),
{
    if rs.len() == 0 {
        Seq::<RegionModel>::empty()
    } else {
        cut_all(rs.drop_last(), s, e) + region_cut(rs.last(), s, e)
    }
}

/// All frames freed when the pages of `[s, e)` are removed, in region order.
pub open spec fn freed_all(rs: Seq<RegionModel>, s: int, e: int) -> Seq<usize>
    decreases rs.len(),
{
    if rs.len() == 0 {
        Seq::<usize>::empty()
    } else {
        freed_all(rs.drop_last(), s, e) + region_cut_freed(rs.last(), s, e)
    }
}

/// The `munmap` transition on the model: an empty range succeeds without
/// change; a range with an unmapped page is rejected without change;
/// otherwise every page of the range is removed and its frame freed.
pub open spec fn spec_munmap(m: MemModel, s: int, e: int) -> (MemModel, int) {
    if s >= e {
        (m, 0)
    } else if !range_mapped(m.regions, s, e) {
        (m, -1)
    } else {
        (
            MemModel {
                token: m.token,
                regions: cut_all(m.regions, s, e),
                alloc: spec_free_seq(m.alloc, freed_all(m.regions, s, e)),
            },
            0,
        )
    }
}

// ------------------------------------------------------------------
// Executable address space
// ------------------------------------------------------------------

/// A task's address space: the page-table token handed to the hardware, the
/// mapped regions, and the frame pool the mappings draw from.
pub struct MemorySet {
    pub token: usize,
    pub regions: Vec<MemRegion>,
    pub allocator: FrameAllocator,
}

/// The models of a sequence of regions, in order.
pub open spec fn regions_view(rs: Seq<MemRegion>) -> Seq<RegionModel> {
    rs.map_values(|r: MemRegion| r@)
}

/// Appending a region appends its model.
proof fn lemma_regions_view_push(rs: Seq<MemRegion>, x: MemRegion)
    ensures
        regions_view(rs.push(x)) == regions_view(rs).push(x@),
{
    assert(regions_view(rs.push(x)) =~= regions_view(rs).push(x@));
}

impl View for MemorySet {
    type V = MemModel;

    open spec fn view(&self) -> MemModel {
        MemModel {
            token: self.token as int,
            regions: regions_view(self.regions@),
            alloc: self.allocator@,
        }
    }
}

impl MemorySet {
    /// An empty address space over a pool of `cap` frames.
    pub fn new(token: usize, cap: usize) -> (ms: MemorySet)
        requires
            cap <= usize::MAX / PAGE_SIZE,
        ensures
            mem_wf(ms@),
            ms@.token == token,
            ms@.regions == Seq::<RegionModel>::empty(),
            ms@.alloc.cap == cap,
            ms@.alloc.in_use == 0,
            ms@.alloc.next == 0,
    {
        let ms = MemorySet { token, regions: Vec::new(), allocator: FrameAllocator::new(cap) };
        proof {
            assert(ms@.regions =~= Seq::<RegionModel>::empty());
        }
        ms
    }

    /// Whether `[s, e)` intersects an existing region.
    fn overlaps_existing(&self, s: usize, e: usize) -> (b: bool)
        ensures
            b == !range_free(self@.regions, s as int, e as int),
    {
        let mut i: usize = 0;
        while i < self.regions.len()
            invariant
                i <= self.regions.len(),
                self@.regions.len() == self.regions.len(),
                forall|j: int|
                    0 <= j < i ==> !ranges_overlap(
                        (#[trigger] self@.regions[j]).start,
                        self@.regions[j].end,
                        s as int,
                        e as int,
                    ),
            decreases self.regions.len() - i,
        {
            let overlap = self.regions[i].start_vpn < e && s < self.regions[i].end_vpn;
            proof {
                assert(self@.regions[i as int] == self.regions@[i as int]@);
            }
            if overlap {
                return true;
            }
            i += 1;
        }
        false
    }

    /// Index of the region holding `vpn`, if any.
    fn find_containing(&self, vpn: usize) -> (o: Option<usize>)
        ensures
            match o {
                Some(i) => i < self@.regions.len() && region_contains(
                    self@.regions[i as int],
                    vpn as int,
                ),
                None => !is_mapped(self@.regions, vpn as int),
            },
    {
        let mut i: usize = 0;
        while i < self.regions.len()
            invariant
                i <= self.regions.len(),
                self@.regions.len() == self.regions.len(),
                forall|j: int|
                    0 <= j < i ==> !region_contains(#[trigger] self@.regions[j], vpn as int),
            decreases self.regions.len() - i,
        {
            proof {
                assert(self@.regions[i as int] == self.regions@[i as int]@);
            }
            if self.regions[i].start_vpn <= vpn && vpn < self.regions[i].end_vpn {
                return Some(i);
            }
            i += 1;
        }
        None
    }

    /// Whether every page of `[s, e)` is mapped.
    fn covers_range(&self, s: usize, e: usize) -> (b: bool)
        requires
            s <= e,
        ensures
            b == range_mapped(self@.regions, s as int, e as int),
    {
        let mut vpn = s;
        while vpn < e
            invariant
                s <= vpn <= e,
                forall|v: int| s <= v < vpn ==> #[trigger] is_mapped(self@.regions, v),
            decreases e - vpn,
        {
            if self.find_containing(vpn).is_none() {
                proof {
                    assert(!is_mapped(self@.regions, vpn as int));
                }
                return false;
            }
            vpn += 1;
        }
        true
    }

    /// Map `[start_vpn, end_vpn)` with permission bits `port`.  Fails, and
    /// leaves the address space unchanged, when the range intersects an
    /// existing region or the pool lacks enough frames; otherwise appends
    /// the new region with one frame per page drawn from the pool.
    pub fn mmap(&mut self, start_vpn: usize, end_vpn: usize, port: usize) -> (r: isize)
        requires
            mem_wf(old(self)@),
            start_vpn < end_vpn,
            0 < port < 8,
        ensures
            mem_wf(final(self)@),
            (final(self)@, r as int) == spec_mmap(
                old(self)@,
                start_vpn as int,
                end_vpn as int,
                port as int,
            ),
    {
        let ghost m0 = self@;
        if self.overlaps_existing(start_vpn, end_vpn) {
            return -1;
        }
        let npages = end_vpn - start_vpn;
        if npages > self.allocator.cap - self.allocator.in_use {
            return -1;
        }
        let mut frames: Vec<usize> = Vec::new();
        let mut k: usize = 0;
        proof {
            assert(frames@ =~= spec_alloc_n(m0.alloc, 0).1);
        }
        while k < npages
            invariant
                k <= npages,
                npages == end_vpn - start_vpn,
                mem_wf(m0),
                m0.alloc.in_use + npages <= m0.alloc.cap,
                self.token == old(self).token,
                self.regions == old(self).regions,
                m0 == old(self)@,
                (self.allocator@, frames@) == spec_alloc_n(m0.alloc, k as nat),
            decreases npages - k,
        {
            proof {
                lemma_alloc_n_props(m0.alloc, k as nat);
            }
            let f = self.allocator.alloc_frame();
            frames.push(f);
            k += 1;
        }
        proof {
            lemma_alloc_n_props(m0.alloc, npages as nat);
        }
        let region = MemRegion { start_vpn, end_vpn, port, frames };
        self.regions.push(region);
        proof {
            let rm = RegionModel {
                start: start_vpn as int,
                end: end_vpn as int,
                port: port as int,
                frames: spec_alloc_n(m0.alloc, npages as nat).1,
            };
            assert(self@.regions =~= m0.regions.push(rm));
            lemma_frame_count_push(m0.regions, rm);
            assert(mem_wf(self@));
            assert(self@ =~= spec_mmap(m0, start_vpn as int, end_vpn as int, port as int).0);
        }
        0
    }

    /// Unmap every page of `[start_vpn, end_vpn)`.  An empty range is a
    /// no-op success; a range containing an unmapped page fails and leaves
    /// the address space unchanged; otherwise the pages are removed, the
    /// regions holding them truncated or split, and the backing frames
    /// returned to the pool.
    pub fn unmap(&mut self, start_vpn: usize, end_vpn: usize) -> (r: isize)
        requires
            mem_wf(old(self)@),
        ensures
            mem_wf(final(self)@),
            (final(self)@, r as int) == spec_munmap(old(self)@, start_vpn as int, end_vpn as int),
    {
        let ghost m0 = self@;
        let ghost s = start_vpn as int;
        let ghost e = end_vpn as int;
        if start_vpn >= end_vpn {
            return 0;
        }
        if !self.covers_range(start_vpn, end_vpn) {
            return -1;
        }
        proof {
            lemma_freed_le_count(m0.regions, s, e, m0.alloc.cap);
        }
        let n = self.regions.len();
        let mut new_regions: Vec<MemRegion> = Vec::new();
        let mut i: usize = 0;
        proof {
            assert(m0.regions.take(0) =~= Seq::<RegionModel>::empty());
            assert(regions_view(new_regions@) =~= cut_all(m0.regions.take(0), s, e));
            assert(freed_all(m0.regions.take(0), s, e) =~= Seq::<usize>::empty());
            assert(self.allocator@ =~= spec_free_seq(m0.alloc, freed_all(m0.regions.take(0), s, e)));
        }
        while i < n
            invariant
                i <= n,
                n == self.regions.len(),
                mem_wf(m0),
                s == start_vpn as int,
                e == end_vpn as int,
                s < e,
                range_mapped(m0.regions, s, e),
                self.token == old(self).token,
                self.regions@ == old(self).regions@,
                m0 == old(self)@,
                regions_view(new_regions@) == cut_all(m0.regions.take(i as int), s, e),
                self.allocator@ == spec_free_seq(
                    m0.alloc,
                    freed_all(m0.regions.take(i as int), s, e),
                ),
            decreases n - i,
        {
            let ghost pre = m0.regions.take(i as int);
            let ghost rm = m0.regions[i as int];
            proof {
                assert(m0.regions == regions_view(self.regions@));
                assert(m0.regions[i as int] == self.regions@[i as int]@);
                assert(m0.regions.take(i + 1).drop_last() =~= pre);
                assert(m0.regions.take(i + 1).last() == rm);
                lemma_freed_prefix_le(m0.regions, s, e, i as int, m0.alloc.cap);
                lemma_free_seq_prefix_facts(m0, s, e, i as int);
            }
            let rs = self.regions[i].start_vpn;
            let re = self.regions[i].end_vpn;
            let rport = self.regions[i].port;
            proof {
                assert(rm.start == rs as int && rm.end == re as int && rm.port == rport as int);
                assert(rm.frames == self.regions@[i as int].frames@);
            }
            if re <= start_vpn || end_vpn <= rs {
                let flen = self.regions[i].frames.len();
                let kept_frames = copy_frames(&self.regions[i].frames, 0, flen);
                let kept = MemRegion {
                    start_vpn: rs,
                    end_vpn: re,
                    port: rport,
                    frames: kept_frames,
                };
                let ghost nr0 = new_regions@;
                new_regions.push(kept);
                proof {
                    assert(rm.frames.subrange(0, rm.frames.len() as int) =~= rm.frames);
                    assert(kept@ =~= rm);
                    lemma_regions_view_push(nr0, kept);
                    assert(!ranges_overlap(rm.start, rm.end, s, e));
                    assert(region_cut(rm, s, e) == seq![rm]);
                    assert(cut_all(m0.regions.take(i + 1), s, e) == cut_all(pre, s, e)
                        + region_cut(rm, s, e));
                    assert(regions_view(new_regions@) =~= cut_all(pre, s, e) + seq![rm]);
                    assert(region_cut_freed(rm, s, e) =~= Seq::<usize>::empty());
                    assert(freed_all(m0.regions.take(i + 1), s, e) =~= freed_all(pre, s, e));
                }
            } else {
                proof {
                    assert(ranges_overlap(rm.start, rm.end, s, e));
                }
                let ghost lmodel = RegionModel {
                    start: rm.start,
                    end: s,
                    port: rm.port,
                    frames: rm.frames.subrange(0, s - rm.start),
                };
                let ghost rmodel = RegionModel {
                    start: e,
                    end: rm.end,
                    port: rm.port,
                    frames: rm.frames.subrange(e - rm.start, rm.end - rm.start),
                };
                let lo = if start_vpn > rs {
                    start_vpn
                } else {
                    rs
                };
                let hi = if end_vpn < re {
                    end_vpn
                } else {
                    re
                };
                if rs < start_vpn {
                    let kept_frames = copy_frames(&self.regions[i].frames, 0, start_vpn - rs);
                    let keptl = MemRegion {
                        start_vpn: rs,
                        end_vpn: start_vpn,
                        port: rport,
                        frames: kept_frames,
                    };
                    let ghost nrl = new_regions@;
                    new_regions.push(keptl);
                    proof {
                        lemma_regions_view_push(nrl, keptl);
                        assert(keptl@ =~= lmodel);
                    }
                }
                if end_vpn < re {
                    let kept_frames = copy_frames(&self.regions[i].frames, end_vpn - rs, re - rs);
                    let keptr = MemRegion {
                        start_vpn: end_vpn,
                        end_vpn: re,
                        port: rport,
                        frames: kept_frames,
                    };
                    let ghost nrr = new_regions@;
                    new_regions.push(keptr);
                    proof {
                        lemma_regions_view_push(nrr, keptr);
                        assert(keptr@ =~= rmodel);
                    }
                }
                proof {
                    assert(cut_all(m0.regions.take(i + 1), s, e) == cut_all(pre, s, e)
                        + region_cut(rm, s, e));
                    if rm.start < s && e < rm.end {
                        assert(region_cut(rm, s, e) == seq![lmodel] + seq![rmodel]);
                        assert(regions_view(new_regions@) =~= cut_all(pre, s, e) + region_cut(
                            rm,
                            s,
                            e,
                        ));
                    } else if rm.start < s {
                        assert(region_cut(rm, s, e) == seq![lmodel]
                            + Seq::<RegionModel>::empty());
                        assert(regions_view(new_regions@) =~= cut_all(pre, s, e) + region_cut(
                            rm,
                            s,
                            e,
                        ));
                    } else if e < rm.end {
                        assert(region_cut(rm, s, e) == Seq::<RegionModel>::empty()
                            + seq![rmodel]);
                        assert(regions_view(new_regions@) =~= cut_all(pre, s, e) + region_cut(
                            rm,
                            s,
                            e,
                        ));
                    } else {
                        assert(region_cut(rm, s, e) == Seq::<RegionModel>::empty()
                            + Seq::<RegionModel>::empty());
                        assert(regions_view(new_regions@) =~= cut_all(pre, s, e) + region_cut(
                            rm,
                            s,
                            e,
                        ));
                    }
                }
                let ghost piece = region_cut_freed(rm, s, e);
                let ghost a_base = spec_free_seq(m0.alloc, freed_all(pre, s, e));
                let base = lo - rs;
                let mut j: usize = base;
                proof {
                    assert(piece.take(0) =~= Seq::<usize>::empty());
                    assert(spec_free_seq(a_base, piece.take(0)) == a_base);
                }
                while j < hi - rs
                    invariant
                        mem_wf(m0),
                        s == start_vpn as int,
                        e == end_vpn as int,
                        s < e,
                        i < n,
                        n == self.regions.len(),
                        self.token == old(self).token,
                        self.regions@ == old(self).regions@,
                        m0 == old(self)@,
                        rm == m0.regions[i as int],
                        rm == self.regions@[i as int]@,
                        rs == rm.start,
                        re == rm.end,
                        ranges_overlap(rm.start, rm.end, s, e),
                        base == (if rm.start < s { s - rm.start } else { 0 }),
                        hi as int - rs as int == (if e < rm.end { e - rm.start } else {
                            rm.end - rm.start
                        }),
                        piece == region_cut_freed(rm, s, e),
                        a_base == spec_free_seq(m0.alloc, freed_all(m0.regions.take(i as int), s, e)),
                        base <= j <= hi - rs,
                        hi <= re,
                        piece.len() == hi as int - rs as int - base,
                        self.allocator@ == spec_free_seq(a_base, piece.take(j - base)),
                        alloc_wf(self.allocator@),
                        self.allocator@.cap == m0.alloc.cap,
                        self.allocator@.in_use == m0.alloc.in_use - freed_all(
                            m0.regions.take(i as int),
                            s,
                            e,
                        ).len() - (j - base),
                    decreases hi - rs - j,
                {
                    proof {
                        lemma_in_use_positive(m0, s, e, i as int, j as int - base as int);
                        assert(rm.frames[j as int] < m0.alloc.cap);
                    }
                    let f = self.regions[i].frames[j];
                    self.allocator.free_frame(f);
                    j += 1;
                    proof {
                        assert(piece.take(j - base).drop_last() =~= piece.take(j - 1 - base));
                        assert(piece.take(j - base).last() == rm.frames[j - 1]);
                    }
                }
                proof {
                    assert(piece.take(piece.len() as int) =~= piece);
                    assert(freed_all(m0.regions.take(i + 1), s, e) =~= freed_all(pre, s, e)
                        + piece);
                    lemma_free_seq_append(m0.alloc, freed_all(pre, s, e), piece);
                }
            }
            i += 1;
        }
        proof {
            assert(m0.regions.take(n as int) =~= m0.regions);
        }
        self.regions = new_regions;
        proof {
            lemma_cut_all_props(m0.regions, s, e, m0.alloc.cap);
            lemma_freed_elems(m0.regions, s, e, m0.alloc.cap);
            lemma_free_seq_props(m0.alloc, freed_all(m0.regions, s, e));
            assert(self@ =~= spec_munmap(m0, s, e).0);
            assert(mem_wf(self@));
        }
        0
    }
}

/// Copy `v[a..b]` into a fresh vector.
fn copy_frames(v: &Vec<usize>, a: usize, b: usize) -> (out: Vec<usize>)
    requires
        a <= b <= v@.len(),
    ensures
        out@ == v@.subrange(a as int, b as int),
{
    let mut out: Vec<usize> = Vec::new();
    let mut j = a;
    proof {
        assert(out@ =~= v@.subrange(a as int, a as int));
    }
    while j < b
        invariant
            a <= j <= b <= v@.len(),
            out@ == v@.subrange(a as int, j as int),
        decreases b - j,
    {
        out.push(v[j]);
        j += 1;
        proof {
            assert(v@.subrange(a as int, j as int) =~= v@.subrange(a as int, j - 1).push(
                v@[j - 1],
            ));
        }
    }
    out
}

// ------------------------------------------------------------------
// Lemmas about the transitions
// ------------------------------------------------------------------

/// Appending a region adds its frames to the total.
proof fn lemma_frame_count_push(rs: Seq<RegionModel>, r: RegionModel)
    ensures
        frame_count(rs.push(r)) == frame_count(rs) + r.frames.len(),
{
    assert(rs.push(r).drop_last() =~= rs);
}

/// No more frames are freed than the regions hold.
proof fn lemma_freed_le_count(rs: Seq<RegionModel>, s: int, e: int, cap: int)
    requires
        s < e,
        forall|i: int| 0 <= i < rs.len() ==> region_wf(#[trigger] rs[i], cap),
    ensures
        freed_all(rs, s, e).len() <= frame_count(rs),
    decreases rs.len(),
{
    if rs.len() > 0 {
        assert(forall|i: int|
            0 <= i < rs.drop_last().len() ==> region_wf(#[trigger] rs.drop_last()[i], cap));
        lemma_freed_le_count(rs.drop_last(), s, e, cap);
        assert(region_wf(rs[rs.len() - 1], cap));
        let last = rs.last();
        if ranges_overlap(last.start, last.end, s, e) {
            let lo = if last.start < s { s } else { last.start };
            let hi = if e < last.end { e } else { last.end };
            assert(0 <= lo - last.start <= hi - last.start <= last.frames.len());
        }
        assert(region_cut_freed(rs.last(), s, e).len() <= rs.last().frames.len());
    }
}

/// The frames freed out of a prefix are no more than those freed out of the
/// whole sequence, and stay within the total frame count.
proof fn lemma_freed_prefix_le(rs: Seq<RegionModel>, s: int, e: int, m: int, cap: int)
    requires
        s < e,
        0 <= m <= rs.len(),
        forall|i: int| 0 <= i < rs.len() ==> region_wf(#[trigger] rs[i], cap),
    ensures
        freed_all(rs.take(m), s, e).len() <= frame_count(rs.take(m)),
        frame_count(rs.take(m)) <= frame_count(rs),
    decreases rs.len(),
{
    assert(forall|i: int|
        0 <= i < rs.take(m).len() ==> region_wf(#[trigger] rs.take(m)[i], cap));
    lemma_freed_le_count(rs.take(m), s, e, cap);
    if m < rs.len() && rs.len() > 0 {
        assert(rs.drop_last().take(m) =~= rs.take(m));
        assert(forall|i: int|
            0 <= i < rs.drop_last().len() ==> region_wf(#[trigger] rs.drop_last()[i], cap));
        lemma_freed_prefix_le(rs.drop_last(), s, e, m, cap);
    } else if rs.len() > 0 {
        assert(rs.take(m) =~= rs);
    }
}

/// Facts about the pool after freeing the frames of a prefix of regions.
proof fn lemma_free_seq_prefix_facts(m: MemModel, s: int, e: int, i: int)
    requires
        mem_wf(m),
        s < e,
        0 <= i <= m.regions.len(),
    ensures
        ({
            let fs = freed_all(m.regions.take(i), s, e);
            let a1 = spec_free_seq(m.alloc, fs);
            &&& alloc_wf(a1)
            &&& a1.cap == m.alloc.cap
            &&& a1.in_use == m.alloc.in_use - fs.len()
        }),
{
    lemma_freed_prefix_le(m.regions, s, e, i, m.alloc.cap);
    assert(forall|k: int|
        0 <= k < m.regions.take(i).len() ==> region_wf(#[trigger] m.regions.take(i)[k], m.alloc.cap));
    lemma_freed_elems(m.regions.take(i), s, e, m.alloc.cap);
    lemma_free_seq_props(m.alloc, freed_all(m.regions.take(i), s, e));
}

/// While frames of region `i` are still being freed, the pool has a frame in
/// use to give back.
proof fn lemma_in_use_positive(m: MemModel, s: int, e: int, i: int, t: int)
    requires
        mem_wf(m),
        s < e,
        0 <= i < m.regions.len(),
        0 <= t < region_cut_freed(m.regions[i], s, e).len(),
    ensures
        m.alloc.in_use - freed_all(m.regions.take(i), s, e).len() - t > 0,
{
    lemma_freed_prefix_le(m.regions, s, e, i + 1, m.alloc.cap);
    assert(m.regions.take(i + 1).drop_last() =~= m.regions.take(i));
    assert(m.regions.take(i + 1).last() == m.regions[i]);
    assert(freed_all(m.regions.take(i + 1), s, e) == freed_all(m.regions.take(i), s, e)
        + region_cut_freed(m.regions[i], s, e));
}

/// Every frame freed from well-formed regions lies below `cap`.
proof fn lemma_freed_elems(rs: Seq<RegionModel>, s: int, e: int, cap: int)
    requires
        s < e,
        forall|i: int| 0 <= i < rs.len() ==> region_wf(#[trigger] rs[i], cap),
    ensures
        forall|k: int| 0 <= k < freed_all(rs, s, e).len() ==> (#[trigger] freed_all(rs, s, e)[k])
            < cap,
    decreases rs.len(),
{
    if rs.len() > 0 {
        assert(forall|i: int|
            0 <= i < rs.drop_last().len() ==> region_wf(#[trigger] rs.drop_last()[i], cap));
        lemma_freed_elems(rs.drop_last(), s, e, cap);
        let prevf = freed_all(rs.drop_last(), s, e);
        let piece = region_cut_freed(rs.last(), s, e);
        let last = rs.last();
        assert(freed_all(rs, s, e) == prevf + piece);
        assert(region_wf(rs[rs.len() - 1], cap));
        assert forall|k: int|
            0 <= k < freed_all(rs, s, e).len() implies (#[trigger] freed_all(rs, s, e)[k])
            < cap by {
            if k < prevf.len() {
                assert(freed_all(rs, s, e)[k] == prevf[k]);
            } else {
                assert(freed_all(rs, s, e)[k] == piece[k - prevf.len()]);
                assert(ranges_overlap(last.start, last.end, s, e));
                let lo = if last.start < s {
                    s
                } else {
                    last.start
                };
                let hi = if e < last.end {
                    e
                } else {
                    last.end
                };
                assert(0 <= lo - last.start <= hi - last.start <= last.frames.len());
                assert(piece[k - prevf.len()] == last.frames[k - prevf.len() + lo - last.start]);
            }
        }
    }
}

/// Freeing a concatenation frees the first part, then the second.
proof fn lemma_free_seq_append(a: FrameAllocModel, fs: Seq<usize>, gs: Seq<usize>)
    ensures
        spec_free_seq(a, fs + gs) == spec_free_seq(spec_free_seq(a, fs), gs),
    decreases gs.len(),
{
    if gs.len() == 0 {
        assert(fs + gs =~= fs);
    } else {
        assert((fs + gs).drop_last() =~= fs + gs.drop_last());
        assert((fs + gs).last() == gs.last());
        lemma_free_seq_append(a, fs, gs.drop_last());
    }
}

/// Removing a range from well-formed disjoint regions leaves well-formed
/// disjoint regions, whose pages all were mapped and lie outside the range,
/// and whose frames number exactly the old total less the freed ones.
proof fn lemma_cut_all_props(rs: Seq<RegionModel>, s: int, e: int, cap: int)
    requires
        s < e,
        forall|i: int| 0 <= i < rs.len() ==> region_wf(#[trigger] rs[i], cap),
        forall|i: int, j: int|
            0 <= i < rs.len() && 0 <= j < rs.len() && i != j ==> !ranges_overlap(
                (#[trigger] rs[i]).start,
                rs[i].end,
                (#[trigger] rs[j]).start,
                rs[j].end,
            ),
    ensures
        ({
            let cut = cut_all(rs, s, e);
            &&& forall|k: int| 0 <= k < cut.len() ==> region_wf(#[trigger] cut[k], cap)
            &&& forall|k: int, vpn: int|
                0 <= k < cut.len() && #[trigger] region_contains(cut[k], vpn) ==> is_mapped(
                    rs,
                    vpn,
                ) && !(s <= vpn < e)
            &&& forall|k: int, l: int|
                0 <= k < cut.len() && 0 <= l < cut.len() && k != l ==> !ranges_overlap(
                    (#[trigger] cut[k]).start,
                    cut[k].end,
                    (#[trigger] cut[l]).start,
                    cut[l].end,
                )
            &&& frame_count(cut) == frame_count(rs) - freed_all(rs, s, e).len()
        }),
    decreases rs.len(),
{
    let cut = cut_all(rs, s, e);
    if rs.len() == 0 {
    } else {
        let prev = rs.drop_last();
        let last = rs.last();
        assert(forall|i: int| 0 <= i < prev.len() ==> region_wf(#[trigger] prev[i], cap));
        assert(forall|i: int, j: int|
            0 <= i < prev.len() && 0 <= j < prev.len() && i != j ==> !ranges_overlap(
                (#[trigger] prev[i]).start,
                prev[i].end,
                (#[trigger] prev[j]).start,
                prev[j].end,
            ));
        lemma_cut_all_props(prev, s, e, cap);
        let pcut = cut_all(prev, s, e);
        let tail = region_cut(last, s, e);
        assert(cut == pcut + tail);
        // pieces of the last region are well formed and sit inside it
        assert(region_wf(last, cap));
        let lmodel = RegionModel {
            start: last.start,
            end: s,
            port: last.port,
            frames: last.frames.subrange(0, s - last.start),
        };
        let rmodel = RegionModel {
            start: e,
            end: last.end,
            port: last.port,
            frames: last.frames.subrange(e - last.start, last.end - last.start),
        };
        let lseq = if last.start < s {
            seq![lmodel]
        } else {
            Seq::<RegionModel>::empty()
        };
        let rseq = if e < last.end {
            seq![rmodel]
        } else {
            Seq::<RegionModel>::empty()
        };
        if ranges_overlap(last.start, last.end, s, e) {
            assert(tail == lseq + rseq);
            if last.start < s {
                assert(region_wf(lmodel, cap)) by {
                    assert forall|t: int|
                        0 <= t < lmodel.frames.len() implies (#[trigger] lmodel.frames[t])
                        < cap by {
                        assert(lmodel.frames[t] == last.frames[t]);
                    }
                }
            }
            if e < last.end {
                assert(region_wf(rmodel, cap)) by {
                    assert forall|t: int|
                        0 <= t < rmodel.frames.len() implies (#[trigger] rmodel.frames[t])
                        < cap by {
                        assert(rmodel.frames[t] == last.frames[t + e - last.start]);
                    }
                }
            }
            assert(forall|k: int|
                0 <= k < tail.len() ==> #[trigger] tail[k] == lmodel || tail[k] == rmodel);
        } else {
            assert(tail == seq![last]);
        }
        assert(forall|k: int|
            0 <= k < tail.len() ==> region_wf(#[trigger] tail[k], cap) && last.start
                <= tail[k].start && tail[k].end <= last.end);
        // pieces of the last region avoid [s, e)
        assert(forall|k: int, vpn: int|
            0 <= k < tail.len() && #[trigger] region_contains(tail[k], vpn) ==> region_contains(
                last,
                vpn,
            ) && !(s <= vpn < e));
        // membership of the concatenation
        assert(forall|k: int, vpn: int|
            0 <= k < cut.len() && #[trigger] region_contains(cut[k], vpn) ==> is_mapped(rs, vpn)
                && !(s <= vpn < e)) by {
            assert(forall|k: int, vpn: int|
                0 <= k < pcut.len() && #[trigger] region_contains(pcut[k], vpn) ==> is_mapped(
                    prev,
                    vpn,
                ) && !(s <= vpn < e));
            assert(forall|vpn: int| is_mapped(prev, vpn) ==> is_mapped(rs, vpn)) by {
                assert(forall|vpn: int, i: int|
                    0 <= i < prev.len() && #[trigger] region_contains(prev[i], vpn)
                        ==> region_contains(rs[i], vpn) && 0 <= i < rs.len());
            }
            assert(forall|vpn: int| region_contains(last, vpn) ==> is_mapped(rs, vpn)) by {
                assert(forall|vpn: int|
                    region_contains(last, vpn) ==> region_contains(
                        rs[rs.len() - 1],
                        vpn,
                    ));
            }
        }
        // disjointness of the concatenation
        assert(forall|k: int, l: int|
            0 <= k < cut.len() && 0 <= l < cut.len() && k != l ==> !ranges_overlap(
                (#[trigger] cut[k]).start,
                cut[k].end,
                (#[trigger] cut[l]).start,
                cut[l].end,
            )) by {
            assert forall|k: int, l: int|
                0 <= k < cut.len() && 0 <= l < cut.len() && k != l implies !ranges_overlap(
                cut[k].start,
                cut[k].end,
                cut[l].start,
                cut[l].end,
            ) by {
                if k < pcut.len() && l < pcut.len() {
                } else if k >= pcut.len() && l >= pcut.len() {
                    // both are pieces of the last region: a left piece ending
                    // by s and a right piece starting at e
                    assert(ranges_overlap(last.start, last.end, s, e));
                    assert(tail.len() == 2);
                    assert(tail[0] == lmodel && tail[1] == rmodel);
                    assert(!ranges_overlap(lmodel.start, lmodel.end, rmodel.start, rmodel.end));
                } else {
                    let (p, q) = if k < pcut.len() {
                        (k, l)
                    } else {
                        (l, k)
                    };
                    // cut[p] keeps pages of some earlier region, cut[q] pages
                    // of the last one; a shared page would make the two
                    // regions overlap
                    if ranges_overlap(cut[p].start, cut[p].end, cut[q].start, cut[q].end) {
                        let w = if cut[p].start < cut[q].start {
                            cut[q].start
                        } else {
                            cut[p].start
                        };
                        assert(region_contains(cut[p], w));
                        assert(region_contains(cut[q], w));
                        assert(is_mapped(prev, w));
                        let wi = choose|wi: int|
                            0 <= wi < prev.len() && #[trigger] region_contains(prev[wi], w);
                        assert(region_contains(last, w));
                        assert(ranges_overlap(
                            rs[wi].start,
                            rs[wi].end,
                            rs[rs.len() - 1].start,
                            rs[rs.len() - 1].end,
                        ));
                        assert(false);
                    }
                }
            }
        }
        // frame counts
        lemma_freed_le_count(rs, s, e, cap);
        lemma_frame_count_append(pcut, tail);
        assert(frame_count(tail) + region_cut_freed(last, s, e).len() == last.frames.len()) by {
            if !ranges_overlap(last.start, last.end, s, e) {
                lemma_frame_count_singleton(last);
            } else {
                assert(tail == lseq + rseq);
                lemma_frame_count_append(lseq, rseq);
                if last.start < s {
                    lemma_frame_count_singleton(lmodel);
                }
                if e < last.end {
                    lemma_frame_count_singleton(rmodel);
                }
            }
        }
    }
}

/// The frame count of a single region is its frame sequence's length.
proof fn lemma_frame_count_singleton(r: RegionModel)
    ensures
        frame_count(seq![r]) == r.frames.len(),
{
    assert(frame_count(Seq::<RegionModel>::empty()) == 0);
    assert(seq![r].drop_last() =~= Seq::<RegionModel>::empty());
}

/// Frame counts add over concatenation.
proof fn lemma_frame_count_append(xs: Seq<RegionModel>, ys: Seq<RegionModel>)
    ensures
        frame_count(xs + ys) == frame_count(xs) + frame_count(ys),
    decreases ys.len(),
{
    if ys.len() == 0 {
        assert(xs + ys =~= xs);
    } else {
        assert((xs + ys).drop_last() =~= xs + ys.drop_last());
        assert((xs + ys).last() == ys.last());
        lemma_frame_count_append(xs, ys.drop_last());
    }
}

/// Cutting a range that no region intersects removes nothing and frees
/// nothing.
proof fn lemma_cut_all_of_free_range(rs: Seq<RegionModel>, s: int, e: int)
    requires
        range_free(rs, s, e),
    ensures
        cut_all(rs, s, e) == rs,
        freed_all(rs, s, e) == Seq::<usize>::empty(),
    decreases rs.len(),
{
    if rs.len() > 0 {
        assert(range_free(rs.drop_last(), s, e));
        lemma_cut_all_of_free_range(rs.drop_last(), s, e);
        assert(!ranges_overlap(rs.last().start, rs.last().end, s, e));
        assert(cut_all(rs, s, e) =~= rs);
        assert(freed_all(rs, s, e) =~= Seq::<usize>::empty());
    } else {
        assert(cut_all(rs, s, e) =~= rs);
    }
}

/// Mapping a fresh range and then unmapping exactly that range returns the
/// region manager to its prior state: the same regions, and no frame of the
/// pool left in use that was not in use before.
pub proof fn lemma_mmap_munmap_inverse(m: MemModel, s: int, e: int, port: int)
    requires
        mem_wf(m),
        s < e,
        spec_mmap(m, s, e, port).1 == 0,
    ensures
        ({
            let m1 = spec_mmap(m, s, e, port).0;
            let res = spec_munmap(m1, s, e);
            &&& res.1 == 0
            &&& res.0.regions == m.regions
            &&& res.0.token == m.token
            &&& res.0.alloc.cap == m.alloc.cap
            &&& res.0.alloc.in_use == m.alloc.in_use
        }),
{
    let m1 = spec_mmap(m, s, e, port).0;
    let (a1, fs) = spec_alloc_n(m.alloc, (e - s) as nat);
    lemma_alloc_n_props(m.alloc, (e - s) as nat);
    let rm = RegionModel { start: s, end: e, port: port, frames: fs };
    assert(m1.regions == m.regions.push(rm));
    // the whole range is mapped, through the region just added
    assert(range_mapped(m1.regions, s, e)) by {
        assert forall|vpn: int| s <= vpn < e implies #[trigger] is_mapped(m1.regions, vpn) by {
            assert(region_contains(m1.regions[m.regions.len() as int], vpn));
        }
    }
    // the old regions are untouched by the cut, the new one vanishes
    assert(m.regions.push(rm).drop_last() =~= m.regions);
    assert(m.regions.push(rm).last() == rm);
    lemma_cut_all_of_free_range(m.regions, s, e);
    assert(region_cut(rm, s, e) =~= Seq::<RegionModel>::empty());
    assert(cut_all(m1.regions, s, e) =~= m.regions);
    assert(region_cut_freed(rm, s, e) =~= fs);
    assert(freed_all(m1.regions, s, e) =~= fs);
    lemma_free_seq_props(a1, fs);
}

/// After a successful `mmap`, a second `mmap` whose range intersects the
/// first fails and leaves the address space unchanged.
pub proof fn lemma_mmap_overlap_fails(
    m: MemModel,
    s1: int,
    e1: int,
    p1: int,
    s2: int,
    e2: int,
    p2: int,
)
    requires
        s1 < e1,
        s2 < e2,
        ranges_overlap(s1, e1, s2, e2),
        spec_mmap(m, s1, e1, p1).1 == 0,
    ensures
        spec_mmap(spec_mmap(m, s1, e1, p1).0, s2, e2, p2).0 == spec_mmap(m, s1, e1, p1).0,
        spec_mmap(spec_mmap(m, s1, e1, p1).0, s2, e2, p2).1 == -1,
{
    let m1 = spec_mmap(m, s1, e1, p1).0;
    let k = m.regions.len() as int;
    assert(m1.regions[k].start == s1 && m1.regions[k].end == e1);
    assert(!range_free(m1.regions, s2, e2));
}


// ------------------------------------------------------------------
// Address translation and user-memory writes
// ------------------------------------------------------------------

/// Physical frame backing `vpn`, scanning the regions from the most
/// recently mapped one.
pub open spec fn translate_in(rs: Seq<RegionModel>, vpn: int) -> Option<usize>
    decreases rs.len(),
{
    if rs.len() == 0 {
        None
    } else if region_contains(rs.last(), vpn) {
        Some(rs.last().frames[vpn - rs.last().start])
    } else {
        translate_in(rs.drop_last(), vpn)
    }
}

/// A page no region holds has no translation.
proof fn lemma_translate_none(rs: Seq<RegionModel>, vpn: int)
    requires
        forall|j: int| 0 <= j < rs.len() ==> !region_contains(#[trigger] rs[j], vpn),
    ensures
        translate_in(rs, vpn) == None::<usize>,
    decreases rs.len(),
{
    if rs.len() > 0 {
        assert(forall|j: int|
            0 <= j < rs.drop_last().len() ==> !region_contains(#[trigger] rs.drop_last()[j], vpn));
        lemma_translate_none(rs.drop_last(), vpn);
    }
}

/// When exactly region `i` holds `vpn`, translation returns its frame.
proof fn lemma_translate_at(rs: Seq<RegionModel>, vpn: int, i: int)
    requires
        0 <= i < rs.len(),
        region_contains(rs[i], vpn),
        forall|j: int| 0 <= j < rs.len() && j != i ==> !region_contains(#[trigger] rs[j], vpn),
    ensures
        translate_in(rs, vpn) == Some(rs[i].frames[vpn - rs[i].start]),
    decreases rs.len(),
{
    if i == rs.len() - 1 {
    } else {
        assert(!region_contains(rs.last(), vpn));
        assert(forall|j: int|
            0 <= j < rs.drop_last().len() && j != i ==> !region_contains(
                #[trigger] rs.drop_last()[j],
                vpn,
            ));
        lemma_translate_at(rs.drop_last(), vpn, i);
    }
}

/// Physical address of the byte at virtual address `va`: the translation of
/// its page, if any, plus the offset within the page.
pub open spec fn pa_of(m: MemModel, va: int) -> Option<int> {
    match translate_in(m.regions, spec_floor_vpn(va)) {
        Some(f) => Some(f * (PAGE_SIZE as int) + va % (PAGE_SIZE as int)),
        None => None,
    }
}

impl MemorySet {
    /// Physical page number backing `vpn`, when mapped.
    pub fn translate(&self, vpn: usize) -> (o: Option<usize>)
        requires
            mem_wf(self@),
        ensures
            o == translate_in(self@.regions, vpn as int),
            (o matches Some(f) ==> f < self@.alloc.cap),
    {
        match self.find_containing(vpn) {
            Some(i) => {
                proof {
                    assert(self@.regions[i as int] == self.regions@[i as int]@);
                }
                let r = &self.regions[i];
                let f = r.frames[vpn - r.start_vpn];
                proof {
                    let rs = self@.regions;
                    assert(region_wf(rs[i as int], self@.alloc.cap));
                    assert forall|j: int|
                        0 <= j < rs.len() && j != i implies !region_contains(
                        #[trigger] rs[j],
                        vpn as int,
                    ) by {
                        if region_contains(rs[j], vpn as int) {
                            assert(ranges_overlap(
                                rs[j].start,
                                rs[j].end,
                                rs[i as int].start,
                                rs[i as int].end,
                            ));
                        }
                    }
                    lemma_translate_at(rs, vpn as int, i as int);
                }
                Some(f)
            },
            None => {
                proof {
                    let rs = self@.regions;
                    assert forall|j: int|
                        0 <= j < rs.len() implies !region_contains(#[trigger] rs[j], vpn as int) by {
                        if region_contains(rs[j], vpn as int) {
                            assert(is_mapped(rs, vpn as int));
                        }
                    }
                    lemma_translate_none(rs, vpn as int);
                }
                None
            },
        }
    }
}

/// Converts a user virtual address into the physical address the kernel may
/// dereference, under the task's current mapping.  Translation is per page:
/// a structure that straddles a page boundary must be translated piece by
/// piece, never through one returned pointer.
pub fn translated_physical_address(ms: &MemorySet, va: usize) -> (o: Option<usize>)
    requires
        mem_wf(ms@),
    ensures
        (match o {
            Some(pa) => pa_of(ms@, va as int) == Some(pa as int) && pa < ms@.alloc.cap * (
            PAGE_SIZE as int),
            None => pa_of(ms@, va as int) is None,
        }),
{
    let vpn = va / PAGE_SIZE;
    match ms.translate(vpn) {
        Some(f) => Some(f * PAGE_SIZE + va % PAGE_SIZE),
        None => None,
    }
}

/// Physical memory as the kernel addresses it: one byte per physical
/// address, `PAGE_SIZE` bytes per frame.
pub struct PhysMem {
    pub bytes: Vec<u8>,
}

impl PhysMem {
    /// Memory of `cap` zeroed frames.
    pub fn new(cap: usize) -> (m: PhysMem)
        requires
            cap <= usize::MAX / PAGE_SIZE,
        ensures
            m.bytes@.len() == cap * PAGE_SIZE,
            forall|i: int| 0 <= i < m.bytes@.len() ==> m.bytes@[i] == 0u8,
    {
        proof {
            assert(cap * (PAGE_SIZE as int) <= usize::MAX as int) by (nonlinear_arith)
                requires
                    cap <= usize::MAX / PAGE_SIZE,
                    PAGE_SIZE == 4096,
            ;
        }
        let bytes = vec![0u8; cap * PAGE_SIZE];
        PhysMem { bytes }
    }

    /// Overwrite one byte of physical memory.
    pub fn write_byte(&mut self, pa: usize, b: u8)
        requires
            pa < old(self).bytes@.len(),
        ensures
            final(self).bytes@ == old(self).bytes@.update(pa as int, b),
    {
        self.bytes[pa] = b;
    }

    /// Read one byte of physical memory.
    pub fn read_byte(&self, pa: usize) -> (b: u8)
        requires
            pa < self.bytes@.len(),
        ensures
            b == self.bytes@[pa as int],
    {
        self.bytes[pa]
    }
}

/// The bytes of physical memory after the first `n` bytes of `data` are
/// written at virtual address `va`, each byte through its own page's
/// translation.
pub open spec fn spec_write_user(
    bytes: Seq<u8>,
    m: MemModel,
    va: int,
    data: Seq<u8>,
    n: nat,
) -> Seq<u8>
    decreases n,
{
    if n == 0 {
        bytes
    } else {
        let prev = spec_write_user(bytes, m, va, data, (n - 1) as nat);
        match pa_of(m, va + n - 1) {
            Some(pa) => prev.update(pa, data[n - 1]),
            None => prev,
        }
    }
}

/// Every byte of `[va, va + n)` has a translation.
pub open spec fn user_range_writable(m: MemModel, va: int, n: nat) -> bool {
    forall|i: int| 0 <= i < n ==> (#[trigger] pa_of(m, va + i)) is Some
}

/// Write `data` into user memory at `va`, translating each byte's page
/// separately, so a write that straddles pages lands on the right frames.
/// When some page of the range is unmapped the write fails with -1 and
/// memory is untouched.
pub fn write_user_bytes(ms: &MemorySet, mem: &mut PhysMem, va: usize, data: &Vec<u8>) -> (r: isize)
    requires
        mem_wf(ms@),
        old(mem).bytes@.len() >= ms@.alloc.cap * (PAGE_SIZE as int),
        va + data@.len() <= usize::MAX,
    ensures
        r == 0 || r == -1,
        r == 0 <==> user_range_writable(ms@, va as int, data@.len() as nat),
        final(mem).bytes@.len() == old(mem).bytes@.len(),
        r == -1 ==> final(mem).bytes@ == old(mem).bytes@,
        r == 0 ==> final(mem).bytes@ == spec_write_user(
            old(mem).bytes@,
            ms@,
            va as int,
            data@,
            data@.len() as nat,
        ),
{
    let len = data.len();
    let mut i: usize = 0;
    while i < len
        invariant
            i <= len,
            len == data@.len(),
            mem_wf(ms@),
            va + len <= usize::MAX,
            forall|k: int| 0 <= k < i ==> ((#[trigger] pa_of(ms@, va as int + k)) is Some),
        decreases len - i,
    {
        if translated_physical_address(ms, va + i).is_none() {
            proof {
                assert(!(pa_of(ms@, va as int + i as int) is Some));
            }
            return -1;
        }
        i += 1;
    }
    let mut i: usize = 0;
    while i < len
        invariant
            i <= len,
            len == data@.len(),
            mem_wf(ms@),
            va + len <= usize::MAX,
            user_range_writable(ms@, va as int, len as nat),
            mem.bytes@.len() == old(mem).bytes@.len(),
            old(mem).bytes@.len() >= ms@.alloc.cap * (PAGE_SIZE as int),
            mem.bytes@ == spec_write_user(old(mem).bytes@, ms@, va as int, data@, i as nat),
        decreases len - i,
    {
        proof {
            assert(pa_of(ms@, va as int + i as int) is Some);
        }
        match translated_physical_address(ms, va + i) {
            Some(pa) => {
                let b = data[i];
                mem.write_byte(pa, b);
            },
            None => {
                proof {
                    assert(false);
                }
            },
        }
        i += 1;
    }
    0
}

} // verus!
