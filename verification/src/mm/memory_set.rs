//! Address spaces: logical map areas and the memory set that holds them
//! together with a page table.

use vstd::prelude::*;
use crate::config::{MEMORY_END, MMIO_BASE, MMIO_SIZE};
use super::address::{pages_up, PhysAddr, PhysPageNum, VirtAddr, VirtPageNum, VPNRange, PA_LIMIT, PPN_LIMIT, VPN_LIMIT};
use super::frame_allocator::{frame_alloc, handover, lemma_zeroed_frame_bytes, FrameAllocState, FrameTracker, StackFrameAllocator};
use super::page_table::{flags_v, PTEFlags, PageTable, PageTableEntry, PTE_R, PTE_X};

verus! {

/// How the pages of an area get their frames.
#[derive(Copy, Clone, Debug, PartialEq, Eq, Structural)]
pub enum MapType {
    /// Page `n` is frame `n`.
    Identical,
    /// Every page gets a frame of its own from the allocator.
    Framed,
}

/// Readable.
pub const MAP_R: u8 = 0x02;

/// Writable.
pub const MAP_W: u8 = 0x04;

/// Executable.
pub const MAP_X: u8 = 0x08;

/// Accessible from user mode.
pub const MAP_U: u8 = 0x10;

/// The permissions of an area: a subset of R, W, X and U, at the bit
/// positions that the same flags have in a page-table entry.
#[derive(Copy, Clone, Debug, PartialEq, Eq, Structural)]
pub struct MapPermission {
    pub bits: u8,
}

impl MapPermission {
    pub open spec fn spec_empty() -> MapPermission {
        MapPermission { bits: 0 }
    }

    #[verifier::when_used_as_spec(spec_empty)]
    pub fn empty() -> (r: MapPermission)
        ensures
            r == MapPermission::empty(),
    {
        MapPermission { bits: 0 }
    }

    /// The permissions with the given bits, or `None` where a bit is set that
    /// names no permission.
    pub fn from_bits(bits: u8) -> (r: Option<MapPermission>)
        ensures
            r == if bits & 0xe1 == 0 {
                Some(MapPermission { bits })
            } else {
                None
            },
    {
        if bits & 0xe1 == 0 {
            Some(MapPermission { bits })
        } else {
            None
        }
    }

    pub open spec fn spec_union(self, other: MapPermission) -> MapPermission {
        MapPermission { bits: self.bits | other.bits }
    }

    #[verifier::when_used_as_spec(spec_union)]
    pub fn union(self, other: MapPermission) -> (r: MapPermission)
        ensures
            r == self.union(other),
    {
        MapPermission { bits: self.bits | other.bits }
    }

    pub open spec fn spec_contains(self, other: MapPermission) -> bool {
        self.bits & other.bits == other.bits
    }

    #[verifier::when_used_as_spec(spec_contains)]
    pub fn contains(self, other: MapPermission) -> (r: bool)
        ensures
            r == self.contains(other),
    {
        self.bits & other.bits == other.bits
    }

    /// The flags of the leaf entry of a page with these permissions, the
    /// valid flag not yet among them.
    pub open spec fn spec_pte_flags(self) -> PTEFlags {
        PTEFlags { bits: self.bits }
    }

    #[verifier::when_used_as_spec(spec_pte_flags)]
    pub fn pte_flags(self) -> (r: PTEFlags)
        ensures
            r == self.pte_flags(),
    {
        PTEFlags::from_bits(self.bits).unwrap()
    }
}

/// Number of distinct values of `v / unit` over `start <= v < end`.
pub open spec fn span(start: int, end: int, unit: int) -> int {
    if start < end {
        (end - 1) / unit - start / unit + 1
    } else {
        0
    }
}

/// Most frames that mapping the pages `start .. end` can take: one per page
/// of a framed area, and one per table of level 1 and of level 2 that the
/// range reaches.
pub open spec fn map_cost(start: int, end: int, map_type: MapType) -> int {
    (if map_type == MapType::Framed {
        end - start
    } else {
        0
    }) + span(start, end, 512) + span(start, end, 262144)
}

/// What is left of `map_cost` once the pages `start .. v` are mapped.
pub open spec fn map_cost_left(start: int, v: int, end: int, map_type: MapType) -> int {
    if v <= start {
        map_cost(start, end, map_type)
    } else {
        (if map_type == MapType::Framed {
            end - v
        } else {
            0
        }) + ((end - 1) / 512 - (v - 1) / 512) + ((end - 1) / 262144 - (v - 1) / 262144)
    }
}

/// Most frames that mapping the pages `start .. end` can take.
pub fn map_cost_of(start: u64, end: u64, map_type: MapType) -> (r: u64)
    requires
        start <= end <= VPN_LIMIT,
    ensures
        r == map_cost(start as int, end as int, map_type),
        r <= 2 * VPN_LIMIT,
{
    if start < end {
        let tables: u64 = ((end - 1) / 512 - start / 512 + 1) + ((end - 1) / 262144 - start / 262144 + 1);
        match map_type {
            MapType::Framed => end - start + tables,
            MapType::Identical => tables,
        }
    } else {
        0
    }
}

/// A contiguous range of virtual pages that share one mapping discipline and
/// one set of permissions. A framed area owns the frames of its pages, one
/// slot per page in the order of the pages, so that a page's frame can be
/// written in place.
pub struct MapArea {
    vpn_range: VPNRange,
    data_frames: Vec<Option<FrameTracker>>,
    map_type: MapType,
    map_perm: MapPermission,
}

impl MapArea {
    pub closed spec fn spec_range(&self) -> VPNRange {
        self.vpn_range
    }

    pub closed spec fn spec_type(&self) -> MapType {
        self.map_type
    }

    pub closed spec fn spec_perm(&self) -> MapPermission {
        self.map_perm
    }

    pub open spec fn spec_start(&self) -> int {
        self.spec_range().spec_start()
    }

    pub open spec fn spec_end(&self) -> int {
        self.spec_range().spec_end()
    }

    pub open spec fn contains(&self, vpn: u64) -> bool {
        self.spec_range().contains(vpn as int)
    }

    /// The frame that backs page `vpn` of a framed area, once the page is
    /// mapped.
    pub closed spec fn frame_at(&self, vpn: u64) -> Option<FrameTracker> {
        if self.map_type == MapType::Framed && self.contains(vpn) && vpn - self.spec_start()
            < self.data_frames@.len() {
            self.data_frames@[vpn - self.spec_start()]
        } else {
            None
        }
    }

    /// The range lies within the 27-bit page numbers, a framed area has one
    /// slot per page, and no frame backs two pages.
    pub closed spec fn wf(&self) -> bool {
        &&& self.vpn_range.wf()
        &&& 0 <= self.spec_start() <= self.spec_end() <= VPN_LIMIT
        &&& self.data_frames@.len() == if self.map_type == MapType::Framed {
            self.spec_end() - self.spec_start()
        } else {
            0
        }
        &&& forall|v: u64| #[trigger]
            self.frame_at(v) is Some ==> self.frame_at(v).unwrap().wf() && self.frame_at(v).unwrap().ppn().0
                < PPN_LIMIT
        &&& forall|v: u64, w: u64|
            (#[trigger] self.frame_at(v)) is Some && (#[trigger] self.frame_at(w)) is Some && v != w
                ==> self.frame_at(v).unwrap().ppn() != self.frame_at(w).unwrap().ppn()
    }

    /// The numbers of the frames that the area owns.
    pub closed spec fn ppns(&self) -> Set<u64> {
        Set::new(
            |p: u64| exists|v: u64| (#[trigger] self.frame_at(v)) is Some && self.frame_at(v).unwrap().ppn().0 == p,
        )
    }

    /// The frame that page `vpn` of this area is mapped to.
    pub open spec fn target(&self, vpn: u64) -> PhysPageNum {
        match self.frame_at(vpn) {
            Some(f) => f.ppn(),
            None => PhysPageNum(vpn),
        }
    }

    /// The leaf entry of page `vpn` once it is mapped.
    pub open spec fn expected_pte(&self, vpn: u64) -> PageTableEntry {
        PageTableEntry::new(self.target(vpn), self.spec_perm().pte_flags().union(flags_v()))
    }

    /// Page `vpn` of this area is mapped in `page_table`: to its own frame if
    /// the area is framed, to the frame of its own number if not.
    pub open spec fn page_mapped(&self, page_table: &PageTable, vpn: u64) -> bool {
        &&& page_table.spec_translate(vpn) == Some(self.expected_pte(vpn))
        &&& self.spec_type() == MapType::Framed ==> self.frame_at(vpn) is Some
    }

    /// Every page of the area is mapped in `page_table`.
    pub open spec fn mapped(&self, page_table: &PageTable) -> bool {
        forall|v: u64| self.contains(v) ==> #[trigger] self.page_mapped(page_table, v)
    }

    /// No page of the area has a frame or a translation in `page_table`.
    pub open spec fn unmapped(&self, page_table: &PageTable) -> bool {
        forall|v: u64|
            self.contains(v) ==> (#[trigger] page_table.spec_translate(v)) is None && self.frame_at(v) is None
    }

    /// An area over the pages that `start_va .. end_va` touches, not yet
    /// mapped.
    pub fn new(start_va: VirtAddr, end_va: VirtAddr, map_type: MapType, map_perm: MapPermission) -> (r: Self)
        requires
            start_va.floor().0 <= end_va.ceil().0 <= VPN_LIMIT,
        ensures
            r.wf(),
            r.spec_start() == start_va.floor().0,
            r.spec_end() == end_va.ceil().0,
            r.spec_type() == map_type,
            r.spec_perm() == map_perm,
            r.ppns() == Set::<u64>::empty(),
            forall|v: u64| #[trigger] r.frame_at(v) is None,
    {
        let start_vpn = start_va.floor();
        let end_vpn = end_va.ceil();
        let mut data_frames: Vec<Option<FrameTracker>> = Vec::new();
        if map_type == MapType::Framed {
            let n: u64 = end_vpn.0 - start_vpn.0;
            let mut i: u64 = 0;
            while i < n
                invariant
                    i <= n,
                    data_frames@.len() == i,
                    forall|j: int| 0 <= j < i ==> data_frames@[j] is None,
                decreases n - i,
            {
                data_frames.push(None);
                i = i + 1;
            }
        }
        let r = MapArea { vpn_range: VPNRange::new(start_vpn, end_vpn), data_frames, map_type, map_perm };
        assert(r.ppns() =~= Set::<u64>::empty());
        r
    }

    pub fn range(&self) -> (r: VPNRange)
        ensures
            r == self.spec_range(),
    {
        self.vpn_range
    }

    pub fn map_type(&self) -> (r: MapType)
        ensures
            r == self.spec_type(),
    {
        self.map_type
    }

    pub fn map_perm(&self) -> (r: MapPermission)
        ensures
            r == self.spec_perm(),
    {
        self.map_perm
    }

    /// An unmapped area with the range, the discipline and the permissions of
    /// `another`.
    pub fn from_another(another: &MapArea) -> (r: Self)
        requires
            another.wf(),
        ensures
            r.wf(),
            r.spec_range() == another.spec_range(),
            r.spec_type() == another.spec_type(),
            r.spec_perm() == another.spec_perm(),
            r.ppns() == Set::<u64>::empty(),
            forall|v: u64| (#[trigger] r.frame_at(v)) is None,
    {
        let mut data_frames: Vec<Option<FrameTracker>> = Vec::new();
        let n: usize = another.data_frames.len();
        let mut i: usize = 0;
        while i < n
            invariant
                i <= n,
                data_frames@.len() == i,
                forall|j: int| 0 <= j < i ==> data_frames@[j] is None,
            decreases n - i,
        {
            data_frames.push(None);
            i = i + 1;
        }
        let r = MapArea {
            vpn_range: another.vpn_range,
            data_frames,
            map_type: another.map_type,
            map_perm: another.map_perm,
        };
        assert(r.ppns() =~= Set::<u64>::empty());
        r
    }

    /// Most frames that mapping this area can take.
    pub open spec fn spec_cost(&self) -> int {
        map_cost(self.spec_start(), self.spec_end(), self.spec_type())
    }

    /// Most frames that mapping this area can take.
    pub fn cost(&self) -> (r: u64)
        requires
            self.wf(),
        ensures
            r == self.spec_cost(),
    {
        map_cost_of(self.vpn_range.start().0, self.vpn_range.end().0, self.map_type)
    }

    /// Maps page `vpn` of this area: a framed area takes a cleared frame for
    /// it first. No other page's translation or frame changes.
    pub fn map_one(&mut self, page_table: &mut PageTable, allocator: &mut StackFrameAllocator, vpn: VirtPageNum)
        requires
            old(self).wf(),
            old(page_table).wf(),
            old(allocator).wf(),
            old(page_table).ppns().union(old(self).ppns()).subset_of(old(allocator).allocated()),
            old(page_table).ppns().disjoint(old(self).ppns()),
            old(self).contains(vpn.0),
            old(page_table).spec_translate(vpn.0) is None,
            old(self).frame_at(vpn.0) is None,
            old(allocator).available() >= old(page_table).tables_needed(vpn.0) + (if old(self).spec_type()
                == MapType::Framed {
                1int
            } else {
                0int
            }),
        ensures
            final(self).wf(),
            final(page_table).wf(),
            final(allocator).wf(),
            final(self).spec_range() == old(self).spec_range(),
            final(self).spec_type() == old(self).spec_type(),
            final(self).spec_perm() == old(self).spec_perm(),
            final(page_table).extends(old(page_table)),
            final(self).page_mapped(final(page_table), vpn.0),
            forall|v: u64|
                v < VPN_LIMIT && v != vpn.0 ==> #[trigger] final(page_table).spec_translate(v) == old(
                    page_table,
                ).spec_translate(v),
            forall|v: u64| v != vpn.0 ==> #[trigger] final(self).frame_at(v) == old(self).frame_at(v),
            final(self).spec_type() == MapType::Framed ==> final(self).frame_at(vpn.0).unwrap().is_zeroed()
                && !old(allocator).is_allocated(final(self).frame_at(vpn.0).unwrap().ppn().0),
            final(allocator).available() == old(allocator).available() - old(page_table).tables_needed(vpn.0) - (
            if old(self).spec_type() == MapType::Framed {
                1int
            } else {
                0int
            }),
            final(page_table).ppns().disjoint(final(self).ppns()),
            handover(
                old(allocator)@,
                final(allocator)@,
                old(page_table).ppns().union(old(self).ppns()),
                final(page_table).ppns().union(final(self).ppns()),
            ),
    {
        let ppn: PhysPageNum;
        proof {
            page_table.lemma_translate_tables(vpn.0);
        }
        match self.map_type {
            MapType::Identical => {
                ppn = PhysPageNum(vpn.0);
            },
            MapType::Framed => {
                let frame = frame_alloc(allocator).unwrap();
                ppn = frame.ppn();
                let i: usize = (vpn.0 - self.vpn_range.start().0) as usize;
                self.data_frames.set(i, Some(frame));
            },
        }
        let ghost mid_alloc = allocator@;
        proof {
            assert forall|v: u64| v != vpn.0 implies #[trigger] self.frame_at(v) == old(self).frame_at(v) by {}
            if self.map_type == MapType::Framed {
                assert(self.frame_at(vpn.0).unwrap().ppn() == ppn);
                assert forall|v: u64| #[trigger] self.frame_at(v) is Some && v != vpn.0 implies self.frame_at(
                    v,
                ).unwrap().ppn() != ppn by {
                    assert(old(self).frame_at(v) is Some);
                    assert(old(self).ppns().contains(old(self).frame_at(v).unwrap().ppn().0));
                    assert(old(page_table).ppns().union(old(self).ppns()).contains(
                        old(self).frame_at(v).unwrap().ppn().0,
                    ));
                }
                assert forall|q: u64| self.ppns().contains(q) == (old(self).ppns().contains(q) || q == ppn.0) by {
                    if self.ppns().contains(q) {
                        let v = choose|v: u64|
                            (#[trigger] self.frame_at(v)) is Some && self.frame_at(v).unwrap().ppn().0 == q;
                        if v != vpn.0 {
                            assert(old(self).frame_at(v) is Some);
                        }
                    }
                    if old(self).ppns().contains(q) {
                        let v = choose|v: u64|
                            (#[trigger] old(self).frame_at(v)) is Some && old(self).frame_at(v).unwrap().ppn().0 == q;
                        assert(self.frame_at(v) is Some);
                    }
                    if q == ppn.0 {
                        assert(self.frame_at(vpn.0) is Some);
                    }
                }
                assert(self.ppns() =~= old(self).ppns().insert(ppn.0));
            } else {
                assert forall|q: u64| self.ppns().contains(q) == old(self).ppns().contains(q) by {
                    if self.ppns().contains(q) {
                        let v = choose|v: u64|
                            (#[trigger] self.frame_at(v)) is Some && self.frame_at(v).unwrap().ppn().0 == q;
                        assert(old(self).frame_at(v) is Some);
                    }
                }
                assert(self.ppns() =~= old(self).ppns());
            }
            assert(self.wf());
        }
        let pte_flags = self.map_perm.pte_flags();
        page_table.map(allocator, vpn, ppn, pte_flags);
        proof {
            assert forall|q: u64|
                allocator.allocated().difference(page_table.ppns().union(self.ppns())).contains(q) == old(
                    allocator,
                ).allocated().difference(old(page_table).ppns().union(old(self).ppns())).contains(q) by {
                assert(allocator.allocated().difference(page_table.ppns()).contains(q)
                    == mid_alloc.allocated().difference(old(page_table).ppns()).contains(q));
            }
            assert(allocator.allocated().difference(page_table.ppns().union(self.ppns())) =~= old(
                allocator,
            ).allocated().difference(old(page_table).ppns().union(old(self).ppns())));
            assert forall|q: u64| self.ppns().contains(q) implies allocator.allocated().contains(q) by {
                assert(mid_alloc.allocated().contains(q)) by {
                    if old(self).ppns().contains(q) {
                        assert(old(page_table).ppns().union(old(self).ppns()).contains(q));
                    }
                }
                if old(page_table).ppns().contains(q) {
                    assert(page_table.ppns().contains(q));
                } else {
                    assert(mid_alloc.allocated().difference(old(page_table).ppns()).contains(q));
                    assert(allocator.allocated().difference(page_table.ppns()).contains(q));
                }
            }
            assert forall|q: u64| self.ppns().contains(q) implies !page_table.ppns().contains(q) by {
                if page_table.ppns().contains(q) {
                    assert(mid_alloc.allocated().contains(q));
                    if old(page_table).ppns().contains(q) {
                        assert(old(page_table).ppns().union(old(self).ppns()).contains(q));
                        assert(old(self).ppns().contains(q));
                    }
                    assert(!old(page_table).ppns().contains(q));
                    assert(mid_alloc.allocated().difference(old(page_table).ppns()).contains(q));
                    assert(allocator.allocated().difference(page_table.ppns()).contains(q));
                }
            }
        }
    }

    /// Maps every page of the area, in ascending order.
    ///
    /// None of the pages may be mapped yet, and the allocator must hold
    /// `map_cost` frames. Translations outside the area do not change.
    pub fn map(&mut self, page_table: &mut PageTable, allocator: &mut StackFrameAllocator)
        requires
            old(self).wf(),
            old(page_table).wf(),
            old(allocator).wf(),
            old(page_table).ppns().union(old(self).ppns()).subset_of(old(allocator).allocated()),
            old(page_table).ppns().disjoint(old(self).ppns()),
            old(self).unmapped(old(page_table)),
            old(allocator).available() >= map_cost(old(self).spec_start(), old(self).spec_end(), old(self).spec_type()),
        ensures
            final(self).wf(),
            final(page_table).wf(),
            final(allocator).wf(),
            final(self).spec_range() == old(self).spec_range(),
            final(self).spec_type() == old(self).spec_type(),
            final(self).spec_perm() == old(self).spec_perm(),
            final(page_table).extends(old(page_table)),
            final(self).mapped(final(page_table)),
            forall|v: u64|
                v < VPN_LIMIT && !old(self).contains(v) ==> #[trigger] final(page_table).spec_translate(v) == old(
                    page_table,
                ).spec_translate(v),
            forall|v: u64|
                (#[trigger] final(self).frame_at(v)) is Some ==> final(self).frame_at(v).unwrap().is_zeroed()
                    && !old(allocator).is_allocated(final(self).frame_at(v).unwrap().ppn().0),
            final(allocator).available() >= old(allocator).available() - map_cost(
                old(self).spec_start(),
                old(self).spec_end(),
                old(self).spec_type(),
            ),
            final(page_table).ppns().disjoint(final(self).ppns()),
            handover(
                old(allocator)@,
                final(allocator)@,
                old(page_table).ppns().union(old(self).ppns()),
                final(page_table).ppns().union(final(self).ppns()),
            ),
    {
        let start: u64 = self.vpn_range.start().0;
        let end: u64 = self.vpn_range.end().0;
        let mut v: u64 = start;
        let ghost ty = self.spec_type();
        proof {
            assert forall|u: u64| (#[trigger] self.frame_at(u)) is None by {
                if self.contains(u) {
                    assert(page_table.spec_translate(u) is None);
                }
            }
            assert(self.ppns() =~= Set::<u64>::empty());
        }
        while v < end
            invariant
                start <= v <= end <= VPN_LIMIT,
                old(self).ppns() == Set::<u64>::empty(),
                start == self.spec_start(),
                end == self.spec_end(),
                self.wf(),
                page_table.wf(),
                allocator.wf(),
                self.spec_range() == old(self).spec_range(),
                self.spec_type() == ty,
                ty == old(self).spec_type(),
                self.spec_perm() == old(self).spec_perm(),
                page_table.extends(old(page_table)),
                page_table.ppns().disjoint(self.ppns()),
                forall|u: u64| start <= u < v ==> #[trigger] self.page_mapped(page_table, u),
                forall|u: u64| v <= u < end ==> (#[trigger] page_table.spec_translate(u)) is None,
                forall|u: u64| v <= u ==> (#[trigger] self.frame_at(u)) is None,
                forall|u: u64|
                    u < VPN_LIMIT && !old(self).contains(u) ==> #[trigger] page_table.spec_translate(u) == old(
                        page_table,
                    ).spec_translate(u),
                forall|u: u64|
                    (#[trigger] self.frame_at(u)) is Some ==> self.frame_at(u).unwrap().is_zeroed() && !old(
                        allocator,
                    ).is_allocated(self.frame_at(u).unwrap().ppn().0),
                allocator.available() >= old(allocator).available() - map_cost(start as int, end as int, ty)
                    + map_cost_left(start as int, v as int, end as int, ty),
                allocator.available() >= map_cost_left(start as int, v as int, end as int, ty),
                handover(
                    old(allocator)@,
                    allocator@,
                    old(page_table).ppns().union(old(self).ppns()),
                    page_table.ppns().union(self.ppns()),
                ),
            decreases end - v,
        {
            let ghost pt0 = *page_table;
            let ghost me0 = *self;
            let ghost al0 = allocator@;
            proof {
                page_table.lemma_translate_tables(v);
                if v > start {
                    let w = (v - 1) as u64;
                    assert(self.page_mapped(page_table, w));
                    page_table.lemma_translate_tables(w);
                    if v / 512 == w / 512 {
                        page_table.lemma_same_table(w, v);
                    }
                    if v / 262144 == w / 262144 {
                        page_table.lemma_same_l1_table(w, v);
                    }
                }
                assert(page_table.spec_translate(v) is None);
                assert(self.frame_at(v) is None);
            }
            self.map_one(page_table, allocator, VirtPageNum(v));
            proof {
                assert forall|u: u64| start <= u < v + 1 implies #[trigger] self.page_mapped(page_table, u) by {
                    if u != v {
                        assert(me0.page_mapped(&pt0, u));
                        assert(self.frame_at(u) == me0.frame_at(u));
                        assert(page_table.spec_translate(u) == pt0.spec_translate(u));
                    }
                }
                assert forall|u: u64| v + 1 <= u < end implies (#[trigger] page_table.spec_translate(u)) is None by {
                    assert(page_table.spec_translate(u) == pt0.spec_translate(u));
                }
                assert forall|u: u64| v + 1 <= u implies (#[trigger] self.frame_at(u)) is None by {
                    assert(self.frame_at(u) == me0.frame_at(u));
                }
                assert forall|u: u64| u < VPN_LIMIT && !old(self).contains(u) implies #[trigger] page_table.spec_translate(
                    u,
                ) == old(page_table).spec_translate(u) by {
                    assert(page_table.spec_translate(u) == pt0.spec_translate(u));
                }
                assert forall|u: u64| (#[trigger] self.frame_at(u)) is Some implies self.frame_at(u).unwrap().is_zeroed()
                    && !old(allocator).is_allocated(self.frame_at(u).unwrap().ppn().0) by {
                    if u != v {
                        assert(self.frame_at(u) == me0.frame_at(u));
                    } else {
                        let q = self.frame_at(u).unwrap().ppn().0;
                        if old(allocator).is_allocated(q) {
                            assert(!al0.allocated().contains(q));
                            assert(!pt0.ppns().union(me0.ppns()).contains(q));
                            assert(old(allocator).allocated().difference(
                                old(page_table).ppns().union(old(self).ppns()),
                            ).contains(q) == al0.allocated().difference(pt0.ppns().union(me0.ppns())).contains(q));
                            assert(old(page_table).ppns().union(old(self).ppns()).contains(q));
                            assert(old(page_table).ppns().contains(q));
                            assert(pt0.ppns().contains(q));
                            assert(pt0.ppns().union(me0.ppns()).contains(q));
                            assert(false);
                        }
                    }
                }
                assert forall|u: u64| u < VPN_LIMIT implies #[trigger] page_table.tables_needed(u) <= old(
                    page_table,
                ).tables_needed(u) by {
                    assert(page_table.tables_needed(u) <= pt0.tables_needed(u));
                    assert(pt0.tables_needed(u) <= old(page_table).tables_needed(u));
                }
                assert forall|u: u64| u < VPN_LIMIT && old(page_table).spec_find_pte(u) is Some implies (
                #[trigger] page_table.spec_find_pte(u)) is Some by {
                    assert(pt0.spec_find_pte(u) is Some);
                }
            }
            v = v + 1;
        }
        proof {
            assert forall|u: u64| self.contains(u) implies #[trigger] self.page_mapped(page_table, u) by {}
        }
    }

    /// Removes the mapping of page `vpn` of this area; a framed area gives the
    /// page's frame back. No other page's translation or frame changes.
    pub fn unmap_one(&mut self, page_table: &mut PageTable, allocator: &mut StackFrameAllocator, vpn: VirtPageNum)
        requires
            old(self).wf(),
            old(page_table).wf(),
            old(allocator).wf(),
            old(page_table).ppns().union(old(self).ppns()).subset_of(old(allocator).allocated()),
            old(page_table).ppns().disjoint(old(self).ppns()),
            old(self).contains(vpn.0),
            old(self).page_mapped(old(page_table), vpn.0),
        ensures
            final(self).wf(),
            final(page_table).wf(),
            final(allocator).wf(),
            final(self).spec_range() == old(self).spec_range(),
            final(self).spec_type() == old(self).spec_type(),
            final(self).spec_perm() == old(self).spec_perm(),
            final(page_table).spec_root() == old(page_table).spec_root(),
            final(page_table).ppns() == old(page_table).ppns(),
            final(page_table).spec_translate(vpn.0) is None,
            final(self).frame_at(vpn.0) is None,
            forall|v: u64|
                v < VPN_LIMIT && v != vpn.0 ==> #[trigger] final(page_table).spec_translate(v) == old(
                    page_table,
                ).spec_translate(v),
            forall|v: u64| #[trigger] final(page_table).tables_needed(v) == old(page_table).tables_needed(v),
            forall|v: u64| v != vpn.0 ==> #[trigger] final(self).frame_at(v) == old(self).frame_at(v),
            final(allocator).available() == old(allocator).available() + (if old(self).spec_type()
                == MapType::Framed {
                1int
            } else {
                0int
            }),
            final(page_table).ppns().disjoint(final(self).ppns()),
            handover(
                old(allocator)@,
                final(allocator)@,
                old(page_table).ppns().union(old(self).ppns()),
                final(page_table).ppns().union(final(self).ppns()),
            ),
    {
        if self.map_type == MapType::Framed {
            let i: usize = (vpn.0 - self.vpn_range.start().0) as usize;
            let frame = self.data_frames[i].take().unwrap();
            proof {
                let p = frame.ppn().0;
                assert(old(self).frame_at(vpn.0) == Some(frame));
                assert(old(self).ppns().contains(p));
                assert(old(page_table).ppns().union(old(self).ppns()).contains(p));
                assert forall|v: u64| v != vpn.0 implies #[trigger] self.frame_at(v) == old(self).frame_at(v) by {}
                assert forall|q: u64| self.ppns().contains(q) == (old(self).ppns().contains(q) && q != p) by {
                    if self.ppns().contains(q) {
                        let v = choose|v: u64|
                            (#[trigger] self.frame_at(v)) is Some && self.frame_at(v).unwrap().ppn().0 == q;
                        assert(old(self).frame_at(v) is Some);
                        assert(old(self).frame_at(vpn.0) is Some);
                    }
                    if old(self).ppns().contains(q) && q != p {
                        let v = choose|v: u64|
                            (#[trigger] old(self).frame_at(v)) is Some && old(self).frame_at(v).unwrap().ppn().0 == q;
                        assert(self.frame_at(v) is Some);
                    }
                }
                assert(self.ppns() =~= old(self).ppns().remove(p));
            }
            allocator.dealloc(frame.ppn());
            proof {
                assert(allocator.allocated().difference(page_table.ppns().union(self.ppns())) =~= old(
                    allocator,
                ).allocated().difference(old(page_table).ppns().union(old(self).ppns())));
                assert forall|q: u64| page_table.ppns().union(self.ppns()).contains(q) implies allocator.allocated().contains(
                    q,
                ) by {
                    assert(old(page_table).ppns().union(old(self).ppns()).contains(q));
                }
            }
        } else {
            proof {
                assert forall|v: u64| #[trigger] self.frame_at(v) == old(self).frame_at(v) by {}
            }
        }
        page_table.unmap(vpn);
    }

    /// Removes the mappings of every page of the area and gives its frames
    /// back. Translations outside the area do not change.
    pub fn unmap(&mut self, page_table: &mut PageTable, allocator: &mut StackFrameAllocator)
        requires
            old(self).wf(),
            old(page_table).wf(),
            old(allocator).wf(),
            old(page_table).ppns().union(old(self).ppns()).subset_of(old(allocator).allocated()),
            old(page_table).ppns().disjoint(old(self).ppns()),
            old(self).mapped(old(page_table)),
        ensures
            final(self).wf(),
            final(page_table).wf(),
            final(allocator).wf(),
            final(self).spec_range() == old(self).spec_range(),
            final(self).spec_type() == old(self).spec_type(),
            final(self).spec_perm() == old(self).spec_perm(),
            final(page_table).spec_root() == old(page_table).spec_root(),
            final(page_table).ppns() == old(page_table).ppns(),
            final(self).unmapped(final(page_table)),
            final(self).ppns() == Set::<u64>::empty(),
            forall|v: u64|
                v < VPN_LIMIT && !old(self).contains(v) ==> #[trigger] final(page_table).spec_translate(v) == old(
                    page_table,
                ).spec_translate(v),
            forall|v: u64| #[trigger] final(page_table).tables_needed(v) == old(page_table).tables_needed(v),
            final(allocator).available() == old(allocator).available() + (if old(self).spec_type()
                == MapType::Framed {
                old(self).spec_end() - old(self).spec_start()
            } else {
                0int
            }),
            handover(
                old(allocator)@,
                final(allocator)@,
                old(page_table).ppns().union(old(self).ppns()),
                final(page_table).ppns(),
            ),
    {
        let start: u64 = self.vpn_range.start().0;
        let end: u64 = self.vpn_range.end().0;
        let mut v: u64 = start;
        let ghost ty = self.spec_type();
        while v < end
            invariant
                start <= v <= end <= VPN_LIMIT,
                start == self.spec_start(),
                end == self.spec_end(),
                self.wf(),
                page_table.wf(),
                allocator.wf(),
                self.spec_range() == old(self).spec_range(),
                self.spec_type() == ty,
                ty == old(self).spec_type(),
                self.spec_perm() == old(self).spec_perm(),
                page_table.spec_root() == old(page_table).spec_root(),
                page_table.ppns() == old(page_table).ppns(),
                page_table.ppns().disjoint(self.ppns()),
                forall|u: u64| v <= u < end ==> #[trigger] self.page_mapped(page_table, u),
                forall|u: u64| start <= u < v ==> (#[trigger] page_table.spec_translate(u)) is None,
                forall|u: u64| u < v ==> (#[trigger] self.frame_at(u)) is None,
                forall|u: u64|
                    u < VPN_LIMIT && !old(self).contains(u) ==> #[trigger] page_table.spec_translate(u) == old(
                        page_table,
                    ).spec_translate(u),
                forall|u: u64| #[trigger] page_table.tables_needed(u) == old(page_table).tables_needed(u),
                allocator.available() == old(allocator).available() + (if ty == MapType::Framed {
                    v - start
                } else {
                    0int
                }),
                handover(
                    old(allocator)@,
                    allocator@,
                    old(page_table).ppns().union(old(self).ppns()),
                    page_table.ppns().union(self.ppns()),
                ),
            decreases end - v,
        {
            let ghost pt0 = *page_table;
            let ghost me0 = *self;
            proof {
                assert(self.page_mapped(page_table, v));
            }
            self.unmap_one(page_table, allocator, VirtPageNum(v));
            proof {
                assert forall|u: u64| v + 1 <= u < end implies #[trigger] self.page_mapped(page_table, u) by {
                    assert(me0.page_mapped(&pt0, u));
                    assert(self.frame_at(u) == me0.frame_at(u));
                    assert(page_table.spec_translate(u) == pt0.spec_translate(u));
                }
                assert forall|u: u64| start <= u < v + 1 implies (#[trigger] page_table.spec_translate(u)) is None by {
                    if u != v {
                        assert(page_table.spec_translate(u) == pt0.spec_translate(u));
                    }
                }
                assert forall|u: u64| u < v + 1 implies (#[trigger] self.frame_at(u)) is None by {
                    if u != v {
                        assert(self.frame_at(u) == me0.frame_at(u));
                    }
                }
                assert forall|u: u64| u < VPN_LIMIT && !old(self).contains(u) implies #[trigger] page_table.spec_translate(
                    u,
                ) == old(page_table).spec_translate(u) by {
                    assert(page_table.spec_translate(u) == pt0.spec_translate(u));
                }
                assert forall|u: u64| #[trigger] page_table.tables_needed(u) == old(page_table).tables_needed(u) by {
                    assert(page_table.tables_needed(u) == pt0.tables_needed(u));
                }
            }
            v = v + 1;
        }
        proof {
            assert forall|u: u64| (#[trigger] self.frame_at(u)) is None by {}
            assert(self.ppns() =~= Set::<u64>::empty());
            assert(page_table.ppns().union(self.ppns()) =~= page_table.ppns());
        }
    }

    /// Byte `i` of the area, counted from the start of its first page.
    pub open spec fn area_byte(&self, i: int) -> u8 {
        self.frame_at((self.spec_start() + i / 4096) as u64).unwrap().spec_byte(i % 4096)
    }

    /// The physical address that backs virtual address `va` of a framed area.
    pub open spec fn phys_addr(&self, va: VirtAddr) -> int {
        self.frame_at(va.floor().0).unwrap().ppn().0 * 4096 + va.page_offset()
    }

    /// Copies `data` into the area, from the start of its first page on. The
    /// bytes behind `data` keep their values, and no frame changes hands.
    pub fn copy_data(&mut self, page_table: &PageTable, data: &[u8])
        requires
            old(self).wf(),
            page_table.wf(),
            old(self).spec_type() == MapType::Framed,
            old(self).mapped(page_table),
            data@.len() <= (old(self).spec_end() - old(self).spec_start()) * 4096,
        ensures
            final(self).wf(),
            final(self).spec_range() == old(self).spec_range(),
            final(self).spec_type() == old(self).spec_type(),
            final(self).spec_perm() == old(self).spec_perm(),
            final(self).mapped(page_table),
            final(self).ppns() == old(self).ppns(),
            forall|v: u64|
                (#[trigger] final(self).frame_at(v)) is Some <==> old(self).frame_at(v) is Some,
            forall|v: u64|
                (#[trigger] final(self).frame_at(v)) is Some ==> final(self).frame_at(v).unwrap().ppn() == old(
                    self,
                ).frame_at(v).unwrap().ppn(),
            forall|i: int| 0 <= i < data@.len() ==> #[trigger] final(self).area_byte(i) == data@[i],
            forall|i: int|
                data@.len() <= i < (old(self).spec_end() - old(self).spec_start()) * 4096
                    ==> #[trigger] final(self).area_byte(i) == old(self).area_byte(i),
    {
        self.copy_data_at(page_table, data, 0);
    }

    /// Copies `data` into the area, from byte `offset` of the area on, bytes
    /// being counted from the start of the first page. The bytes before and
    /// behind keep their values, and no frame changes hands.
    pub fn copy_data_at(&mut self, page_table: &PageTable, data: &[u8], offset: usize)
        requires
            old(self).wf(),
            page_table.wf(),
            old(self).spec_type() == MapType::Framed,
            old(self).mapped(page_table),
            offset + data@.len() <= (old(self).spec_end() - old(self).spec_start()) * 4096,
        ensures
            final(self).wf(),
            final(self).spec_range() == old(self).spec_range(),
            final(self).spec_type() == old(self).spec_type(),
            final(self).spec_perm() == old(self).spec_perm(),
            final(self).mapped(page_table),
            final(self).ppns() == old(self).ppns(),
            forall|v: u64|
                (#[trigger] final(self).frame_at(v)) is Some <==> old(self).frame_at(v) is Some,
            forall|v: u64|
                (#[trigger] final(self).frame_at(v)) is Some ==> final(self).frame_at(v).unwrap().ppn() == old(
                    self,
                ).frame_at(v).unwrap().ppn(),
            forall|i: int|
                offset <= i < offset + data@.len() ==> #[trigger] final(self).area_byte(i) == data@[i - offset],
            forall|i: int|
                0 <= i < (old(self).spec_end() - old(self).spec_start()) * 4096 && !(offset <= i < offset
                    + data@.len()) ==> #[trigger] final(self).area_byte(i) == old(self).area_byte(i),
    {
        let len: usize = data.len();
        let ghost start = self.spec_start();
        let ghost pages = self.spec_end() - self.spec_start();
        let mut i: usize = 0;
        proof {
            assert forall|v: u64| self.contains(v) implies (#[trigger] self.frame_at(v)) is Some by {
                assert(self.page_mapped(page_table, v));
            }
        }
        while i < len
            invariant
                i <= len,
                len == data@.len(),
                offset + len <= pages * 4096,
                pages <= VPN_LIMIT,
                start == self.spec_start(),
                pages == self.spec_end() - self.spec_start(),
                self.wf(),
                self.spec_range() == old(self).spec_range(),
                self.spec_type() == MapType::Framed,
                self.spec_perm() == old(self).spec_perm(),
                forall|v: u64| (#[trigger] self.frame_at(v)) is Some <==> old(self).frame_at(v) is Some,
                forall|v: u64| self.contains(v) ==> (#[trigger] self.frame_at(v)) is Some,
                forall|v: u64|
                    (#[trigger] self.frame_at(v)) is Some ==> self.frame_at(v).unwrap().ppn() == old(self).frame_at(
                        v,
                    ).unwrap().ppn(),
                forall|j: int| offset <= j < offset + i ==> #[trigger] self.area_byte(j) == data@[j - offset],
                forall|j: int|
                    0 <= j < pages * 4096 && !(offset <= j < offset + i) ==> #[trigger] self.area_byte(j) == old(
                        self,
                    ).area_byte(j),
            decreases len - i,
        {
            let at: u64 = offset as u64 + i as u64;
            let page: usize = (at / 4096) as usize;
            let off: usize = (at % 4096) as usize;
            let ghost me0 = *self;
            let ghost v0 = (start + page) as u64;
            proof {
                assert(self.contains(v0));
                assert(self.frame_at(v0) is Some);
            }
            match &mut self.data_frames[page] {
                Some(f) => {
                    f.write_byte(off, data[i]);
                },
                None => {},
            }
            proof {
                assert forall|v: u64| v != v0 implies #[trigger] self.frame_at(v) == me0.frame_at(v) by {}
                assert(self.frame_at(v0) is Some);
                assert(self.frame_at(v0).unwrap().ppn() == me0.frame_at(v0).unwrap().ppn());
                assert forall|v: u64| (#[trigger] self.frame_at(v)) is Some implies self.frame_at(v).unwrap().wf()
                    && self.frame_at(v).unwrap().ppn().0 < PPN_LIMIT && me0.frame_at(v) is Some && self.frame_at(
                    v,
                ).unwrap().ppn() == me0.frame_at(v).unwrap().ppn() by {
                    if v != v0 {
                        assert(self.frame_at(v) == me0.frame_at(v));
                    }
                }
                assert forall|v: u64, w: u64|
                    (#[trigger] self.frame_at(v)) is Some && (#[trigger] self.frame_at(w)) is Some && v != w implies self.frame_at(
                    v,
                ).unwrap().ppn() != self.frame_at(w).unwrap().ppn() by {
                    assert(me0.frame_at(v) is Some && me0.frame_at(w) is Some);
                }
                assert forall|j: int| 0 <= j < pages * 4096 && j != at implies #[trigger] self.area_byte(j)
                    == me0.area_byte(j) by {
                    let vj = (start + j / 4096) as u64;
                    if vj != v0 {
                        assert(self.frame_at(vj) == me0.frame_at(vj));
                    }
                }
                assert(self.area_byte(at as int) == data@[i as int]);
            }
            i = i + 1;
        }
        proof {
            assert forall|v: u64| self.contains(v) implies #[trigger] self.page_mapped(page_table, v) by {
                assert(old(self).page_mapped(page_table, v));
            }
            assert forall|q: u64| self.ppns().contains(q) == old(self).ppns().contains(q) by {
                if self.ppns().contains(q) {
                    let v = choose|v: u64| (#[trigger] self.frame_at(v)) is Some && self.frame_at(v).unwrap().ppn().0 == q;
                    assert(old(self).frame_at(v) is Some);
                }
                if old(self).ppns().contains(q) {
                    let v = choose|v: u64|
                        (#[trigger] old(self).frame_at(v)) is Some && old(self).frame_at(v).unwrap().ppn().0 == q;
                    assert(self.frame_at(v) is Some);
                }
            }
            assert(self.ppns() =~= old(self).ppns());
        }
    }

    /// The area differs from `old` at most in what its frames hold.
    pub open spec fn same_frames(&self, old: &MapArea) -> bool {
        &&& self.spec_range() == old.spec_range()
        &&& self.spec_type() == old.spec_type()
        &&& self.spec_perm() == old.spec_perm()
        &&& self.ppns() == old.ppns()
        &&& forall|v: u64| (#[trigger] self.frame_at(v)) is Some <==> old.frame_at(v) is Some
        &&& forall|v: u64|
            (#[trigger] self.frame_at(v)) is Some ==> self.frame_at(v).unwrap().ppn() == old.frame_at(v).unwrap().ppn()
    }

    proof fn lemma_same_frames(&self, old: &MapArea, v0: u64)
        requires
            old.wf(),
            old.frame_at(v0) is Some,
            self.frame_at(v0) is Some,
            self.frame_at(v0).unwrap().wf(),
            self.frame_at(v0).unwrap().ppn() == old.frame_at(v0).unwrap().ppn(),
            self.vpn_range == old.vpn_range,
            self.map_type == old.map_type,
            self.map_perm == old.map_perm,
            self.data_frames@.len() == old.data_frames@.len(),
            forall|v: u64| v != v0 ==> #[trigger] self.frame_at(v) == old.frame_at(v),
        ensures
            self.wf(),
            self.same_frames(old),
            forall|page_table: PageTable| old.mapped(&page_table) ==> #[trigger] self.mapped(&page_table),
    {
        assert forall|v: u64| (#[trigger] self.frame_at(v)) is Some implies self.frame_at(v).unwrap().wf()
            && self.frame_at(v).unwrap().ppn().0 < PPN_LIMIT && old.frame_at(v) is Some && self.frame_at(
            v,
        ).unwrap().ppn() == old.frame_at(v).unwrap().ppn() by {
            if v != v0 {
                assert(self.frame_at(v) == old.frame_at(v));
            }
        }
        assert forall|v: u64| old.frame_at(v) is Some implies (#[trigger] self.frame_at(v)) is Some by {
            if v != v0 {
                assert(self.frame_at(v) == old.frame_at(v));
            }
        }
        assert forall|v: u64, w: u64|
            (#[trigger] self.frame_at(v)) is Some && (#[trigger] self.frame_at(w)) is Some && v != w implies self.frame_at(
            v,
        ).unwrap().ppn() != self.frame_at(w).unwrap().ppn() by {
            assert(old.frame_at(v) is Some && old.frame_at(w) is Some);
        }
        assert forall|q: u64| self.ppns().contains(q) == old.ppns().contains(q) by {
            if self.ppns().contains(q) {
                let v = choose|v: u64| (#[trigger] self.frame_at(v)) is Some && self.frame_at(v).unwrap().ppn().0 == q;
                assert(old.frame_at(v) is Some);
            }
            if old.ppns().contains(q) {
                let v = choose|v: u64| (#[trigger] old.frame_at(v)) is Some && old.frame_at(v).unwrap().ppn().0 == q;
                assert(self.frame_at(v) is Some);
            }
        }
        assert(self.ppns() =~= old.ppns());
        assert forall|page_table: PageTable| old.mapped(&page_table) implies #[trigger] self.mapped(&page_table) by {
            assert forall|v: u64| self.contains(v) implies #[trigger] self.page_mapped(&page_table, v) by {
                assert(old.page_mapped(&page_table, v));
            }
        }
    }

    /// Stores `b` at offset `off` of page `vpn`; every other byte of the area
    /// keeps its value, and no frame changes hands.
    pub fn write_byte(&mut self, vpn: VirtPageNum, off: usize, b: u8)
        requires
            old(self).wf(),
            old(self).frame_at(vpn.0) is Some,
            off < 4096,
        ensures
            final(self).wf(),
            final(self).same_frames(old(self)),
            forall|page_table: PageTable| old(self).mapped(&page_table) ==> #[trigger] final(self).mapped(&page_table),
            final(self).frame_at(vpn.0).unwrap().spec_byte(off as int) == b,
            forall|v: u64, i: int|
                0 <= i < 4096 && (v != vpn.0 || i != off) && old(self).frame_at(v) is Some ==> (#[trigger] final(self).frame_at(v).unwrap().spec_byte(i)) == old(self).frame_at(v).unwrap().spec_byte(i),
    {
        let page: usize = (vpn.0 - self.vpn_range.start().0) as usize;
        match &mut self.data_frames[page] {
            Some(f) => {
                f.write_byte(off, b);
            },
            None => {},
        }
        proof {
            assert forall|v: u64| v != vpn.0 implies #[trigger] self.frame_at(v) == old(self).frame_at(v) by {}
            self.lemma_same_frames(old(self), vpn.0);
        }
    }

    /// Word `idx` of page `vpn`.
    pub fn read_word(&self, vpn: VirtPageNum, idx: usize) -> (r: u64)
        requires
            self.wf(),
            self.frame_at(vpn.0) is Some,
            idx < 512,
        ensures
            r == self.frame_at(vpn.0).unwrap().words()[idx as int],
    {
        let page: usize = (vpn.0 - self.vpn_range.start().0) as usize;
        match &self.data_frames[page] {
            Some(f) => f.read_word(idx),
            None => 0,
        }
    }

    /// Stores `val` as word `idx` of page `vpn`; every other word of the area
    /// keeps its value, and no frame changes hands.
    pub fn write_word(&mut self, vpn: VirtPageNum, idx: usize, val: u64)
        requires
            old(self).wf(),
            old(self).frame_at(vpn.0) is Some,
            idx < 512,
        ensures
            final(self).wf(),
            final(self).same_frames(old(self)),
            forall|page_table: PageTable| old(self).mapped(&page_table) ==> #[trigger] final(self).mapped(&page_table),
            final(self).frame_at(vpn.0).unwrap().words() == old(self).frame_at(vpn.0).unwrap().words().update(
                idx as int,
                val,
            ),
            forall|v: u64| v != vpn.0 ==> #[trigger] final(self).frame_at(v) == old(self).frame_at(v),
    {
        let page: usize = (vpn.0 - self.vpn_range.start().0) as usize;
        match &mut self.data_frames[page] {
            Some(f) => {
                f.write_word(idx, val);
            },
            None => {},
        }
        proof {
            assert forall|v: u64| v != vpn.0 implies #[trigger] self.frame_at(v) == old(self).frame_at(v) by {}
            self.lemma_same_frames(old(self), vpn.0);
        }
    }

    /// Makes page `vpn` hold what `src` holds; no frame changes hands.
    pub fn copy_page_from(&mut self, vpn: VirtPageNum, src: &FrameTracker)
        requires
            old(self).wf(),
            old(self).frame_at(vpn.0) is Some,
            src.wf(),
        ensures
            final(self).wf(),
            final(self).same_frames(old(self)),
            forall|page_table: PageTable| old(self).mapped(&page_table) ==> #[trigger] final(self).mapped(&page_table),
            final(self).frame_at(vpn.0).unwrap().words() == src.words(),
            forall|v: u64| v != vpn.0 ==> #[trigger] final(self).frame_at(v) == old(self).frame_at(v),
    {
        let page: usize = (vpn.0 - self.vpn_range.start().0) as usize;
        match &mut self.data_frames[page] {
            Some(f) => {
                f.copy_from(src);
            },
            None => {},
        }
        proof {
            assert forall|v: u64| v != vpn.0 implies #[trigger] self.frame_at(v) == old(self).frame_at(v) by {}
            self.lemma_same_frames(old(self), vpn.0);
        }
    }

    /// The area has the range, the discipline and the permissions of `other`.
    pub open spec fn same_shape(&self, other: &MapArea) -> bool {
        &&& self.spec_range() == other.spec_range()
        &&& self.spec_type() == other.spec_type()
        &&& self.spec_perm() == other.spec_perm()
    }

    /// Every page of the area has a frame.
    pub open spec fn fully_framed(&self) -> bool {
        forall|v: u64| self.contains(v) ==> (#[trigger] self.frame_at(v)) is Some
    }

    /// Makes every page of this area hold what the same page of `src` holds;
    /// no frame changes hands.
    pub fn copy_from_area(&mut self, src: &MapArea)
        requires
            old(self).wf(),
            src.wf(),
            old(self).spec_range() == src.spec_range(),
            old(self).fully_framed(),
            src.fully_framed(),
        ensures
            final(self).wf(),
            final(self).same_frames(old(self)),
            forall|page_table: PageTable| old(self).mapped(&page_table) ==> #[trigger] final(self).mapped(&page_table),
            forall|v: u64|
                final(self).contains(v) ==> (#[trigger] final(self).frame_at(v)).unwrap().words() == src.frame_at(
                    v,
                ).unwrap().words(),
    {
        let start: u64 = self.vpn_range.start().0;
        let end: u64 = self.vpn_range.end().0;
        let mut v: u64 = start;
        while v < end
            invariant
                start <= v <= end,
                start == self.spec_start(),
                end == self.spec_end(),
                self.wf(),
                src.wf(),
                self.spec_range() == src.spec_range(),
                self.fully_framed(),
                src.fully_framed(),
                self.same_frames(old(self)),
                forall|page_table: PageTable| old(self).mapped(&page_table) ==> #[trigger] self.mapped(&page_table),
                forall|u: u64|
                    start <= u < v ==> (#[trigger] self.frame_at(u)).unwrap().words() == src.frame_at(u).unwrap().words(),
            decreases end - v,
        {
            let ghost me0 = *self;
            proof {
                assert(self.contains(v) && src.contains(v));
                assert(self.frame_at(v) is Some);
                assert(src.frame_at(v) is Some);
            }
            self.copy_page_from(VirtPageNum(v), src.frame(VirtPageNum(v)));
            proof {
                assert forall|u: u64| self.contains(u) implies (#[trigger] self.frame_at(u)) is Some by {
                    assert(me0.frame_at(u) is Some);
                }
                assert forall|u: u64| start <= u < v + 1 implies (#[trigger] self.frame_at(u)).unwrap().words()
                    == src.frame_at(u).unwrap().words() by {
                    if u != v {
                        assert(self.frame_at(u) == me0.frame_at(u));
                    }
                }
                assert forall|u: u64| (#[trigger] self.frame_at(u)) is Some <==> old(self).frame_at(u) is Some by {
                    assert(me0.frame_at(u) is Some <==> old(self).frame_at(u) is Some);
                }
                assert forall|u: u64| (#[trigger] self.frame_at(u)) is Some implies self.frame_at(u).unwrap().ppn() == old(
                    self,
                ).frame_at(u).unwrap().ppn() by {
                    assert(me0.frame_at(u) is Some);
                }
                assert forall|page_table: PageTable| old(self).mapped(&page_table) implies #[trigger] self.mapped(
                    &page_table,
                ) by {
                    assert(me0.mapped(&page_table));
                }
            }
            v = v + 1;
        }
    }

    /// Whether page `vpn` has a frame in the area.
    pub fn has_frame(&self, vpn: VirtPageNum) -> (r: bool)
        requires
            self.wf(),
        ensures
            r == self.frame_at(vpn.0) is Some,
    {
        if self.map_type == MapType::Framed && self.vpn_range.start().0 <= vpn.0 && vpn.0 < self.vpn_range.end().0 {
            let page: usize = (vpn.0 - self.vpn_range.start().0) as usize;
            self.data_frames[page].is_some()
        } else {
            false
        }
    }

    /// The frame of page `vpn`.
    pub fn frame(&self, vpn: VirtPageNum) -> (r: &FrameTracker)
        requires
            self.wf(),
            self.frame_at(vpn.0) is Some,
        ensures
            *r == self.frame_at(vpn.0).unwrap(),
    {
        let page: usize = (vpn.0 - self.vpn_range.start().0) as usize;
        self.data_frames[page].as_ref().unwrap()
    }

    /// The byte at offset `off` of page `vpn` of a framed, mapped area.
    pub fn read_byte(&self, vpn: VirtPageNum, off: usize) -> (r: u8)
        requires
            self.wf(),
            self.frame_at(vpn.0) is Some,
            off < 4096,
        ensures
            r == self.frame_at(vpn.0).unwrap().spec_byte(off as int),
    {
        let i: usize = (vpn.0 - self.vpn_range.start().0) as usize;
        match &self.data_frames[i] {
            Some(f) => f.read_byte(off),
            None => 0,
        }
    }
}

/// In a mapped framed area, the translation of the page of `va`, times the
/// page size, plus the offset of `va` in its page is the physical address
/// that holds the byte which `copy_data` puts at `va`.
pub proof fn lemma_translation_round_trip(area: MapArea, page_table: PageTable, va: VirtAddr)
    requires
        area.wf(),
        area.spec_type() == MapType::Framed,
        area.mapped(&page_table),
        area.contains(va.floor().0),
    ensures
        page_table.spec_translate(va.floor().0) is Some,
        page_table.spec_translate(va.floor().0).unwrap().ppn().0 * 4096 + va.page_offset() == area.phys_addr(va),
        page_table.spec_translate(va.floor().0).unwrap().is_valid(),
{
    let v = va.floor().0;
    assert(area.page_mapped(&page_table, v));
    super::page_table::lemma_pte_round_trip(area.target(v), area.spec_perm().pte_flags().union(flags_v()));
}

/// The page number of the trampoline page: the top page of the 39-bit space.
pub const TRAMPOLINE_VPN: u64 = 0x7ff_ffff;

/// The page number of the trap-context page, just below the trampoline.
pub const TRAP_CONTEXT_VPN: u64 = 0x7ff_fffe;

/// The flags of the trampoline's leaf entry before the valid flag is added:
/// readable and executable, not accessible from user mode.
pub open spec fn trampoline_flags() -> PTEFlags {
    PTEFlags { bits: PTE_R | PTE_X }
}

/// An address space: a page table and the areas mapped in it.
///
/// The trampoline page is mapped directly in the page table and is no area,
/// so that dropping areas never unmaps it.
pub struct MemorySet {
    page_table: PageTable,
    areas: Vec<MapArea>,
    trampoline: Option<PhysPageNum>,
}

impl MemorySet {
    pub closed spec fn spec_page_table(&self) -> PageTable {
        self.page_table
    }

    pub closed spec fn spec_areas(&self) -> Seq<MapArea> {
        self.areas@
    }

    /// The frame that the trampoline page is mapped to, once it is mapped.
    pub closed spec fn spec_trampoline(&self) -> Option<PhysPageNum> {
        self.trampoline
    }

    /// What the walk for page `vpn` ends in.
    pub open spec fn spec_translate(&self, vpn: u64) -> Option<PageTableEntry> {
        self.spec_page_table().spec_translate(vpn)
    }

    pub open spec fn spec_token(&self) -> u64 {
        self.spec_page_table().spec_token()
    }

    /// Area `i` is well formed and fully mapped, and shares no frame with the
    /// page table.
    pub open spec fn area_ok(&self, i: int) -> bool {
        &&& self.spec_areas()[i].wf()
        &&& self.spec_areas()[i].mapped(&self.spec_page_table())
        &&& self.spec_page_table().ppns().disjoint(self.spec_areas()[i].ppns())
        &&& !self.spec_areas()[i].contains(TRAMPOLINE_VPN)
    }

    /// Areas `i` and `j` share neither a page nor a frame.
    pub open spec fn areas_apart(&self, i: int, j: int) -> bool {
        &&& self.spec_areas()[i].ppns().disjoint(self.spec_areas()[j].ppns())
        &&& forall|v: u64| !(self.spec_areas()[i].contains(v) && #[trigger] self.spec_areas()[j].contains(v))
    }

    /// The page table is well formed; every page of every area is mapped as
    /// its area says; no two areas share a page or a frame; and the trampoline
    /// page, once mapped, is mapped readable and executable to its frame.
    pub open spec fn wf(&self) -> bool {
        &&& self.spec_page_table().wf()
        &&& forall|i: int| 0 <= i < self.spec_areas().len() ==> #[trigger] self.area_ok(i)
        &&& forall|i: int, j: int| 0 <= i < j < self.spec_areas().len() ==> #[trigger] self.areas_apart(i, j)
        &&& match self.spec_trampoline() {
            Some(p) => self.spec_translate(TRAMPOLINE_VPN) == Some(
                PageTableEntry::new(p, trampoline_flags().union(flags_v())),
            ),
            None => true,
        }
    }

    /// The numbers of the frames that the memory set owns: those of its page
    /// table and those of its areas.
    pub open spec fn ppns(&self) -> Set<u64> {
        Set::new(
            |p: u64|
                self.spec_page_table().ppns().contains(p) || exists|i: int|
                    0 <= i < self.spec_areas().len() && (#[trigger] self.spec_areas()[i]).ppns().contains(p),
        )
    }

    /// The index of the area that holds page `vpn`.
    pub open spec fn area_of(&self, vpn: u64) -> Option<int> {
        if exists|i: int| 0 <= i < self.spec_areas().len() && (#[trigger] self.spec_areas()[i]).contains(vpn) {
            Some(choose|i: int| 0 <= i < self.spec_areas().len() && (#[trigger] self.spec_areas()[i]).contains(vpn))
        } else {
            None
        }
    }

    /// The frame that backs page `vpn`, where a framed area holds the page.
    pub open spec fn frame_of(&self, vpn: u64) -> Option<FrameTracker> {
        match self.area_of(vpn) {
            Some(i) => self.spec_areas()[i].frame_at(vpn),
            None => None,
        }
    }

    /// The byte at virtual address `va`, where a framed area holds it.
    pub open spec fn spec_byte(&self, va: u64) -> Option<u8> {
        match self.frame_of(va / 4096) {
            Some(f) => Some(f.spec_byte((va % 4096) as int)),
            None => None,
        }
    }

    /// A memory set with an empty page table and no area.
    pub fn new_bare(allocator: &mut StackFrameAllocator) -> (r: Self)
        requires
            old(allocator).wf(),
            old(allocator).available() >= 1,
        ensures
            r.wf(),
            final(allocator).wf(),
            r.spec_areas().len() == 0,
            r.spec_trampoline() is None,
            r.only_areas_mapped(),
            forall|v: u64| (#[trigger] r.spec_translate(v)) is None,
            forall|v: u64| #[trigger] r.spec_page_table().tables_needed(v) == 2,
            old(allocator)@.next() == Some(r.spec_page_table().spec_root().0),
            final(allocator).available() == old(allocator).available() - 1,
            handover(old(allocator)@, final(allocator)@, Set::<u64>::empty(), r.ppns()),
            forall|p: u64| r.ppns().contains(p) ==> !old(allocator).is_allocated(p),
    {
        let page_table = PageTable::new(allocator);
        let r = MemorySet { page_table, areas: Vec::new(), trampoline: None };
        proof {
            assert forall|v: u64| (#[trigger] r.spec_translate(v)) is None by {
                assert(r.spec_page_table().spec_find_pte(v) is None);
            }
            assert(r.ppns() =~= r.spec_page_table().ppns());
            assert(final(allocator).allocated().difference(r.ppns()) =~= old(allocator).allocated().difference(
                Set::<u64>::empty(),
            ));
        }
        r
    }

    /// The word for `satp` that selects this address space.
    pub fn token(&self) -> (r: u64)
        requires
            self.wf(),
        ensures
            r == self.spec_token(),
    {
        self.page_table.token()
    }

    /// The leaf entry for page `vpn` if it is present.
    pub fn translate(&self, vpn: VirtPageNum) -> (r: Option<PageTableEntry>)
        requires
            self.wf(),
            vpn.0 < VPN_LIMIT,
        ensures
            r == self.spec_translate(vpn.0),
    {
        self.page_table.translate(vpn)
    }

    /// The page table.
    pub fn page_table(&self) -> (r: &PageTable)
        ensures
            *r == self.spec_page_table(),
    {
        &self.page_table
    }

    /// Area number `i`.
    pub fn area(&self, i: usize) -> (r: &MapArea)
        requires
            i < self.spec_areas().len(),
        ensures
            *r == self.spec_areas()[i as int],
    {
        &self.areas[i]
    }

    /// Number of areas.
    pub fn area_count(&self) -> (r: usize)
        ensures
            r == self.spec_areas().len(),
    {
        self.areas.len()
    }

    /// What `data` asks of the area that it is copied into from byte
    /// `offset` on.
    pub open spec fn data_fits_at(area: &MapArea, data: Option<&[u8]>, offset: usize) -> bool {
        match data {
            Some(d) => area.spec_type() == MapType::Framed && offset + d@.len() <= (area.spec_end()
                - area.spec_start()) * 4096,
            None => true,
        }
    }

    /// What `data` asks of the area that it is copied into.
    pub open spec fn data_fits(area: &MapArea, data: Option<&[u8]>) -> bool {
        Self::data_fits_at(area, data, 0)
    }

    /// Byte `i` of a fresh area that `data` was copied into from byte
    /// `offset` on: the byte of `data` where it has one, zero before and
    /// behind.
    pub open spec fn loaded_byte_at(data: Option<&[u8]>, offset: usize, i: int) -> u8 {
        match data {
            Some(d) => if offset <= i < offset + d@.len() {
                d@[i - offset]
            } else {
                0
            },
            None => 0,
        }
    }

    /// Byte `i` of a fresh area that `data` was copied into: the byte of
    /// `data` where it has one, zero behind it.
    pub open spec fn loaded_byte(data: Option<&[u8]>, i: int) -> u8 {
        Self::loaded_byte_at(data, 0, i)
    }

    /// Nothing but the trampoline page and the pages of the areas has a
    /// translation.
    pub open spec fn only_areas_mapped(&self) -> bool {
        forall|v: u64|
            v < VPN_LIMIT && (#[trigger] self.spec_translate(v)) is Some ==> v == TRAMPOLINE_VPN || self.area_of(v) is Some
    }

    /// Maps `area`, copies `data` into it from the start of its first page
    /// on, and adds it to the areas.
    ///
    /// No page of the area may be mapped yet. Every frame of the new area is
    /// fresh; what `data` does not cover is zero.
    pub fn push(&mut self, allocator: &mut StackFrameAllocator, area: MapArea, data: Option<&[u8]>)
        requires
            old(self).wf(),
            old(allocator).wf(),
            old(self).ppns().subset_of(old(allocator).allocated()),
            area.wf(),
            area.unmapped(&old(self).spec_page_table()),
            !area.contains(TRAMPOLINE_VPN),
            Self::data_fits(&area, data),
            old(allocator).available() >= map_cost(area.spec_start(), area.spec_end(), area.spec_type()),
        ensures
            final(self).pushed(old(self), old(allocator)@, final(allocator)@, area, data, 0),
    {
        self.push_at(allocator, area, data, 0);
    }

    /// `self` is `old` with `area` mapped on fresh frames and added behind
    /// the other areas, `data` copied into it from byte `offset` on and zero
    /// elsewhere; no translation outside the area has changed.
    pub open spec fn pushed(
        &self,
        old: &MemorySet,
        before: FrameAllocState,
        after: FrameAllocState,
        area: MapArea,
        data: Option<&[u8]>,
        offset: usize,
    ) -> bool {
        &&& self.wf()
        &&& after.wf()
        &&& self.spec_areas().len() == old.spec_areas().len() + 1
        &&& forall|i: int| 0 <= i < old.spec_areas().len() ==> #[trigger] self.spec_areas()[i] == old.spec_areas()[i]
        &&& self.spec_areas().last().spec_range() == area.spec_range()
        &&& self.spec_areas().last().spec_type() == area.spec_type()
        &&& self.spec_areas().last().spec_perm() == area.spec_perm()
        &&& self.spec_trampoline() == old.spec_trampoline()
        &&& self.spec_page_table().extends(&old.spec_page_table())
        &&& forall|v: u64|
            v < VPN_LIMIT && !area.contains(v) ==> #[trigger] self.spec_translate(v) == old.spec_translate(v)
        &&& forall|i: int|
            0 <= i < (area.spec_end() - area.spec_start()) * 4096 && area.spec_type() == MapType::Framed
                ==> #[trigger] self.spec_areas().last().area_byte(i) == Self::loaded_byte_at(data, offset, i)
        &&& forall|v: u64|
            (#[trigger] self.spec_areas().last().frame_at(v)) is Some ==> !before.is_allocated(
                self.spec_areas().last().frame_at(v).unwrap().ppn().0,
            )
        &&& after.available() >= before.available() - map_cost(area.spec_start(), area.spec_end(), area.spec_type())
        &&& handover(before, after, old.ppns(), self.ppns())
        &&& old.only_areas_mapped() ==> self.only_areas_mapped()
    }

    /// As `push`, with `data` copied into the area from byte `offset` on,
    /// bytes being counted from the start of the area's first page.
    pub fn push_at(
        &mut self,
        allocator: &mut StackFrameAllocator,
        area: MapArea,
        data: Option<&[u8]>,
        offset: usize,
    )
        requires
            old(self).wf(),
            old(allocator).wf(),
            old(self).ppns().subset_of(old(allocator).allocated()),
            area.wf(),
            area.unmapped(&old(self).spec_page_table()),
            !area.contains(TRAMPOLINE_VPN),
            Self::data_fits_at(&area, data, offset),
            old(allocator).available() >= map_cost(area.spec_start(), area.spec_end(), area.spec_type()),
        ensures
            final(self).pushed(old(self), old(allocator)@, final(allocator)@, area, data, offset),
    {
        let mut area = area;
        let ghost area0 = area;
        let ghost n = self.areas@.len() as int;
        proof {
            assert forall|v: u64| (#[trigger] area.frame_at(v)) is None by {
                if area.contains(v) {
                    assert(self.page_table.spec_translate(v) is None);
                }
            }
            assert(area.ppns() =~= Set::<u64>::empty());
            assert forall|q: u64| self.page_table.ppns().union(area.ppns()).contains(q) implies allocator.allocated().contains(
                q,
            ) by {
                assert(self.ppns().contains(q));
            }
        }
        area.map(&mut self.page_table, allocator);
        let ghost mapped_area = area;
        proof {
            assert forall|i: int| 0 <= i < (area.spec_end() - area.spec_start()) * 4096 && area.spec_type()
                == MapType::Framed implies #[trigger] area.area_byte(i) == 0 by {
                let v = (area.spec_start() + i / 4096) as u64;
                assert(area.contains(v));
                assert(area.page_mapped(&self.page_table, v));
                lemma_zeroed_frame_bytes(area.frame_at(v).unwrap(), i % 4096);
            }
        }
        match data {
            Some(d) => {
                area.copy_data_at(&self.page_table, d, offset);
            },
            None => {},
        }
        proof {
            assert forall|v: u64| (#[trigger] area.frame_at(v)) is Some implies !old(allocator).is_allocated(
                area.frame_at(v).unwrap().ppn().0,
            ) by {
                assert(mapped_area.frame_at(v) is Some);
            }
            assert(area.ppns() == mapped_area.ppns());
        }
        self.areas.push(area);
        proof {
            let pt0 = old(self).spec_page_table();
            let pt = self.spec_page_table();
            let a0 = old(allocator)@;
            let a1 = allocator@;
            // Frames of the old areas stay live and apart from the new tables and the new area.
            assert forall|i: int, q: u64|
                #![trigger old(self).spec_areas()[i].ppns().contains(q)]
                0 <= i < n && old(self).spec_areas()[i].ppns().contains(q) implies a1.allocated().contains(q)
                    && !pt.ppns().contains(q) && !area.ppns().contains(q) by {
                assert(old(self).area_ok(i));
                assert(old(self).ppns().contains(q));
                assert(a0.allocated().difference(pt0.ppns().union(area0.ppns())).contains(q));
                assert(a1.allocated().difference(pt.ppns().union(area.ppns())).contains(q));
            }
            assert forall|i: int| 0 <= i < self.spec_areas().len() implies #[trigger] self.area_ok(i) by {
                if i < n {
                    assert(old(self).area_ok(i));
                    let ar = self.spec_areas()[i];
                    assert(ar == old(self).spec_areas()[i]);
                    assert forall|v: u64| ar.contains(v) implies #[trigger] ar.page_mapped(&pt, v) by {
                        assert(ar.page_mapped(&pt0, v));
                        if area0.contains(v) {
                            assert(pt0.spec_translate(v) is None);
                        }
                        assert(pt.spec_translate(v) == pt0.spec_translate(v));
                    }
                    assert forall|q: u64| ar.ppns().contains(q) implies !pt.ppns().contains(q) by {
                        assert(old(self).spec_areas()[i].ppns().contains(q));
                    }
                }
            }
            assert forall|i: int, j: int| 0 <= i < j < self.spec_areas().len() implies #[trigger] self.areas_apart(
                i,
                j,
            ) by {
                if j < n {
                    assert(old(self).areas_apart(i, j));
                } else {
                    let ar = self.spec_areas()[i];
                    assert(old(self).area_ok(i));
                    assert forall|v: u64| !(ar.contains(v) && #[trigger] area.contains(v)) by {
                        if ar.contains(v) && area0.contains(v) {
                            assert(ar.page_mapped(&pt0, v));
                            assert(pt0.spec_translate(v) is None);
                        }
                    }
                    assert forall|q: u64| ar.ppns().contains(q) implies !area.ppns().contains(q) by {
                        assert(old(self).spec_areas()[i].ppns().contains(q));
                    }
                }
            }
            if let Some(p) = self.spec_trampoline() {
                assert(pt0.spec_translate(TRAMPOLINE_VPN) is Some);
                assert(pt.spec_translate(TRAMPOLINE_VPN) == pt0.spec_translate(TRAMPOLINE_VPN));
            }
            assert forall|q: u64| self.ppns().contains(q) == (old(self).ppns().contains(q) || pt.ppns().contains(q)
                || area.ppns().contains(q)) by {
                if self.ppns().contains(q) && !pt.ppns().contains(q) {
                    let i = choose|i: int|
                        0 <= i < self.spec_areas().len() && (#[trigger] self.spec_areas()[i]).ppns().contains(q);
                    if i < n {
                        assert(old(self).spec_areas()[i].ppns().contains(q));
                    }
                }
                if old(self).ppns().contains(q) && !pt0.ppns().contains(q) {
                    let i = choose|i: int|
                        0 <= i < old(self).spec_areas().len() && (#[trigger] old(self).spec_areas()[i]).ppns().contains(q);
                    assert(self.spec_areas()[i].ppns().contains(q));
                }
                if area.ppns().contains(q) {
                    assert(self.spec_areas()[n].ppns().contains(q));
                }
            }
            assert forall|q: u64| self.ppns().contains(q) implies a1.allocated().contains(q) by {
                if pt.ppns().contains(q) || area.ppns().contains(q) {
                    assert(pt.ppns().union(area.ppns()).contains(q));
                } else {
                    assert(old(self).ppns().contains(q));
                    let i = choose|i: int|
                        0 <= i < old(self).spec_areas().len() && (#[trigger] old(self).spec_areas()[i]).ppns().contains(q);
                    assert(old(self).spec_areas()[i].ppns().contains(q));
                }
            }
            assert forall|q: u64|
                a1.allocated().difference(self.ppns()).contains(q) == a0.allocated().difference(old(self).ppns()).contains(
                    q,
                ) by {
                assert(a1.allocated().difference(pt.ppns().union(area.ppns())).contains(q) == a0.allocated().difference(
                    pt0.ppns().union(area0.ppns()),
                ).contains(q));
                if old(self).ppns().contains(q) && !pt0.ppns().contains(q) {
                    let i = choose|i: int|
                        0 <= i < old(self).spec_areas().len() && (#[trigger] old(self).spec_areas()[i]).ppns().contains(q);
                    assert(old(self).spec_areas()[i].ppns().contains(q));
                }
            }
            assert(a1.allocated().difference(self.ppns()) =~= a0.allocated().difference(old(self).ppns()));
            if old(self).only_areas_mapped() {
                assert forall|v: u64| v < VPN_LIMIT && (#[trigger] self.spec_translate(v)) is Some implies v
                    == TRAMPOLINE_VPN || self.area_of(v) is Some by {
                    if area0.contains(v) {
                        assert(self.spec_areas()[n].contains(v));
                    } else {
                        assert(self.spec_translate(v) == old(self).spec_translate(v));
                        if v != TRAMPOLINE_VPN {
                            let i = old(self).area_of(v).unwrap();
                            assert(self.spec_areas()[i].contains(v));
                        }
                    }
                }
            }
        }
    }

    /// With the page table grown and no translation of an area's page changed,
    /// the areas are as well as before and the frames are accounted for.
    proof fn lemma_grown(&self, old: &MemorySet, a0: FrameAllocState, a1: FrameAllocState)
        requires
            old.wf(),
            old.ppns().subset_of(a0.allocated()),
            self.spec_page_table().wf(),
            self.spec_page_table().extends(&old.spec_page_table()),
            self.spec_areas() == old.spec_areas(),
            handover(a0, a1, old.spec_page_table().ppns(), self.spec_page_table().ppns()),
            forall|i: int, v: u64|
                #![trigger old.spec_areas()[i].contains(v)]
                0 <= i < old.spec_areas().len() && old.spec_areas()[i].contains(v) ==> self.spec_translate(v)
                    == old.spec_translate(v),
        ensures
            forall|i: int| 0 <= i < self.spec_areas().len() ==> #[trigger] self.area_ok(i),
            forall|i: int, j: int| 0 <= i < j < self.spec_areas().len() ==> #[trigger] self.areas_apart(i, j),
            handover(a0, a1, old.ppns(), self.ppns()),
    {
        let pt0 = old.spec_page_table();
        let pt = self.spec_page_table();
        assert forall|i: int, q: u64|
            #![trigger old.spec_areas()[i].ppns().contains(q)]
            0 <= i < old.spec_areas().len() && old.spec_areas()[i].ppns().contains(q) implies a1.allocated().contains(q)
                && !pt.ppns().contains(q) by {
            assert(old.area_ok(i));
            assert(old.ppns().contains(q));
            assert(a0.allocated().difference(pt0.ppns()).contains(q));
            assert(a1.allocated().difference(pt.ppns()).contains(q));
        }
        assert forall|i: int| 0 <= i < self.spec_areas().len() implies #[trigger] self.area_ok(i) by {
            assert(old.area_ok(i));
            let ar = self.spec_areas()[i];
            assert forall|v: u64| ar.contains(v) implies #[trigger] ar.page_mapped(&pt, v) by {
                assert(ar.page_mapped(&pt0, v));
                assert(old.spec_areas()[i].contains(v));
            }
            assert forall|q: u64| ar.ppns().contains(q) implies !pt.ppns().contains(q) by {
                assert(old.spec_areas()[i].ppns().contains(q));
            }
        }
        assert forall|i: int, j: int| 0 <= i < j < self.spec_areas().len() implies #[trigger] self.areas_apart(i, j) by {
            assert(old.areas_apart(i, j));
        }
        assert forall|q: u64| self.ppns().contains(q) == (old.ppns().contains(q) || pt.ppns().contains(q)) by {
            if self.ppns().contains(q) && !pt.ppns().contains(q) {
                let i = choose|i: int|
                    0 <= i < self.spec_areas().len() && (#[trigger] self.spec_areas()[i]).ppns().contains(q);
                assert(old.spec_areas()[i].ppns().contains(q));
            }
            if old.ppns().contains(q) && !pt0.ppns().contains(q) {
                let i = choose|i: int|
                    0 <= i < old.spec_areas().len() && (#[trigger] old.spec_areas()[i]).ppns().contains(q);
                assert(self.spec_areas()[i].ppns().contains(q));
            }
        }
        assert forall|q: u64| self.ppns().contains(q) implies a1.allocated().contains(q) by {
            if !pt.ppns().contains(q) {
                let i = choose|i: int|
                    0 <= i < old.spec_areas().len() && (#[trigger] old.spec_areas()[i]).ppns().contains(q);
                assert(old.spec_areas()[i].ppns().contains(q));
            }
        }
        assert forall|q: u64|
            a1.allocated().difference(self.ppns()).contains(q) == a0.allocated().difference(old.ppns()).contains(q) by {
            assert(a1.allocated().difference(pt.ppns()).contains(q) == a0.allocated().difference(pt0.ppns()).contains(q));
            if old.ppns().contains(q) && !pt0.ppns().contains(q) {
                let i = choose|i: int|
                    0 <= i < old.spec_areas().len() && (#[trigger] old.spec_areas()[i]).ppns().contains(q);
                assert(old.spec_areas()[i].ppns().contains(q));
            }
        }
        assert(a1.allocated().difference(self.ppns()) =~= a0.allocated().difference(old.ppns()));
    }

    /// Maps the trampoline page to the frame at `strampoline`, readable and
    /// executable, without making it an area.
    pub fn map_trampoline(&mut self, allocator: &mut StackFrameAllocator, strampoline: PhysAddr)
        requires
            old(self).wf(),
            old(allocator).wf(),
            old(self).ppns().subset_of(old(allocator).allocated()),
            old(self).spec_trampoline() is None,
            old(self).spec_translate(TRAMPOLINE_VPN) is None,
            strampoline.page_offset() == 0,
            old(allocator).available() >= old(self).spec_page_table().tables_needed(TRAMPOLINE_VPN),
        ensures
            final(self).wf(),
            final(allocator).wf(),
            final(self).spec_trampoline() == Some(strampoline.floor()),
            final(self).spec_areas() == old(self).spec_areas(),
            old(self).only_areas_mapped() ==> final(self).only_areas_mapped(),
            final(self).spec_page_table().extends(&old(self).spec_page_table()),
            forall|v: u64|
                v < VPN_LIMIT && v != TRAMPOLINE_VPN ==> #[trigger] final(self).spec_translate(v) == old(
                    self,
                ).spec_translate(v),
            final(allocator).available() == old(allocator).available() - old(self).spec_page_table().tables_needed(
                TRAMPOLINE_VPN,
            ),
            handover(old(allocator)@, final(allocator)@, old(self).ppns(), final(self).ppns()),
    {
        proof {
            assert forall|q: u64| self.page_table.ppns().contains(q) implies allocator.allocated().contains(q) by {
                assert(self.ppns().contains(q));
            }
        }
        let ppn = strampoline.floor();
        self.page_table.map(allocator, VirtPageNum(TRAMPOLINE_VPN), ppn, PTEFlags { bits: PTE_R | PTE_X });
        self.trampoline = Some(ppn);
        proof {
            assert forall|i: int, v: u64|
                #![trigger old(self).spec_areas()[i].contains(v)]
                0 <= i < old(self).spec_areas().len() && old(self).spec_areas()[i].contains(v) implies self.spec_translate(
                v,
            ) == old(self).spec_translate(v) by {
                assert(old(self).area_ok(i));
                assert(old(self).spec_areas()[i].page_mapped(&old(self).spec_page_table(), v));
            }
            self.lemma_grown(old(self), old(allocator)@, allocator@);
            if old(self).only_areas_mapped() {
                assert forall|v: u64| v < VPN_LIMIT && (#[trigger] self.spec_translate(v)) is Some implies v
                    == TRAMPOLINE_VPN || self.area_of(v) is Some by {
                    if v != TRAMPOLINE_VPN {
                        assert(self.spec_translate(v) == old(self).spec_translate(v));
                        let i = old(self).area_of(v).unwrap();
                        assert(self.spec_areas()[i].contains(v));
                    }
                }
            }
        }
    }

    /// Adds a framed area over the pages that `start_va .. end_va` touches,
    /// every page of it backed by a fresh, cleared frame.
    pub fn insert_framed_area(
        &mut self,
        allocator: &mut StackFrameAllocator,
        start_va: VirtAddr,
        end_va: VirtAddr,
        map_perm: MapPermission,
    )
        requires
            old(self).wf(),
            old(allocator).wf(),
            old(self).ppns().subset_of(old(allocator).allocated()),
            start_va.floor().0 <= end_va.ceil().0 <= VPN_LIMIT,
            !(start_va.floor().0 <= TRAMPOLINE_VPN < end_va.ceil().0),
            forall|v: u64|
                start_va.floor().0 <= v < end_va.ceil().0 ==> (#[trigger] old(self).spec_translate(v)) is None,
            old(allocator).available() >= map_cost(
                start_va.floor().0 as int,
                end_va.ceil().0 as int,
                MapType::Framed,
            ),
        ensures
            final(self).wf(),
            final(allocator).wf(),
            final(self).spec_areas().len() == old(self).spec_areas().len() + 1,
            forall|i: int|
                0 <= i < old(self).spec_areas().len() ==> #[trigger] final(self).spec_areas()[i] == old(
                    self,
                ).spec_areas()[i],
            final(self).spec_areas().last().spec_start() == start_va.floor().0,
            final(self).spec_areas().last().spec_end() == end_va.ceil().0,
            final(self).spec_areas().last().spec_type() == MapType::Framed,
            final(self).spec_areas().last().spec_perm() == map_perm,
            old(self).only_areas_mapped() ==> final(self).only_areas_mapped(),
            final(self).spec_trampoline() == old(self).spec_trampoline(),
            final(self).spec_page_table().extends(&old(self).spec_page_table()),
            forall|v: u64|
                v < VPN_LIMIT && !(start_va.floor().0 <= v < end_va.ceil().0) ==> #[trigger] final(self).spec_translate(v) == old(self).spec_translate(v),
            forall|i: int|
                0 <= i < (end_va.ceil().0 - start_va.floor().0) * 4096 ==> #[trigger] final(self).spec_areas().last().area_byte(i) == 0,
            forall|v: u64|
                (#[trigger] final(self).spec_areas().last().frame_at(v)) is Some ==> !old(allocator).is_allocated(
                    final(self).spec_areas().last().frame_at(v).unwrap().ppn().0,
                ),
            final(allocator).available() >= old(allocator).available() - map_cost(
                start_va.floor().0 as int,
                end_va.ceil().0 as int,
                MapType::Framed,
            ),
            handover(old(allocator)@, final(allocator)@, old(self).ppns(), final(self).ppns()),
    {
        let area = MapArea::new(start_va, end_va, MapType::Framed, map_perm);
        proof {
            assert forall|v: u64| area.contains(v) implies (#[trigger] self.spec_page_table().spec_translate(v)) is None
                && area.frame_at(v) is None by {
                assert(self.spec_translate(v) is None);
            }
        }
        self.push(allocator, area, None);
        proof {
            assert forall|i: int| 0 <= i < (end_va.ceil().0 - start_va.floor().0) * 4096 implies #[trigger] self.spec_areas().last().area_byte(
                i,
            ) == 0 by {
                assert(Self::loaded_byte(None, i) == 0);
            }
        }
    }

    /// Unmaps every area, gives the areas' frames back and forgets the areas.
    /// The page table keeps its tables, and the trampoline stays mapped.
    pub fn recycle_data_pages(&mut self, allocator: &mut StackFrameAllocator)
        requires
            old(self).wf(),
            old(allocator).wf(),
            old(self).ppns().subset_of(old(allocator).allocated()),
        ensures
            final(self).wf(),
            final(allocator).wf(),
            final(self).spec_areas().len() == 0,
            final(self).spec_trampoline() == old(self).spec_trampoline(),
            final(self).spec_page_table().spec_root() == old(self).spec_page_table().spec_root(),
            final(self).ppns() == old(self).spec_page_table().ppns(),
            forall|v: u64|
                v < VPN_LIMIT ==> #[trigger] final(self).spec_translate(v) == (if old(self).area_of(v) is Some {
                    None
                } else {
                    old(self).spec_translate(v)
                }),
            final(allocator).available() >= old(allocator).available(),
            handover(old(allocator)@, final(allocator)@, old(self).ppns(), final(self).ppns()),
    {
        let ghost all = self.areas@;
        while self.areas.len() > 0
            invariant
                self.wf(),
                allocator.wf(),
                self.ppns().subset_of(allocator.allocated()),
                self.spec_areas().len() <= all.len(),
                self.spec_areas() == all.subrange(0, self.spec_areas().len() as int),
                all == old(self).spec_areas(),
                self.spec_trampoline() == old(self).spec_trampoline(),
                self.spec_page_table().spec_root() == old(self).spec_page_table().spec_root(),
                self.spec_page_table().ppns() == old(self).spec_page_table().ppns(),
                forall|v: u64|
                    v < VPN_LIMIT ==> #[trigger] self.spec_translate(v) == (if exists|i: int|
                        self.spec_areas().len() <= i < all.len() && (#[trigger] all[i]).contains(v) {
                        None
                    } else {
                        old(self).spec_translate(v)
                    }),
                allocator.available() >= old(allocator).available(),
                handover(old(allocator)@, allocator@, old(self).ppns(), self.ppns()),
            decreases self.spec_areas().len(),
        {
            let ghost me0 = *self;
            let ghost a0 = allocator@;
            let ghost n = self.areas@.len() as int;
            let mut area = self.areas.pop().unwrap();
            let ghost area0 = area;
            proof {
                assert(me0.area_ok(n - 1));
                assert(area0 == all[n - 1]);
                assert forall|q: u64| self.page_table.ppns().union(area.ppns()).contains(q) implies allocator.allocated().contains(
                    q,
                ) by {
                    if area.ppns().contains(q) {
                        assert(me0.spec_areas()[n - 1].ppns().contains(q));
                    }
                    assert(me0.ppns().contains(q));
                }
            }
            area.unmap(&mut self.page_table, allocator);
            proof {
                let pt0 = me0.spec_page_table();
                let pt = self.spec_page_table();
                assert(self.spec_areas() =~= all.subrange(0, n - 1));
                assert forall|i: int| 0 <= i < self.spec_areas().len() implies #[trigger] self.area_ok(i) by {
                    assert(me0.area_ok(i));
                    assert(me0.areas_apart(i, n - 1));
                    let ar = self.spec_areas()[i];
                    assert(ar == me0.spec_areas()[i]);
                    assert forall|v: u64| ar.contains(v) implies #[trigger] ar.page_mapped(&pt, v) by {
                        assert(ar.page_mapped(&pt0, v));
                        assert(!area0.contains(v));
                        assert(pt.spec_translate(v) == pt0.spec_translate(v));
                    }
                }
                assert forall|i: int, j: int| 0 <= i < j < self.spec_areas().len() implies #[trigger] self.areas_apart(
                    i,
                    j,
                ) by {
                    assert(me0.areas_apart(i, j));
                }
                if let Some(p) = self.spec_trampoline() {
                    assert(!area0.contains(TRAMPOLINE_VPN));
                    assert(pt.spec_translate(TRAMPOLINE_VPN) == pt0.spec_translate(TRAMPOLINE_VPN));
                }
                assert forall|q: u64| me0.ppns().contains(q) == (self.ppns().contains(q) || area0.ppns().contains(q)) by {
                    if me0.ppns().contains(q) && !pt0.ppns().contains(q) {
                        let i = choose|i: int|
                            0 <= i < me0.spec_areas().len() && (#[trigger] me0.spec_areas()[i]).ppns().contains(q);
                        if i < n - 1 {
                            assert(self.spec_areas()[i].ppns().contains(q));
                        }
                    }
                    if self.ppns().contains(q) && !pt.ppns().contains(q) {
                        let i = choose|i: int|
                            0 <= i < self.spec_areas().len() && (#[trigger] self.spec_areas()[i]).ppns().contains(q);
                        assert(me0.spec_areas()[i].ppns().contains(q));
                    }
                    if area0.ppns().contains(q) {
                        assert(me0.spec_areas()[n - 1].ppns().contains(q));
                    }
                }
                assert forall|q: u64| self.ppns().contains(q) implies !area0.ppns().contains(q) by {
                    if area0.ppns().contains(q) {
                        if pt.ppns().contains(q) {
                            assert(pt0.ppns().contains(q));
                        } else {
                            let i = choose|i: int|
                                0 <= i < self.spec_areas().len() && (#[trigger] self.spec_areas()[i]).ppns().contains(q);
                            assert(me0.areas_apart(i, n - 1));
                            assert(me0.spec_areas()[i].ppns().contains(q));
                        }
                    }
                }
                assert forall|q: u64|
                    allocator.allocated().difference(self.ppns()).contains(q) == a0.allocated().difference(
                        me0.ppns(),
                    ).contains(q) by {
                    assert(allocator.allocated().difference(pt.ppns()).contains(q) == a0.allocated().difference(
                        pt0.ppns().union(area0.ppns()),
                    ).contains(q));
                }
                assert(allocator.allocated().difference(self.ppns()) =~= a0.allocated().difference(me0.ppns()));
                assert forall|q: u64| self.ppns().contains(q) implies allocator.allocated().contains(q) by {
                    assert(me0.ppns().contains(q));
                    assert(a0.allocated().contains(q));
                    if !pt.ppns().contains(q) {
                        assert(!pt0.ppns().union(area0.ppns()).contains(q));
                        assert(a0.allocated().difference(pt0.ppns().union(area0.ppns())).contains(q));
                        assert(allocator.allocated().difference(pt.ppns()).contains(q));
                    }
                }
                assert forall|v: u64| v < VPN_LIMIT implies #[trigger] self.spec_translate(v) == (if exists|i: int|
                    n - 1 <= i < all.len() && (#[trigger] all[i]).contains(v) {
                    None
                } else {
                    old(self).spec_translate(v)
                }) by {
                    if area0.contains(v) {
                        assert(all[n - 1].contains(v));
                        assert(area.unmapped(&pt));
                        assert(pt.spec_translate(v) is None);
                    } else {
                        assert(pt.spec_translate(v) == pt0.spec_translate(v));
                        assert(me0.spec_translate(v) == pt0.spec_translate(v));
                        let before = exists|i: int| n <= i < all.len() && (#[trigger] all[i]).contains(v);
                        let after = exists|i: int| n - 1 <= i < all.len() && (#[trigger] all[i]).contains(v);
                        if after {
                            let i = choose|i: int| n - 1 <= i < all.len() && (#[trigger] all[i]).contains(v);
                            assert(n <= i);
                            assert(all[i].contains(v));
                            assert(before);
                        }
                        if before {
                            let i = choose|i: int| n <= i < all.len() && (#[trigger] all[i]).contains(v);
                            assert(all[i].contains(v));
                            assert(after);
                        }
                    }
                }
            }
        }
        proof {
            assert(self.ppns() =~= self.spec_page_table().ppns());
            assert forall|v: u64| v < VPN_LIMIT implies #[trigger] self.spec_translate(v) == (if old(self).area_of(v) is Some {
                None
            } else {
                old(self).spec_translate(v)
            }) by {
                if old(self).area_of(v) is Some {
                    let i = old(self).area_of(v).unwrap();
                    assert(all[i].contains(v));
                } else {
                    if exists|i: int| 0 <= i < all.len() && (#[trigger] all[i]).contains(v) {
                        let i = choose|i: int| 0 <= i < all.len() && (#[trigger] all[i]).contains(v);
                        assert(old(self).spec_areas()[i].contains(v));
                    }
                }
            }
        }
    }

    /// Gives every frame of the memory set back to the allocator.
    pub fn release(self, allocator: &mut StackFrameAllocator)
        requires
            self.wf(),
            old(allocator).wf(),
            self.ppns().subset_of(old(allocator).allocated()),
        ensures
            final(allocator).wf(),
            final(allocator)@.same_range(old(allocator)@),
            final(allocator).allocated() == old(allocator).allocated().difference(self.ppns()),
            final(allocator).available() >= old(allocator).available() + 1,
    {
        let mut me = self;
        me.recycle_data_pages(allocator);
        let ghost mid = allocator@;
        let ghost pt = me.spec_page_table();
        proof {
            pt.lemma_frame_count();
        }
        me.page_table.release(allocator);
        proof {
            assert forall|q: u64|
                allocator.allocated().contains(q) == old(allocator).allocated().difference(self.ppns()).contains(q) by {
                assert(mid.allocated().difference(me.ppns()).contains(q) == old(allocator).allocated().difference(
                    self.ppns(),
                ).contains(q));
            }
            assert(allocator.allocated() =~= old(allocator).allocated().difference(self.ppns()));
        }
    }

    /// Every page of every area of a well-formed memory set has a translation,
    /// and its leaf entry is present.
    pub proof fn lemma_area_pages_translate(&self, i: int, vpn: u64)
        requires
            self.wf(),
            0 <= i < self.spec_areas().len(),
            self.spec_areas()[i].contains(vpn),
        ensures
            self.spec_translate(vpn) is Some,
            self.spec_translate(vpn).unwrap().is_valid(),
            self.spec_translate(vpn) == Some(self.spec_areas()[i].expected_pte(vpn)),
    {
        assert(self.area_ok(i));
        assert(self.spec_areas()[i].page_mapped(&self.spec_page_table(), vpn));
    }

    /// In a well-formed memory set with the trampoline mapped, the trampoline
    /// page leads to the trampoline's frame, and its flags are exactly
    /// valid, readable and executable: no write access, no user access.
    pub proof fn lemma_trampoline_mapped(&self)
        requires
            self.wf(),
            self.spec_trampoline() is Some,
            self.spec_trampoline().unwrap().0 < PPN_LIMIT,
        ensures
            self.spec_translate(TRAMPOLINE_VPN) is Some,
            self.spec_translate(TRAMPOLINE_VPN).unwrap().ppn() == self.spec_trampoline().unwrap(),
            self.spec_translate(TRAMPOLINE_VPN).unwrap().flags().bits == 0x0b,
            forall|i: int| 0 <= i < self.spec_areas().len() ==> !(#[trigger] self.spec_areas()[i]).contains(TRAMPOLINE_VPN),
    {
        let p = self.spec_trampoline().unwrap();
        super::page_table::lemma_pte_round_trip(p, trampoline_flags().union(flags_v()));
        assert((PTE_R | PTE_X) | 1u8 == 0x0b) by (bit_vector);
        assert forall|i: int| 0 <= i < self.spec_areas().len() implies !(#[trigger] self.spec_areas()[i]).contains(
            TRAMPOLINE_VPN,
        ) by {
            assert(self.area_ok(i));
        }
    }

    /// Every area of a well-formed memory set is well formed.
    pub proof fn lemma_areas_wf(&self)
        requires
            self.wf(),
        ensures
            forall|i: int| 0 <= i < self.spec_areas().len() ==> (#[trigger] self.spec_areas()[i]).wf(),
    {
        assert forall|i: int| 0 <= i < self.spec_areas().len() implies (#[trigger] self.spec_areas()[i]).wf() by {
            assert(self.area_ok(i));
        }
    }

    /// A frame of a well-formed memory set holds one page of words.
    pub proof fn lemma_frame_wf(&self, vpn: u64)
        requires
            self.wf(),
            self.frame_of(vpn) is Some,
        ensures
            self.frame_of(vpn).unwrap().wf(),
            self.frame_of(vpn).unwrap().words().len() == 512,
            self.frame_of(vpn).unwrap().ppn().0 < PPN_LIMIT,
    {
        let i = self.area_of(vpn).unwrap();
        assert(self.area_ok(i));
    }

    /// A frame of an area is a frame of the memory set.
    pub proof fn lemma_frame_owned(&self, i: int, vpn: u64)
        requires
            0 <= i < self.spec_areas().len(),
            self.spec_areas()[i].frame_at(vpn) is Some,
        ensures
            self.ppns().contains(self.spec_areas()[i].frame_at(vpn).unwrap().ppn().0),
            self.spec_areas()[i].ppns().contains(self.spec_areas()[i].frame_at(vpn).unwrap().ppn().0),
    {
    }

    /// A page that has a frame in area `i` is a page of area `i`.
    pub proof fn lemma_frame_in_area(&self, i: int, vpn: u64)
        requires
            0 <= i < self.spec_areas().len(),
            self.spec_areas()[i].frame_at(vpn) is Some,
        ensures
            self.spec_areas()[i].contains(vpn),
            self.spec_areas()[i].spec_type() == MapType::Framed,
    {
    }

    /// An address that a framed area holds lies in the 39-bit virtual space.
    pub proof fn lemma_byte_in_range(&self, va: u64)
        requires
            self.wf(),
            self.spec_byte(va) is Some,
        ensures
            va < 0x80_0000_0000,
    {
        let vpn = va / 4096;
        let i = self.area_of(vpn).unwrap();
        assert(self.area_ok(i));
    }

    /// In a well-formed memory set at most one area holds a page.
    pub proof fn lemma_area_of(&self, vpn: u64, i: int)
        requires
            self.wf(),
            0 <= i < self.spec_areas().len(),
            self.spec_areas()[i].contains(vpn),
        ensures
            self.area_of(vpn) == Some(i),
            self.frame_of(vpn) == self.spec_areas()[i].frame_at(vpn),
    {
        let j = self.area_of(vpn).unwrap();
        if i < j {
            assert(self.areas_apart(i, j));
        } else if j < i {
            assert(self.areas_apart(j, i));
        }
    }

    /// With one area changed only in what its frames hold, the memory set is
    /// as well formed as before and owns the same frames.
    proof fn lemma_touched(&self, old: &MemorySet, k: int)
        requires
            old.wf(),
            self.spec_page_table() == old.spec_page_table(),
            self.spec_trampoline() == old.spec_trampoline(),
            0 <= k < old.spec_areas().len(),
            self.spec_areas() == old.spec_areas().update(k, self.spec_areas()[k]),
            self.spec_areas()[k].wf(),
            self.spec_areas()[k].same_frames(&old.spec_areas()[k]),
            self.spec_areas()[k].mapped(&self.spec_page_table()),
        ensures
            self.wf(),
            self.ppns() == old.ppns(),
            forall|v: u64| #[trigger] self.area_of(v) == old.area_of(v),
            forall|v: u64|
                !old.spec_areas()[k].contains(v) ==> #[trigger] self.frame_of(v) == old.frame_of(v),
            old.only_areas_mapped() ==> self.only_areas_mapped(),
    {
        assert forall|i: int| 0 <= i < self.spec_areas().len() implies #[trigger] self.area_ok(i) by {
            assert(old.area_ok(i));
        }
        assert forall|i: int, j: int| 0 <= i < j < self.spec_areas().len() implies #[trigger] self.areas_apart(i, j) by {
            assert(old.areas_apart(i, j));
            assert forall|v: u64| !(self.spec_areas()[i].contains(v) && #[trigger] self.spec_areas()[j].contains(v)) by {
                assert(self.spec_areas()[j].contains(v) == old.spec_areas()[j].contains(v));
                assert(self.spec_areas()[i].contains(v) == old.spec_areas()[i].contains(v));
            }
        }
        assert forall|q: u64| self.ppns().contains(q) == old.ppns().contains(q) by {
            if self.ppns().contains(q) && !self.spec_page_table().ppns().contains(q) {
                let i = choose|i: int|
                    0 <= i < self.spec_areas().len() && (#[trigger] self.spec_areas()[i]).ppns().contains(q);
                assert(old.spec_areas()[i].ppns().contains(q));
            }
            if old.ppns().contains(q) && !old.spec_page_table().ppns().contains(q) {
                let i = choose|i: int|
                    0 <= i < old.spec_areas().len() && (#[trigger] old.spec_areas()[i]).ppns().contains(q);
                assert(self.spec_areas()[i].ppns().contains(q));
            }
        }
        assert(self.ppns() =~= old.ppns());
        assert forall|v: u64| #[trigger] self.area_of(v) == old.area_of(v) by {
            if old.area_of(v) is Some {
                let i = old.area_of(v).unwrap();
                assert(self.spec_areas()[i].contains(v));
                self.lemma_area_of(v, i);
            } else if self.area_of(v) is Some {
                let i = self.area_of(v).unwrap();
                assert(old.spec_areas()[i].contains(v));
            }
        }
        assert forall|v: u64| !old.spec_areas()[k].contains(v) implies #[trigger] self.frame_of(v) == old.frame_of(
            v,
        ) by {
            assert(self.area_of(v) == old.area_of(v));
        }
        if old.only_areas_mapped() {
            assert forall|v: u64| v < VPN_LIMIT && (#[trigger] self.spec_translate(v)) is Some implies v
                == TRAMPOLINE_VPN || self.area_of(v) is Some by {
                assert(old.spec_translate(v) is Some);
                assert(self.area_of(v) == old.area_of(v));
            }
        }
    }

    /// The index of the area that holds page `vpn`.
    pub fn find_area(&self, vpn: VirtPageNum) -> (r: Option<usize>)
        requires
            self.wf(),
        ensures
            r is Some <==> self.area_of(vpn.0) is Some,
            r is Some ==> self.area_of(vpn.0) == Some(r.unwrap() as int) && self.spec_areas()[r.unwrap() as int].contains(
                vpn.0,
            ),
    {
        let mut i: usize = 0;
        while i < self.areas.len()
            invariant
                self.wf(),
                i <= self.spec_areas().len(),
                forall|j: int| 0 <= j < i ==> !(#[trigger] self.spec_areas()[j]).contains(vpn.0),
            decreases self.areas.len() - i,
        {
            let range = self.areas[i].range();
            if range.start().0 <= vpn.0 && vpn.0 < range.end().0 {
                proof {
                    self.lemma_area_of(vpn.0, i as int);
                }
                return Some(i);
            }
            i = i + 1;
        }
        None
    }

    /// The byte at virtual address `va`, or `None` where no framed area holds
    /// that address.
    pub fn read_byte(&self, va: u64) -> (r: Option<u8>)
        requires
            self.wf(),
        ensures
            r == self.spec_byte(va),
    {
        let vpn = VirtPageNum(va / 4096);
        match self.find_area(vpn) {
            Some(i) => {
                if self.areas[i].map_type() == MapType::Framed {
                    proof {
                        assert(self.area_ok(i as int));
                        assert(self.spec_areas()[i as int].page_mapped(&self.spec_page_table(), vpn.0));
                    }
                    Some(self.areas[i].read_byte(vpn, (va % 4096) as usize))
                } else {
                    proof {
                        assert(self.spec_areas()[i as int].frame_at(vpn.0) is None);
                    }
                    None
                }
            },
            None => None,
        }
    }

    /// Stores `b` at virtual address `va` and returns `true`, or returns
    /// `false` where no framed area holds that address. No other byte, no
    /// translation and no frame's owner changes.
    pub fn write_byte(&mut self, va: u64, b: u8) -> (r: bool)
        requires
            old(self).wf(),
        ensures
            final(self).wf(),
            r == old(self).spec_byte(va) is Some,
            final(self).spec_page_table() == old(self).spec_page_table(),
            final(self).spec_trampoline() == old(self).spec_trampoline(),
            final(self).ppns() == old(self).ppns(),
            final(self).spec_areas().len() == old(self).spec_areas().len(),
            forall|i: int|
                0 <= i < old(self).spec_areas().len() ==> (#[trigger] final(self).spec_areas()[i]).same_frames(
                    &old(self).spec_areas()[i],
                ),
            r ==> final(self).spec_byte(va) == Some(b),
            forall|a: u64| a != va ==> #[trigger] final(self).spec_byte(a) == old(self).spec_byte(a),
            !r ==> final(self).spec_areas() == old(self).spec_areas(),
    {
        let vpn = VirtPageNum(va / 4096);
        match self.find_area(vpn) {
            Some(i) => {
                if self.areas[i].map_type() == MapType::Framed {
                    proof {
                        assert(self.area_ok(i as int));
                        assert(self.spec_areas()[i as int].page_mapped(&self.spec_page_table(), vpn.0));
                    }
                    self.areas[i].write_byte(vpn, (va % 4096) as usize, b);
                    proof {
                        let k = i as int;
                        assert(self.spec_areas() =~= old(self).spec_areas().update(k, self.spec_areas()[k]));
                        self.lemma_touched(old(self), k);
                        self.lemma_area_of(vpn.0, k);
                        assert forall|a: u64| a != va implies #[trigger] self.spec_byte(a) == old(self).spec_byte(a) by {
                            let v = a / 4096;
                            assert(self.area_of(v) == old(self).area_of(v));
                            if old(self).area_of(v) is Some {
                                let j = old(self).area_of(v).unwrap();
                                if j == k {
                                    if old(self).spec_areas()[k].frame_at(v) is Some {
                                        assert(self.spec_areas()[k].frame_at(v) is Some);
                                        assert(v != vpn.0 || (a % 4096) as int != (va % 4096) as int);
                                        assert((self.spec_areas()[k].frame_at(v).unwrap().spec_byte((a % 4096) as int))
                                            == old(self).spec_areas()[k].frame_at(v).unwrap().spec_byte(
                                            (a % 4096) as int,
                                        ));
                                    } else {
                                        assert(!(self.spec_areas()[k].frame_at(v) is Some));
                                    }
                                }
                            }
                        }
                        assert forall|j: int| 0 <= j < old(self).spec_areas().len() implies (#[trigger] self.spec_areas()[j]).same_frames(
                            &old(self).spec_areas()[j],
                        ) by {}
                    }
                    true
                } else {
                    proof {
                        assert(self.spec_areas()[i as int].frame_at(vpn.0) is None);
                    }
                    false
                }
            },
            None => false,
        }
    }

    /// Word `idx` of page `vpn`, or `None` where no framed area holds the page.
    pub fn read_word(&self, vpn: VirtPageNum, idx: usize) -> (r: Option<u64>)
        requires
            self.wf(),
            idx < 512,
        ensures
            r == match self.frame_of(vpn.0) {
                Some(f) => Some(f.words()[idx as int]),
                None => None,
            },
    {
        match self.find_area(vpn) {
            Some(i) => {
                if self.areas[i].map_type() == MapType::Framed {
                    proof {
                        assert(self.area_ok(i as int));
                        assert(self.spec_areas()[i as int].page_mapped(&self.spec_page_table(), vpn.0));
                    }
                    Some(self.areas[i].read_word(vpn, idx))
                } else {
                    proof {
                        assert(self.spec_areas()[i as int].frame_at(vpn.0) is None);
                    }
                    None
                }
            },
            None => None,
        }
    }

    /// Stores `val` as word `idx` of page `vpn` and returns `true`, or returns
    /// `false` where no framed area holds the page. No other page, no
    /// translation and no frame's owner changes.
    pub fn write_word(&mut self, vpn: VirtPageNum, idx: usize, val: u64) -> (r: bool)
        requires
            old(self).wf(),
            idx < 512,
        ensures
            final(self).wf(),
            r == old(self).frame_of(vpn.0) is Some,
            final(self).spec_page_table() == old(self).spec_page_table(),
            final(self).spec_trampoline() == old(self).spec_trampoline(),
            final(self).ppns() == old(self).ppns(),
            final(self).spec_areas().len() == old(self).spec_areas().len(),
            forall|i: int|
                0 <= i < old(self).spec_areas().len() ==> (#[trigger] final(self).spec_areas()[i]).same_frames(
                    &old(self).spec_areas()[i],
                ),
            r ==> final(self).frame_of(vpn.0) is Some && final(self).frame_of(vpn.0).unwrap().words() == old(
                self,
            ).frame_of(vpn.0).unwrap().words().update(idx as int, val) && final(self).frame_of(vpn.0).unwrap().ppn()
                == old(self).frame_of(vpn.0).unwrap().ppn(),
            forall|v: u64| v != vpn.0 ==> #[trigger] final(self).frame_of(v) == old(self).frame_of(v),
            forall|i: int|
                0 <= i < old(self).spec_areas().len() && !old(self).spec_areas()[i].contains(vpn.0)
                    ==> #[trigger] final(self).spec_areas()[i] == old(self).spec_areas()[i],
            !r ==> final(self).spec_areas() == old(self).spec_areas(),
    {
        match self.find_area(vpn) {
            Some(i) => {
                if self.areas[i].map_type() == MapType::Framed {
                    proof {
                        assert(self.area_ok(i as int));
                        assert(self.spec_areas()[i as int].page_mapped(&self.spec_page_table(), vpn.0));
                    }
                    self.areas[i].write_word(vpn, idx, val);
                    proof {
                        let k = i as int;
                        assert(self.spec_areas() =~= old(self).spec_areas().update(k, self.spec_areas()[k]));
                        self.lemma_touched(old(self), k);
                        self.lemma_area_of(vpn.0, k);
                        assert forall|v: u64| v != vpn.0 implies #[trigger] self.frame_of(v) == old(self).frame_of(v) by {
                            assert(self.area_of(v) == old(self).area_of(v));
                        }
                        assert forall|j: int| 0 <= j < old(self).spec_areas().len() implies (#[trigger] self.spec_areas()[j]).same_frames(
                            &old(self).spec_areas()[j],
                        ) by {}
                    }
                    true
                } else {
                    proof {
                        assert(self.spec_areas()[i as int].frame_at(vpn.0) is None);
                    }
                    false
                }
            },
            None => false,
        }
    }

    /// Every page below `lo` and every page from `hi` up is unmapped, the
    /// trampoline page apart.
    #[verifier::opaque]
    pub open spec fn free_outside(&self, lo: u64, hi: u64) -> bool {
        forall|v: u64|
            v < VPN_LIMIT && v != TRAMPOLINE_VPN && (v < lo || v >= hi) ==> (#[trigger] self.spec_translate(v)) is None
    }

    /// Adds an identity-mapped area over the pages that `start .. end`
    /// touches, which lie next to the pages `lo .. hi` on either side.
    fn push_identical(
        &mut self,
        allocator: &mut StackFrameAllocator,
        start: u64,
        end: u64,
        perm: MapPermission,
        Ghost(lo): Ghost<u64>,
        Ghost(hi): Ghost<u64>,
    )
        requires
            old(self).wf(),
            old(allocator).wf(),
            old(self).ppns().subset_of(old(allocator).allocated()),
            start <= end <= MEMORY_END,
            old(self).free_outside(lo, hi),
            lo <= hi,
            hi <= start / 4096 || pages_up(end as int) <= lo,
            old(allocator).available() >= section_cost(start, end),
        ensures
            final(self).wf(),
            final(allocator).wf(),
            final(self).ppns().subset_of(final(allocator).allocated()),
            final(self).spec_areas().len() == old(self).spec_areas().len() + 1,
            forall|i: int|
                0 <= i < old(self).spec_areas().len() ==> #[trigger] final(self).spec_areas()[i] == old(
                    self,
                ).spec_areas()[i],
            final(self).spec_areas().last().spec_start() == start / 4096,
            final(self).spec_areas().last().spec_end() == pages_up(end as int),
            final(self).spec_areas().last().spec_type() == MapType::Identical,
            final(self).spec_areas().last().spec_perm() == perm,
            old(self).only_areas_mapped() ==> final(self).only_areas_mapped(),
            final(self).spec_trampoline() == old(self).spec_trampoline(),
            hi <= start / 4096 ==> final(self).free_outside(lo, pages_up(end as int) as u64),
            pages_up(end as int) <= lo ==> final(self).free_outside((start / 4096) as u64, hi),
            final(allocator).available() >= old(allocator).available() - section_cost(start, end),
            handover(old(allocator)@, final(allocator)@, old(self).ppns(), final(self).ppns()),
    {
        reveal(MemorySet::free_outside);
        reveal(section_cost);
        let area = MapArea::new(VirtAddr(start), VirtAddr(end), MapType::Identical, perm);
        proof {
            assert forall|v: u64| area.contains(v) implies (#[trigger] self.spec_page_table().spec_translate(v)) is None
                && area.frame_at(v) is None by {
                assert(self.spec_translate(v) is None);
            }
        }
        self.push(allocator, area, None);
    }

    /// A bare memory set with the trampoline mapped to the frame at
    /// `strampoline`.
    pub(crate) fn new_with_trampoline(allocator: &mut StackFrameAllocator, strampoline: PhysAddr, Ghost(x): Ghost<u64>) -> (r:
        Self)
        requires
            old(allocator).wf(),
            old(allocator).available() >= 3,
            strampoline.page_offset() == 0,
        ensures
            r.wf(),
            final(allocator).wf(),
            r.ppns().subset_of(final(allocator).allocated()),
            r.spec_trampoline() == Some(strampoline.floor()),
            r.spec_areas().len() == 0,
            r.only_areas_mapped(),
            r.free_outside(x, x),
            final(allocator).available() == old(allocator).available() - 3,
            handover(old(allocator)@, final(allocator)@, Set::<u64>::empty(), r.ppns()),
    {
        reveal(MemorySet::free_outside);
        let mut memory_set = MemorySet::new_bare(allocator);
        let ghost m1 = memory_set;
        proof {
            assert(memory_set.spec_page_table().tables_needed(TRAMPOLINE_VPN) == 2);
            assert(memory_set.spec_translate(TRAMPOLINE_VPN) is None);
        }
        memory_set.map_trampoline(allocator, strampoline);
        proof {
            assert forall|v: u64| v < VPN_LIMIT && v != TRAMPOLINE_VPN implies (#[trigger] memory_set.spec_translate(v)) is None by {
                assert(m1.spec_translate(v) is None);
            }
        }
        memory_set
    }

    /// The kernel's address space: the trampoline, then identity-mapped areas
    /// for the kernel's text (readable, executable), read-only data
    /// (readable), data and zeroed data (readable, writable), the physical
    /// memory behind the kernel up to `MEMORY_END` (readable, writable), and
    /// the device region (readable, writable).
    pub fn new_kernel(allocator: &mut StackFrameAllocator, layout: &KernelLayout) -> (r: Self)
        requires
            old(allocator).wf(),
            layout.wf(),
            old(allocator).available() >= layout.cost(),
        ensures
            r.wf(),
            final(allocator).wf(),
            r.spec_trampoline() == Some(PhysAddr(layout.strampoline).floor()),
            r.spec_areas().len() == 6,
            forall|i: int|
                0 <= i < 6 ==> (#[trigger] r.spec_areas()[i]).spec_start() == layout.sections()[i].0 / 4096
                    && r.spec_areas()[i].spec_end() == pages_up(layout.sections()[i].1 as int)
                    && r.spec_areas()[i].spec_type() == MapType::Identical && r.spec_areas()[i].spec_perm().bits
                    == layout.sections()[i].2,
            final(allocator).available() >= old(allocator).available() - layout.cost(),
            handover(old(allocator)@, final(allocator)@, Set::<u64>::empty(), r.ppns()),
            r.free_outside((MMIO_BASE / 4096) as u64, pages_up(MEMORY_END as int) as u64),
            r.only_areas_mapped(),
    {
        proof {
            lemma_section_cost(layout.stext, layout.etext);
            lemma_section_cost(layout.srodata, layout.erodata);
            lemma_section_cost(layout.sdata, layout.edata);
            lemma_section_cost(layout.sbss_with_stack, layout.ebss);
            lemma_section_cost(layout.ekernel, MEMORY_END);
            lemma_section_cost(MMIO_BASE, (MMIO_BASE + MMIO_SIZE) as u64);
            assert(MAP_R | MAP_X == 0x0a && MAP_R | MAP_W == 0x06) by (bit_vector);
        }
        let ghost lo: u64 = layout.stext / 4096;
        let mut memory_set = MemorySet::new_with_trampoline(allocator, PhysAddr(layout.strampoline), Ghost(lo));
        memory_set.push_identical(
            allocator,
            layout.stext,
            layout.etext,
            MapPermission { bits: MAP_R | MAP_X },
            Ghost(lo),
            Ghost(lo),
        );
        let ghost m1 = memory_set;
        memory_set.push_identical(
            allocator,
            layout.srodata,
            layout.erodata,
            MapPermission { bits: MAP_R },
            Ghost(lo),
            Ghost(pages_up(layout.etext as int) as u64),
        );
        let ghost m2 = memory_set;
        memory_set.push_identical(
            allocator,
            layout.sdata,
            layout.edata,
            MapPermission { bits: MAP_R | MAP_W },
            Ghost(lo),
            Ghost(pages_up(layout.erodata as int) as u64),
        );
        let ghost m3 = memory_set;
        memory_set.push_identical(
            allocator,
            layout.sbss_with_stack,
            layout.ebss,
            MapPermission { bits: MAP_R | MAP_W },
            Ghost(lo),
            Ghost(pages_up(layout.edata as int) as u64),
        );
        let ghost m4 = memory_set;
        memory_set.push_identical(
            allocator,
            layout.ekernel,
            MEMORY_END,
            MapPermission { bits: MAP_R | MAP_W },
            Ghost(lo),
            Ghost(pages_up(layout.ebss as int) as u64),
        );
        let ghost m5 = memory_set;
        memory_set.push_identical(
            allocator,
            MMIO_BASE,
            MMIO_BASE + MMIO_SIZE,
            MapPermission { bits: MAP_R | MAP_W },
            Ghost(lo),
            Ghost(pages_up(MEMORY_END as int) as u64),
        );
        proof {
            let r = memory_set;
            assert(r.spec_areas()[5] == r.spec_areas().last());
            assert(r.spec_areas()[4] == m5.spec_areas().last());
            assert(r.spec_areas()[3] == m5.spec_areas()[3] && m5.spec_areas()[3] == m4.spec_areas().last());
            assert(r.spec_areas()[2] == m5.spec_areas()[2] && m5.spec_areas()[2] == m4.spec_areas()[2]
                && m4.spec_areas()[2] == m3.spec_areas().last());
            assert(r.spec_areas()[1] == m5.spec_areas()[1] && m5.spec_areas()[1] == m4.spec_areas()[1]
                && m4.spec_areas()[1] == m3.spec_areas()[1] && m3.spec_areas()[1] == m2.spec_areas().last());
            assert(r.spec_areas()[0] == m5.spec_areas()[0] && m5.spec_areas()[0] == m4.spec_areas()[0]
                && m4.spec_areas()[0] == m3.spec_areas()[0] && m3.spec_areas()[0] == m2.spec_areas()[0]
                && m2.spec_areas()[0] == m1.spec_areas().last());
        }
        memory_set
    }

    /// Most frames that copying this memory set can take: the root, two
    /// tables for the trampoline, and what each area takes.
    pub open spec fn spec_copy_cost(&self) -> int {
        3 + areas_cost(self.spec_areas(), 0)
    }

    /// Most frames that copying this memory set can take, or `None` where
    /// that number does not fit a word.
    pub fn copy_cost(&self) -> (r: Option<u64>)
        requires
            self.wf(),
        ensures
            match r {
                Some(c) => c == self.spec_copy_cost(),
                None => self.spec_copy_cost() > u64::MAX,
            },
    {
        let mut total: u64 = 0;
        let mut i: usize = self.areas.len();
        proof {
            self.lemma_areas_wf();
            lemma_areas_cost(self.spec_areas(), i as int);
        }
        while i > 0
            invariant
                self.wf(),
                i <= self.spec_areas().len(),
                total == areas_cost(self.spec_areas(), i as int),
            decreases i,
        {
            i = i - 1;
            proof {
                self.lemma_areas_wf();
                lemma_areas_cost(self.spec_areas(), i as int);
                lemma_areas_cost(self.spec_areas(), 0);
            }
            let c = self.areas[i].cost();
            if c > u64::MAX - total {
                proof {
                    lemma_areas_cost_mono(self.spec_areas(), 0, i as int);
                }
                return None;
            }
            total = total + c;
        }
        if total > u64::MAX - 3 {
            None
        } else {
            Some(total + 3)
        }
    }

    /// A copy of a user address space on frames of its own: the trampoline,
    /// and for every area of `user_space` an area with the same range,
    /// discipline and permissions whose pages hold what the pages of
    /// `user_space` hold. No frame of the copy is a frame that was live
    /// before.
    pub fn from_existed_user_space(allocator: &mut StackFrameAllocator, user_space: &MemorySet) -> (r: Self)
        requires
            old(allocator).wf(),
            user_space.wf(),
            user_space.spec_trampoline() is Some,
            user_space.spec_trampoline().unwrap().0 < PPN_LIMIT,
            old(allocator).available() >= user_space.spec_copy_cost(),
        ensures
            r.wf(),
            final(allocator).wf(),
            r.spec_trampoline() == user_space.spec_trampoline(),
            r.spec_areas().len() == user_space.spec_areas().len(),
            r.only_areas_mapped(),
            forall|i: int|
                0 <= i < r.spec_areas().len() ==> (#[trigger] r.spec_areas()[i]).same_shape(
                    &user_space.spec_areas()[i],
                ),
            forall|i: int, v: u64|
                #![trigger r.spec_areas()[i].frame_at(v)]
                0 <= i < r.spec_areas().len() && r.spec_areas()[i].frame_at(v) is Some ==> {
                    &&& user_space.spec_areas()[i].frame_at(v) is Some
                    &&& r.spec_areas()[i].frame_at(v).unwrap().words() == user_space.spec_areas()[i].frame_at(
                        v,
                    ).unwrap().words()
                    &&& !old(allocator).is_allocated(r.spec_areas()[i].frame_at(v).unwrap().ppn().0)
                },
            final(allocator).available() >= old(allocator).available() - user_space.spec_copy_cost(),
            handover(old(allocator)@, final(allocator)@, Set::<u64>::empty(), r.ppns()),
    {
        let tramp = user_space.trampoline.unwrap();
        proof {
            user_space.lemma_areas_wf();
            lemma_areas_cost(user_space.spec_areas(), 0);
        }
        let mut memory_set = MemorySet::new_with_trampoline(allocator, tramp.start_addr(), Ghost(0u64));
        let n: usize = user_space.areas.len();
        let mut i: usize = 0;
        proof {
            reveal(MemorySet::free_outside);
            lemma_areas_cost(user_space.spec_areas(), 0);
        }
        while i < n
            invariant
                i <= n,
                n == user_space.spec_areas().len(),
                user_space.wf(),
                memory_set.wf(),
                allocator.wf(),
                memory_set.ppns().subset_of(allocator.allocated()),
                memory_set.spec_areas().len() == i,
                memory_set.spec_trampoline() == user_space.spec_trampoline(),
                memory_set.only_areas_mapped(),
                forall|j: int|
                    0 <= j < i ==> (#[trigger] memory_set.spec_areas()[j]).same_shape(&user_space.spec_areas()[j]),
                forall|j: int, v: u64|
                    #![trigger memory_set.spec_areas()[j].frame_at(v)]
                    0 <= j < i && memory_set.spec_areas()[j].frame_at(v) is Some ==> {
                        &&& user_space.spec_areas()[j].frame_at(v) is Some
                        &&& memory_set.spec_areas()[j].frame_at(v).unwrap().words() == user_space.spec_areas()[j].frame_at(
                            v,
                        ).unwrap().words()
                        &&& !old(allocator).is_allocated(memory_set.spec_areas()[j].frame_at(v).unwrap().ppn().0)
                    },
                forall|v: u64|
                    v < VPN_LIMIT && v != TRAMPOLINE_VPN && (forall|j: int|
                        0 <= j < i ==> !(#[trigger] user_space.spec_areas()[j]).contains(v)) ==> (
                    #[trigger] memory_set.spec_translate(v)) is None,
                allocator.available() >= areas_cost(user_space.spec_areas(), i as int),
                allocator.available() >= old(allocator).available() - user_space.spec_copy_cost() + areas_cost(
                    user_space.spec_areas(),
                    i as int,
                ),
                handover(old(allocator)@, allocator@, Set::<u64>::empty(), memory_set.ppns()),
            decreases n - i,
        {
            let ghost ms0 = memory_set;
            let ghost a0 = allocator@;
            let src = &user_space.areas[i];
            proof {
                assert(user_space.area_ok(i as int));
                user_space.lemma_areas_wf();
                lemma_areas_cost(user_space.spec_areas(), i as int);
                lemma_areas_cost(user_space.spec_areas(), i as int + 1);
            }
            let area = MapArea::from_another(src);
            proof {
                assert forall|v: u64| area.contains(v) implies (#[trigger] memory_set.spec_page_table().spec_translate(
                    v,
                )) is None && area.frame_at(v) is None by {
                    assert(src.contains(v));
                    assert forall|j: int| 0 <= j < i implies !(#[trigger] user_space.spec_areas()[j]).contains(v) by {
                        assert(user_space.areas_apart(j, i as int));
                        assert(user_space.spec_areas()[i as int].contains(v));
                    }
                    assert(memory_set.spec_translate(v) is None);
                }
            }
            memory_set.push(allocator, area, None);
            let ghost ms1 = memory_set;
            if src.map_type() == MapType::Framed {
                proof {
                    assert(memory_set.area_ok(i as int));
                    assert(memory_set.spec_areas()[i as int] == memory_set.spec_areas().last());
                    assert forall|v: u64| memory_set.spec_areas()[i as int].contains(v) implies (
                    #[trigger] memory_set.spec_areas()[i as int].frame_at(v)) is Some by {
                        assert(memory_set.spec_areas()[i as int].page_mapped(&memory_set.spec_page_table(), v));
                    }
                    assert forall|v: u64| src.contains(v) implies (#[trigger] src.frame_at(v)) is Some by {
                        assert(src.page_mapped(&user_space.spec_page_table(), v));
                    }
                }
                memory_set.areas[i].copy_from_area(src);
                proof {
                    let k = i as int;
                    assert(memory_set.spec_areas() =~= ms1.spec_areas().update(k, memory_set.spec_areas()[k]));
                    memory_set.lemma_touched(&ms1, k);
                }
            }
            proof {
                let k = i as int;
                assert(ms1.spec_areas()[k] == ms1.spec_areas().last());
                assert forall|j: int| 0 <= j < i + 1 implies (#[trigger] memory_set.spec_areas()[j]).same_shape(
                    &user_space.spec_areas()[j],
                ) by {
                    if j < k {
                        assert(memory_set.spec_areas()[j] == ms0.spec_areas()[j]);
                    }
                }
                assert forall|j: int, v: u64|
                    #![trigger memory_set.spec_areas()[j].frame_at(v)]
                    0 <= j < i + 1 && memory_set.spec_areas()[j].frame_at(v) is Some implies {
                    &&& user_space.spec_areas()[j].frame_at(v) is Some
                    &&& memory_set.spec_areas()[j].frame_at(v).unwrap().words() == user_space.spec_areas()[j].frame_at(
                        v,
                    ).unwrap().words()
                    &&& !old(allocator).is_allocated(memory_set.spec_areas()[j].frame_at(v).unwrap().ppn().0)
                } by {
                    if j < k {
                        assert(memory_set.spec_areas()[j] == ms0.spec_areas()[j]);
                        assert(ms0.spec_areas()[j].frame_at(v) is Some);
                    } else {
                        assert(ms1.spec_areas()[k].frame_at(v) is Some);
                        assert(memory_set.spec_areas()[k].contains(v));
                        assert(src.frame_at(v) is Some) by {
                            assert(src.page_mapped(&user_space.spec_page_table(), v));
                        }
                        let q = ms1.spec_areas()[k].frame_at(v).unwrap().ppn().0;
                        assert(!a0.is_allocated(q));
                        if old(allocator).is_allocated(q) {
                            assert(old(allocator).allocated().difference(Set::<u64>::empty()).contains(q));
                            assert(a0.allocated().difference(ms0.ppns()).contains(q));
                        }
                    }
                }
                assert forall|v: u64|
                    v < VPN_LIMIT && v != TRAMPOLINE_VPN && (forall|j: int|
                        0 <= j < i + 1 ==> !(#[trigger] user_space.spec_areas()[j]).contains(v)) implies (
                #[trigger] memory_set.spec_translate(v)) is None by {
                    assert(!user_space.spec_areas()[k].contains(v));
                    assert(ms1.spec_translate(v) == ms0.spec_translate(v));
                    assert(ms0.spec_translate(v) is None);
                }
            }
            i = i + 1;
        }
        memory_set
    }

    /// The index of the first area that starts at page `vpn`.
    pub open spec fn area_starting_at(&self, vpn: u64) -> Option<int> {
        if exists|i: int| self.starts_first(i, vpn) {
            Some(choose|i: int| self.starts_first(i, vpn))
        } else {
            None
        }
    }

    /// Area `i` starts at page `vpn` and no area before it does.
    pub open spec fn starts_first(&self, i: int, vpn: u64) -> bool {
        &&& 0 <= i < self.spec_areas().len()
        &&& self.spec_areas()[i].spec_start() == vpn
        &&& forall|j: int| 0 <= j < i ==> (#[trigger] self.spec_areas()[j]).spec_start() != vpn
    }

    /// Unmaps the first area that starts at page `start_vpn`, gives its frames
    /// back and forgets it. Without such an area nothing changes.
    pub fn remove_area_with_start_vpn(&mut self, allocator: &mut StackFrameAllocator, start_vpn: VirtPageNum)
        requires
            old(self).wf(),
            old(allocator).wf(),
            old(self).ppns().subset_of(old(allocator).allocated()),
        ensures
            final(self).wf(),
            final(allocator).wf(),
            final(self).spec_trampoline() == old(self).spec_trampoline(),
            final(self).spec_page_table().spec_root() == old(self).spec_page_table().spec_root(),
            match old(self).area_starting_at(start_vpn.0) {
                Some(k) => {
                    &&& final(self).spec_areas() == old(self).spec_areas().remove(k)
                    &&& forall|v: u64|
                        v < VPN_LIMIT ==> #[trigger] final(self).spec_translate(v) == (if old(self).spec_areas()[k].contains(
                            v,
                        ) {
                            None
                        } else {
                            old(self).spec_translate(v)
                        })
                },
                None => final(self).spec_areas() == old(self).spec_areas() && final(self).spec_page_table() == old(
                    self,
                ).spec_page_table(),
            },
            final(allocator).available() >= old(allocator).available(),
            handover(old(allocator)@, final(allocator)@, old(self).ppns(), final(self).ppns()),
    {
        let mut i: usize = 0;
        let n: usize = self.areas.len();
        while i < n && self.areas[i].range().start().0 != start_vpn.0
            invariant
                i <= n,
                n == self.spec_areas().len(),
                *self == *old(self),
                forall|j: int| 0 <= j < i ==> (#[trigger] self.spec_areas()[j]).spec_start() != start_vpn.0,
            decreases n - i,
        {
            i = i + 1;
        }
        if i < n {
            let ghost k = i as int;
            proof {
                assert(self.starts_first(k, start_vpn.0));
                let c = choose|c: int| self.starts_first(c, start_vpn.0);
                assert(self.starts_first(c, start_vpn.0));
                if c < k {
                    assert(self.spec_areas()[c].spec_start() != start_vpn.0);
                }
                if k < c {
                    assert(self.spec_areas()[k].spec_start() != start_vpn.0);
                }
                assert(old(self).area_starting_at(start_vpn.0) == Some(k));
                assert(self.area_ok(k));
            }
            let mut area = self.areas.remove(i);
            let ghost area0 = area;
            proof {
                assert forall|q: u64| self.page_table.ppns().union(area.ppns()).contains(q) implies allocator.allocated().contains(
                    q,
                ) by {
                    if area.ppns().contains(q) {
                        assert(old(self).spec_areas()[k].ppns().contains(q));
                    }
                    assert(old(self).ppns().contains(q));
                }
            }
            area.unmap(&mut self.page_table, allocator);
            proof {
                let me0 = old(self);
                let pt0 = me0.spec_page_table();
                let pt = self.spec_page_table();
                let a0 = old(allocator)@;
                let src = |j: int| if j < k { j } else { j + 1 };
                assert forall|j: int| 0 <= j < self.spec_areas().len() implies #[trigger] self.area_ok(j) by {
                    let o = src(j);
                    assert(me0.area_ok(o));
                    if o < k {
                        assert(me0.areas_apart(o, k));
                    } else {
                        assert(me0.areas_apart(k, o));
                    }
                    let ar = self.spec_areas()[j];
                    assert(ar == me0.spec_areas()[o]);
                    assert forall|v: u64| ar.contains(v) implies #[trigger] ar.page_mapped(&pt, v) by {
                        assert(ar.page_mapped(&pt0, v));
                        assert(me0.spec_areas()[o].contains(v));
                        assert(!area0.contains(v));
                        assert(pt.spec_translate(v) == pt0.spec_translate(v));
                    }
                }
                assert forall|j1: int, j2: int| 0 <= j1 < j2 < self.spec_areas().len() implies #[trigger] self.areas_apart(
                    j1,
                    j2,
                ) by {
                    assert(me0.areas_apart(src(j1), src(j2)));
                }
                if let Some(p) = self.spec_trampoline() {
                    assert(!area0.contains(TRAMPOLINE_VPN));
                    assert(pt.spec_translate(TRAMPOLINE_VPN) == pt0.spec_translate(TRAMPOLINE_VPN));
                }
                assert forall|q: u64| me0.ppns().contains(q) == (self.ppns().contains(q) || area0.ppns().contains(q)) by {
                    if me0.ppns().contains(q) && !pt0.ppns().contains(q) {
                        let o = choose|o: int|
                            0 <= o < me0.spec_areas().len() && (#[trigger] me0.spec_areas()[o]).ppns().contains(q);
                        if o < k {
                            assert(self.spec_areas()[o].ppns().contains(q));
                        } else if o > k {
                            assert(self.spec_areas()[o - 1].ppns().contains(q));
                        }
                    }
                    if self.ppns().contains(q) && !pt.ppns().contains(q) {
                        let j = choose|j: int|
                            0 <= j < self.spec_areas().len() && (#[trigger] self.spec_areas()[j]).ppns().contains(q);
                        assert(me0.spec_areas()[src(j)].ppns().contains(q));
                    }
                    if area0.ppns().contains(q) {
                        assert(me0.spec_areas()[k].ppns().contains(q));
                    }
                }
                assert forall|q: u64| self.ppns().contains(q) implies !area0.ppns().contains(q) by {
                    if area0.ppns().contains(q) {
                        if pt.ppns().contains(q) {
                            assert(pt0.ppns().contains(q));
                        } else {
                            let j = choose|j: int|
                                0 <= j < self.spec_areas().len() && (#[trigger] self.spec_areas()[j]).ppns().contains(q);
                            let o = src(j);
                            if o < k {
                                assert(me0.areas_apart(o, k));
                            } else {
                                assert(me0.areas_apart(k, o));
                            }
                            assert(me0.spec_areas()[o].ppns().contains(q));
                        }
                    }
                }
                assert forall|q: u64|
                    allocator.allocated().difference(self.ppns()).contains(q) == a0.allocated().difference(
                        me0.ppns(),
                    ).contains(q) by {
                    assert(allocator.allocated().difference(pt.ppns()).contains(q) == a0.allocated().difference(
                        pt0.ppns().union(area0.ppns()),
                    ).contains(q));
                }
                assert(allocator.allocated().difference(self.ppns()) =~= a0.allocated().difference(me0.ppns()));
                assert forall|q: u64| self.ppns().contains(q) implies allocator.allocated().contains(q) by {
                    assert(me0.ppns().contains(q));
                    assert(a0.allocated().contains(q));
                    if !pt.ppns().contains(q) {
                        assert(!pt0.ppns().union(area0.ppns()).contains(q));
                        assert(a0.allocated().difference(pt0.ppns().union(area0.ppns())).contains(q));
                        assert(allocator.allocated().difference(pt.ppns()).contains(q));
                    }
                }
                assert forall|v: u64| v < VPN_LIMIT implies #[trigger] self.spec_translate(v) == (if old(
                    self,
                ).spec_areas()[k].contains(v) {
                    None
                } else {
                    old(self).spec_translate(v)
                }) by {
                    if area0.contains(v) {
                        assert(area.unmapped(&pt));
                        assert(pt.spec_translate(v) is None);
                    } else {
                        assert(pt.spec_translate(v) == pt0.spec_translate(v));
                    }
                }
            }
        } else {
            proof {
                if exists|c: int| self.starts_first(c, start_vpn.0) {
                    let c = choose|c: int| self.starts_first(c, start_vpn.0);
                    assert(self.spec_areas()[c].spec_start() != start_vpn.0);
                }
                assert(allocator.allocated().difference(self.ppns()) =~= old(allocator).allocated().difference(
                    old(self).ppns(),
                ));
            }
        }
    }
}

/// Most frames that mapping the areas from index `from` on can take.
pub open spec fn areas_cost(areas: Seq<MapArea>, from: int) -> int
    decreases areas.len() - from,
{
    if from < 0 || from >= areas.len() {
        0
    } else {
        areas[from].spec_cost() + areas_cost(areas, from + 1)
    }
}

/// The cost of the areas from `from` on is that of area `from` plus that of
/// the rest, and never negative.
pub proof fn lemma_areas_cost(areas: Seq<MapArea>, from: int)
    requires
        0 <= from,
        forall|i: int| 0 <= i < areas.len() ==> (#[trigger] areas[i]).wf(),
    ensures
        areas_cost(areas, from) >= 0,
        from < areas.len() ==> areas_cost(areas, from) == areas[from].spec_cost() + areas_cost(areas, from + 1)
            && areas[from].spec_cost() >= 0,
        from >= areas.len() ==> areas_cost(areas, from) == 0,
    decreases areas.len() - from,
{
    if from < areas.len() {
        lemma_areas_cost(areas, from + 1);
        assert(areas[from].wf());
    }
}

/// The cost from an earlier area on is at least the cost from a later one on.
pub proof fn lemma_areas_cost_mono(areas: Seq<MapArea>, from: int, to: int)
    requires
        0 <= from <= to,
        forall|i: int| 0 <= i < areas.len() ==> (#[trigger] areas[i]).wf(),
    ensures
        areas_cost(areas, from) >= areas_cost(areas, to),
    decreases to - from,
{
    if from < to {
        lemma_areas_cost(areas, from);
        lemma_areas_cost(areas, to);
        lemma_areas_cost_mono(areas, from + 1, to);
    }
}

/// Most frames that an identity-mapped area over the pages that
/// `start .. end` touches can take.
#[verifier::opaque]
pub open spec fn section_cost(start: u64, end: u64) -> int {
    map_cost(start as int / 4096, pages_up(end as int), MapType::Identical)
}

/// The cost of a section is never negative.
pub proof fn lemma_section_cost(start: u64, end: u64)
    requires
        start <= end,
    ensures
        section_cost(start, end) >= 0,
{
    reveal(section_cost);
}

/// Where the kernel image lies in physical memory, as the linker laid it out.
pub struct KernelLayout {
    pub stext: u64,
    pub etext: u64,
    pub srodata: u64,
    pub erodata: u64,
    pub sdata: u64,
    pub edata: u64,
    pub sbss_with_stack: u64,
    pub ebss: u64,
    pub ekernel: u64,
    pub strampoline: u64,
}

impl KernelLayout {
    /// The sections follow one another in memory without sharing a page, the
    /// device region lies below them, and the trampoline starts a page.
    pub open spec fn wf(&self) -> bool {
        &&& pages_up((MMIO_BASE + MMIO_SIZE) as int) <= self.stext / 4096
        &&& self.stext <= self.etext
        &&& pages_up(self.etext as int) <= self.srodata / 4096
        &&& self.srodata <= self.erodata
        &&& pages_up(self.erodata as int) <= self.sdata / 4096
        &&& self.sdata <= self.edata
        &&& pages_up(self.edata as int) <= self.sbss_with_stack / 4096
        &&& self.sbss_with_stack <= self.ebss
        &&& pages_up(self.ebss as int) <= self.ekernel / 4096
        &&& self.ekernel <= MEMORY_END
        &&& self.strampoline % 4096 == 0
        &&& self.strampoline < PA_LIMIT
    }

    /// The areas of the kernel's address space in the order in which they are
    /// mapped: start, end and permission bits of each.
    pub open spec fn sections(&self) -> Seq<(u64, u64, u8)> {
        seq![
            (self.stext, self.etext, 0x0au8),
            (self.srodata, self.erodata, 0x02u8),
            (self.sdata, self.edata, 0x06u8),
            (self.sbss_with_stack, self.ebss, 0x06u8),
            (self.ekernel, MEMORY_END, 0x06u8),
            (MMIO_BASE, (MMIO_BASE + MMIO_SIZE) as u64, 0x06u8),
        ]
    }

    /// Most frames that building the kernel's address space can take: the
    /// root, two tables for the trampoline, and the tables of each area.
    pub open spec fn cost(&self) -> int {
        3 + section_cost(self.stext, self.etext) + section_cost(self.srodata, self.erodata) + section_cost(
            self.sdata,
            self.edata,
        ) + section_cost(self.sbss_with_stack, self.ebss) + section_cost(self.ekernel, MEMORY_END) + section_cost(
            MMIO_BASE,
            (MMIO_BASE + MMIO_SIZE) as u64,
        )
    }
}

} // verus!
