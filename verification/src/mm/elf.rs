//! Loading a program image: what the address space of a task is made of, and
//! how it is read out of an ELF file.

use vstd::prelude::*;
use vstd::slice::slice_subrange;
use crate::config::USER_STACK_SIZE;
use super::address::{pages_up, PhysAddr, VirtAddr, VPN_LIMIT};
use super::frame_allocator::{handover, FrameAllocState, StackFrameAllocator};
use super::memory_set::{map_cost, map_cost_of, MapArea, MapPermission, MapType, MemorySet};
use super::memory_set::{MAP_R, MAP_U, MAP_W, TRAMPOLINE_VPN, TRAP_CONTEXT_VPN};

verus! {

/// First address above the part of the virtual space that user programs may
/// occupy: the lower half of the 39-bit space.
pub const USER_LIMIT: u64 = 0x40_0000_0000;

/// What the loader reads of one program header.
#[derive(Copy, Clone, Debug, PartialEq, Eq, Structural)]
pub struct ProgramSegment {
    /// The header describes a segment to load.
    pub load: bool,
    pub vaddr: u64,
    pub mem_size: u64,
    pub file_size: u64,
    pub offset: u64,
    pub readable: bool,
    pub writable: bool,
    pub executable: bool,
}

impl ProgramSegment {
    /// The first page of the segment.
    pub open spec fn start_vpn(&self) -> int {
        self.vaddr as int / 4096
    }

    /// The page behind the last page of the segment.
    pub open spec fn end_vpn(&self) -> int {
        pages_up(self.vaddr + self.mem_size)
    }

    /// The permissions of the segment's area: user access, and read, write
    /// and execute as the header says.
    pub open spec fn perm_bits(&self) -> u8 {
        (0x10 + (if self.readable {
            2int
        } else {
            0int
        }) + (if self.writable {
            4int
        } else {
            0int
        }) + (if self.executable {
            8int
        } else {
            0int
        })) as u8
    }

    /// The segment has page `vpn`.
    pub open spec fn has_page(&self, vpn: int) -> bool {
        self.start_vpn() <= vpn < self.end_vpn()
    }

    /// The two segments have a page in common.
    pub open spec fn shares_page(&self, other: &ProgramSegment) -> bool {
        &&& self.start_vpn() < self.end_vpn()
        &&& other.start_vpn() < other.end_vpn()
        &&& self.start_vpn() < other.end_vpn()
        &&& other.start_vpn() < self.end_vpn()
    }

    /// Where in its first page the segment starts.
    pub open spec fn skew(&self) -> int {
        self.vaddr as int % 4096
    }

    /// The segment's bytes lie within a file of `file_len` bytes, the segment
    /// lies within the user part of the virtual space, and its pages can hold
    /// its bytes from its address on.
    pub open spec fn fits(&self, file_len: int) -> bool {
        &&& self.offset + self.file_size <= file_len
        &&& self.vaddr + self.mem_size <= USER_LIMIT
        &&& self.skew() + self.file_size <= (self.end_vpn() - self.start_vpn()) * 4096
    }

    /// Most frames that mapping the segment can take.
    pub open spec fn cost(&self) -> int {
        map_cost(self.start_vpn(), self.end_vpn(), MapType::Framed)
    }

    /// Byte `k` of the segment in memory, counted from the segment's
    /// address: the byte of the file where the segment has one, zero behind
    /// it.
    pub open spec fn memory_byte(&self, file: Seq<u8>, k: int) -> u8 {
        if 0 <= k < self.file_size {
            file[self.offset + k]
        } else {
            0
        }
    }

    /// Byte `k` of the segment's area, counted from the start of the area's
    /// first page: zero before the segment's address, then the segment's
    /// bytes.
    pub open spec fn image_byte(&self, file: Seq<u8>, k: int) -> u8 {
        self.memory_byte(file, k - self.skew())
    }
}

/// The page behind the highest segment.
pub open spec fn loads_end(loads: Seq<ProgramSegment>) -> int
    decreases loads.len(),
{
    if loads.len() == 0 {
        0
    } else if loads.last().end_vpn() > loads_end(loads.drop_last()) {
        loads.last().end_vpn()
    } else {
        loads_end(loads.drop_last())
    }
}

/// No segment ends above `loads_end`.
pub proof fn lemma_loads_end(loads: Seq<ProgramSegment>, j: int)
    requires
        0 <= j < loads.len(),
    ensures
        loads[j].end_vpn() <= loads_end(loads),
    decreases loads.len(),
{
    if j < loads.len() - 1 {
        lemma_loads_end(loads.drop_last(), j);
    }
}

/// With one segment more, `loads_end` is the higher of what it was and the
/// end of that segment.
pub proof fn lemma_loads_end_step(loads: Seq<ProgramSegment>, i: int)
    requires
        0 <= i < loads.len(),
    ensures
        loads_end(loads.subrange(0, i + 1)) == (if loads[i].end_vpn() > loads_end(loads.subrange(0, i)) {
            loads[i].end_vpn()
        } else {
            loads_end(loads.subrange(0, i))
        }),
{
    assert(loads.subrange(0, i + 1).drop_last() =~= loads.subrange(0, i));
    assert(loads.subrange(0, i + 1).last() == loads[i]);
}

/// The segments can be loaded from a file of `file_len` bytes: each fits, no
/// two share a page, and a guard page and the user stack find room above the
/// highest.
pub open spec fn loadable(loads: Seq<ProgramSegment>, file_len: int) -> bool {
    &&& forall|i: int| 0 <= i < loads.len() ==> (#[trigger] loads[i]).fits(file_len)
    &&& forall|i: int, j: int|
        #![trigger loads[i], loads[j]]
        0 <= i < j < loads.len() ==> !loads[i].shares_page(&loads[j])
    &&& (loads_end(loads) + 2) * 4096 <= USER_LIMIT
}

/// Most frames that mapping the segments from index `from` on can take.
pub open spec fn loads_cost(loads: Seq<ProgramSegment>, from: int) -> int
    decreases loads.len() - from,
{
    if from < 0 || from >= loads.len() {
        0
    } else {
        loads[from].cost() + loads_cost(loads, from + 1)
    }
}

/// Most frames that building a user address space of these segments can
/// take: three for the root and the trampoline, three each for the stack and
/// the trap context, and what the segments take.
pub open spec fn load_cost(loads: Seq<ProgramSegment>) -> int {
    9 + loads_cost(loads, 0)
}

/// The cost of the segments from `from` on is that of segment `from` plus
/// that of the rest, and never negative.
pub proof fn lemma_loads_cost(loads: Seq<ProgramSegment>, from: int)
    requires
        0 <= from,
    ensures
        loads_cost(loads, from) >= 0,
        from < loads.len() ==> loads_cost(loads, from) == loads[from].cost() + loads_cost(loads, from + 1)
            && loads[from].cost() >= 0,
        from >= loads.len() ==> loads_cost(loads, from) == 0,
    decreases loads.len() - from,
{
    if from < loads.len() {
        lemma_loads_cost(loads, from + 1);
    }
}

/// Area `a` covers the pages `start .. end`, framed, with permissions `bits`.
pub open spec fn area_is(a: MapArea, start: int, end: int, bits: u8) -> bool {
    &&& a.spec_start() == start
    &&& a.spec_end() == end
    &&& a.spec_type() == MapType::Framed
    &&& a.spec_perm().bits == bits
}

/// Area `a` is the area of segment `seg` of `file`: it covers the segment's
/// pages with the segment's permissions and holds the segment's bytes at the
/// segment's address, zero before and behind them.
pub open spec fn area_holds(a: MapArea, seg: ProgramSegment, file: Seq<u8>) -> bool {
    &&& area_is(a, seg.start_vpn(), seg.end_vpn(), seg.perm_bits())
    &&& forall|k: int|
        0 <= k < (seg.end_vpn() - seg.start_vpn()) * 4096 ==> #[trigger] a.area_byte(k) == seg.image_byte(file, k)
}

/// Area `a` covers the pages `start .. end` with permissions `bits` and holds
/// zero everywhere.
pub open spec fn area_zeroed(a: MapArea, start: int, end: int, bits: u8) -> bool {
    &&& area_is(a, start, end, bits)
    &&& forall|k: int| 0 <= k < (end - start) * 4096 ==> #[trigger] a.area_byte(k) == 0
}

/// No frame of area `a` was live in `before`.
pub open spec fn area_fresh(a: MapArea, before: FrameAllocState) -> bool {
    forall|v: u64| (#[trigger] a.frame_at(v)) is Some ==> !before.is_allocated(a.frame_at(v).unwrap().ppn().0)
}

/// The user's part of what `from_segments` makes of segments and file: an
/// address space `ms` with one area per segment, then the user stack one page
/// above the last segment, then the page of the trap context; and the top of
/// the user stack `sp`.
pub open spec fn loaded_user(ms: MemorySet, sp: u64, loads: Seq<ProgramSegment>, file: Seq<u8>) -> bool {
    &&& ms.spec_areas().len() == loads.len() + 2
    &&& forall|i: int| 0 <= i < loads.len() ==> area_holds(#[trigger] ms.spec_areas()[i], loads[i], file)
    &&& area_zeroed(ms.spec_areas()[loads.len() as int], loads_end(loads) + 1, loads_end(loads) + 2, 0x16)
    &&& area_is(ms.spec_areas()[loads.len() as int + 1], TRAP_CONTEXT_VPN as int, TRAMPOLINE_VPN as int, 0x06)
    &&& sp == (loads_end(loads) + 2) * 4096
}

/// What `from_segments` makes of segments and file: the user's part, and a
/// page of zeros for the trap context.
pub open spec fn loaded(ms: MemorySet, sp: u64, loads: Seq<ProgramSegment>, file: Seq<u8>) -> bool {
    &&& loaded_user(ms, sp, loads, file)
    &&& area_zeroed(ms.spec_areas()[loads.len() as int + 1], TRAP_CONTEXT_VPN as int, TRAMPOLINE_VPN as int, 0x06)
}

/// Every frame of every area of `ms` is one that was not live in `before`.
pub open spec fn all_fresh(ms: MemorySet, before: FrameAllocState) -> bool {
    forall|i: int| 0 <= i < ms.spec_areas().len() ==> area_fresh(#[trigger] ms.spec_areas()[i], before)
}

/// A frame that is not live now was not live before, where every frame that
/// was live before still is.
pub proof fn lemma_fresh_since(a: MapArea, orig: FrameAllocState, mid: FrameAllocState, own: Set<u64>)
    requires
        area_fresh(a, mid),
        handover(orig, mid, Set::<u64>::empty(), own),
    ensures
        area_fresh(a, orig),
{
    assert forall|v: u64| (#[trigger] a.frame_at(v)) is Some implies !orig.is_allocated(
        a.frame_at(v).unwrap().ppn().0,
    ) by {
        let q = a.frame_at(v).unwrap().ppn().0;
        if orig.is_allocated(q) {
            assert(orig.allocated().difference(Set::<u64>::empty()).contains(q));
            assert(mid.allocated().difference(own).contains(q));
        }
    }
}

/// An owner that started with no frame holds no frame that was live before.
pub proof fn lemma_fresh_owner(before: FrameAllocState, after: FrameAllocState, own: Set<u64>)
    requires
        handover(before, after, Set::<u64>::empty(), own),
    ensures
        own.disjoint(before.allocated()),
{
    assert forall|q: u64| own.contains(q) implies !before.allocated().contains(q) by {
        if before.allocated().contains(q) {
            assert(before.allocated().difference(Set::<u64>::empty()).contains(q));
            assert(after.allocated().difference(own).contains(q));
        }
    }
}

/// The frames of an owner that started with none are accounted for step by
/// step.
pub proof fn lemma_handover_chain(
    orig: FrameAllocState,
    mid: FrameAllocState,
    now: FrameAllocState,
    own_mid: Set<u64>,
    own_now: Set<u64>,
)
    requires
        handover(orig, mid, Set::<u64>::empty(), own_mid),
        handover(mid, now, own_mid, own_now),
    ensures
        handover(orig, now, Set::<u64>::empty(), own_now),
{
}

impl MemorySet {
    /// Adds the area of segment `seg` of the file `elf_data`, the segment's
    /// bytes at the segment's address. The segment's pages must be free.
    fn push_segment(
        &mut self,
        allocator: &mut StackFrameAllocator,
        seg: &ProgramSegment,
        elf_data: &[u8],
    ) -> (end_vpn: u64)
        requires
            old(self).wf(),
            old(allocator).wf(),
            old(self).ppns().subset_of(old(allocator).allocated()),
            seg.fits(elf_data@.len() as int),
            forall|v: u64| seg.has_page(v as int) ==> (#[trigger] old(self).spec_translate(v)) is None,
            old(allocator).available() >= seg.cost(),
        ensures
            final(self).wf(),
            final(allocator).wf(),
            final(self).ppns().subset_of(final(allocator).allocated()),
            final(self).spec_areas().len() == old(self).spec_areas().len() + 1,
            forall|i: int|
                0 <= i < old(self).spec_areas().len() ==> #[trigger] final(self).spec_areas()[i] == old(
                    self,
                ).spec_areas()[i],
            area_holds(final(self).spec_areas().last(), *seg, elf_data@),
            area_fresh(final(self).spec_areas().last(), old(allocator)@),
            old(self).only_areas_mapped() ==> final(self).only_areas_mapped(),
            final(self).spec_trampoline() == old(self).spec_trampoline(),
            end_vpn == seg.end_vpn(),
            final(allocator).available() >= old(allocator).available() - seg.cost(),
            handover(old(allocator)@, final(allocator)@, old(self).ppns(), final(self).ppns()),
    {
        let start_va = VirtAddr(seg.vaddr);
        let end_va = VirtAddr(seg.vaddr + seg.mem_size);
        let mut bits: u8 = MAP_U;
        if seg.readable {
            bits = bits + 2;
        }
        if seg.writable {
            bits = bits + 4;
        }
        if seg.executable {
            bits = bits + 8;
        }
        let area = MapArea::new(start_va, end_va, MapType::Framed, MapPermission { bits });
        let end_vpn: u64 = area.range().end().0;
        proof {
            assert forall|v: u64| area.contains(v) implies (#[trigger] self.spec_page_table().spec_translate(v)) is None
                && area.frame_at(v) is None by {
                assert(seg.has_page(v as int));
                assert(self.spec_translate(v) is None);
            }
        }
        let file_len: usize = elf_data.len();
        assert(seg.offset + seg.file_size <= file_len);
        let data = slice_subrange(elf_data, seg.offset as usize, (seg.offset + seg.file_size) as usize);
        let skew: usize = (seg.vaddr % 4096) as usize;
        self.push_at(allocator, area, Some(data), skew);
        proof {
            let a = self.spec_areas().last();
            assert forall|k: int| 0 <= k < (seg.end_vpn() - seg.start_vpn()) * 4096 implies #[trigger] a.area_byte(k)
                == seg.image_byte(elf_data@, k) by {
                assert(a.area_byte(k) == MemorySet::loaded_byte_at(Some(data), skew, k));
            }
        }
        end_vpn
    }

    /// Adds a framed area of one page at page `vpn`, which is free.
    fn push_page(&mut self, allocator: &mut StackFrameAllocator, vpn: u64, bits: u8)
        requires
            old(self).wf(),
            old(allocator).wf(),
            old(self).ppns().subset_of(old(allocator).allocated()),
            vpn < TRAMPOLINE_VPN,
            old(self).spec_translate(vpn) is None,
            old(allocator).available() >= 3,
        ensures
            final(self).wf(),
            final(allocator).wf(),
            final(self).ppns().subset_of(final(allocator).allocated()),
            final(self).spec_areas().len() == old(self).spec_areas().len() + 1,
            forall|i: int|
                0 <= i < old(self).spec_areas().len() ==> #[trigger] final(self).spec_areas()[i] == old(
                    self,
                ).spec_areas()[i],
            area_zeroed(final(self).spec_areas().last(), vpn as int, vpn + 1, bits),
            area_fresh(final(self).spec_areas().last(), old(allocator)@),
            old(self).only_areas_mapped() ==> final(self).only_areas_mapped(),
            final(self).spec_trampoline() == old(self).spec_trampoline(),
            forall|v: u64|
                v < VPN_LIMIT && v != vpn ==> #[trigger] final(self).spec_translate(v) == old(self).spec_translate(v),
            final(allocator).available() >= old(allocator).available() - 3,
            handover(old(allocator)@, final(allocator)@, old(self).ppns(), final(self).ppns()),
    {
        self.insert_framed_area(
            allocator,
            VirtAddr(vpn * 4096),
            VirtAddr(vpn * 4096 + 4096),
            MapPermission { bits },
        );
    }

    /// The address space of a user program: the trampoline; for every segment
    /// a framed, user-accessible area over the pages that the segment touches,
    /// which holds the segment's bytes at the segment's address and zero
    /// elsewhere; one page above the last segment a framed user stack of
    /// `USER_STACK_SIZE` bytes, readable and writable; and the trap-context
    /// page below the trampoline, readable and writable for the kernel only.
    /// Nothing else is mapped: the page between the last segment and the
    /// stack stays a guard page.
    ///
    /// Returns the address space, the top of the user stack and `entry`.
    pub fn from_segments(
        allocator: &mut StackFrameAllocator,
        loads: &Vec<ProgramSegment>,
        entry: u64,
        elf_data: &[u8],
        strampoline: PhysAddr,
    ) -> (r: (MemorySet, u64, u64))
        requires
            old(allocator).wf(),
            strampoline.page_offset() == 0,
            loadable(loads@, elf_data@.len() as int),
            old(allocator).available() >= load_cost(loads@),
        ensures
            r.0.wf(),
            final(allocator).wf(),
            r.0.spec_trampoline() == Some(strampoline.floor()),
            loaded(r.0, r.1, loads@, elf_data@),
            r.2 == entry,
            r.0.only_areas_mapped(),
            r.0.ppns().disjoint(old(allocator).allocated()),
            all_fresh(r.0, old(allocator)@),
            final(allocator).available() >= old(allocator).available() - load_cost(loads@),
            handover(old(allocator)@, final(allocator)@, Set::<u64>::empty(), r.0.ppns()),
    {
        proof {
            lemma_loads_cost(loads@, 0);
        }
        let mut memory_set = MemorySet::new_with_trampoline(allocator, strampoline, Ghost(0u64));
        let mut max_end_vpn: u64 = 0;
        let n: usize = loads.len();
        let mut i: usize = 0;
        while i < n
            invariant
                i <= n,
                n == loads@.len(),
                loadable(loads@, elf_data@.len() as int),
                memory_set.wf(),
                allocator.wf(),
                memory_set.ppns().subset_of(allocator.allocated()),
                memory_set.spec_trampoline() == Some(strampoline.floor()),
                memory_set.spec_areas().len() == i,
                memory_set.only_areas_mapped(),
                max_end_vpn == loads_end(loads@.subrange(0, i as int)),
                max_end_vpn * 4096 <= USER_LIMIT,
                forall|j: int| 0 <= j < i ==> area_holds(#[trigger] memory_set.spec_areas()[j], loads@[j], elf_data@),
                all_fresh(memory_set, old(allocator)@),
                allocator.available() >= loads_cost(loads@, i as int) + 6,
                allocator.available() >= old(allocator).available() - load_cost(loads@) + loads_cost(loads@, i as int)
                    + 6,
                handover(old(allocator)@, allocator@, Set::<u64>::empty(), memory_set.ppns()),
            decreases n - i,
        {
            let ghost ms0 = memory_set;
            let ghost a0 = allocator@;
            proof {
                lemma_loads_cost(loads@, i as int);
                lemma_loads_cost(loads@, i as int + 1);
                lemma_loads_end_step(loads@, i as int);
                let seg = loads@[i as int];
                assert(seg.fits(elf_data@.len() as int));
                assert forall|v: u64| seg.has_page(v as int) implies (#[trigger] memory_set.spec_translate(v)) is None by {
                    if memory_set.spec_translate(v) is Some {
                        let j = memory_set.area_of(v).unwrap();
                        assert(area_holds(memory_set.spec_areas()[j], loads@[j], elf_data@));
                        assert(loads@[j].has_page(v as int));
                        assert(loads@[j].shares_page(&loads@[i as int]));
                    }
                }
            }
            let end_vpn = memory_set.push_segment(allocator, &loads[i], elf_data);
            proof {
                let k0 = i as int;
                assert(memory_set.spec_areas()[k0] == memory_set.spec_areas().last());
                lemma_fresh_since(memory_set.spec_areas().last(), old(allocator)@, a0, ms0.ppns());
                lemma_handover_chain(old(allocator)@, a0, allocator@, ms0.ppns(), memory_set.ppns());
                assert forall|j: int| 0 <= j < i + 1 implies area_holds(
                    #[trigger] memory_set.spec_areas()[j],
                    loads@[j],
                    elf_data@,
                ) by {
                    if j < k0 {
                        assert(memory_set.spec_areas()[j] == ms0.spec_areas()[j]);
                    }
                }
                assert forall|j: int| 0 <= j < memory_set.spec_areas().len() implies area_fresh(
                    #[trigger] memory_set.spec_areas()[j],
                    old(allocator)@,
                ) by {
                    if j < k0 {
                        assert(memory_set.spec_areas()[j] == ms0.spec_areas()[j]);
                    }
                }
            }
            if end_vpn > max_end_vpn {
                max_end_vpn = end_vpn;
            }
            i = i + 1;
        }
        proof {
            assert(loads@.subrange(0, n as int) =~= loads@);
            assert(MAP_R | MAP_W | MAP_U == 0x16 && MAP_R | MAP_W == 0x06) by (bit_vector);
            assert forall|v: u64| v == max_end_vpn + 1 || v == TRAP_CONTEXT_VPN implies (
            #[trigger] memory_set.spec_translate(v)) is None by {
                if memory_set.spec_translate(v) is Some {
                    let j = memory_set.area_of(v).unwrap();
                    assert(area_holds(memory_set.spec_areas()[j], loads@[j], elf_data@));
                    assert(loads@[j].fits(elf_data@.len() as int));
                    lemma_loads_end(loads@, j);
                }
            }
        }
        let ghost ms1 = memory_set;
        let ghost a1 = allocator@;
        let stack_vpn: u64 = max_end_vpn + 1;
        memory_set.push_page(allocator, stack_vpn, MAP_R | MAP_W | MAP_U);
        let ghost ms2 = memory_set;
        let ghost a2 = allocator@;
        proof {
            assert(ms1.spec_translate(TRAP_CONTEXT_VPN) is None);
            assert(memory_set.spec_translate(TRAP_CONTEXT_VPN) == ms1.spec_translate(TRAP_CONTEXT_VPN));
            lemma_fresh_since(ms2.spec_areas().last(), old(allocator)@, a1, ms1.ppns());
            lemma_handover_chain(old(allocator)@, a1, a2, ms1.ppns(), ms2.ppns());
        }
        memory_set.push_page(allocator, TRAP_CONTEXT_VPN, MAP_R | MAP_W);
        proof {
            let m = n as int;
            lemma_fresh_since(memory_set.spec_areas().last(), old(allocator)@, a2, ms2.ppns());
            lemma_handover_chain(old(allocator)@, a2, allocator@, ms2.ppns(), memory_set.ppns());
            assert(memory_set.spec_areas()[m + 1] == memory_set.spec_areas().last());
            assert(memory_set.spec_areas()[m] == ms2.spec_areas()[m]);
            assert(ms2.spec_areas()[m] == ms2.spec_areas().last());
            assert forall|j: int| 0 <= j < m implies #[trigger] memory_set.spec_areas()[j] == ms1.spec_areas()[j] by {
                assert(memory_set.spec_areas()[j] == ms2.spec_areas()[j]);
                assert(ms2.spec_areas()[j] == ms1.spec_areas()[j]);
            }
            assert forall|j: int| 0 <= j < memory_set.spec_areas().len() implies area_fresh(
                #[trigger] memory_set.spec_areas()[j],
                old(allocator)@,
            ) by {
                if j < m {
                    assert(memory_set.spec_areas()[j] == ms1.spec_areas()[j]);
                }
            }
        }
        proof {
            lemma_fresh_owner(old(allocator)@, allocator@, memory_set.ppns());
        }
        (memory_set, stack_vpn * 4096 + USER_STACK_SIZE as u64, entry)
    }
}

/// Why an image cannot be loaded.
#[derive(Copy, Clone, Debug, PartialEq, Eq, Structural)]
pub enum ElfError {
    /// The image is shorter than an ELF header, lacks the ELF magic number
    /// or names no known class.
    NotElf,
    /// The table of program headers does not lie within the image in the
    /// shape that its class asks for.
    BadProgramHeaders,
    /// The segments to load do not fit the image or the user part of the
    /// virtual space, or share a page.
    BadSegment,
    /// The allocator holds too few frames.
    OutOfFrames,
}

/// The header of the image is one that the parser accepts: the magic number
/// `0x7f 'E' 'L' 'F'` and class 1 (32 bit) or 2 (64 bit).
pub open spec fn elf_header_accepted(bytes: Seq<u8>) -> bool {
    &&& bytes.len() >= 16
    &&& bytes[0] == 0x7f
    &&& bytes[1] == 0x45
    &&& bytes[2] == 0x4c
    &&& bytes[3] == 0x46
    &&& (bytes[4] == 1 || bytes[4] == 2)
}

/// The entry point that the parser reads from the header of the image.
pub uninterp spec fn elf_entry(bytes: Seq<u8>) -> u64;

/// The number of program headers that the parser reads from the header.
pub uninterp spec fn elf_ph_count(bytes: Seq<u8>) -> u16;

/// The file offset of the program headers that the parser reads from the
/// header.
pub uninterp spec fn elf_ph_offset(bytes: Seq<u8>) -> u64;

/// The size of one program header that the parser reads from the header.
pub uninterp spec fn elf_ph_entry_size(bytes: Seq<u8>) -> u16;

/// What the parser reads of program header `index`.
pub uninterp spec fn elf_segment(bytes: Seq<u8>, index: u16) -> Option<ProgramSegment>;

/// The image has program headers that the parser hands out.
pub open spec fn elf_has_headers(bytes: Seq<u8>) -> bool {
    elf_ph_offset(bytes) > 0 && elf_ph_entry_size(bytes) > 0
}

/// The table of program headers lies within the image, each header at an
/// address that is a multiple of 8 from the start of the image and as large
/// as its class asks for.
pub open spec fn elf_headers_in_bounds(bytes: Seq<u8>) -> bool {
    elf_ph_count(bytes) > 0 ==> {
        &&& elf_ph_offset(bytes) > 0
        &&& elf_ph_entry_size(bytes) >= (if bytes[4] == 2 {
            56int
        } else {
            32int
        })
        &&& elf_ph_offset(bytes) % 8 == 0
        &&& elf_ph_entry_size(bytes) % 8 == 0
        &&& elf_ph_offset(bytes) + elf_ph_count(bytes) * elf_ph_entry_size(bytes) <= bytes.len()
    }
}

/// The segments to load among the first `n` program headers of the image, in
/// the order of the headers.
pub open spec fn elf_loads_upto(bytes: Seq<u8>, n: int) -> Seq<ProgramSegment>
    decreases n,
{
    if n <= 0 {
        Seq::empty()
    } else {
        match elf_segment(bytes, (n - 1) as u16) {
            Some(s) => if s.load {
                elf_loads_upto(bytes, n - 1).push(s)
            } else {
                elf_loads_upto(bytes, n - 1)
            },
            None => elf_loads_upto(bytes, n - 1),
        }
    }
}

/// The segments of the image to load.
pub open spec fn elf_loads(bytes: Seq<u8>) -> Seq<ProgramSegment> {
    elf_loads_upto(bytes, elf_ph_count(bytes) as int)
}

/// Why the image cannot be loaded with `available` frames at hand, or `None`
/// where it can.
pub open spec fn elf_refusal(bytes: Seq<u8>, available: int) -> Option<ElfError> {
    if bytes.len() < 64 || !elf_header_accepted(bytes) {
        Some(ElfError::NotElf)
    } else if !elf_headers_in_bounds(bytes) {
        Some(ElfError::BadProgramHeaders)
    } else if !loadable(elf_loads(bytes), bytes.len() as int) {
        Some(ElfError::BadSegment)
    } else if available < load_cost(elf_loads(bytes)) {
        Some(ElfError::OutOfFrames)
    } else {
        None
    }
}

/// Calls `xmas_elf::ElfFile::new` on a copy of the image and says whether it
/// returned `Ok`: for an image of 64 bytes or more it does so exactly where
/// the image starts with the magic number and names class 1 or 2. The parser
/// reads headers in place and asserts that they lie at multiples of 8, which
/// a buffer of its own from the allocator gives it.
#[verifier::external_body]
fn header_accepted(bytes: &[u8]) -> (r: bool)
    requires
        bytes@.len() >= 64,
    ensures
        r == elf_header_accepted(bytes@),
{
    xmas_elf::ElfFile::new(&bytes.to_vec()).is_ok()
}

/// Calls `entry_point` on the second part of the header that
/// `xmas_elf::ElfFile::new` returns for a copy of the image; the result
/// depends on the image alone.
#[verifier::external_body]
fn entry_point(bytes: &[u8]) -> (r: u64)
    requires
        bytes@.len() >= 64,
        elf_header_accepted(bytes@),
    ensures
        r == elf_entry(bytes@),
{
    xmas_elf::ElfFile::new(&bytes.to_vec()).unwrap().header.pt2.entry_point()
}

/// Calls `ph_count` on the second part of the header that
/// `xmas_elf::ElfFile::new` returns for a copy of the image; the result
/// depends on the image alone.
#[verifier::external_body]
fn ph_count(bytes: &[u8]) -> (r: u16)
    requires
        bytes@.len() >= 64,
        elf_header_accepted(bytes@),
    ensures
        r == elf_ph_count(bytes@),
{
    xmas_elf::ElfFile::new(&bytes.to_vec()).unwrap().header.pt2.ph_count()
}

/// Calls `ph_offset` on the second part of the header that
/// `xmas_elf::ElfFile::new` returns for a copy of the image; the result
/// depends on the image alone.
#[verifier::external_body]
fn ph_offset(bytes: &[u8]) -> (r: u64)
    requires
        bytes@.len() >= 64,
        elf_header_accepted(bytes@),
    ensures
        r == elf_ph_offset(bytes@),
{
    xmas_elf::ElfFile::new(&bytes.to_vec()).unwrap().header.pt2.ph_offset()
}

/// Calls `ph_entry_size` on the second part of the header that
/// `xmas_elf::ElfFile::new` returns for a copy of the image; the result
/// depends on the image alone.
#[verifier::external_body]
fn ph_entry_size(bytes: &[u8]) -> (r: u16)
    requires
        bytes@.len() >= 64,
        elf_header_accepted(bytes@),
    ensures
        r == elf_ph_entry_size(bytes@),
{
    xmas_elf::ElfFile::new(&bytes.to_vec()).unwrap().header.pt2.ph_entry_size()
}

/// Calls `xmas_elf::ElfFile::program_header` on a copy of the image and
/// copies out what the loader reads of the header: whether its type is
/// `Load`, its addresses and sizes, and its three permission flags. A header
/// whose type the parser does not know counts as one that is not to be
/// loaded. The call returns a header exactly for an index below the count
/// where offset and entry size are not zero; what the header holds depends on
/// the image and the index alone. The table must lie within the image: the
/// call reads it in place.
#[verifier::external_body]
fn program_segment(bytes: &[u8], index: u16) -> (r: Option<ProgramSegment>)
    requires
        bytes@.len() >= 64,
        elf_header_accepted(bytes@),
        elf_headers_in_bounds(bytes@),
    ensures
        r == elf_segment(bytes@, index),
        r.is_some() == (elf_has_headers(bytes@) && index < elf_ph_count(bytes@)),
{
    match xmas_elf::ElfFile::new(&bytes.to_vec()).unwrap().program_header(index) {
        Ok(ph) => Some(
            ProgramSegment {
                load: ph.get_type() == Ok(xmas_elf::program::Type::Load),
                vaddr: ph.virtual_addr(),
                mem_size: ph.mem_size(),
                file_size: ph.file_size(),
                offset: ph.offset(),
                readable: ph.flags().is_read(),
                writable: ph.flags().is_write(),
                executable: ph.flags().is_execute(),
            },
        ),
        Err(_) => None,
    }
}

/// Whether the table of program headers lies within the image in the shape
/// that the class of the image asks for.
fn headers_in_bounds(bytes: &[u8]) -> (r: bool)
    requires
        bytes@.len() >= 64,
        elf_header_accepted(bytes@),
    ensures
        r == elf_headers_in_bounds(bytes@),
{
    let count = ph_count(bytes);
    if count == 0 {
        return true;
    }
    let off = ph_offset(bytes);
    let size = ph_entry_size(bytes);
    let min: u16 = if bytes[4] == 2 {
        56
    } else {
        32
    };
    if off == 0 || size < min || off % 8 != 0 || size % 8 != 0 {
        return false;
    }
    assert(count as u64 * size as u64 <= 0xffff * 0xffff) by (nonlinear_arith)
        requires
            count <= 0xffff,
            size <= 0xffff,
    ;
    let table: u64 = count as u64 * size as u64;
    let len: usize = bytes.len();
    off <= len as u64 && table <= len as u64 - off
}

/// Whether the two segments have a page in common.
fn share_page(a: &ProgramSegment, b: &ProgramSegment) -> (r: bool)
    requires
        a.vaddr + a.mem_size <= USER_LIMIT,
        b.vaddr + b.mem_size <= USER_LIMIT,
    ensures
        r == a.shares_page(b),
{
    let a_start: u64 = VirtAddr(a.vaddr).floor().0;
    let a_end: u64 = VirtAddr(a.vaddr + a.mem_size).ceil().0;
    let b_start: u64 = VirtAddr(b.vaddr).floor().0;
    let b_end: u64 = VirtAddr(b.vaddr + b.mem_size).ceil().0;
    a_start < a_end && b_start < b_end && a_start < b_end && b_start < a_end
}

/// Whether the segments can be loaded from a file of `file_len` bytes.
pub fn check_segments(loads: &Vec<ProgramSegment>, file_len: usize) -> (r: bool)
    ensures
        r == loadable(loads@, file_len as int),
{
    let n: usize = loads.len();
    let mut max_end: u64 = 0;
    let mut i: usize = 0;
    while i < n
        invariant
            i <= n,
            n == loads@.len(),
            forall|j: int| 0 <= j < i ==> (#[trigger] loads@[j]).fits(file_len as int),
            forall|a: int, b: int|
                #![trigger loads@[a], loads@[b]]
                0 <= a < b < i ==> !loads@[a].shares_page(&loads@[b]),
            max_end == loads_end(loads@.subrange(0, i as int)),
            max_end * 4096 <= USER_LIMIT,
        decreases n - i,
    {
        let seg = loads[i];
        if seg.offset > file_len as u64 || seg.file_size > file_len as u64 - seg.offset {
            assert(!loads@[i as int].fits(file_len as int));
            return false;
        }
        if seg.vaddr > USER_LIMIT || seg.mem_size > USER_LIMIT - seg.vaddr {
            assert(!loads@[i as int].fits(file_len as int));
            return false;
        }
        let start_vpn: u64 = VirtAddr(seg.vaddr).floor().0;
        let end_vpn: u64 = VirtAddr(seg.vaddr + seg.mem_size).ceil().0;
        if seg.file_size > (end_vpn - start_vpn) * 4096 - seg.vaddr % 4096 {
            assert(!loads@[i as int].fits(file_len as int));
            return false;
        }
        let mut j: usize = 0;
        while j < i
            invariant
                j <= i,
                i < n,
                n == loads@.len(),
                seg == loads@[i as int],
                seg.vaddr + seg.mem_size <= USER_LIMIT,
                forall|a: int| 0 <= a < i ==> (#[trigger] loads@[a]).fits(file_len as int),
                forall|a: int| 0 <= a < j ==> !(#[trigger] loads@[a]).shares_page(&loads@[i as int]),
            decreases i - j,
        {
            proof {
                assert(loads@[j as int].fits(file_len as int));
            }
            if share_page(&loads[j], &seg) {
                assert(loads@[j as int].shares_page(&loads@[i as int]));
                return false;
            }
            j = j + 1;
        }
        proof {
            lemma_loads_end_step(loads@, i as int);
        }
        if end_vpn > max_end {
            max_end = end_vpn;
        }
        i = i + 1;
    }
    proof {
        assert(loads@.subrange(0, n as int) =~= loads@);
    }
    (max_end + 2) * 4096 <= USER_LIMIT
}

/// Most frames that building a user address space of these segments can take.
fn load_cost_of(loads: &Vec<ProgramSegment>, Ghost(file_len): Ghost<int>) -> (r: u128)
    requires
        loadable(loads@, file_len),
    ensures
        r == load_cost(loads@),
        r <= 9 + usize::MAX * 0x1000_0000,
{
    let mut total: u128 = 0;
    let mut i: usize = loads.len();
    proof {
        lemma_loads_cost(loads@, i as int);
    }
    while i > 0
        invariant
            i <= loads@.len(),
            loadable(loads@, file_len),
            total == loads_cost(loads@, i as int),
            loads@.len() <= usize::MAX,
            total <= (loads@.len() - i) * 0x1000_0000,
        decreases i,
    {
        i = i - 1;
        let seg = loads[i];
        proof {
            lemma_loads_cost(loads@, i as int);
            assert(loads@[i as int].fits(file_len));
        }
        let start_vpn: u64 = VirtAddr(seg.vaddr).floor().0;
        let end_vpn: u64 = VirtAddr(seg.vaddr + seg.mem_size).ceil().0;
        let c = map_cost_of(start_vpn, end_vpn, MapType::Framed);
        total = total + c as u128;
    }
    total + 9
}

/// Most frames that building a user address space of these segments can
/// take, or `None` where the segments cannot be loaded from any file.
pub fn load_cost_of_segments(loads: &Vec<ProgramSegment>) -> (r: Option<u64>)
    ensures
        match r {
            Some(c) => c == load_cost(loads@) && exists|len: int| loadable(loads@, len),
            None => !loadable(loads@, usize::MAX as int) || load_cost(loads@) > u64::MAX,
        },
{
    if check_segments(loads, usize::MAX) {
        let cost = load_cost_of(loads, Ghost(usize::MAX as int));
        if cost <= u64::MAX as u128 {
            Some(cost as u64)
        } else {
            None
        }
    } else {
        None
    }
}

/// The segments of the image to load, in the order of their headers.
fn collect_loads(elf_data: &[u8]) -> (loads: Vec<ProgramSegment>)
    requires
        elf_data@.len() >= 64,
        elf_header_accepted(elf_data@),
        elf_headers_in_bounds(elf_data@),
    ensures
        loads@ == elf_loads(elf_data@),
{
    let count = ph_count(elf_data);
    let mut loads: Vec<ProgramSegment> = Vec::new();
    let mut i: u16 = 0;
    while i < count
        invariant
            i <= count,
            count == elf_ph_count(elf_data@),
            elf_data@.len() >= 64,
            elf_header_accepted(elf_data@),
            elf_headers_in_bounds(elf_data@),
            loads@ == elf_loads_upto(elf_data@, i as int),
        decreases count - i,
    {
        match program_segment(elf_data, i) {
            Some(seg) => {
                if seg.load {
                    loads.push(seg);
                }
            },
            None => {},
        }
        i = i + 1;
    }
    loads
}

impl MemorySet {
    /// The address space of the program in the ELF image `elf_data`, the top
    /// of its user stack and its entry point.
    ///
    /// The image is refused where it is no ELF file, where its program
    /// headers or its segments do not fit, and where the allocator holds
    /// fewer frames than loading can take; the allocator is then as before.
    pub fn from_elf(allocator: &mut StackFrameAllocator, elf_data: &[u8], strampoline: PhysAddr) -> (r: Result<
        (MemorySet, u64, u64),
        ElfError,
    >)
        requires
            old(allocator).wf(),
            strampoline.page_offset() == 0,
        ensures
            final(allocator).wf(),
            elf_outcome(r, elf_data@, old(allocator)@, final(allocator)@, strampoline, 0),
    {
        MemorySet::from_elf_reserving(allocator, elf_data, strampoline, 0)
    }

    /// As `from_elf`, but the image is also refused where loading it could
    /// leave fewer than `reserve` frames in the allocator.
    pub fn from_elf_reserving(
        allocator: &mut StackFrameAllocator,
        elf_data: &[u8],
        strampoline: PhysAddr,
        reserve: u64,
    ) -> (r: Result<(MemorySet, u64, u64), ElfError>)
        requires
            old(allocator).wf(),
            strampoline.page_offset() == 0,
        ensures
            final(allocator).wf(),
            elf_outcome(r, elf_data@, old(allocator)@, final(allocator)@, strampoline, reserve),
    {
        if elf_data.len() < 64 {
            return Err(ElfError::NotElf);
        }
        if !header_accepted(elf_data) {
            return Err(ElfError::NotElf);
        }
        if !headers_in_bounds(elf_data) {
            return Err(ElfError::BadProgramHeaders);
        }
        let loads = collect_loads(elf_data);
        if !check_segments(&loads, elf_data.len()) {
            return Err(ElfError::BadSegment);
        }
        let cost = load_cost_of(&loads, Ghost(elf_data@.len() as int));
        if !allocator.has_available_wide(cost + reserve as u128) {
            return Err(ElfError::OutOfFrames);
        }
        let entry = entry_point(elf_data);
        Ok(MemorySet::from_segments(allocator, &loads, entry, elf_data, strampoline))
    }
}

/// What loading the image `bytes` gives with `reserve` frames to be left
/// over: the address space of its segments on fresh frames, the top of the
/// user stack and the entry point, or the reason why the image is refused,
/// the allocator then being as before.
pub open spec fn elf_outcome(
    r: Result<(MemorySet, u64, u64), ElfError>,
    bytes: Seq<u8>,
    before: FrameAllocState,
    after: FrameAllocState,
    strampoline: PhysAddr,
    reserve: u64,
) -> bool {
    match r {
        Ok((ms, sp, entry)) => {
            &&& elf_refusal(bytes, before.available() - reserve) is None
            &&& ms.wf()
            &&& ms.spec_trampoline() == Some(strampoline.floor())
            &&& loaded(ms, sp, elf_loads(bytes), bytes)
            &&& entry == elf_entry(bytes)
            &&& ms.only_areas_mapped()
            &&& ms.ppns().disjoint(before.allocated())
            &&& all_fresh(ms, before)
            &&& after.available() >= before.available() - load_cost(elf_loads(bytes))
            &&& handover(before, after, Set::<u64>::empty(), ms.ppns())
        },
        Err(e) => elf_refusal(bytes, before.available() - reserve) == Some(e) && after == before,
    }
}

/// The byte at address `vaddr + k` of a loaded segment is the byte of the
/// file at `offset + k` where the segment has one, and zero up to the
/// segment's size in memory.
pub proof fn lemma_segment_bytes(ms: MemorySet, i: int, seg: ProgramSegment, file: Seq<u8>, k: int)
    requires
        ms.wf(),
        0 <= i < ms.spec_areas().len(),
        area_holds(ms.spec_areas()[i], seg, file),
        seg.vaddr + seg.mem_size <= USER_LIMIT,
        0 <= k < seg.mem_size,
    ensures
        ms.spec_byte((seg.vaddr + k) as u64) == Some(seg.memory_byte(file, k)),
        ms.spec_byte((seg.vaddr + k) as u64) == Some(
            if k < seg.file_size {
                file[seg.offset + k]
            } else {
                0u8
            },
        ),
{
    let va = (seg.vaddr + k) as u64;
    let vpn = va / 4096;
    let a = ms.spec_areas()[i];
    let at = seg.skew() + k;
    assert(vpn == seg.start_vpn() + at / 4096);
    assert(va % 4096 == at % 4096);
    assert(a.contains(vpn));
    ms.lemma_area_of(vpn, i);
    assert(ms.area_ok(i));
    assert(a.page_mapped(&ms.spec_page_table(), vpn));
    assert(a.area_byte(at) == seg.image_byte(file, at));
}

} // verus!
