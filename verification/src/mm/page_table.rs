//! SV39 page tables: entries, flags and the three-level walk.

use vstd::prelude::*;
use super::address::{vpn_indices, PhysPageNum, VirtPageNum, PPN_LIMIT, VPN_LIMIT};
use super::address::lemma_indices_injective;
use super::frame_allocator::{frame_alloc, FrameTracker, StackFrameAllocator};

verus! {

/// Valid: the entry is present.
pub const PTE_V: u8 = 0x01;

/// Readable.
pub const PTE_R: u8 = 0x02;

/// Writable.
pub const PTE_W: u8 = 0x04;

/// Executable.
pub const PTE_X: u8 = 0x08;

/// Accessible from user mode.
pub const PTE_U: u8 = 0x10;

/// Global.
pub const PTE_G: u8 = 0x20;

/// Accessed.
pub const PTE_A: u8 = 0x40;

/// Dirty.
pub const PTE_D: u8 = 0x80;

/// Value of the mode field of `satp` that selects SV39, in place.
pub const SATP_MODE_SV39: u64 = 0x8000_0000_0000_0000;

/// The flag bits of a page-table entry.
#[derive(Copy, Clone, Debug, PartialEq, Eq, Structural)]
pub struct PTEFlags {
    pub bits: u8,
}

impl PTEFlags {
    pub open spec fn spec_empty() -> PTEFlags {
        PTEFlags { bits: 0 }
    }

    /// No flag set.
    #[verifier::when_used_as_spec(spec_empty)]
    pub fn empty() -> (r: PTEFlags)
        ensures
            r == PTEFlags::empty(),
    {
        PTEFlags { bits: 0 }
    }

    /// The flags with the given bits; every bit names a flag, so this always
    /// succeeds.
    pub fn from_bits(bits: u8) -> (r: Option<PTEFlags>)
        ensures
            r == Some(PTEFlags { bits }),
    {
        Some(PTEFlags { bits })
    }

    pub open spec fn spec_union(self, other: PTEFlags) -> PTEFlags {
        PTEFlags { bits: self.bits | other.bits }
    }

    /// The flags set in either.
    #[verifier::when_used_as_spec(spec_union)]
    pub fn union(self, other: PTEFlags) -> (r: PTEFlags)
        ensures
            r == self.union(other),
    {
        PTEFlags { bits: self.bits | other.bits }
    }

    pub open spec fn spec_intersection(self, other: PTEFlags) -> PTEFlags {
        PTEFlags { bits: self.bits & other.bits }
    }

    /// The flags set in both.
    #[verifier::when_used_as_spec(spec_intersection)]
    pub fn intersection(self, other: PTEFlags) -> (r: PTEFlags)
        ensures
            r == self.intersection(other),
    {
        PTEFlags { bits: self.bits & other.bits }
    }

    pub open spec fn spec_contains(self, other: PTEFlags) -> bool {
        self.bits & other.bits == other.bits
    }

    /// Every flag of `other` is set in `self`.
    #[verifier::when_used_as_spec(spec_contains)]
    pub fn contains(self, other: PTEFlags) -> (r: bool)
        ensures
            r == self.contains(other),
    {
        self.bits & other.bits == other.bits
    }

    pub open spec fn spec_is_empty(self) -> bool {
        self.bits == 0
    }

    #[verifier::when_used_as_spec(spec_is_empty)]
    pub fn is_empty(self) -> (r: bool)
        ensures
            r == self.is_empty(),
    {
        self.bits == 0
    }
}

/// One 64-bit page-table entry: flags in bits 7..0, page number in bits
/// 53..10.
#[derive(Copy, Clone, Debug, PartialEq, Eq, Structural)]
pub struct PageTableEntry {
    pub bits: u64,
}

impl PageTableEntry {
    pub open spec fn spec_new(ppn: PhysPageNum, flags: PTEFlags) -> PageTableEntry {
        PageTableEntry { bits: ((ppn.0 % 0x40_0000_0000_0000) * 1024 + flags.bits) as u64 }
    }

    /// The entry that points at `ppn` with `flags`.
    #[verifier::when_used_as_spec(spec_new)]
    pub fn new(ppn: PhysPageNum, flags: PTEFlags) -> (r: PageTableEntry)
        ensures
            r == PageTableEntry::new(ppn, flags),
    {
        PageTableEntry { bits: (ppn.0 % 0x40_0000_0000_0000) * 1024 + flags.bits as u64 }
    }

    pub open spec fn spec_ppn(&self) -> PhysPageNum {
        PhysPageNum(((self.bits / 1024) % PPN_LIMIT) as u64)
    }

    /// The page number that the entry points at.
    #[verifier::when_used_as_spec(spec_ppn)]
    pub fn ppn(&self) -> (r: PhysPageNum)
        ensures
            r == self.ppn(),
            r.0 < PPN_LIMIT,
    {
        PhysPageNum((self.bits / 1024) % PPN_LIMIT)
    }

    pub open spec fn spec_flags(&self) -> PTEFlags {
        PTEFlags { bits: (self.bits % 256) as u8 }
    }

    /// The entry's flags.
    #[verifier::when_used_as_spec(spec_flags)]
    pub fn flags(&self) -> (r: PTEFlags)
        ensures
            r == self.flags(),
    {
        PTEFlags { bits: (self.bits % 256) as u8 }
    }

    pub open spec fn spec_empty() -> PageTableEntry {
        PageTableEntry { bits: 0 }
    }

    /// The absent entry.
    #[verifier::when_used_as_spec(spec_empty)]
    pub fn empty() -> (r: PageTableEntry)
        ensures
            r == PageTableEntry::empty(),
    {
        PageTableEntry { bits: 0 }
    }

    pub open spec fn spec_is_valid(&self) -> bool {
        self.flags().bits & PTE_V != 0
    }

    /// The entry is present.
    #[verifier::when_used_as_spec(spec_is_valid)]
    pub fn is_valid(&self) -> (r: bool)
        ensures
            r == self.is_valid(),
    {
        self.flags().bits & PTE_V != 0
    }

    pub open spec fn spec_readable(&self) -> bool {
        self.flags().bits & PTE_R != 0
    }

    #[verifier::when_used_as_spec(spec_readable)]
    pub fn readable(&self) -> (r: bool)
        ensures
            r == self.readable(),
    {
        self.flags().bits & PTE_R != 0
    }

    pub open spec fn spec_writable(&self) -> bool {
        self.flags().bits & PTE_W != 0
    }

    #[verifier::when_used_as_spec(spec_writable)]
    pub fn writable(&self) -> (r: bool)
        ensures
            r == self.writable(),
    {
        self.flags().bits & PTE_W != 0
    }

    pub open spec fn spec_executable(&self) -> bool {
        self.flags().bits & PTE_X != 0
    }

    #[verifier::when_used_as_spec(spec_executable)]
    pub fn executable(&self) -> (r: bool)
        ensures
            r == self.executable(),
    {
        self.flags().bits & PTE_X != 0
    }
}

/// An entry gives back the page number and the flags it was made of.
pub proof fn lemma_pte_round_trip(ppn: PhysPageNum, flags: PTEFlags)
    requires
        ppn.0 < PPN_LIMIT,
    ensures
        PageTableEntry::new(ppn, flags).ppn() == ppn,
        PageTableEntry::new(ppn, flags).flags() == flags,
{
}

/// An entry made with the valid flag is present; the absent entry is not.
pub proof fn lemma_pte_valid(ppn: PhysPageNum, flags: PTEFlags)
    ensures
        PageTableEntry::new(ppn, flags.union(PTEFlags { bits: PTE_V })).is_valid(),
        PageTableEntry::new(ppn, flags).is_valid() == (flags.bits & PTE_V != 0),
        !PageTableEntry::empty().is_valid(),
{
    let b = flags.bits;
    assert((b | 1u8) & 1u8 != 0) by (bit_vector);
    assert(0u8 & 1u8 == 0) by (bit_vector);
    assert(PageTableEntry::new(ppn, flags).flags() == flags);
    assert(PageTableEntry::new(ppn, flags.union(PTEFlags { bits: PTE_V })).flags() == flags.union(
        PTEFlags { bits: PTE_V },
    ));
}

/// Where a table sits in the tree of a page table: its level (0 for the
/// root), and the table and slot whose entry points at it.
pub struct TableNode {
    pub level: int,
    pub parent: int,
    pub slot: int,
}

/// An SV39 page table: the root and every table below it, each in a frame that
/// the page table owns.
///
/// Tables of levels 0 and 1 hold pointers to tables of the next level; tables
/// of level 2 hold the leaf entries. Tables are never given back before the
/// page table itself goes.
pub struct PageTable {
    root_ppn: PhysPageNum,
    frames: Vec<FrameTracker>,
    nodes: Ghost<Seq<TableNode>>,
    links: Ghost<Map<(int, int), int>>,
}

/// The flag set that holds only the valid flag.
pub open spec fn flags_v() -> PTEFlags {
    PTEFlags { bits: PTE_V }
}

/// The index into the table of level `level` on the way to page `vpn`.
pub open spec fn idx_at(vpn: u64, level: int) -> int {
    vpn_indices(vpn as int)[level]
}

impl PageTable {
    spec fn len(&self) -> int {
        self.frames@.len() as int
    }

    spec fn entry_at(&self, k: int, idx: int) -> PageTableEntry {
        PageTableEntry { bits: self.frames@[k].words()[idx] }
    }

    spec fn child(&self, k: int, idx: int) -> Option<int> {
        if self.entry_at(k, idx).is_valid() {
            Some(self.links@[(k, idx)])
        } else {
            None
        }
    }

    spec fn l1(&self, vpn: u64) -> Option<int> {
        self.child(0, idx_at(vpn, 0))
    }

    spec fn l2(&self, vpn: u64) -> Option<int> {
        match self.l1(vpn) {
            Some(a) => self.child(a, idx_at(vpn, 1)),
            None => None,
        }
    }

    spec fn wf_frames(&self) -> bool {
        &&& self.len() >= 1
        &&& self.nodes@.len() == self.len()
        &&& self.frames@[0].ppn() == self.root_ppn
        &&& self.nodes@[0].level == 0
        &&& forall|k: int|
            0 <= k < self.len() ==> (#[trigger] self.frames@[k]).wf() && self.frames@[k].ppn().0 < PPN_LIMIT
        &&& forall|i: int, j: int|
            0 <= i < j < self.len() ==> (#[trigger] self.frames@[i]).ppn() != (#[trigger] self.frames@[j]).ppn()
    }

    spec fn wf_node(&self, c: int) -> bool {
        let n = self.nodes@[c];
        &&& 1 <= n.level <= 2
        &&& 0 <= n.parent < self.len()
        &&& self.nodes@[n.parent].level == n.level - 1
        &&& 0 <= n.slot < 512
        &&& self.entry_at(n.parent, n.slot).is_valid()
        &&& self.entry_at(n.parent, n.slot).ppn() == self.frames@[c].ppn()
        &&& self.links@[(n.parent, n.slot)] == c
    }

    spec fn wf_link(&self, k: int, idx: int) -> bool {
        (self.nodes@[k].level < 2 && self.entry_at(k, idx).is_valid()) ==> {
            let c = self.links@[(k, idx)];
            &&& 0 < c < self.len()
            &&& self.nodes@[c].parent == k
            &&& self.nodes@[c].slot == idx
        }
    }

    /// The tables form a tree of three levels below the root, each table in a
    /// frame of its own.
    pub closed spec fn wf(&self) -> bool {
        &&& self.wf_frames()
        &&& forall|c: int| 0 < c < self.len() ==> #[trigger] self.wf_node(c)
        &&& forall|k: int, idx: int| 0 <= k < self.len() && 0 <= idx < 512 ==> #[trigger] self.wf_link(k, idx)
    }

    /// The numbers of the frames that hold this page table's tables.
    pub closed spec fn ppns(&self) -> Set<u64> {
        Set::new(|p: u64| exists|k: int| 0 <= k < self.len() && (#[trigger] self.frames@[k]).ppn().0 == p)
    }

    /// The number of the root table's frame.
    pub closed spec fn spec_root(&self) -> PhysPageNum {
        self.root_ppn
    }

    /// The leaf entry for page `vpn`, present or not; `None` where a table on
    /// the way to it is missing.
    pub closed spec fn spec_find_pte(&self, vpn: u64) -> Option<PageTableEntry> {
        match self.l2(vpn) {
            Some(b) => Some(self.entry_at(b, idx_at(vpn, 2))),
            None => None,
        }
    }

    /// What the walk for page `vpn` ends in: its leaf entry if that is
    /// present, else nothing.
    pub open spec fn spec_translate(&self, vpn: u64) -> Option<PageTableEntry> {
        match self.spec_find_pte(vpn) {
            Some(e) => if e.is_valid() {
                Some(e)
            } else {
                None
            },
            None => None,
        }
    }

    /// Number of tables missing on the way to page `vpn`.
    pub closed spec fn tables_needed(&self, vpn: u64) -> int {
        if self.l1(vpn) is None {
            2
        } else if self.l2(vpn) is None {
            1
        } else {
            0
        }
    }

    /// The word for `satp` that selects this page table: mode SV39 and the root.
    pub open spec fn spec_token(&self) -> u64 {
        (SATP_MODE_SV39 + self.spec_root().0) as u64
    }

    proof fn lemma_walk(&self, vpn: u64)
        requires
            self.wf(),
            vpn < VPN_LIMIT,
        ensures
            0 <= idx_at(vpn, 0) < 512,
            0 <= idx_at(vpn, 1) < 512,
            0 <= idx_at(vpn, 2) < 512,
            match self.l1(vpn) {
                Some(a) => 0 < a < self.len() && self.nodes@[a].level == 1 && self.nodes@[a].parent == 0
                    && self.nodes@[a].slot == idx_at(vpn, 0) && self.wf_node(a),
                None => true,
            },
            match self.l2(vpn) {
                Some(b) => 0 < b < self.len() && self.nodes@[b].level == 2 && self.l1(vpn) is Some
                    && self.nodes@[b].parent == self.l1(vpn).unwrap() && self.nodes@[b].slot == idx_at(vpn, 1)
                    && self.wf_node(b),
                None => true,
            },
    {
        assert(self.wf_link(0, idx_at(vpn, 0)));
        if let Some(a) = self.l1(vpn) {
            assert(self.wf_node(a));
            assert(self.wf_link(a, idx_at(vpn, 1)));
            if let Some(b) = self.l2(vpn) {
                assert(self.wf_node(b));
            }
        }
    }

    /// Two pages whose walks end in the same slot of the same table are one
    /// page.
    proof fn lemma_leaf_unique(&self, v1: u64, v2: u64)
        requires
            self.wf(),
            v1 < VPN_LIMIT,
            v2 < VPN_LIMIT,
            self.l2(v1) is Some,
            self.l2(v1) == self.l2(v2),
            idx_at(v1, 2) == idx_at(v2, 2),
        ensures
            v1 == v2,
    {
        self.lemma_walk(v1);
        self.lemma_walk(v2);
        assert(vpn_indices(v1 as int) =~= vpn_indices(v2 as int));
        lemma_indices_injective(v1 as int, v2 as int);
    }

    /// A page with a translation needs no further table.
    pub proof fn lemma_translate_tables(&self, vpn: u64)
        ensures
            0 <= self.tables_needed(vpn) <= 2,
            self.spec_find_pte(vpn) is Some <==> self.tables_needed(vpn) == 0,
            self.spec_translate(vpn) is Some ==> self.tables_needed(vpn) == 0,
    {
    }

    /// Pages that share their level-2 table need the same tables.
    pub proof fn lemma_same_table(&self, v1: u64, v2: u64)
        requires
            v1 / 512 == v2 / 512,
        ensures
            self.tables_needed(v1) == self.tables_needed(v2),
    {
        assert(idx_at(v1, 0) == idx_at(v2, 0));
        assert(idx_at(v1, 1) == idx_at(v2, 1));
    }

    /// Pages that share their level-1 table lack it together.
    pub proof fn lemma_same_l1_table(&self, v1: u64, v2: u64)
        requires
            v1 / 262144 == v2 / 262144,
        ensures
            self.tables_needed(v1) == 2 <==> self.tables_needed(v2) == 2,
    {
        assert(idx_at(v1, 0) == idx_at(v2, 0));
    }

    /// `self` is `old` with one more table, cleared, hung into slot `idx` of
    /// table `k`, which was empty.
    spec fn added_child(&self, old: &PageTable, k: int, idx: int) -> bool {
        let n = old.len();
        &&& 0 <= k < n
        &&& 0 <= idx < 512
        &&& old.nodes@[k].level < 2
        &&& !old.entry_at(k, idx).is_valid()
        &&& self.root_ppn == old.root_ppn
        &&& self.len() == n + 1
        &&& forall|j: int| 0 <= j < n && j != k ==> #[trigger] self.frames@[j] == old.frames@[j]
        &&& self.frames@[k].ppn() == old.frames@[k].ppn()
        &&& self.frames@[k].words() == old.frames@[k].words().update(
            idx,
            PageTableEntry::new(self.frames@[n].ppn(), flags_v()).bits,
        )
        &&& self.frames@[n].wf()
        &&& self.frames@[n].is_zeroed()
        &&& self.frames@[n].ppn().0 < PPN_LIMIT
        &&& forall|j: int| 0 <= j < n ==> (#[trigger] old.frames@[j]).ppn() != self.frames@[n].ppn()
        &&& self.nodes@ == old.nodes@.push(TableNode { level: old.nodes@[k].level + 1, parent: k, slot: idx })
        &&& self.links@ == old.links@.insert((k, idx), n)
    }

    proof fn lemma_added_child_entries(&self, old: &PageTable, k: int, idx: int, j: int, i: int)
        requires
            old.wf(),
            self.added_child(old, k, idx),
            0 <= j <= old.len(),
            0 <= i < 512,
        ensures
            j < old.len() && (j != k || i != idx) ==> self.entry_at(j, i) == old.entry_at(j, i) && self.links@[(j, i)]
                == old.links@[(j, i)],
            j == k && i == idx ==> self.entry_at(j, i).is_valid() && self.entry_at(j, i).ppn() == self.frames@[old.len()].ppn()
                && self.links@[(j, i)] == old.len(),
            j == old.len() ==> !self.entry_at(j, i).is_valid(),
    {
        let n = old.len();
        lemma_pte_valid(self.frames@[n].ppn(), PTEFlags::empty());
        lemma_pte_round_trip(self.frames@[n].ppn(), flags_v());
        assert(PTEFlags::empty().union(flags_v()) == flags_v()) by {
            assert(0u8 | 1u8 == 1u8) by (bit_vector);
        }
        if j < n && j != k {
            assert(self.frames@[j] == old.frames@[j]);
        }
        if j == n {
            assert(self.entry_at(j, i) == PageTableEntry::empty());
        }
    }

    proof fn lemma_added_child_wf(&self, old: &PageTable, k: int, idx: int)
        requires
            old.wf(),
            self.added_child(old, k, idx),
        ensures
            self.wf(),
    {
        let n = old.len();
        assert forall|j: int| 0 <= j < self.len() implies (#[trigger] self.frames@[j]).wf() && self.frames@[j].ppn().0
            < PPN_LIMIT by {
            if j < n {
                assert(old.frames@[j].wf());
                if j != k {
                    assert(self.frames@[j] == old.frames@[j]);
                }
            }
        }
        assert forall|i: int, j: int| 0 <= i < j < self.len() implies (#[trigger] self.frames@[i]).ppn() != (
        #[trigger] self.frames@[j]).ppn() by {
            if i != k {
                assert(self.frames@[i] == old.frames@[i]);
            }
            if j < n {
                if j != k {
                    assert(self.frames@[j] == old.frames@[j]);
                }
                assert(old.frames@[i].ppn() != old.frames@[j].ppn());
            } else {
                assert(old.frames@[i].ppn() != self.frames@[n].ppn());
            }
        }
        if k != 0 {
            assert(self.frames@[0] == old.frames@[0]);
        }
        assert(self.wf_frames());
        assert forall|c: int| 0 < c < self.len() implies #[trigger] self.wf_node(c) by {
            if c < n {
                assert(old.wf_node(c));
                let nd = old.nodes@[c];
                self.lemma_added_child_entries(old, k, idx, nd.parent, nd.slot);
                if c != k {
                    assert(self.frames@[c] == old.frames@[c]);
                }
            } else {
                self.lemma_added_child_entries(old, k, idx, k, idx);
                if k > 0 {
                    assert(old.wf_node(k));
                }
            }
        }
        assert forall|j: int, i: int| 0 <= j < self.len() && 0 <= i < 512 implies #[trigger] self.wf_link(j, i) by {
            self.lemma_added_child_entries(old, k, idx, j, i);
            if j < n {
                assert(old.wf_link(j, i));
            }
        }
    }

    proof fn lemma_added_child_walk(&self, old: &PageTable, k: int, idx: int, v: u64)
        requires
            old.wf(),
            self.added_child(old, k, idx),
            v < VPN_LIMIT,
        ensures
            old.l1(v) is Some ==> self.l1(v) == old.l1(v),
            old.l1(v) is None ==> (self.l1(v) == if k == 0 && idx == idx_at(v, 0) {
                Some(old.len())
            } else {
                None
            }),
            old.l2(v) is Some ==> self.l2(v) == old.l2(v),
            old.l2(v) is None ==> (self.l2(v) == if old.l1(v) == Some(k) && idx == idx_at(v, 1) {
                Some(old.len())
            } else {
                None
            }),
            old.spec_find_pte(v) is Some ==> self.spec_find_pte(v) == old.spec_find_pte(v),
            self.spec_translate(v) == old.spec_translate(v),
            self.tables_needed(v) <= old.tables_needed(v),
    {
        let n = old.len();
        old.lemma_walk(v);
        self.lemma_added_child_entries(old, k, idx, 0, idx_at(v, 0));
        match old.l1(v) {
            Some(a) => {
                self.lemma_added_child_entries(old, k, idx, a, idx_at(v, 1));
                match old.l2(v) {
                    Some(b) => {
                        self.lemma_added_child_entries(old, k, idx, b, idx_at(v, 2));
                    },
                    None => {
                        self.lemma_added_child_entries(old, k, idx, n, idx_at(v, 2));
                    },
                }
            },
            None => {
                self.lemma_added_child_entries(old, k, idx, n, idx_at(v, 1));
            },
        }
    }

    proof fn lemma_added_child_ppns(&self, old: &PageTable, k: int, idx: int)
        requires
            old.wf(),
            self.added_child(old, k, idx),
        ensures
            self.ppns() == old.ppns().insert(self.frames@[old.len()].ppn().0),
            !old.ppns().contains(self.frames@[old.len()].ppn().0),
    {
        let n = old.len();
        let p = self.frames@[n].ppn().0;
        assert forall|q: u64| self.ppns().contains(q) == (old.ppns().contains(q) || q == p) by {
            if self.ppns().contains(q) {
                let j = choose|j: int| 0 <= j < self.len() && (#[trigger] self.frames@[j]).ppn().0 == q;
                if j < n {
                    if j != k {
                        assert(self.frames@[j] == old.frames@[j]);
                    }
                    assert(old.frames@[j].ppn().0 == q);
                }
            }
            if old.ppns().contains(q) {
                let j = choose|j: int| 0 <= j < old.len() && (#[trigger] old.frames@[j]).ppn().0 == q;
                if j != k {
                    assert(self.frames@[j] == old.frames@[j]);
                }
                assert(self.frames@[j].ppn().0 == q);
            }
            if q == p {
                assert(self.frames@[n].ppn().0 == q);
            }
        }
        assert(self.ppns() =~= old.ppns().insert(p));
        if old.ppns().contains(p) {
            let j = choose|j: int| 0 <= j < old.len() && (#[trigger] old.frames@[j]).ppn().0 == p;
            assert(old.frames@[j].ppn() != self.frames@[n].ppn());
        }
    }

    /// The index of the table in frame `ppn`.
    fn table_index(&self, ppn: PhysPageNum, Ghost(c): Ghost<int>) -> (r: usize)
        requires
            self.wf(),
            0 <= c < self.len(),
            self.frames@[c].ppn() == ppn,
        ensures
            r == c,
    {
        let mut i: usize = 0;
        while i < self.frames.len()
            invariant
                self.wf(),
                0 <= c < self.len(),
                self.frames@[c].ppn() == ppn,
                i <= c,
            decreases self.frames.len() - i,
        {
            if self.frames[i].ppn().0 == ppn.0 {
                assert(self.frames@[i as int].ppn() == self.frames@[c].ppn());
                return i;
            }
            i = i + 1;
        }
        i
    }

    /// The table below slot `idx` of table `k`, made first if it is missing.
    fn step_create(&mut self, allocator: &mut StackFrameAllocator, k: usize, idx: usize) -> (r: usize)
        requires
            old(self).wf(),
            old(allocator).wf(),
            old(self).ppns().subset_of(old(allocator).allocated()),
            k < old(self).len(),
            idx < 512,
            old(self).nodes@[k as int].level < 2,
            old(self).child(k as int, idx as int) is None ==> old(allocator).available() >= 1,
        ensures
            final(self).wf(),
            final(allocator).wf(),
            final(allocator)@.same_range(old(allocator)@),
            final(self).child(k as int, idx as int) == Some(r as int),
            match old(self).child(k as int, idx as int) {
                Some(c) => *final(self) == *old(self) && final(allocator)@ == old(allocator)@,
                None => {
                    &&& final(self).added_child(old(self), k as int, idx as int)
                    &&& r == old(self).len()
                    &&& !old(allocator).is_allocated(final(self).frames@[r as int].ppn().0)
                    &&& final(allocator).allocated() == old(allocator).allocated().insert(
                        final(self).frames@[r as int].ppn().0,
                    )
                    &&& final(allocator).available() == old(allocator).available() - 1
                },
            },
    {
        let e = PageTableEntry { bits: self.frames[k].read_word(idx) };
        if e.is_valid() {
            proof {
                assert(self.wf_link(k as int, idx as int));
                assert(self.wf_node(self.links@[(k as int, idx as int)]));
            }
            self.table_index(e.ppn(), Ghost(self.links@[(k as int, idx as int)]))
        } else {
            let f = frame_alloc(allocator).unwrap();
            let p = f.ppn();
            let n: usize = self.frames.len();
            let pte = PageTableEntry::new(p, PTEFlags { bits: PTE_V });
            proof {
                assert forall|j: int| 0 <= j < old(self).len() implies (#[trigger] old(self).frames@[j]).ppn() != p by {
                    assert(old(self).ppns().contains(old(self).frames@[j].ppn().0));
                }
            }
            self.frames[k].write_word(idx, pte.bits);
            self.frames.push(f);
            self.nodes = Ghost(
                self.nodes@.push(
                    TableNode { level: old(self).nodes@[k as int].level + 1, parent: k as int, slot: idx as int },
                ),
            );
            self.links = Ghost(self.links@.insert((k as int, idx as int), n as int));
            proof {
                assert(self.added_child(old(self), k as int, idx as int));
                self.lemma_added_child_wf(old(self), k as int, idx as int);
                self.lemma_added_child_entries(old(self), k as int, idx as int, k as int, idx as int);
            }
            n
        }
    }

    /// A page table with a root and nothing mapped.
    pub fn new(allocator: &mut StackFrameAllocator) -> (r: Self)
        requires
            old(allocator).wf(),
            old(allocator).available() >= 1,
        ensures
            r.wf(),
            final(allocator).wf(),
            final(allocator)@.same_range(old(allocator)@),
            old(allocator)@.next() == Some(r.spec_root().0),
            r.ppns() == set![r.spec_root().0],
            !old(allocator).is_allocated(r.spec_root().0),
            final(allocator).allocated() == old(allocator).allocated().insert(r.spec_root().0),
            final(allocator).available() == old(allocator).available() - 1,
            forall|v: u64| (#[trigger] r.spec_find_pte(v)) is None,
            forall|v: u64| #[trigger] r.tables_needed(v) == 2,
    {
        let frame = frame_alloc(allocator).unwrap();
        let root_ppn = frame.ppn();
        let mut frames: Vec<FrameTracker> = Vec::new();
        frames.push(frame);
        let ghost nodes = Seq::<TableNode>::empty().push(TableNode { level: 0, parent: 0, slot: 0 });
        let ghost links = Map::<(int, int), int>::empty();
        let r = PageTable { root_ppn, frames, nodes: Ghost(nodes), links: Ghost(links) };
        proof {
            lemma_pte_valid(root_ppn, PTEFlags::empty());
            assert forall|k: int, idx: int| 0 <= k < r.len() && 0 <= idx < 512 implies #[trigger] r.wf_link(k, idx) by {
                assert(r.entry_at(k, idx) == PageTableEntry::empty());
            }
            assert(r.frames@[0].ppn().0 == root_ppn.0);
            assert(r.ppns() =~= set![root_ppn.0]);
            assert forall|v: u64|
                #![trigger r.spec_find_pte(v)]
                #![trigger r.tables_needed(v)]
                r.spec_find_pte(v) is None && r.tables_needed(v) == 2 by {
                assert(0 <= idx_at(v, 0) < 512);
                assert(r.entry_at(0, idx_at(v, 0)) == PageTableEntry::empty());
            }
        }
        r
    }

    /// The word for `satp` that selects this page table.
    pub fn token(&self) -> (r: u64)
        requires
            self.wf(),
        ensures
            r == self.spec_token(),
    {
        assert(self.frames@[0].ppn().0 < PPN_LIMIT);
        SATP_MODE_SV39 + self.root_ppn.0
    }

    /// `self` still has every table that `old` had, under the same root.
    pub open spec fn extends(&self, old: &PageTable) -> bool {
        &&& self.spec_root() == old.spec_root()
        &&& old.ppns().subset_of(self.ppns())
        &&& forall|v: u64| v < VPN_LIMIT ==> #[trigger] self.tables_needed(v) <= old.tables_needed(v)
        &&& forall|v: u64|
            v < VPN_LIMIT && old.spec_find_pte(v) is Some ==> #[trigger] self.spec_find_pte(v) is Some
    }

    /// The leaf entry for page `vpn`, after making the tables on the way to
    /// it that are missing. No translation changes.
    pub fn find_pte_create(&mut self, allocator: &mut StackFrameAllocator, vpn: VirtPageNum) -> (r: PageTableEntry)
        requires
            old(self).wf(),
            old(allocator).wf(),
            old(self).ppns().subset_of(old(allocator).allocated()),
            vpn.0 < VPN_LIMIT,
            old(allocator).available() >= old(self).tables_needed(vpn.0),
        ensures
            final(self).wf(),
            final(allocator).wf(),
            final(allocator)@.same_range(old(allocator)@),
            final(self).extends(old(self)),
            final(self).spec_find_pte(vpn.0) == Some(r),
            forall|v: u64|
                v < VPN_LIMIT && old(self).spec_find_pte(v) is Some ==> #[trigger] final(self).spec_find_pte(v) == old(
                    self,
                ).spec_find_pte(v),
            forall|v: u64|
                v < VPN_LIMIT && old(self).spec_find_pte(v) is None ==> #[trigger] final(self).spec_translate(v) is None,
            final(allocator).available() == old(allocator).available() - old(self).tables_needed(vpn.0),
            final(self).ppns().subset_of(final(allocator).allocated()),
            final(allocator).allocated().difference(final(self).ppns()) == old(allocator).allocated().difference(
                old(self).ppns(),
            ),
    {
        let idxs = vpn.cut_into_three_parts();
        proof {
            self.lemma_walk(vpn.0);
        }
        let a = self.step_create(allocator, 0, idxs[0]);
        let ghost mid = *self;
        let ghost mid_alloc = allocator@;
        proof {
            if old(self).l1(vpn.0) is None {
                mid.lemma_added_child_ppns(old(self), 0, idxs[0] as int);
                mid.lemma_added_child_walk(old(self), 0, idxs[0] as int, vpn.0);
                assert forall|v: u64| v < VPN_LIMIT implies (old(self).spec_find_pte(v) is Some ==> mid.spec_find_pte(v)
                    == old(self).spec_find_pte(v)) && mid.spec_translate(v) == old(self).spec_translate(v)
                    && #[trigger] mid.tables_needed(v) <= old(self).tables_needed(v) by {
                    mid.lemma_added_child_walk(old(self), 0, idxs[0] as int, v);
                }
                assert(mid_alloc.allocated().difference(mid.ppns()) =~= old(allocator).allocated().difference(
                    old(self).ppns(),
                ));
            }
            mid.lemma_walk(vpn.0);
            assert(mid.l1(vpn.0) == Some(a as int));
        }
        let b = self.step_create(allocator, a, idxs[1]);
        proof {
            if mid.l2(vpn.0) is None {
                self.lemma_added_child_ppns(&mid, a as int, idxs[1] as int);
                self.lemma_added_child_walk(&mid, a as int, idxs[1] as int, vpn.0);
                assert forall|v: u64| v < VPN_LIMIT implies (mid.spec_find_pte(v) is Some ==> self.spec_find_pte(v)
                    == mid.spec_find_pte(v)) && self.spec_translate(v) == mid.spec_translate(v)
                    && #[trigger] self.tables_needed(v) <= mid.tables_needed(v) by {
                    self.lemma_added_child_walk(&mid, a as int, idxs[1] as int, v);
                }
                assert(allocator.allocated().difference(self.ppns()) =~= mid_alloc.allocated().difference(mid.ppns()));
            }
            self.lemma_walk(vpn.0);
            assert(self.l2(vpn.0) == Some(b as int));
            assert forall|v: u64|
                #![trigger self.spec_find_pte(v)]
                #![trigger self.tables_needed(v)]
                #![trigger self.spec_translate(v)]
                v < VPN_LIMIT implies (old(self).spec_find_pte(v) is Some ==> self.spec_find_pte(v) == old(
                self,
            ).spec_find_pte(v)) && self.spec_translate(v) == old(self).spec_translate(v) && self.tables_needed(v)
                <= old(self).tables_needed(v) by {
                if old(self).l1(vpn.0) is None {
                    mid.lemma_added_child_walk(old(self), 0, idxs[0] as int, v);
                }
                if mid.l2(vpn.0) is None {
                    self.lemma_added_child_walk(&mid, a as int, idxs[1] as int, v);
                }
            }
        }
        PageTableEntry { bits: self.frames[b].read_word(idxs[2]) }
    }

    /// The index of the level-2 table on the way to page `vpn`, if the tables
    /// on the way exist.
    fn leaf_table(&self, vpn: VirtPageNum) -> (r: Option<usize>)
        requires
            self.wf(),
            vpn.0 < VPN_LIMIT,
        ensures
            match r {
                Some(b) => self.l2(vpn.0) == Some(b as int) && b < self.len(),
                None => self.l2(vpn.0) is None,
            },
    {
        let idxs = vpn.cut_into_three_parts();
        proof {
            self.lemma_walk(vpn.0);
        }
        let e0 = PageTableEntry { bits: self.frames[0].read_word(idxs[0]) };
        if !e0.is_valid() {
            return None;
        }
        let a = self.table_index(e0.ppn(), Ghost(self.links@[(0, idxs[0] as int)]));
        let e1 = PageTableEntry { bits: self.frames[a].read_word(idxs[1]) };
        if !e1.is_valid() {
            return None;
        }
        let b = self.table_index(e1.ppn(), Ghost(self.links@[(a as int, idxs[1] as int)]));
        Some(b)
    }

    /// The leaf entry for page `vpn`, present or not, or `None` where a table
    /// on the way to it is missing.
    pub fn find_pte(&self, vpn: VirtPageNum) -> (r: Option<PageTableEntry>)
        requires
            self.wf(),
            vpn.0 < VPN_LIMIT,
        ensures
            r == self.spec_find_pte(vpn.0),
    {
        let idxs = vpn.cut_into_three_parts();
        match self.leaf_table(vpn) {
            Some(b) => Some(PageTableEntry { bits: self.frames[b].read_word(idxs[2]) }),
            None => None,
        }
    }

    /// The leaf entry for page `vpn` if it is present.
    pub fn translate(&self, vpn: VirtPageNum) -> (r: Option<PageTableEntry>)
        requires
            self.wf(),
            vpn.0 < VPN_LIMIT,
        ensures
            r == self.spec_translate(vpn.0),
    {
        match self.find_pte(vpn) {
            Some(e) => if e.is_valid() {
                Some(e)
            } else {
                None
            },
            None => None,
        }
    }

    /// Stores `pte` as the leaf entry for page `vpn`, whose tables exist.
    fn set_leaf(&mut self, vpn: VirtPageNum, pte: PageTableEntry)
        requires
            old(self).wf(),
            vpn.0 < VPN_LIMIT,
            old(self).spec_find_pte(vpn.0) is Some,
        ensures
            final(self).wf(),
            final(self).spec_root() == old(self).spec_root(),
            final(self).ppns() == old(self).ppns(),
            final(self).spec_find_pte(vpn.0) == Some(pte),
            forall|v: u64|
                v < VPN_LIMIT && v != vpn.0 ==> #[trigger] final(self).spec_find_pte(v) == old(self).spec_find_pte(v),
            forall|v: u64| #[trigger] final(self).tables_needed(v) == old(self).tables_needed(v),
    {
        let idxs = vpn.cut_into_three_parts();
        let b = self.leaf_table(vpn).unwrap();
        proof {
            self.lemma_walk(vpn.0);
        }
        self.frames[b].write_word(idxs[2], pte.bits);
        proof {
            let ghost bi = b as int;
            assert forall|k: int, i: int| 0 <= k < self.len() && 0 <= i < 512 && (k != bi || i != idxs[2]) implies self.entry_at(
                k,
                i,
            ) == old(self).entry_at(k, i) by {}
            assert forall|k: int| 0 <= k < self.len() implies (#[trigger] self.frames@[k]).ppn() == old(self).frames@[k].ppn()
                && self.frames@[k].wf() by {
                assert(old(self).frames@[k].wf());
            }
            assert(self.wf_frames());
            assert forall|c: int| 0 < c < self.len() implies #[trigger] self.wf_node(c) by {
                assert(old(self).wf_node(c));
            }
            assert forall|k: int, i: int| 0 <= k < self.len() && 0 <= i < 512 implies #[trigger] self.wf_link(k, i) by {
                assert(old(self).wf_link(k, i));
            }
            assert forall|v: u64|
                #![trigger self.spec_find_pte(v)]
                #![trigger self.tables_needed(v)]
                self.l1(v) == old(self).l1(v) && self.l2(v) == old(self).l2(v) && (v < VPN_LIMIT && v != vpn.0
                    ==> self.spec_find_pte(v) == old(self).spec_find_pte(v)) by {
                assert(0 <= idx_at(v, 0) < 512 && 0 <= idx_at(v, 1) < 512 && 0 <= idx_at(v, 2) < 512);
                assert(old(self).wf_link(0, idx_at(v, 0)));
                if let Some(a) = old(self).l1(v) {
                    assert(old(self).wf_node(a));
                    assert(old(self).wf_link(a, idx_at(v, 1)));
                    if let Some(b2) = old(self).l2(v) {
                        assert(old(self).wf_node(b2));
                        if v < VPN_LIMIT && v != vpn.0 && b2 == bi && idx_at(v, 2) == idxs[2] {
                            old(self).lemma_leaf_unique(v, vpn.0);
                        }
                    }
                }
            }
            assert forall|q: u64| self.ppns().contains(q) == old(self).ppns().contains(q) by {
                if self.ppns().contains(q) {
                    let j = choose|j: int| 0 <= j < self.len() && (#[trigger] self.frames@[j]).ppn().0 == q;
                    assert(old(self).frames@[j].ppn().0 == q);
                }
                if old(self).ppns().contains(q) {
                    let j = choose|j: int| 0 <= j < old(self).len() && (#[trigger] old(self).frames@[j]).ppn().0 == q;
                    assert(self.frames@[j].ppn().0 == q);
                }
            }
            assert(self.ppns() =~= old(self).ppns());
        }
    }

    /// Maps page `vpn` to frame `ppn` with `flags` and the valid flag.
    ///
    /// The page must not be mapped yet, and the allocator must hold a frame for
    /// each table that is missing on the way. No other translation changes.
    pub fn map(
        &mut self,
        allocator: &mut StackFrameAllocator,
        vpn: VirtPageNum,
        ppn: PhysPageNum,
        flags: PTEFlags,
    )
        requires
            old(self).wf(),
            old(allocator).wf(),
            old(self).ppns().subset_of(old(allocator).allocated()),
            vpn.0 < VPN_LIMIT,
            old(self).spec_translate(vpn.0) is None,
            old(allocator).available() >= old(self).tables_needed(vpn.0),
        ensures
            final(self).wf(),
            final(allocator).wf(),
            final(allocator)@.same_range(old(allocator)@),
            final(self).extends(old(self)),
            final(self).spec_translate(vpn.0) == Some(PageTableEntry::new(ppn, flags.union(flags_v()))),
            forall|v: u64|
                v < VPN_LIMIT && v != vpn.0 ==> #[trigger] final(self).spec_translate(v) == old(self).spec_translate(v),
            final(allocator).available() == old(allocator).available() - old(self).tables_needed(vpn.0),
            final(self).ppns().subset_of(final(allocator).allocated()),
            final(allocator).allocated().difference(final(self).ppns()) == old(allocator).allocated().difference(
                old(self).ppns(),
            ),
    {
        let _ = self.find_pte_create(allocator, vpn);
        let ghost mid = *self;
        let pte = PageTableEntry::new(ppn, flags.union(PTEFlags { bits: PTE_V }));
        self.set_leaf(vpn, pte);
        proof {
            lemma_pte_valid(ppn, flags);
            assert forall|v: u64| v < VPN_LIMIT && v != vpn.0 implies #[trigger] self.spec_translate(v) == old(
                self,
            ).spec_translate(v) by {
                assert(self.spec_find_pte(v) == mid.spec_find_pte(v));
                if old(self).spec_find_pte(v) is Some {
                    assert(mid.spec_find_pte(v) == old(self).spec_find_pte(v));
                } else {
                    assert(mid.spec_translate(v) is None);
                }
            }
            assert forall|v: u64| v < VPN_LIMIT implies #[trigger] self.tables_needed(v) <= old(self).tables_needed(
                v,
            ) by {
                assert(self.tables_needed(v) == mid.tables_needed(v));
            }
            assert forall|v: u64| v < VPN_LIMIT && old(self).spec_find_pte(v) is Some implies #[trigger] self.spec_find_pte(
                v,
            ) is Some by {
                assert(mid.spec_find_pte(v) is Some);
            }
        }
    }

    /// Removes the mapping of page `vpn`, which must be mapped. No other
    /// translation changes, and no table is given back.
    pub fn unmap(&mut self, vpn: VirtPageNum)
        requires
            old(self).wf(),
            vpn.0 < VPN_LIMIT,
            old(self).spec_translate(vpn.0) is Some,
        ensures
            final(self).wf(),
            final(self).spec_root() == old(self).spec_root(),
            final(self).ppns() == old(self).ppns(),
            final(self).spec_translate(vpn.0) is None,
            forall|v: u64|
                v < VPN_LIMIT && v != vpn.0 ==> #[trigger] final(self).spec_translate(v) == old(self).spec_translate(v),
            forall|v: u64| #[trigger] final(self).tables_needed(v) == old(self).tables_needed(v),
    {
        proof {
            lemma_pte_valid(PhysPageNum(0), PTEFlags::empty());
        }
        self.set_leaf(vpn, PageTableEntry::empty());
    }

    /// Number of frames that hold this page table's tables.
    pub closed spec fn frame_count(&self) -> int {
        self.len()
    }

    /// Word `idx` of table number `k`, the root being number 0.
    pub closed spec fn spec_table_word(&self, k: int, idx: int) -> u64 {
        self.frames@[k].words()[idx]
    }

    /// The frame of table number `k`.
    pub closed spec fn spec_table_ppn(&self, k: int) -> PhysPageNum {
        self.frames@[k].ppn()
    }

    /// Number of tables.
    pub fn table_count(&self) -> (r: usize)
        ensures
            r == self.frame_count(),
    {
        self.frames.len()
    }

    /// The frame of table number `k`.
    pub fn table_ppn(&self, k: usize) -> (r: PhysPageNum)
        requires
            self.wf(),
            k < self.frame_count(),
        ensures
            r == self.spec_table_ppn(k as int),
            self.ppns().contains(r.0),
            r.0 < PPN_LIMIT,
            k == 0 ==> r == self.spec_root(),
    {
        self.frames[k].ppn()
    }

    /// Word `idx` of table number `k`, as the hardware is to find it in the
    /// table's frame.
    pub fn table_word(&self, k: usize, idx: usize) -> (r: u64)
        requires
            self.wf(),
            k < self.frame_count(),
            idx < 512,
        ensures
            r == self.spec_table_word(k as int, idx as int),
    {
        self.frames[k].read_word(idx)
    }

    /// The root lies in a frame of the page table.
    pub proof fn lemma_root_owned(&self)
        requires
            self.wf(),
        ensures
            self.ppns().contains(self.spec_root().0),
            self.spec_root().0 < PPN_LIMIT,
    {
        assert(self.frames@[0].ppn().0 == self.root_ppn.0);
    }

    /// A page table has at least its root.
    pub proof fn lemma_frame_count(&self)
        requires
            self.wf(),
        ensures
            self.frame_count() >= 1,
    {
    }

    /// Gives every frame of the page table back to the allocator.
    pub fn release(self, allocator: &mut StackFrameAllocator)
        requires
            self.wf(),
            old(allocator).wf(),
            self.ppns().subset_of(old(allocator).allocated()),
        ensures
            final(allocator).wf(),
            final(allocator)@.same_range(old(allocator)@),
            final(allocator).allocated() == old(allocator).allocated().difference(self.ppns()),
            final(allocator).available() == old(allocator).available() + self.frame_count(),
    {
        let ghost all = self.frames@;
        let mut frames = self.frames;
        assert forall|j: int| 0 <= j < all.len() implies old(allocator).is_allocated((#[trigger] all[j]).ppn().0) by {
            assert(self.ppns().contains(all[j].ppn().0));
        }
        while frames.len() > 0
            invariant
                allocator.wf(),
                allocator@.same_range(old(allocator)@),
                frames@.len() <= all.len(),
                frames@ == all.subrange(0, frames@.len() as int),
                forall|i: int, j: int| 0 <= i < j < all.len() ==> (#[trigger] all[i]).ppn() != (#[trigger] all[j]).ppn(),
                forall|j: int| 0 <= j < frames@.len() ==> allocator.is_allocated((#[trigger] all[j]).ppn().0),
                forall|p: u64|
                    allocator.is_allocated(p) == (old(allocator).is_allocated(p) && !(exists|j: int|
                        frames@.len() <= j < all.len() && (#[trigger] all[j]).ppn().0 == p)),
                allocator.available() == old(allocator).available() + all.len() - frames@.len(),
            decreases frames@.len(),
        {
            let ghost before = allocator@;
            let ghost n = frames@.len() as int;
            let f = frames.pop().unwrap();
            assert(f == all[n - 1]);
            allocator.dealloc(f.ppn());
            proof {
                assert(frames@ =~= all.subrange(0, n - 1));
                assert forall|j: int| 0 <= j < n - 1 implies allocator.is_allocated((#[trigger] all[j]).ppn().0) by {
                    assert(all[j].ppn() != all[n - 1].ppn());
                    assert(before.allocated().remove(f.ppn().0).contains(all[j].ppn().0));
                }
                assert forall|p: u64|
                    allocator.is_allocated(p) == (old(allocator).is_allocated(p) && !(exists|j: int|
                        n - 1 <= j < all.len() && (#[trigger] all[j]).ppn().0 == p)) by {
                    assert(allocator.is_allocated(p) == before.allocated().remove(f.ppn().0).contains(p));
                    if p == f.ppn().0 {
                        assert(all[n - 1].ppn().0 == p);
                    }
                }
            }
        }
        proof {
            assert forall|p: u64| allocator.allocated().contains(p) == old(allocator).allocated().difference(
                self.ppns(),
            ).contains(p) by {
                assert(allocator.is_allocated(p) == allocator.allocated().contains(p));
                if self.ppns().contains(p) {
                    let j = choose|j: int| 0 <= j < self.len() && (#[trigger] self.frames@[j]).ppn().0 == p;
                    assert(all[j].ppn().0 == p);
                }
            }
            assert(allocator.allocated() =~= old(allocator).allocated().difference(self.ppns()));
        }
    }
}

} // verus!
