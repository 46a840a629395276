//! Physical and virtual addresses and page numbers of SV39.
//!
//! A virtual address has 39 significant bits, a physical address 56; a page
//! number is an address without its 12 offset bits.

use vstd::prelude::*;
use vstd::std_specs::convert::FromSpecImpl;
use crate::config::PAGE_SIZE;

verus! {

/// Number of values of a 56-bit physical address.
pub const PA_LIMIT: u64 = 0x100_0000_0000_0000;

/// Number of values of a 39-bit virtual address.
pub const VA_LIMIT: u64 = 0x80_0000_0000;

/// Number of values of a 44-bit physical page number.
pub const PPN_LIMIT: u64 = 0x1000_0000_0000;

/// Number of values of a 27-bit virtual page number.
pub const VPN_LIMIT: u64 = 0x800_0000;

/// Bits 63..39 of a canonical address in the upper half.
pub const VA_SIGN_BITS: u64 = 0xffff_ff80_0000_0000;

#[derive(Copy, Clone, Debug, PartialEq, Eq, Structural)]
pub struct PhysAddr(pub u64);

#[derive(Copy, Clone, Debug, PartialEq, Eq, Structural)]
pub struct VirtAddr(pub u64);

#[derive(Copy, Clone, Debug, PartialEq, Eq, Structural)]
pub struct PhysPageNum(pub u64);

#[derive(Copy, Clone, Debug, PartialEq, Eq, Structural)]
pub struct VirtPageNum(pub u64);

/// The raw integer of a virtual address: bit 38 copied into bits 63..39.
pub open spec fn sign_extend_va(x: int) -> int {
    if x >= VA_LIMIT as int / 2 && x < VA_LIMIT as int {
        x + VA_SIGN_BITS as int
    } else {
        x
    }
}

/// Number of pages needed to cover `x` bytes.
pub open spec fn pages_up(x: int) -> int {
    if x % (PAGE_SIZE as int) == 0 {
        x / (PAGE_SIZE as int)
    } else {
        x / (PAGE_SIZE as int) + 1
    }
}

/// The three 9-bit table indices of a page number, highest level first.
pub open spec fn vpn_indices(vpn: int) -> Seq<int> {
    seq![(vpn / 262144) % 512, (vpn / 512) % 512, vpn % 512]
}

impl From<u64> for PhysAddr {
    fn from(x: u64) -> (r: Self) {
        PhysAddr(x % PA_LIMIT)
    }
}

impl FromSpecImpl<u64> for PhysAddr {
    open spec fn obeys_from_spec() -> bool {
        true
    }

    open spec fn from_spec(x: u64) -> Self {
        PhysAddr((x % PA_LIMIT) as u64)
    }
}

impl From<u64> for VirtAddr {
    fn from(x: u64) -> (r: Self) {
        VirtAddr(x % VA_LIMIT)
    }
}

impl FromSpecImpl<u64> for VirtAddr {
    open spec fn obeys_from_spec() -> bool {
        true
    }

    open spec fn from_spec(x: u64) -> Self {
        VirtAddr((x % VA_LIMIT) as u64)
    }
}

impl From<u64> for PhysPageNum {
    fn from(x: u64) -> (r: Self) {
        PhysPageNum(x % PPN_LIMIT)
    }
}

impl FromSpecImpl<u64> for PhysPageNum {
    open spec fn obeys_from_spec() -> bool {
        true
    }

    open spec fn from_spec(x: u64) -> Self {
        PhysPageNum((x % PPN_LIMIT) as u64)
    }
}

impl From<u64> for VirtPageNum {
    fn from(x: u64) -> (r: Self) {
        VirtPageNum(x % VPN_LIMIT)
    }
}

impl FromSpecImpl<u64> for VirtPageNum {
    open spec fn obeys_from_spec() -> bool {
        true
    }

    open spec fn from_spec(x: u64) -> Self {
        VirtPageNum((x % VPN_LIMIT) as u64)
    }
}

impl From<PhysAddr> for u64 {
    fn from(x: PhysAddr) -> (r: Self) {
        x.0
    }
}

impl FromSpecImpl<PhysAddr> for u64 {
    open spec fn obeys_from_spec() -> bool {
        true
    }

    open spec fn from_spec(x: PhysAddr) -> Self {
        x.0
    }
}

impl From<VirtAddr> for u64 {
    fn from(v: VirtAddr) -> (r: Self) {
        if v.0 >= VA_LIMIT / 2 && v.0 < VA_LIMIT {
            v.0 + VA_SIGN_BITS
        } else {
            v.0
        }
    }
}

impl FromSpecImpl<VirtAddr> for u64 {
    open spec fn obeys_from_spec() -> bool {
        true
    }

    open spec fn from_spec(v: VirtAddr) -> Self {
        sign_extend_va(v.0 as int) as u64
    }
}

impl From<PhysPageNum> for u64 {
    fn from(v: PhysPageNum) -> (r: Self) {
        v.0
    }
}

impl FromSpecImpl<PhysPageNum> for u64 {
    open spec fn obeys_from_spec() -> bool {
        true
    }

    open spec fn from_spec(v: PhysPageNum) -> Self {
        v.0
    }
}

impl From<VirtPageNum> for u64 {
    fn from(v: VirtPageNum) -> (r: Self) {
        v.0
    }
}

impl FromSpecImpl<VirtPageNum> for u64 {
    open spec fn obeys_from_spec() -> bool {
        true
    }

    open spec fn from_spec(v: VirtPageNum) -> Self {
        v.0
    }
}

impl PhysAddr {
    pub open spec fn spec_floor(&self) -> PhysPageNum {
        PhysPageNum(self.0 / (PAGE_SIZE as u64))
    }

    /// The page that holds this address.
    #[verifier::when_used_as_spec(spec_floor)]
    pub fn floor(&self) -> (r: PhysPageNum)
        ensures
            r == self.floor(),
    {
        PhysPageNum(self.0 / (PAGE_SIZE as u64))
    }

    pub open spec fn spec_ceil(&self) -> PhysPageNum {
        PhysPageNum(pages_up(self.0 as int) as u64)
    }

    /// The first page at or above this address.
    #[verifier::when_used_as_spec(spec_ceil)]
    pub fn ceil(&self) -> (r: PhysPageNum)
        ensures
            r == self.ceil(),
    {
        if self.0 % (PAGE_SIZE as u64) == 0 {
            PhysPageNum(self.0 / (PAGE_SIZE as u64))
        } else {
            PhysPageNum(self.0 / (PAGE_SIZE as u64) + 1)
        }
    }

    pub open spec fn spec_page_offset(&self) -> u64 {
        self.0 % (PAGE_SIZE as u64)
    }

    /// The low 12 bits.
    #[verifier::when_used_as_spec(spec_page_offset)]
    pub fn page_offset(&self) -> (r: u64)
        ensures
            r == self.page_offset(),
            r < PAGE_SIZE,
    {
        self.0 % (PAGE_SIZE as u64)
    }
}

impl VirtAddr {
    pub open spec fn spec_floor(&self) -> VirtPageNum {
        VirtPageNum(self.0 / (PAGE_SIZE as u64))
    }

    /// The page that holds this address.
    #[verifier::when_used_as_spec(spec_floor)]
    pub fn floor(&self) -> (r: VirtPageNum)
        ensures
            r == self.floor(),
    {
        VirtPageNum(self.0 / (PAGE_SIZE as u64))
    }

    pub open spec fn spec_ceil(&self) -> VirtPageNum {
        VirtPageNum(pages_up(self.0 as int) as u64)
    }

    /// The first page at or above this address.
    #[verifier::when_used_as_spec(spec_ceil)]
    pub fn ceil(&self) -> (r: VirtPageNum)
        ensures
            r == self.ceil(),
    {
        if self.0 % (PAGE_SIZE as u64) == 0 {
            VirtPageNum(self.0 / (PAGE_SIZE as u64))
        } else {
            VirtPageNum(self.0 / (PAGE_SIZE as u64) + 1)
        }
    }

    pub open spec fn spec_page_offset(&self) -> u64 {
        self.0 % (PAGE_SIZE as u64)
    }

    /// The low 12 bits.
    #[verifier::when_used_as_spec(spec_page_offset)]
    pub fn page_offset(&self) -> (r: u64)
        ensures
            r == self.page_offset(),
            r < PAGE_SIZE,
    {
        self.0 % (PAGE_SIZE as u64)
    }
}

impl PhysPageNum {
    /// The address of the first byte of this page.
    pub fn start_addr(&self) -> (r: PhysAddr)
        requires
            self.0 < PPN_LIMIT,
        ensures
            r.0 == self.0 * 4096,
            r.0 < PA_LIMIT,
    {
        PhysAddr(self.0 * 4096)
    }
}

impl VirtPageNum {
    /// The address of the first byte of this page.
    pub fn start_addr(&self) -> (r: VirtAddr)
        requires
            self.0 < VPN_LIMIT,
        ensures
            r.0 == self.0 * 4096,
            r.0 < VA_LIMIT,
    {
        VirtAddr(self.0 * 4096)
    }

    /// The indices into the three levels of page table that lead to this page.
    pub fn cut_into_three_parts(&self) -> (r: [usize; 3])
        ensures
            r@.len() == 3,
            r[0] == vpn_indices(self.0 as int)[0],
            r[1] == vpn_indices(self.0 as int)[1],
            r[2] == vpn_indices(self.0 as int)[2],
            r[0] < 512 && r[1] < 512 && r[2] < 512,
    {
        [((self.0 / 262144) % 512) as usize, ((self.0 / 512) % 512) as usize, (self.0 % 512) as usize]
    }

    /// The next page number.
    pub fn step(&mut self)
        requires
            old(self).0 < u64::MAX,
        ensures
            final(self).0 == old(self).0 + 1,
    {
        self.0 = self.0 + 1;
    }
}

/// A half-open range of virtual page numbers.
#[derive(Copy, Clone, Debug)]
pub struct VPNRange {
    l: VirtPageNum,
    r: VirtPageNum,
}

impl VPNRange {
    pub closed spec fn spec_start(&self) -> int {
        self.l.0 as int
    }

    pub closed spec fn spec_end(&self) -> int {
        self.r.0 as int
    }

    /// The start never lies above the end.
    pub closed spec fn wf(&self) -> bool {
        self.l.0 <= self.r.0
    }

    pub open spec fn contains(&self, vpn: int) -> bool {
        self.spec_start() <= vpn < self.spec_end()
    }

    pub open spec fn spec_len(&self) -> int {
        self.spec_end() - self.spec_start()
    }

    pub fn new(start: VirtPageNum, end: VirtPageNum) -> (r: Self)
        requires
            start.0 <= end.0,
        ensures
            r.wf(),
            r.spec_start() == start.0,
            r.spec_end() == end.0,
    {
        VPNRange { l: start, r: end }
    }

    pub fn start(&self) -> (r: VirtPageNum)
        ensures
            r.0 == self.spec_start(),
    {
        self.l
    }

    pub fn end(&self) -> (r: VirtPageNum)
        ensures
            r.0 == self.spec_end(),
    {
        self.r
    }

    /// Number of pages in the range.
    pub fn len(&self) -> (r: u64)
        requires
            self.wf(),
        ensures
            r == self.spec_len(),
    {
        self.r.0 - self.l.0
    }
}

/// Three 9-bit indices name one page: equal indices, equal page.
pub proof fn lemma_indices_injective(a: int, b: int)
    requires
        0 <= a < VPN_LIMIT,
        0 <= b < VPN_LIMIT,
        vpn_indices(a) == vpn_indices(b),
    ensures
        a == b,
{
    assert(vpn_indices(a)[0] == vpn_indices(b)[0]);
    assert(vpn_indices(a)[1] == vpn_indices(b)[1]);
    assert(vpn_indices(a)[2] == vpn_indices(b)[2]);
}

/// Truncating and then widening a canonical address gives the address back.
pub proof fn lemma_sign_extend_round_trip(x: u64)
    requires
        x < VA_LIMIT / 2 || x >= VA_SIGN_BITS + VA_LIMIT / 2,
    ensures
        sign_extend_va((x % VA_LIMIT) as int) == x,
{
}

} // verus!
