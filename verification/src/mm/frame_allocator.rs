//! Physical page frames: the allocator that hands them out and takes them
//! back, and the tracker that owns one frame and what it holds.

use vstd::prelude::*;
use super::address::{PhysPageNum, PPN_LIMIT};

verus! {

/// Number of 64-bit words in a page frame.
pub const WORDS_PER_FRAME: usize = 512;

/// Byte `k` of a word, the least significant being byte 0.
pub open spec fn byte_of_word(w: u64, k: u64) -> u8 {
    ((w >> (8 * k)) & 0xff) as u8
}

/// The word `w` with its byte `k` replaced by `b`.
pub open spec fn word_with_byte(w: u64, k: u64, b: u8) -> u64 {
    (w & !(0xffu64 << (8 * k))) | ((b as u64) << (8 * k))
}

/// Replacing byte `k` of a word sets that byte.
pub proof fn lemma_word_with_byte_same(w: u64, k: u64, b: u8)
    by (bit_vector)
    requires
        k < 8,
    ensures
        byte_of_word(word_with_byte(w, k, b), k) == b,
{
}

/// Replacing byte `k` of a word leaves every other byte as it was.
pub proof fn lemma_word_with_byte_other(w: u64, k: u64, b: u8, j: u64)
    by (bit_vector)
    requires
        k < 8,
        j < 8,
        j != k,
    ensures
        byte_of_word(word_with_byte(w, k, b), j) == byte_of_word(w, j),
{
}

/// Every byte of the zero word is zero.
pub proof fn lemma_zero_word_bytes(k: u64)
    by (bit_vector)
    requires
        k < 8,
    ensures
        byte_of_word(0, k) == 0,
{
}

/// One physical page frame and what it holds, owned exclusively.
///
/// The frame's contents are 512 words; its bytes are the words' bytes in
/// little-endian order.
pub struct FrameTracker {
    ppn: PhysPageNum,
    words: Vec<u64>,
}

impl FrameTracker {
    /// The frame holds exactly one page of words.
    pub open spec fn wf(&self) -> bool {
        self.words().len() == WORDS_PER_FRAME
    }

    /// The number of the frame.
    pub closed spec fn spec_ppn(&self) -> PhysPageNum {
        self.ppn
    }

    /// The number of the frame.
    #[verifier::when_used_as_spec(spec_ppn)]
    pub fn ppn(&self) -> (r: PhysPageNum)
        ensures
            r == self.ppn(),
    {
        self.ppn
    }

    /// The frame's contents, word by word.
    pub closed spec fn words(&self) -> Seq<u64> {
        self.words@
    }

    /// The byte at offset `off` of the frame.
    pub open spec fn spec_byte(&self, off: int) -> u8 {
        byte_of_word(self.words()[off / 8], (off % 8) as u64)
    }

    /// Every word of the frame is zero.
    pub open spec fn is_zeroed(&self) -> bool {
        forall|i: int| 0 <= i < WORDS_PER_FRAME ==> self.words()[i] == 0
    }

    /// A tracker for frame `ppn`, its contents cleared.
    pub fn new(ppn: PhysPageNum) -> (r: Self)
        ensures
            r.wf(),
            r.ppn() == ppn,
            r.is_zeroed(),
    {
        let mut words: Vec<u64> = Vec::new();
        let mut i: usize = 0;
        while i < WORDS_PER_FRAME
            invariant
                i <= WORDS_PER_FRAME,
                words@.len() == i,
                forall|j: int| 0 <= j < i ==> words@[j] == 0,
            decreases WORDS_PER_FRAME - i,
        {
            words.push(0);
            i = i + 1;
        }
        FrameTracker { ppn, words }
    }

    pub fn read_word(&self, idx: usize) -> (r: u64)
        requires
            self.wf(),
            idx < WORDS_PER_FRAME,
        ensures
            r == self.words()[idx as int],
    {
        self.words[idx]
    }

    pub fn write_word(&mut self, idx: usize, val: u64)
        requires
            old(self).wf(),
            idx < WORDS_PER_FRAME,
        ensures
            final(self).wf(),
            final(self).ppn() == old(self).ppn(),
            final(self).words() == old(self).words().update(idx as int, val),
    {
        self.words.set(idx, val);
    }

    pub fn read_byte(&self, off: usize) -> (r: u8)
        requires
            self.wf(),
            off < 4096,
        ensures
            r == self.spec_byte(off as int),
    {
        let w: u64 = self.words[off / 8];
        let k: u64 = (off % 8) as u64;
        ((w >> (8 * k)) & 0xff) as u8
    }

    /// Stores `b` at offset `off`; every other byte keeps its value.
    pub fn write_byte(&mut self, off: usize, b: u8)
        requires
            old(self).wf(),
            off < 4096,
        ensures
            final(self).wf(),
            final(self).ppn() == old(self).ppn(),
            final(self).spec_byte(off as int) == b,
            forall|i: int| 0 <= i < 4096 && i != off ==> final(self).spec_byte(i) == old(self).spec_byte(i),
    {
        let w: u64 = self.words[off / 8];
        let k: u64 = (off % 8) as u64;
        let n: u64 = (w & !(0xffu64 << (8 * k))) | ((b as u64) << (8 * k));
        self.words.set(off / 8, n);
        proof {
            lemma_word_with_byte_same(w, k, b);
            assert forall|i: int| 0 <= i < 4096 && i != off implies self.spec_byte(i) == old(self).spec_byte(
                i,
            ) by {
                if i / 8 == off as int / 8 {
                    lemma_word_with_byte_other(w, k, b, (i % 8) as u64);
                }
            }
        }
    }

    /// Makes this frame's contents equal to those of `src`.
    pub fn copy_from(&mut self, src: &FrameTracker)
        requires
            old(self).wf(),
            src.wf(),
        ensures
            final(self).wf(),
            final(self).ppn() == old(self).ppn(),
            final(self).words() == src.words(),
    {
        let mut i: usize = 0;
        while i < WORDS_PER_FRAME
            invariant
                i <= WORDS_PER_FRAME,
                self.wf(),
                src.wf(),
                self.ppn() == old(self).ppn(),
                forall|j: int| 0 <= j < i ==> self.words@[j] == src.words@[j],
            decreases WORDS_PER_FRAME - i,
        {
            let w: u64 = src.words[i];
            self.words.set(i, w);
            i = i + 1;
        }
        assert(self.words@ =~= src.words@);
    }
}

/// A cleared frame holds zero at every offset.
pub proof fn lemma_zeroed_frame_bytes(f: FrameTracker, off: int)
    requires
        f.wf(),
        f.is_zeroed(),
        0 <= off < 4096,
    ensures
        f.spec_byte(off) == 0,
{
    lemma_zero_word_bytes((off % 8) as u64);
}

/// What a frame allocator knows: the range it was given, how far the bump
/// pointer has moved, and the frames handed back, most recent last.
pub struct FrameAllocState {
    pub start: u64,
    pub current: u64,
    pub end: u64,
    pub recycled: Seq<u64>,
}

impl FrameAllocState {
    pub open spec fn wf(self) -> bool {
        &&& self.start <= self.current <= self.end <= PPN_LIMIT
        &&& self.recycled.no_duplicates()
        &&& forall|i: int| 0 <= i < self.recycled.len() ==> self.start <= #[trigger] self.recycled[i] < self.current
    }

    /// The allocator manages the frames that `other` manages.
    pub open spec fn same_range(self, other: Self) -> bool {
        self.start == other.start && self.end == other.end
    }

    /// Frame `ppn` has been handed out and not handed back: a live tracker
    /// holds it.
    pub open spec fn is_allocated(self, ppn: u64) -> bool {
        self.start <= ppn < self.current && !self.recycled.contains(ppn)
    }

    /// The frames held by live trackers.
    pub open spec fn allocated(self) -> Set<u64> {
        Set::new(|p: u64| self.is_allocated(p))
    }

    /// Number of frames that can still be handed out.
    pub open spec fn available(self) -> int {
        self.end - self.current + self.recycled.len()
    }

    /// The frame that the next allocation returns: the one handed back last,
    /// else the one under the bump pointer, else none.
    pub open spec fn next(self) -> Option<u64> {
        if self.recycled.len() > 0 {
            Some(self.recycled.last())
        } else if self.current == self.end {
            None
        } else {
            Some(self.current)
        }
    }

    /// The state after one allocation.
    pub open spec fn after_alloc(self) -> Self {
        if self.recycled.len() > 0 {
            FrameAllocState { recycled: self.recycled.drop_last(), ..self }
        } else if self.current == self.end {
            self
        } else {
            FrameAllocState { current: (self.current + 1) as u64, ..self }
        }
    }

    /// The state after frame `ppn` is handed back.
    pub open spec fn after_dealloc(self, ppn: u64) -> Self {
        FrameAllocState { recycled: self.recycled.push(ppn), ..self }
    }
}

/// An allocation keeps the state well formed, returns a frame that no live
/// tracker holds, and makes exactly that frame live.
pub proof fn lemma_alloc_fresh(s: FrameAllocState)
    requires
        s.wf(),
    ensures
        s.after_alloc().wf(),
        s.next() is None <==> s.available() == 0,
        s.next() is None ==> s.after_alloc() == s,
        s.next() is Some ==> {
            &&& !s.is_allocated(s.next().unwrap())
            &&& s.next().unwrap() < PPN_LIMIT
            &&& s.after_alloc().allocated() == s.allocated().insert(s.next().unwrap())
            &&& s.after_alloc().available() == s.available() - 1
        },
{
    if s.recycled.len() > 0 {
        let p = s.recycled.last();
        let t = s.after_alloc();
        assert(s.recycled[s.recycled.len() - 1] == p);
        assert(s.recycled.contains(p));
        assert forall|q: u64| t.is_allocated(q) == (s.is_allocated(q) || q == p) by {
            if q == p {
                if t.recycled.contains(p) {
                    let i = choose|i: int| 0 <= i < t.recycled.len() && t.recycled[i] == p;
                    assert(s.recycled[i] == p);
                }
            } else {
                if s.recycled.contains(q) {
                    let i = choose|i: int| 0 <= i < s.recycled.len() && s.recycled[i] == q;
                    assert(t.recycled[i] == q);
                }
                if t.recycled.contains(q) {
                    let i = choose|i: int| 0 <= i < t.recycled.len() && t.recycled[i] == q;
                    assert(s.recycled[i] == q);
                }
            }
        }
        assert(t.allocated() =~= s.allocated().insert(p));
        assert forall|i: int| 0 <= i < t.recycled.len() implies s.start <= #[trigger] t.recycled[i] < s.current by {
            assert(t.recycled[i] == s.recycled[i]);
        }
    } else if s.current < s.end {
        let t = s.after_alloc();
        assert(t.allocated() =~= s.allocated().insert(s.current));
    }
}

/// Handing back a live frame keeps the state well formed and makes exactly
/// that frame free.
pub proof fn lemma_dealloc(s: FrameAllocState, ppn: u64)
    requires
        s.wf(),
        s.is_allocated(ppn),
    ensures
        s.after_dealloc(ppn).wf(),
        s.after_dealloc(ppn).allocated() == s.allocated().remove(ppn),
        s.after_dealloc(ppn).available() == s.available() + 1,
        s.after_dealloc(ppn).next() == Some(ppn),
{
    let t = s.after_dealloc(ppn);
    assert forall|q: u64| t.is_allocated(q) == (s.is_allocated(q) && q != ppn) by {
        if q == ppn {
            assert(t.recycled[s.recycled.len() as int] == ppn);
        } else {
            if s.recycled.contains(q) {
                let i = choose|i: int| 0 <= i < s.recycled.len() && s.recycled[i] == q;
                assert(t.recycled[i] == q);
            }
            if t.recycled.contains(q) {
                let i = choose|i: int| 0 <= i < t.recycled.len() && t.recycled[i] == q;
                assert(s.recycled[i] == q);
            }
        }
    }
    assert(t.allocated() =~= s.allocated().remove(ppn));
    assert forall|i: int, j: int| 0 <= i < t.recycled.len() && 0 <= j < t.recycled.len() && i != j implies t.recycled[i]
        != t.recycled[j] by {
        if i < s.recycled.len() {
            assert(s.recycled.contains(s.recycled[i]));
        }
        if j < s.recycled.len() {
            assert(s.recycled.contains(s.recycled[j]));
        }
    }
}

/// Allocating, handing the frame back and allocating again returns the same
/// frame, and so never one that another live tracker holds.
pub proof fn lemma_alloc_dealloc_alloc(s: FrameAllocState, other: u64)
    requires
        s.wf(),
        s.is_allocated(other),
        s.next() is Some,
    ensures
        ({
            let a = s.next().unwrap();
            let s3 = s.after_alloc().after_dealloc(a);
            &&& s3.wf()
            &&& s3.next() == Some(a)
            &&& a != other
            &&& s3.after_alloc().is_allocated(other)
            &&& s3.after_alloc().allocated() == s.after_alloc().allocated()
        }),
{
    lemma_alloc_fresh(s);
    let a = s.next().unwrap();
    let s1 = s.after_alloc();
    assert(s1.allocated().contains(a));
    lemma_dealloc(s1, a);
    let s3 = s1.after_dealloc(a);
    lemma_alloc_fresh(s3);
    assert(s3.after_alloc().allocated() =~= s1.allocated());
    assert(s1.allocated().contains(other));
}

/// Between `before` and `after`, frames changed hands only with one owner,
/// whose frames were `old_own` and are `new_own`: what it holds is live,
/// every other live frame is as live as before, and the allocator manages
/// the same range of frames.
pub open spec fn handover(
    before: FrameAllocState,
    after: FrameAllocState,
    old_own: Set<u64>,
    new_own: Set<u64>,
) -> bool {
    &&& new_own.subset_of(after.allocated())
    &&& after.allocated().difference(new_own) == before.allocated().difference(old_own)
    &&& after.same_range(before)
}

/// Frames of another owner, live before and apart from the frames of the
/// owner that took or returned frames, are live after and apart from that
/// owner's frames.
pub proof fn lemma_handover_others(
    before: FrameAllocState,
    after: FrameAllocState,
    old_own: Set<u64>,
    new_own: Set<u64>,
    other: Set<u64>,
)
    requires
        handover(before, after, old_own, new_own),
        other.subset_of(before.allocated()),
        other.disjoint(old_own),
    ensures
        other.subset_of(after.allocated()),
        other.disjoint(new_own),
{
    assert forall|q: u64| other.contains(q) implies after.allocated().contains(q) && !new_own.contains(q) by {
        assert(before.allocated().difference(old_own).contains(q));
        assert(after.allocated().difference(new_own).contains(q));
    }
}

/// Two owners that took or returned frames one after the other are
/// accounted for together.
pub proof fn lemma_handover_two(
    a0: FrameAllocState,
    a1: FrameAllocState,
    a2: FrameAllocState,
    own_a0: Set<u64>,
    own_a1: Set<u64>,
    own_b0: Set<u64>,
    own_b1: Set<u64>,
)
    requires
        handover(a0, a1, own_a0, own_a1),
        handover(a1, a2, own_b0, own_b1),
        own_b0.subset_of(a0.allocated()),
        own_b0.disjoint(own_a0),
    ensures
        handover(a0, a2, own_a0.union(own_b0), own_a1.union(own_b1)),
        own_a1.disjoint(own_b1),
        own_a1.subset_of(a2.allocated()),
{
    lemma_handover_others(a0, a1, own_a0, own_a1, own_b0);
    assert forall|x: u64| own_a1.contains(x) implies a2.allocated().contains(x) && !own_b1.contains(x) by {
        assert(a1.allocated().contains(x));
        assert(a1.allocated().difference(own_b0).contains(x));
        assert(a2.allocated().difference(own_b1).contains(x));
    }
    assert forall|x: u64|
        a2.allocated().difference(own_a1.union(own_b1)).contains(x) == a0.allocated().difference(own_a0.union(own_b0)).contains(x) by {
        assert(a2.allocated().difference(own_b1).contains(x) == a1.allocated().difference(own_b0).contains(x));
        assert(a1.allocated().difference(own_a1).contains(x) == a0.allocated().difference(own_a0).contains(x));
    }
    assert(a2.allocated().difference(own_a1.union(own_b1)) =~= a0.allocated().difference(own_a0.union(own_b0)));
}

/// Allocator of single frames over a contiguous range of page numbers:
/// frames handed back are reused first, most recent first; otherwise a bump
/// pointer advances.
pub struct StackFrameAllocator {
    start: u64,
    current: u64,
    end: u64,
    recycled: Vec<u64>,
}

impl View for StackFrameAllocator {
    type V = FrameAllocState;

    closed spec fn view(&self) -> FrameAllocState {
        FrameAllocState { start: self.start, current: self.current, end: self.end, recycled: self.recycled@ }
    }
}

impl StackFrameAllocator {
    pub open spec fn wf(&self) -> bool {
        self@.wf()
    }

    pub open spec fn is_allocated(&self, ppn: u64) -> bool {
        self@.is_allocated(ppn)
    }

    pub open spec fn allocated(&self) -> Set<u64> {
        self@.allocated()
    }

    pub open spec fn available(&self) -> int {
        self@.available()
    }

    /// An allocator over the empty range.
    pub fn new() -> (r: Self)
        ensures
            r.wf(),
            r@ == (FrameAllocState { start: 0, current: 0, end: 0, recycled: Seq::empty() }),
    {
        StackFrameAllocator { start: 0, current: 0, end: 0, recycled: Vec::new() }
    }

    /// Gives the allocator the frames `l .. r`.
    pub fn init(&mut self, l: PhysPageNum, r: PhysPageNum)
        requires
            l.0 <= r.0 <= PPN_LIMIT,
            old(self)@.recycled.len() == 0,
        ensures
            final(self).wf(),
            final(self)@ == (FrameAllocState { start: l.0, current: l.0, end: r.0, recycled: Seq::empty() }),
            final(self).allocated() == Set::<u64>::empty(),
            final(self).available() == r.0 - l.0,
    {
        self.start = l.0;
        self.current = l.0;
        self.end = r.0;
        assert(self.recycled@ =~= Seq::empty());
        assert(self.allocated() =~= Set::<u64>::empty());
    }

    /// Whether `n` frames can still be handed out.
    pub fn has_available(&self, n: u64) -> (r: bool)
        requires
            self.wf(),
        ensures
            r == (self.available() >= n),
    {
        let bump: u64 = self.end - self.current;
        if bump >= n {
            true
        } else {
            let rest: u64 = n - bump;
            let recycled: usize = self.recycled.len();
            recycled as u64 >= rest
        }
    }

    /// Whether `a + b` frames can still be handed out.
    pub fn has_available_sum(&self, a: u64, b: u64) -> (r: bool)
        requires
            self.wf(),
        ensures
            r == (self.available() >= a + b),
    {
        let bump: u64 = self.end - self.current;
        let recycled: usize = self.recycled.len();
        let total: u128 = bump as u128 + recycled as u128;
        total >= a as u128 + b as u128
    }

    /// Whether `n` frames can still be handed out, for a number of any size.
    pub fn has_available_wide(&self, n: u128) -> (r: bool)
        requires
            self.wf(),
        ensures
            r == (self.available() >= n),
    {
        let bump: u64 = self.end - self.current;
        let recycled: usize = self.recycled.len();
        let total: u128 = bump as u128 + recycled as u128;
        total >= n
    }

    /// Hands out a frame, or `None` when none is left.
    pub fn allocate(&mut self) -> (r: Option<PhysPageNum>)
        requires
            old(self).wf(),
        ensures
            final(self).wf(),
            final(self)@ == old(self)@.after_alloc(),
            match r {
                Some(p) => {
                    &&& old(self)@.next() == Some(p.0)
                    &&& p.0 < PPN_LIMIT
                    &&& !old(self).is_allocated(p.0)
                    &&& final(self).allocated() == old(self).allocated().insert(p.0)
                    &&& final(self).available() == old(self).available() - 1
                },
                None => old(self)@.next() is None && old(self).available() == 0,
            },
    {
        proof {
            lemma_alloc_fresh(self@);
        }
        if let Some(ppn) = self.recycled.pop() {
            Some(PhysPageNum(ppn))
        } else if self.current == self.end {
            None
        } else {
            self.current = self.current + 1;
            Some(PhysPageNum(self.current - 1))
        }
    }

    /// Takes back frame `ppn`, which a live tracker held.
    pub fn dealloc(&mut self, ppn: PhysPageNum)
        requires
            old(self).wf(),
            old(self).is_allocated(ppn.0),
        ensures
            final(self).wf(),
            final(self)@ == old(self)@.after_dealloc(ppn.0),
            final(self).allocated() == old(self).allocated().remove(ppn.0),
            final(self).available() == old(self).available() + 1,
    {
        proof {
            lemma_dealloc(self@, ppn.0);
        }
        self.recycled.push(ppn.0);
    }
}

/// Hands out a cleared frame, or `None` when none is left.
pub fn frame_alloc(allocator: &mut StackFrameAllocator) -> (r: Option<FrameTracker>)
    requires
        old(allocator).wf(),
    ensures
        final(allocator).wf(),
        final(allocator)@ == old(allocator)@.after_alloc(),
        match r {
            Some(f) => {
                &&& f.wf()
                &&& f.is_zeroed()
                &&& old(allocator)@.next() == Some(f.ppn().0)
                &&& f.ppn().0 < PPN_LIMIT
                &&& !old(allocator).is_allocated(f.ppn().0)
                &&& final(allocator).allocated() == old(allocator).allocated().insert(f.ppn().0)
                &&& final(allocator).available() == old(allocator).available() - 1
            },
            None => old(allocator).available() == 0 && final(allocator)@ == old(allocator)@,
        },
{
    proof {
        lemma_alloc_fresh(allocator@);
    }
    match allocator.allocate() {
        Some(ppn) => Some(FrameTracker::new(ppn)),
        None => None,
    }
}

/// Takes back frame `ppn`, which a live tracker held.
pub fn frame_dealloc(allocator: &mut StackFrameAllocator, ppn: PhysPageNum)
    requires
        old(allocator).wf(),
        old(allocator).is_allocated(ppn.0),
    ensures
        final(allocator).wf(),
        final(allocator)@ == old(allocator)@.after_dealloc(ppn.0),
        final(allocator).allocated() == old(allocator).allocated().remove(ppn.0),
        final(allocator).available() == old(allocator).available() + 1,
{
    allocator.dealloc(ppn);
}

} // verus!
