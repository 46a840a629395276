//! Reading and writing the memory of a task from the kernel, by virtual
//! address, through the task's address space.

use vstd::prelude::*;
use super::memory_set::MemorySet;

verus! {

/// The four bytes of `x`, least significant first.
pub open spec fn le_bytes(x: u32) -> Seq<u8> {
    seq![(x & 0xff) as u8, ((x >> 8) & 0xff) as u8, ((x >> 16) & 0xff) as u8, ((x >> 24) & 0xff) as u8]
}

/// The four bytes of `x`, least significant first.
pub fn to_le_bytes(x: u32) -> (r: Vec<u8>)
    ensures
        r@ == le_bytes(x),
{
    let mut v: Vec<u8> = Vec::new();
    v.push((x & 0xff) as u8);
    v.push(((x >> 8) & 0xff) as u8);
    v.push(((x >> 16) & 0xff) as u8);
    v.push(((x >> 24) & 0xff) as u8);
    assert(v@ =~= le_bytes(x));
    v
}

impl MemorySet {
    /// The `len` bytes from address `ptr` on all lie in framed areas.
    pub open spec fn accessible(&self, ptr: u64, len: int) -> bool {
        &&& ptr + len <= u64::MAX + 1
        &&& forall|i: int| 0 <= i < len ==> (#[trigger] self.spec_byte((ptr + i) as u64)) is Some
    }

    /// The `len` bytes from address `ptr` on.
    pub open spec fn spec_bytes(&self, ptr: u64, len: int) -> Seq<u8> {
        Seq::new(len as nat, |i: int| self.spec_byte((ptr + i) as u64).unwrap())
    }

    /// `self` differs from `old` at most in what the frames of the areas
    /// hold.
    pub open spec fn touched(&self, old: &MemorySet) -> bool {
        &&& self.spec_page_table() == old.spec_page_table()
        &&& self.spec_trampoline() == old.spec_trampoline()
        &&& self.ppns() == old.ppns()
        &&& self.spec_areas().len() == old.spec_areas().len()
        &&& forall|i: int|
            0 <= i < old.spec_areas().len() ==> (#[trigger] self.spec_areas()[i]).same_frames(&old.spec_areas()[i])
        &&& forall|a: u64| (#[trigger] self.spec_byte(a)) is Some <==> old.spec_byte(a) is Some
    }

    /// The `len` bytes from address `ptr` on, or `None` where one of them
    /// lies in no framed area.
    pub fn read_bytes(&self, ptr: u64, len: usize) -> (r: Option<Vec<u8>>)
        requires
            self.wf(),
        ensures
            match r {
                Some(v) => self.accessible(ptr, len as int) && v@ == self.spec_bytes(ptr, len as int),
                None => !self.accessible(ptr, len as int),
            },
    {
        let mut v: Vec<u8> = Vec::new();
        let mut i: usize = 0;
        while i < len
            invariant
                i <= len,
                self.wf(),
                v@.len() == i,
                ptr + i <= u64::MAX + 1,
                forall|j: int| 0 <= j < i ==> (#[trigger] self.spec_byte((ptr + j) as u64)) == Some(v@[j]),
            decreases len - i,
        {
            if i as u64 > u64::MAX - ptr {
                return None;
            }
            match self.read_byte(ptr + i as u64) {
                Some(b) => {
                    v.push(b);
                },
                None => {
                    assert(self.spec_byte((ptr + i as int) as u64) is None);
                    return None;
                },
            }
            i = i + 1;
        }
        assert(v@ =~= self.spec_bytes(ptr, len as int));
        Some(v)
    }

    /// Address `ptr + n` holds the first zero byte from `ptr` on, and every
    /// byte before it lies in a framed area.
    pub open spec fn terminated_at(&self, ptr: u64, n: int) -> bool {
        &&& 0 <= n
        &&& ptr + n <= u64::MAX
        &&& self.spec_byte((ptr + n) as u64) == Some(0u8)
        &&& forall|i: int|
            0 <= i < n ==> (#[trigger] self.spec_byte((ptr + i) as u64)) is Some && self.spec_byte((ptr + i) as u64)
                != Some(0u8)
    }

    /// Address `ptr + n` lies in no framed area or behind the last address,
    /// and every byte before it lies in a framed area and is not zero.
    pub open spec fn faults_at(&self, ptr: u64, n: int) -> bool {
        &&& 0 <= n
        &&& ptr + n <= u64::MAX + 1
        &&& ptr + n <= u64::MAX ==> self.spec_byte((ptr + n) as u64) is None
        &&& forall|i: int|
            0 <= i < n ==> (#[trigger] self.spec_byte((ptr + i) as u64)) is Some && self.spec_byte((ptr + i) as u64)
                != Some(0u8)
    }

    /// The bytes from address `ptr` up to the first zero byte, or `None`
    /// where an address that lies in no framed area comes first.
    pub fn read_c_string(&self, ptr: u64) -> (r: Option<Vec<u8>>)
        requires
            self.wf(),
        ensures
            match r {
                Some(v) => self.terminated_at(ptr, v@.len() as int) && v@ == self.spec_bytes(ptr, v@.len() as int),
                None => exists|n: int| self.faults_at(ptr, n),
            },
    {
        let mut v: Vec<u8> = Vec::new();
        let mut addr: u64 = ptr;
        loop
            invariant
                self.wf(),
                addr == ptr + v@.len(),
                forall|j: int|
                    0 <= j < v@.len() ==> (#[trigger] self.spec_byte((ptr + j) as u64)) == Some(v@[j]) && v@[j] != 0,
            decreases u64::MAX - addr,
        {
            match self.read_byte(addr) {
                Some(b) => {
                    if b == 0 {
                        assert(v@ =~= self.spec_bytes(ptr, v@.len() as int));
                        return Some(v);
                    }
                    if addr == u64::MAX {
                        assert(self.faults_at(ptr, v@.len() as int + 1));
                        return None;
                    }
                    v.push(b);
                    addr = addr + 1;
                },
                None => {
                    assert(self.faults_at(ptr, v@.len() as int));
                    return None;
                },
            }
        }
    }

    /// Stores `data` from address `ptr` on and returns `true`, or stores
    /// nothing and returns `false` where one of the addresses lies in no
    /// framed area.
    pub fn write_bytes(&mut self, ptr: u64, data: &Vec<u8>) -> (r: bool)
        requires
            old(self).wf(),
        ensures
            final(self).wf(),
            r == old(self).accessible(ptr, data@.len() as int),
            final(self).touched(old(self)),
            r ==> final(self).spec_bytes(ptr, data@.len() as int) == data@,
            r ==> forall|a: u64|
                !(ptr <= a < ptr + data@.len()) ==> #[trigger] final(self).spec_byte(a) == old(self).spec_byte(a),
            !r ==> *final(self) == *old(self),
    {
        let len: usize = data.len();
        match self.read_bytes(ptr, len) {
            Some(_) => {},
            None => {
                return false;
            },
        }
        let mut i: usize = 0;
        while i < len
            invariant
                i <= len,
                len == data@.len(),
                self.wf(),
                old(self).accessible(ptr, len as int),
                self.touched(old(self)),
                forall|j: int| 0 <= j < i ==> (#[trigger] self.spec_byte((ptr + j) as u64)) == Some(data@[j]),
                forall|a: u64| !(ptr <= a < ptr + i) ==> #[trigger] self.spec_byte(a) == old(self).spec_byte(a),
            decreases len - i,
        {
            let ghost mid = *self;
            let ok = self.write_byte(ptr + i as u64, data[i]);
            proof {
                assert(old(self).spec_byte((ptr + i as int) as u64) is Some);
                assert(mid.spec_byte((ptr + i as int) as u64) is Some);
                assert(ok);
                assert forall|k: int| 0 <= k < old(self).spec_areas().len() implies (#[trigger] self.spec_areas()[k]).same_frames(
                    &old(self).spec_areas()[k],
                ) by {
                    let x = self.spec_areas()[k];
                    let y = mid.spec_areas()[k];
                    let z = old(self).spec_areas()[k];
                    assert(x.same_frames(&y) && y.same_frames(&z));
                    assert forall|v: u64| (#[trigger] x.frame_at(v)) is Some <==> z.frame_at(v) is Some by {
                        assert(y.frame_at(v) is Some <==> z.frame_at(v) is Some);
                    }
                    assert forall|v: u64| (#[trigger] x.frame_at(v)) is Some implies x.frame_at(v).unwrap().ppn()
                        == z.frame_at(v).unwrap().ppn() by {
                        assert(y.frame_at(v) is Some);
                    }
                }
                assert forall|a: u64| (#[trigger] self.spec_byte(a)) is Some <==> old(self).spec_byte(a) is Some by {
                    assert(mid.spec_byte(a) is Some <==> old(self).spec_byte(a) is Some);
                    if a != (ptr + i as int) as u64 {
                        assert(self.spec_byte(a) == mid.spec_byte(a));
                    }
                }
                assert forall|j: int| 0 <= j < i + 1 implies (#[trigger] self.spec_byte((ptr + j) as u64)) == Some(
                    data@[j],
                ) by {
                    if j < i {
                        assert(self.spec_byte((ptr + j) as u64) == mid.spec_byte((ptr + j) as u64));
                    }
                }
                assert forall|a: u64| !(ptr <= a < ptr + i + 1) implies #[trigger] self.spec_byte(a) == old(
                    self,
                ).spec_byte(a) by {
                    assert(self.spec_byte(a) == mid.spec_byte(a));
                }
            }
            i = i + 1;
        }
        proof {
            assert(self.spec_bytes(ptr, len as int) =~= data@);
        }
        true
    }
}

} // verus!
