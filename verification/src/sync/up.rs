//! A cell for state that the one hart owns.

use vstd::prelude::*;

verus! {

/// A value that one holder at a time may change. On a single hart that does
/// not take traps in supervisor mode, exclusive access needs no lock: the
/// borrow of the cell itself is the proof that nobody else has access.
pub struct UPSafeCell<T> {
    inner: T,
}

impl<T> View for UPSafeCell<T> {
    type V = T;

    closed spec fn view(&self) -> T {
        self.inner
    }
}

impl<T> UPSafeCell<T> {
    /// A cell that holds `value`.
    pub fn new(value: T) -> (r: Self)
        ensures
            r@ == value,
    {
        UPSafeCell { inner: value }
    }

    /// The value, for the one holder of the cell to read and change.
    pub fn exclusive_access(&mut self) -> (r: &mut T)
        ensures
            *r == old(self)@,
            final(self)@ == *final(r),
    {
        &mut self.inner
    }

    /// The value, given up by the cell.
    pub fn into_inner(self) -> (r: T)
        ensures
            r == self@,
    {
        self.inner
    }
}

} // verus!
