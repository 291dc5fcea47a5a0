//! A cell for state that one owner hands out by reference.

use vstd::prelude::*;

verus! {

/// Holds one value. Shared access goes through `&`, change through `&mut`,
/// so the borrow rules keep readers and writers apart; state shared across
/// threads travels over the intercom bus instead.
#[derive(Debug)]
pub struct InfCell<T> {
    value: T,
}

impl<T> InfCell<T> {
    /// The value held.
    pub closed spec fn inner(&self) -> T {
        self.value
    }

    pub fn new(val: T) -> (r: Self)
        ensures
            r.inner() == val,
    {
        InfCell { value: val }
    }

    pub fn get(&self) -> (r: &T)
        ensures
            *r == self.inner(),
    {
        &self.value
    }

    pub fn get_mut(&mut self) -> (r: &mut T)
        ensures
            *r == old(self).inner(),
            final(self).inner() == *final(r),
    {
        &mut self.value
    }

    pub fn into_inner(self) -> (r: T)
        ensures
            r == self.inner(),
    {
        self.value
    }
}

} // verus!
