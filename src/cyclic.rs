//! The powers of one group element, one at a time.

use crate::group::GroupItem;
use vstd::prelude::*;

verus! {

/// Produces `id, g, g², g³, ...` without end: each call of [`Cyclic::next`]
/// gives the current power and moves on to the next one. Whoever uses it
/// knows the order of `g` and stops there.
pub struct Cyclic<T> {
    gen: T,
    current: T,
}

impl<T: GroupItem> Cyclic<T> {
    /// The generator.
    pub closed spec fn gen_spec(&self) -> T {
        self.gen
    }

    /// The power that the next call gives.
    pub closed spec fn current_spec(&self) -> T {
        self.current
    }

    /// Starts at the identity of dimension `dim`.
    pub fn new(dim: usize, gen: T) -> (r: Cyclic<T>)
        ensures
            r.gen_spec() == gen,
            call_ensures(T::id, (dim,), r.current_spec()),
    {
        let current = T::id(dim);
        Cyclic { gen, current }
    }

    /// Gives the current power, and multiplies it by the generator.
    pub fn next(&mut self) -> (r: T)
        ensures
            r == old(self).current_spec(),
            final(self).gen_spec() == old(self).gen_spec(),
            call_ensures(T::combine, (&old(self).current_spec(), &old(self).gen_spec()), final(self).current_spec()),
    {
        let mut next = self.current.combine(&self.gen);
        std::mem::swap(&mut self.current, &mut next);
        next
    }
}

} // verus!
