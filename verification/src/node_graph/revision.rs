use vstd::prelude::*;

verus! {

/// A monotonically advancing document revision (wrapping on overflow).
#[derive(Copy, Clone, Debug, Default, PartialEq, Eq, Structural, PartialOrd, Ord, Hash)]
pub struct Revision(u64);

impl Revision {
    /// The revision number.
    pub closed spec fn value(self) -> u64 {
        self.0
    }

    /// Revision zero.
    pub fn new() -> (r: Self)
        ensures
            r.value() == 0,
    {
        Revision(0)
    }

    /// The revision number.
    pub fn get(self) -> (r: u64)
        ensures
            r == self.value(),
    {
        self.0
    }

    /// Advances to the next revision (wrapping) and returns it.
    pub fn bump(&mut self) -> (r: Self)
        ensures
            final(self).value() == old(self).value().wrapping_add(1),
            r == *final(self),
    {
        self.0 = self.0.wrapping_add(1);
        *self
    }
}

} // verus!
