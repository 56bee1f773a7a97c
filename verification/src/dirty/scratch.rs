use vstd::prelude::*;

use super::hashed::IndexSet;
use super::key::DenseKey;

verus! {

/// Reusable traversal buffers (a stack and a visited set).
///
/// Reusing one scratch value across many traversals avoids repeated
/// allocation in tight loops.
pub struct TraversalScratch<K> {
    /// Pending keys.
    pub stack: Vec<K>,
    /// Indices of keys already visited.
    pub visited: IndexSet,
}

impl<K: DenseKey> TraversalScratch<K> {
    /// Creates empty scratch buffers.
    pub fn new() -> (s: Self)
        ensures
            s.stack@ == Seq::<K>::empty(),
            s.visited.contents() == Set::<usize>::empty(),
    {
        TraversalScratch { stack: Vec::new(), visited: IndexSet::new() }
    }

    /// Clears both buffers.
    pub fn reset(&mut self)
        ensures
            final(self).stack@ == Seq::<K>::empty(),
            final(self).visited.contents() == Set::<usize>::empty(),
    {
        self.stack.clear();
        self.visited.clear();
    }
}

} // verus!
