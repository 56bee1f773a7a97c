//! The boundary through which bindings read and write endpoint values.
use vstd::prelude::*;

use super::endpoint::EndpointKey;
use super::report::BindingWrite;

verus! {

/// What a binding set reads from and writes to when it evaluates bindings.
///
/// Hosts decide how endpoint keys map to their stores, what a binding's
/// write context means for a target write, and which application channels a
/// changed write dirties. Values cross the boundary as `V`, typically a
/// type-erased value.
pub trait BindingHost<K, C, V> {
    /// Whether this host behaves as a plain store of endpoint values: a read
    /// gives `stored`, a write makes the written value the one stored for its
    /// endpoint and leaves the others, and `writes` logs every write with
    /// what it reported. Hosts that do set it to `true`; for the others
    /// nothing is claimed of what they read or are given.
    open spec fn obeys_store_spec(&self) -> bool {
        false
    }

    /// The value a read of `endpoint` gives.
    open spec fn stored(&self, endpoint: EndpointKey<K>) -> Option<V> {
        None
    }

    /// The `(endpoint, value, context, reported)` writes received so far,
    /// oldest first.
    open spec fn writes(&self) -> Seq<(EndpointKey<K>, V, C, BindingWrite)> {
        Seq::empty()
    }

    /// Reads an endpoint, if it has a value.
    fn get_erased(&self, endpoint: EndpointKey<K>) -> (r: Option<V>)
        ensures
            self.obeys_store_spec() ==> r == self.stored(endpoint),
    ;

    /// Writes a target endpoint with the binding's write context and reports
    /// whether the observable value changed.
    fn set_erased(&mut self, endpoint: EndpointKey<K>, value: V, context: C) -> (w: BindingWrite)
        ensures
            old(self).obeys_store_spec() ==> {
                &&& final(self).obeys_store_spec()
                &&& final(self).writes() == old(self).writes().push((endpoint, value, context, w))
                &&& final(self).stored(endpoint) == Some(value)
                &&& forall|e: EndpointKey<K>| e != endpoint ==> #[trigger] final(self).stored(e) == old(self).stored(e)
            },
    ;
}

} // verus!
