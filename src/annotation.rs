//! The leaf count that each link caches.
use vstd::prelude::*;

use crate::walk::{Index, Strategy};
use crate::{Hamt, KvPair};

verus! {

/// Number of leaves in a subtree.
#[derive(Debug, Default, Clone, Copy, PartialEq, Eq, PartialOrd, Ord, Hash)]
pub struct Cardinality(pub u64);

impl From<u64> for Cardinality {
    fn from(c: u64) -> (r: Cardinality)
        ensures
            r.0 == c,
    {
        Cardinality(c)
    }
}

impl vstd::std_specs::convert::FromSpecImpl<u64> for Cardinality {
    open spec fn obeys_from_spec() -> bool {
        true
    }

    open spec fn from_spec(c: u64) -> Cardinality {
        Cardinality(c)
    }
}

impl Cardinality {
    /// The count itself.
    pub fn get(&self) -> (r: u64)
        ensures
            r == self.0,
    {
        self.0
    }

    /// Recomputes the count of a node from its four buckets: an empty one
    /// adds nothing, a leaf adds one, a link adds the count it caches.
    pub(crate) fn from_child<V>(node: &Hamt<V>) -> (r: Cardinality)
        requires
            node.counts_cached(),
            node.leaves().len() <= u64::MAX,
        ensures
            r.0 as int == node.leaves().len(),
    {
        let mut cardinality: u64 = 0;
        let mut i: usize = 0;
        while i < 4
            invariant
                i <= 4,
                node.counts_cached(),
                node.leaves().len() <= u64::MAX,
                cardinality as int == node.rank_before(i as int),
            decreases 4 - i,
        {
            match node.bucket_ref(i) {
                crate::Bucket::Empty => {},
                crate::Bucket::Leaf(_) => cardinality = cardinality + 1,
                crate::Bucket::Link(_, c) => cardinality = cardinality + c.0,
            }
            i = i + 1;
        }
        Cardinality(cardinality)
    }
}

impl<V> Hamt<V> {
    /// The leaf of rank `index`, counting leaves in slot order, depth
    /// first; `None` when the trie holds no more than `index` leaves.
    pub fn nth(&self, index: u64) -> (r: Option<&KvPair<u64, V>>)
        requires
            self.wf(),
        ensures
            r.is_some() == (index < self.leaves().len()),
            r.is_some() ==> *r.unwrap() == self.leaves()[index as int],
    {
        self.descend(Strategy::Rank(Index(index)), Ghost(0))
    }
}

} // verus!
