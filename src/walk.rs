//! Walkers: per-level decisions that steer a descent through the trie.
use vstd::prelude::*;

use crate::digest::{slot, slot_of, MAX_DEPTH};
use crate::{Bucket, Hamt, KvPair};

verus! {

/// What a walker decides at one level.
#[derive(Debug, Clone, Copy, PartialEq, Eq)]
pub enum Step {
    /// The leaf in this slot is the answer.
    Found(usize),
    /// Descend into the link in this slot.
    Into(usize),
    /// Nothing below this node can satisfy the search.
    Abort,
}

/// Follows the path that a digest selects, one slot per depth.
#[derive(Debug, Clone, Copy)]
pub struct PathWalker {
    pub digest: u64,
    pub depth: usize,
}

impl PathWalker {
    /// A walker at the root on the path of `digest`.
    pub fn new(digest: u64) -> (r: Self)
        ensures
            r.digest == digest,
            r.depth == 0,
    {
        PathWalker { digest, depth: 0 }
    }

    /// Looks at the slot of the current depth: a leaf there ends the walk,
    /// a link is entered, an empty bucket means the path ends.
    pub(crate) fn walk<V>(&mut self, node: &Hamt<V>) -> (r: Step)
        requires
            old(self).depth < MAX_DEPTH,
        ensures
            final(self).digest == old(self).digest,
            final(self).depth == old(self).depth + 1,
            ({
                let s = slot_of(old(self).digest, old(self).depth as int);
                match node.bucket(s) {
                    Bucket::Leaf(_) => r == Step::Found(s as usize),
                    Bucket::Link(_, _) => r == Step::Into(s as usize),
                    Bucket::Empty => r == Step::Abort,
                }
            }),
    {
        let s = slot(self.digest, self.depth);
        self.depth = self.depth + 1;
        match node.bucket_ref(s) {
            Bucket::Leaf(_) => Step::Found(s),
            Bucket::Link(_, _) => Step::Into(s),
            Bucket::Empty => Step::Abort,
        }
    }
}

/// Selects the leaf of a given rank, counting leaves left to right with
/// the counts that links cache.
#[derive(Debug, Clone, Copy)]
pub(crate) struct Index(pub(crate) u64);

impl Index {
    /// Scans the four buckets in order: a leaf takes one rank, a link as
    /// many as it caches; the slot where the remaining rank falls is the
    /// answer, or is entered with what remains of the rank.
    pub(crate) fn walk<V>(&mut self, node: &Hamt<V>) -> (r: Step)
        requires
            node.counts_cached(),
        ensures
            (match r {
                Step::Found(i) => {
                    &&& i < 4
                    &&& node.bucket(i as int) is Leaf
                    &&& old(self).0 == node.rank_before(i as int)
                    &&& final(self).0 == old(self).0 - node.rank_before(i as int)
                },
                Step::Into(i) => {
                    &&& i < 4
                    &&& node.bucket(i as int) is Link
                    &&& node.rank_before(i as int) <= old(self).0 < node.rank_before(i as int + 1)
                    &&& final(self).0 == old(self).0 - node.rank_before(i as int)
                },
                Step::Abort => {
                    &&& old(self).0 >= node.leaves().len()
                    &&& final(self).0 == old(self).0 - node.leaves().len()
                },
            }),
    {
        let ghost start = self.0;
        let mut i: usize = 0;
        while i < 4
            invariant
                i <= 4,
                node.counts_cached(),
                start == old(self).0,
                start >= node.rank_before(i as int),
                self.0 == start - node.rank_before(i as int),
            decreases 4 - i,
        {
            assert(node.rank_before(i as int + 1) == node.rank_before(i as int) + node.bucket(
                i as int,
            ).leaves().len());
            match node.bucket_ref(i) {
                Bucket::Leaf(_) => {
                    if self.0 == 0 {
                        return Step::Found(i);
                    }
                    self.0 = self.0 - 1;
                },
                Bucket::Link(_, c) => {
                    if self.0 < c.0 {
                        return Step::Into(i);
                    }
                    self.0 = self.0 - c.0;
                },
                Bucket::Empty => {},
            }
            i = i + 1;
        }
        Step::Abort
    }
}

/// A search strategy: the decision that steers the descent at each level.
#[derive(Debug, Clone, Copy)]
pub(crate) enum Strategy {
    /// Follow the path of a digest.
    Path(PathWalker),
    /// Select the leaf of a rank.
    Rank(Index),
}

impl Strategy {
    /// One level of the search on `node`: the step taken and the walker to
    /// use on the next level. The search ends at the same leaf from the
    /// child that is entered as from this node.
    pub(crate) fn walk<V>(self, node: &Hamt<V>, Ghost(depth): Ghost<int>) -> (r: (Step, Strategy))
        requires
            node.wf_at(depth),
            self.at_depth(depth),
            0 <= depth < MAX_DEPTH,
        ensures
            r.1.at_depth(depth + 1),
            (match r.0 {
                Step::Found(i) => {
                    &&& i < 4
                    &&& node.bucket(i as int) is Leaf
                    &&& self.target(*node) == Some(node.bucket(i as int)->Leaf_0)
                },
                Step::Into(i) => {
                    &&& i < 4
                    &&& node.bucket(i as int) is Link
                    &&& r.1.target(*node.bucket(i as int)->Link_0) == self.target(*node)
                },
                Step::Abort => self.target(*node) is None,
            }),
    {
        proof {
            node.lemma_wf_slots(depth);
        }
        match self {
            Strategy::Path(w) => {
                let mut w = w;
                let step = w.walk(node);
                proof {
                    let s = slot_of(w.digest, depth);
                    assert(node.path_leaf(w.digest, depth) == node.bucket(s).path_leaf(
                        w.digest,
                        depth,
                    ));
                }
                (step, Strategy::Path(w))
            },
            Strategy::Rank(ix) => {
                let mut ix = ix;
                let ghost rank = ix.0;
                let step = ix.walk(node);
                proof {
                    match step {
                        Step::Found(i) => {
                            node.lemma_leaves_at(i as int, 0);
                        },
                        Step::Into(i) => {
                            node.lemma_leaves_at(i as int, ix.0 as int);
                        },
                        Step::Abort => {},
                    }
                }
                (step, Strategy::Rank(ix))
            },
        }
    }
}

impl<V> Hamt<V> {
    /// Runs a search from this node, at `depth`, down to the leaf where it
    /// ends: each level asks the strategy for a step, enters the link it
    /// names, and stops at a leaf or when the strategy gives up.
    pub(crate) fn descend(&self, start: Strategy, Ghost(depth): Ghost<int>) -> (r: Option<
        &KvPair<u64, V>,
    >)
        requires
            self.wf_at(depth),
            start.at_depth(depth),
            0 <= depth < MAX_DEPTH,
        ensures
            r.is_some() == start.target(*self) is Some,
            r.is_some() ==> *r.unwrap() == start.target(*self)->Some_0,
    {
        let ghost goal = start.target(*self);
        let mut node: &Hamt<V> = self;
        let mut strategy = start;
        let ghost mut d: int = depth;
        loop
            invariant
                node.wf_at(d),
                strategy.at_depth(d),
                0 <= d < MAX_DEPTH,
                strategy.target(*node) == goal,
                goal == start.target(*self),
            decreases MAX_DEPTH - d,
        {
            let (step, next) = strategy.walk(node, Ghost(d));
            match step {
                Step::Found(i) => {
                    match node.bucket_ref(i) {
                        Bucket::Leaf(kv) => {
                            return Some(kv);
                        },
                        _ => {
                            return None;
                        },
                    }
                },
                Step::Into(i) => {
                    proof {
                        node.lemma_bucket_wf(d, i as int);
                    }
                    match node.bucket_ref(i) {
                        Bucket::Link(child, _) => {
                            node = &**child;
                            strategy = next;
                            proof {
                                d = d + 1;
                            }
                        },
                        _ => {
                            return None;
                        },
                    }
                },
                Step::Abort => {
                    return None;
                },
            }
        }
    }
}

} // verus!
