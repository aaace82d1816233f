//! Access to stored values in place.
use vstd::prelude::*;

use crate::digest::{digest_of, key_slot, MAX_DEPTH};
use crate::walk::{Index, PathWalker, Step, Strategy};
use crate::{Bucket, Hamt, KvPair};

verus! {

impl<V> Bucket<V> {
    fn leaf_value_mut(&mut self) -> (r: Option<&mut V>)
        ensures
            r.is_some() == (*old(self) is Leaf),
            match r {
                Some(v) => {
                    &&& *v == (*old(self))->Leaf_0.val
                    &&& *final(self) == Bucket::Leaf(
                        KvPair { key: (*old(self))->Leaf_0.key, val: *final(v) },
                    )
                },
                None => *final(self) == *old(self),
            },
    {
        match self {
            Bucket::Leaf(kv) => Some(&mut kv.val),
            _ => None,
        }
    }
}

impl<V> Hamt<V> {
    /// Changing the value of the leaf in slot `s` keeps the node well
    /// formed and changes the map at that key alone.
    proof fn lemma_leaf_value_changed(self, s: int, depth: int, key: u64)
        requires
            self.wf_at(depth),
            0 <= s < 4,
            self.bucket(s) is Leaf,
            self.bucket(s)->Leaf_0.key == key,
        ensures
            forall|after: Hamt<V>|
                #![trigger after.wf_at(depth)]
                #![trigger after.contents()]
                ({
                    &&& after.bucket(s) is Leaf
                    &&& after.bucket(s)->Leaf_0.key == key
                    &&& forall|j: int| 0 <= j < 4 && j != s ==> #[trigger] after.bucket(j) == self.bucket(j)
                }) ==> {
                    &&& after.wf_at(depth)
                    &&& after@ == self@.insert(key, after.bucket(s)->Leaf_0.val)
                    &&& after.leaves().len() == self.leaves().len()
                },
    {
        self.lemma_wf_slots(depth);
        self.lemma_dispatch(depth);
        assert forall|after: Hamt<V>|
            #![trigger after.wf_at(depth)]
            #![trigger after.contents()]
            ({
                &&& after.bucket(s) is Leaf
                &&& after.bucket(s)->Leaf_0.key == key
                &&& forall|j: int| 0 <= j < 4 && j != s ==> #[trigger] after.bucket(j) == self.bucket(j)
            }) implies {
                &&& after.wf_at(depth)
                &&& after@ == self@.insert(key, after.bucket(s)->Leaf_0.val)
                &&& after.leaves().len() == self.leaves().len()
            } by {
            assert(self.bucket(s).contents().contains_key(key));
            assert(key_slot(key, depth) == s);
            assert(after.bucket(s).contents() =~= Map::<u64, V>::empty().insert(
                key,
                after.bucket(s)->Leaf_0.val,
            ));
            assert(after.bucket(s).slots_ok(depth, s));
            after.lemma_replaced(self, s, depth);
            after.lemma_dispatch(depth);
            assert(after@ =~= self@.insert(key, after.bucket(s)->Leaf_0.val));
        }
    }

    /// A node whose link in slot `s` now leads to a well-formed child
    /// with the same leaf count, where one key already held got a new
    /// value, is well formed and holds that key with the new value.
    proof fn lemma_link_value_changed(self, before: Hamt<V>, s: int, depth: int, key: u64, val: V)
        requires
            0 <= s < 4,
            before.wf_at(depth),
            before.bucket(s) is Link,
            before.bucket(s)->Link_0@.contains_key(key),
            self.bucket(s) is Link,
            self.bucket(s)->Link_1 == before.bucket(s)->Link_1,
            self.bucket(s)->Link_0.wf_at(depth + 1),
            self.bucket(s)->Link_0@ == before.bucket(s)->Link_0@.insert(key, val),
            self.bucket(s)->Link_0.leaves().len() == before.bucket(s)->Link_0.leaves().len(),
            forall|j: int| 0 <= j < 4 && j != s ==> #[trigger] self.bucket(j) == before.bucket(j),
        ensures
            self.wf_at(depth),
            self@ == before@.insert(key, val),
            self.leaves().len() == before.leaves().len(),
    {
        before.lemma_wf_slots(depth);
        before.lemma_dispatch(depth);
        assert(before.bucket(s).contents().contains_key(key));
        assert forall|k: u64| #[trigger] self.bucket(s).contents().contains_key(k) implies key_slot(
            k,
            depth,
        ) == s by {
            if k != key {
                assert(before.bucket(s).contents().contains_key(k));
            }
        }
        assert(self.bucket(s).wf_at(depth, s));
        self.lemma_replaced(before, s, depth);
        self.lemma_dispatch(depth);
        assert(self@ =~= before@.insert(key, val));
    }

    fn bucket_mut(&mut self, s: usize) -> (r: &mut Bucket<V>)
        requires
            s < 4,
        ensures
            *r == old(self).bucket(s as int),
            final(self).bucket(s as int) == *final(r),
            forall|j: int| 0 <= j < 4 && j != s ==> #[trigger] final(self).bucket(j) == old(self).bucket(j),
    {
        if s == 0 {
            &mut self.b0
        } else if s == 1 {
            &mut self.b1
        } else if s == 2 {
            &mut self.b2
        } else {
            &mut self.b3
        }
    }

    /// Runs a search from this node, at `depth`, and lends out the value of
    /// the leaf where it ends; the walk is the one `descend` makes.
    #[verifier::spinoff_prover]
    fn descend_mut(&mut self, start: Strategy, Ghost(depth): Ghost<int>) -> (r: Option<&mut V>)
        requires
            old(self).wf_at(depth),
            start.at_depth(depth),
            0 <= depth < MAX_DEPTH,
        ensures
            r.is_some() == start.target(*old(self)) is Some,
            r.is_some() ==> *r.unwrap() == start.target(*old(self))->Some_0.val,
            r.is_some() ==> final(self).wf_at(depth),
            r.is_some() ==> final(self)@ == old(self)@.insert(
                start.target(*old(self))->Some_0.key,
                *final(r.unwrap()),
            ),
            r.is_some() ==> final(self).leaves().len() == old(self).leaves().len(),
            r.is_none() ==> *final(self) == *old(self),
        decreases MAX_DEPTH - depth,
    {
        let ghost fin = *final(self);
        let ghost before = *self;
        let ghost t = start.target(before);
        proof {
            before.lemma_wf_slots(depth);
            before.lemma_dispatch(depth);
        }
        let (step, next) = start.walk(&*self, Ghost(depth));
        match step {
            Step::Found(i) => {
                proof {
                    before.lemma_leaf_value_changed(i as int, depth, t->Some_0.key);
                }
                let bucket = self.bucket_mut(i);
                let r = bucket.leaf_value_mut();
                proof {
                    assert(fin.wf_at(depth));
                }
                r
            },
            Step::Into(i) => {
                proof {
                    before.lemma_bucket_wf(depth, i as int);
                }
                let bucket = self.bucket_mut(i);
                match bucket {
                    Bucket::Link(child, _) => {
                        let ghost child_fin = **final(child);
                        let r = (&mut **child).descend_mut(next, Ghost(depth + 1));
                        proof {
                            let child_before = *before.bucket(i as int)->Link_0;
                            assert(fin.bucket(i as int) is Link);
                            assert(fin.bucket(i as int)->Link_0 == child_fin);
                            if r.is_some() {
                                child_before.lemma_target_held(next, depth + 1);
                                fin.lemma_link_value_changed(
                                    before,
                                    i as int,
                                    depth,
                                    t->Some_0.key,
                                    *final(r.unwrap()),
                                );
                            } else {
                                assert(fin.bucket(i as int) == before.bucket(i as int));
                                fin.lemma_replaced(before, i as int, depth);
                            }
                        }
                        r
                    },
                    _ => None,
                }
            },
            Step::Abort => None,
        }
    }

    /// The value stored under `key`, to be changed in place.
    pub fn get_mut(&mut self, key: &u64) -> (r: Option<&mut V>)
        requires
            old(self).wf(),
        ensures
            r.is_some() == old(self)@.contains_key(*key),
            match r {
                Some(v) => {
                    &&& *v == old(self)@[*key]
                    &&& final(self).wf()
                    &&& final(self)@ == old(self)@.insert(*key, *final(v))
                    &&& final(self).leaves().len() == old(self).leaves().len()
                },
                None => *final(self) == *old(self),
            },
    {
        let digest = digest_of(*key);
        let start = Strategy::Path(PathWalker::new(digest));
        proof {
            self.lemma_path_leaf(0, *key);
        }
        let present = match self.descend(start, Ghost(0)) {
            Some(kv) => kv.key == *key,
            None => false,
        };
        if !present {
            return None;
        }
        self.descend_mut(start, Ghost(0))
    }

    /// The value of the leaf of rank `index`, to be changed in place.
    pub fn nth_mut(&mut self, index: u64) -> (r: Option<&mut V>)
        requires
            old(self).wf(),
        ensures
            r.is_some() == (index < old(self).leaves().len()),
            r.is_some() ==> *r.unwrap() == old(self).leaves()[index as int].val,
            r.is_some() ==> final(self).wf(),
            r.is_some() ==> final(self)@ == old(self)@.insert(
                old(self).leaves()[index as int].key,
                *final(r.unwrap()),
            ),
            r.is_some() ==> final(self).leaves().len() == old(self).leaves().len(),
            r.is_none() ==> *final(self) == *old(self),
    {
        self.descend_mut(Strategy::Rank(Index(index)), Ghost(0))
    }
}

} // verus!
