//! A hash array mapped trie with four-way branching, whose links cache the
//! number of leaves beneath them.
//!
//! Keys are `u64` values. A key's SeaHash digest, offset by the depth and
//! hashed again, selects one of four slots at each level. A slot holds
//! nothing, one key/value leaf, or a link to a child node together with the
//! number of leaves below it. Inserting onto an occupied leaf splits it
//! into a new node; removing down to a single leaf collapses that node back
//! into its parent, so no link ever leads to fewer than two leaves. The
//! cached counts give rank queries (`nth`) without visiting unrelated
//! subtrees.
//!
//! The view of a trie is a `Map<u64, V>`; `leaves` lists its pairs in slot
//! order, depth first, which is the order of `nth` and of `keys`.
use vstd::prelude::*;

pub mod annotation;
pub mod digest;
pub mod laws;
pub mod value;
pub mod walk;

use crate::annotation::Cardinality;
use crate::walk::{PathWalker, Strategy};
use crate::digest::{
    digest_of, first_divergence, hash_u64, key_slot, paths_collide, slot, slot_of, sea_digest,
    MAX_DEPTH,
};

verus! {

/// The leaves `s` list the pairs of `m` exactly: each key once, with its
/// value, and every key of `m` among them.
pub open spec fn lists_exactly<V>(s: Seq<KvPair<u64, V>>, m: Map<u64, V>) -> bool {
    &&& forall|i: int, j: int| 0 <= i < j < s.len() ==> #[trigger] s[i].key != #[trigger] s[j].key
    &&& forall|i: int|
        0 <= i < s.len() ==> m.contains_key(#[trigger] s[i].key) && m[s[i].key] == s[i].val
    &&& forall|k: u64| #[trigger]
        m.contains_key(k) ==> exists|i: int| 0 <= i < s.len() && #[trigger] s[i].key == k
}

/// The keys of a sequence of leaves, in order.
pub open spec fn keys_of<V>(s: Seq<KvPair<u64, V>>) -> Seq<u64> {
    s.map_values(|kv: KvPair<u64, V>| kv.key)
}

/// The value held under `key` in `m`, if any.
pub open spec fn lookup<V>(m: Map<u64, V>, key: u64) -> Option<V> {
    if m.contains_key(key) {
        Some(m[key])
    } else {
        None
    }
}

/// `key` can be stored beside the keys of `m`: it is there already, or
/// its path parts from the path of every other key at some depth that the
/// depth counter can reach.
pub open spec fn fits<V>(m: Map<u64, V>, key: u64) -> bool {
    m.contains_key(key) || forall|k: u64| #[trigger]
        m.contains_key(k) && k != key ==> !paths_collide(k, key)
}

/// The map after storing `val` under `key`: unchanged where the key does
/// not fit.
pub open spec fn after_insert<V>(m: Map<u64, V>, key: u64, val: V) -> Map<u64, V> {
    if fits(m, key) {
        m.insert(key, val)
    } else {
        m
    }
}

/// A key and its value, stored together at a leaf.
#[derive(Debug, Default, Clone, PartialEq, Eq, Hash)]
pub struct KvPair<K, V> {
    pub key: K,
    pub val: V,
}

/// One of the four slots of a node.
#[derive(Debug)]
enum Bucket<V> {
    Empty,
    Leaf(KvPair<u64, V>),
    /// A child node and the number of leaves beneath it.
    Link(Box<Hamt<V>>, Cardinality),
}

/// A node of the trie; the root node is the whole map.
#[derive(Debug)]
pub struct Hamt<V> {
    b0: Bucket<V>,
    b1: Bucket<V>,
    b2: Bucket<V>,
    b3: Bucket<V>,
}

impl<V> Bucket<V> {
    /// The key/value pairs held beneath this bucket.
    spec fn contents(self) -> Map<u64, V>
        decreases self,
    {
        match self {
            Bucket::Empty => Map::empty(),
            Bucket::Leaf(kv) => Map::empty().insert(kv.key, kv.val),
            Bucket::Link(node, _) => node.contents(),
        }
    }

    /// The leaves beneath this bucket, left to right, depth first.
    spec fn leaves(self) -> Seq<KvPair<u64, V>>
        decreases self,
    {
        match self {
            Bucket::Empty => Seq::empty(),
            Bucket::Leaf(kv) => seq![kv],
            Bucket::Link(node, _) => node.leaves(),
        }
    }

    /// Every key held in this bucket selects slot `i` at `depth`.
    spec fn slots_ok(self, depth: int, i: int) -> bool {
        forall|k: u64| #[trigger] self.contents().contains_key(k) ==> key_slot(k, depth) == i
    }

    /// The bucket is well formed as slot `i` at `depth`: its keys select
    /// that slot, and a link leads to a well-formed node one level down,
    /// holds at least two leaves and caches their exact number.
    spec fn wf_at(self, depth: int, i: int) -> bool
        decreases self,
    {
        &&& self.slots_ok(depth, i)
        &&& match self {
            Bucket::Link(node, c) => {
                &&& depth + 1 < MAX_DEPTH
                &&& node.wf_at(depth + 1)
                &&& c.0 as int == node.leaves().len()
                &&& node.leaves().len() >= 2
            },
            _ => true,
        }
    }
}

impl<V> Bucket<V> {
    /// The leaf that the path of `digest` reaches from this bucket, which
    /// sits in a node at `depth`.
    spec fn path_leaf(self, digest: u64, depth: int) -> Option<KvPair<u64, V>>
        decreases self,
    {
        match self {
            Bucket::Empty => None,
            Bucket::Leaf(kv) => Some(kv),
            Bucket::Link(node, _) => node.path_leaf(digest, depth + 1),
        }
    }

    /// Every link at or below this bucket caches the exact number of
    /// leaves beneath it.
    spec fn counts_exact(self) -> bool
        decreases self,
    {
        match self {
            Bucket::Link(node, c) => c.0 as int == node.leaves().len() && node.counts_exact(),
            _ => true,
        }
    }

    proof fn lemma_counts_exact_bucket(b: Bucket<V>, depth: int, i: int)
        requires
            b.wf_at(depth, i),
        ensures
            b.counts_exact(),
        decreases b, 1int,
    {
        if let Bucket::Link(node, _) = b {
            node.lemma_counts_exact_at(depth + 1);
        }
    }

    fn collect_keys(&self, out: &mut Vec<u64>)
        ensures
            final(out)@ == old(out)@ + keys_of(self.leaves()),
        decreases self,
    {
        match self {
            Bucket::Empty => {
                assert(keys_of(self.leaves()) =~= Seq::<u64>::empty());
                assert(out@ =~= out@ + keys_of(self.leaves()));
            },
            Bucket::Leaf(kv) => {
                out.push(kv.key);
                assert(keys_of(self.leaves()) =~= seq![kv.key]);
            },
            Bucket::Link(node, _) => {
                node.collect_keys(out);
            },
        }
    }

    proof fn lemma_lists_exactly_bucket(b: Bucket<V>, depth: int, i: int)
        requires
            b.wf_at(depth, i),
        ensures
            lists_exactly(b.leaves(), b.contents()),
        decreases b, 1int,
    {
        match b {
            Bucket::Link(node, _) => {
                node.lemma_lists_exactly_at(depth + 1);
            },
            Bucket::Leaf(kv) => {
                assert(b.leaves()[0].key == kv.key);
            },
            Bucket::Empty => {},
        }
    }
}

impl<V> Hamt<V> {
    spec fn bucket(self, i: int) -> Bucket<V> {
        if i == 0 {
            self.b0
        } else if i == 1 {
            self.b1
        } else if i == 2 {
            self.b2
        } else {
            self.b3
        }
    }

    /// The key/value pairs held in the trie below this node.
    pub open(crate) spec fn contents(self) -> Map<u64, V>
        decreases self,
    {
        self.b0.contents().union_prefer_right(self.b1.contents()).union_prefer_right(
            self.b2.contents(),
        ).union_prefer_right(self.b3.contents())
    }

    /// The leaves of the trie in slot order, depth first: the order of
    /// iteration and of ranks.
    pub open(crate) spec fn leaves(self) -> Seq<KvPair<u64, V>>
        decreases self,
    {
        self.b0.leaves() + self.b1.leaves() + self.b2.leaves() + self.b3.leaves()
    }

    spec fn slots_ok(self, depth: int) -> bool {
        &&& self.b0.slots_ok(depth, 0)
        &&& self.b1.slots_ok(depth, 1)
        &&& self.b2.slots_ok(depth, 2)
        &&& self.b3.slots_ok(depth, 3)
    }

    /// Each link of this node caches the leaf count of its child.
    spec fn counts_cached(self) -> bool {
        forall|i: int|
            0 <= i < 4 ==> match #[trigger] self.bucket(i) {
                Bucket::Link(node, c) => c.0 as int == node.leaves().len(),
                _ => true,
            }
    }

    /// Number of leaves in the buckets before slot `i`.
    spec fn rank_before(self, i: int) -> int {
        if i <= 0 {
            0
        } else if i == 1 {
            self.b0.leaves().len() as int
        } else if i == 2 {
            (self.b0.leaves().len() + self.b1.leaves().len()) as int
        } else if i == 3 {
            (self.b0.leaves().len() + self.b1.leaves().len() + self.b2.leaves().len()) as int
        } else {
            self.leaves().len() as int
        }
    }

    /// The node is well formed as a node at `depth`.
    spec fn wf_at(self, depth: int) -> bool
        decreases self,
    {
        &&& self.b0.wf_at(depth, 0)
        &&& self.b1.wf_at(depth, 1)
        &&& self.b2.wf_at(depth, 2)
        &&& self.b3.wf_at(depth, 3)
    }

    /// The trie is well formed as a root: every key lies on its own path,
    /// every link caches the exact leaf count of its child, and no link
    /// leads to fewer than two leaves.
    pub open(crate) spec fn wf(self) -> bool {
        self.wf_at(0)
    }

    /// A key of the node is held in the bucket of the slot that it selects.
    proof fn lemma_dispatch(self, depth: int)
        requires
            self.slots_ok(depth),
        ensures
            forall|k: u64|
                #![trigger self.contents().contains_key(k)]
                #![trigger self.bucket(key_slot(k, depth)).contents().contains_key(k)]
                {
                    &&& self.contents().contains_key(k) == self.bucket(
                        key_slot(k, depth),
                    ).contents().contains_key(k)
                    &&& self.contents().contains_key(k) ==> self.contents()[k] == self.bucket(
                        key_slot(k, depth),
                    ).contents()[k]
                },
    {
        assert forall|k: u64|
            #![trigger self.contents().contains_key(k)]
            #![trigger self.bucket(key_slot(k, depth)).contents().contains_key(k)]
            {
                &&& self.contents().contains_key(k) == self.bucket(
                    key_slot(k, depth),
                ).contents().contains_key(k)
                &&& self.contents().contains_key(k) ==> self.contents()[k] == self.bucket(
                    key_slot(k, depth),
                ).contents()[k]
            } by {
            let s = key_slot(k, depth);
            assert(0 <= s < 4);
            if self.b0.contents().contains_key(k) {
                assert(s == 0);
            }
            if self.b1.contents().contains_key(k) {
                assert(s == 1);
            }
            if self.b2.contents().contains_key(k) {
                assert(s == 2);
            }
            if self.b3.contents().contains_key(k) {
                assert(s == 3);
            }
        }
    }

    /// A node that differs from a well-formed one in slot `s` alone, where
    /// it holds a well-formed bucket, is well formed.
    proof fn lemma_replaced(self, before: Hamt<V>, s: int, depth: int)
        requires
            0 <= s < 4,
            before.wf_at(depth),
            self.bucket(s).wf_at(depth, s),
            forall|j: int| 0 <= j < 4 && j != s ==> #[trigger] self.bucket(j) == before.bucket(j),
        ensures
            self.wf_at(depth),
            self.slots_ok(depth),
            self.leaves().len() == before.leaves().len() - before.bucket(s).leaves().len()
                + self.bucket(s).leaves().len(),
            self.bucket(s) == before.bucket(s) ==> self == before,
    {
        assert(self.bucket(0) == self.b0 && before.bucket(0) == before.b0);
        assert(self.bucket(1) == self.b1 && before.bucket(1) == before.b1);
        assert(self.bucket(2) == self.b2 && before.bucket(2) == before.b2);
        assert(self.bucket(3) == self.b3 && before.bucket(3) == before.b3);
    }

    /// Whether a key fits beside the keys of a node is decided in the
    /// bucket of its slot: the keys of the other buckets part from it at
    /// `depth` already.
    proof fn lemma_fits_in_bucket(self, depth: int, key: u64)
        requires
            self.slots_ok(depth),
            0 <= depth < MAX_DEPTH,
        ensures
            fits(self@, key) == fits(self.bucket(key_slot(key, depth)).contents(), key),
            self@.contains_key(key) == self.bucket(key_slot(key, depth)).contents().contains_key(
                key,
            ),
    {
        self.lemma_dispatch(depth);
        let s = key_slot(key, depth);
        let b = self.bucket(s).contents();
        if !self@.contains_key(key) {
            if fits(b, key) {
                assert forall|k: u64| #[trigger]
                    self@.contains_key(k) && k != key implies !paths_collide(k, key) by {
                    if key_slot(k, depth) == s {
                        assert(b.contains_key(k));
                    } else {
                        assert(key_slot(k, depth) != key_slot(key, depth));
                    }
                }
            }
            if fits(self@, key) {
                assert forall|k: u64| #[trigger]
                    b.contains_key(k) && k != key implies !paths_collide(k, key) by {
                    assert(self@.contains_key(k));
                }
            }
        }
    }

    proof fn lemma_wf_slots(self, depth: int)
        requires
            self.wf_at(depth),
        ensures
            self.slots_ok(depth),
            self.counts_cached(),
    {
        assert(self.bucket(0) == self.b0);
        assert(self.bucket(1) == self.b1);
        assert(self.bucket(2) == self.b2);
        assert(self.bucket(3) == self.b3);
    }

    fn bucket_ref(&self, i: usize) -> (r: &Bucket<V>)
        requires
            i < 4,
        ensures
            *r == self.bucket(i as int),
    {
        if i == 0 {
            &self.b0
        } else if i == 1 {
            &self.b1
        } else if i == 2 {
            &self.b2
        } else {
            &self.b3
        }
    }

    /// Creates a new empty trie.
    pub fn new() -> (r: Self)
        ensures
            r.wf(),
            r@ == Map::<u64, V>::empty(),
            r.leaves().len() == 0,
    {
        let r = Hamt { b0: Bucket::Empty, b1: Bucket::Empty, b2: Bucket::Empty, b3: Bucket::Empty };
        assert(r@ =~= Map::<u64, V>::empty());
        r
    }

    /// Builds the node at `depth` that holds two leaves whose paths agree
    /// from `depth` up to `j` and part at `j`.
    #[verifier::spinoff_prover]
    fn split(
        a: KvPair<u64, V>,
        da: u64,
        b: KvPair<u64, V>,
        db: u64,
        depth: usize,
        j: usize,
    ) -> (r: Hamt<V>)
        requires
            da == sea_digest(a.key),
            db == sea_digest(b.key),
            depth <= j < MAX_DEPTH,
            slot_of(da, j as int) != slot_of(db, j as int),
            forall|t: int| depth <= t < j ==> #[trigger] slot_of(da, t) == slot_of(db, t),
        ensures
            r.wf_at(depth as int),
            r@ == Map::<u64, V>::empty().insert(a.key, a.val).insert(b.key, b.val),
            r.leaves().len() == 2,
        decreases j - depth,
    {
        let mut node = Hamt::new();
        let sa = slot(da, depth);
        let ghost ka = a.key;
        let ghost kb = b.key;
        let ghost va = a.val;
        let ghost vb = b.val;
        let ghost empty = node;
        assert(ka != kb);
        if depth == j {
            let sb = slot(db, depth);
            node.put_bucket(sa, Bucket::Leaf(a));
            let ghost one = node;
            proof {
                assert(node.bucket(sa as int).slots_ok(depth as int, sa as int));
                node.lemma_replaced(empty, sa as int, depth as int);
            }
            node.put_bucket(sb, Bucket::Leaf(b));
            proof {
                assert(node.bucket(sb as int).slots_ok(depth as int, sb as int));
                node.lemma_replaced(one, sb as int, depth as int);
                node.lemma_dispatch(depth as int);
                assert(node@ =~= Map::<u64, V>::empty().insert(ka, va).insert(kb, vb));
            }
        } else {
            assert(slot_of(da, depth as int) == slot_of(db, depth as int));
            let inner = Hamt::split(a, da, b, db, depth + 1, j);
            proof {
                assert(key_slot(kb, depth as int) == sa);
                assert(forall|k: u64| #[trigger] inner@.contains_key(k) ==> k == ka || k == kb);
            }
            node.put_bucket(sa, Bucket::Link(Box::new(inner), Cardinality(2)));
            proof {
                assert(node.bucket(sa as int).slots_ok(depth as int, sa as int));
                node.lemma_replaced(empty, sa as int, depth as int);
                node.lemma_dispatch(depth as int);
                assert(node@ =~= Map::<u64, V>::empty().insert(ka, va).insert(kb, vb));
            }
        }
        node
    }

    #[verifier::spinoff_prover]
    fn insert_at(&mut self, key: u64, val: V, digest: u64, depth: usize) -> (r: Option<V>)
        requires
            old(self).wf_at(depth as int),
            depth < MAX_DEPTH,
            digest == sea_digest(key),
            forall|k: u64, d: int|
                old(self)@.contains_key(k) && 0 <= d < depth ==> #[trigger] key_slot(k, d)
                    == key_slot(key, d),
            old(self).leaves().len() < u64::MAX,
        ensures
            final(self).wf_at(depth as int),
            r == lookup(old(self)@, key),
            final(self)@ == after_insert(old(self)@, key, val),
            final(self).leaves().len() == old(self).leaves().len() + (if old(self)@.contains_key(
                key,
            ) || !fits(old(self)@, key) {
                0int
            } else {
                1int
            }),
        decreases MAX_DEPTH - depth,
    {
        let ghost before = *self;
        let s = slot(digest, depth);
        proof {
            before.lemma_wf_slots(depth as int);
            before.lemma_dispatch(depth as int);
            before.lemma_fits_in_bucket(depth as int, key);
        }
        let bucket = self.take_bucket(s);
        match bucket {
            Bucket::Empty => {
                self.put_bucket(s, Bucket::Leaf(KvPair { key, val }));
                proof {
                    self.lemma_replaced(before, s as int, depth as int);
                    self.lemma_dispatch(depth as int);
                    assert(self@ =~= before@.insert(key, val));
                }
                None
            },
            Bucket::Leaf(kv) => {
                if kv.key == key {
                    self.put_bucket(s, Bucket::Leaf(KvPair { key, val }));
                    proof {
                        self.lemma_replaced(before, s as int, depth as int);
                        self.lemma_dispatch(depth as int);
                        assert(self@ =~= before@.insert(key, val));
                    }
                    Some(kv.val)
                } else {
                    let old_digest = hash_u64(kv.key);
                    let ghost old_key = kv.key;
                    let ghost leaf = Map::<u64, V>::empty().insert(kv.key, kv.val);
                    assert(before@.contains_key(old_key));
                    assert(key_slot(old_key, depth as int) == key_slot(key, depth as int));
                    match first_divergence(digest, old_digest, depth + 1) {
                        Some(j) => {
                            let node = Hamt::split(
                                KvPair { key, val },
                                digest,
                                kv,
                                old_digest,
                                depth + 1,
                                j,
                            );
                            self.put_bucket(s, Bucket::Link(Box::new(node), Cardinality(2)));
                            proof {
                                assert(key_slot(old_key, j as int) != key_slot(key, j as int));
                                assert(fits(leaf, key));
                                self.lemma_replaced(before, s as int, depth as int);
                                self.lemma_dispatch(depth as int);
                                assert(self@ =~= before@.insert(key, val));
                            }
                            None
                        },
                        None => {
                            self.put_bucket(s, Bucket::Leaf(kv));
                            proof {
                                assert forall|d: int| 0 <= d < MAX_DEPTH implies #[trigger] key_slot(
                                    old_key,
                                    d,
                                ) == key_slot(key, d) by {
                                    if d > depth {
                                        assert(slot_of(digest, d) == slot_of(old_digest, d));
                                    }
                                }
                                assert(paths_collide(old_key, key));
                                assert(!fits(leaf, key));
                                self.lemma_replaced(before, s as int, depth as int);
                            }
                            None
                        },
                    }
                }
            },
            Bucket::Link(mut child, _) => {
                let ghost child_before = *child;
                proof {
                    assert(before.bucket(s as int).contents() == child_before@);
                }
                let r = (&mut *child).insert_at(key, val, digest, depth + 1);
                let c = Cardinality::from_child(&*child);
                self.put_bucket(s, Bucket::Link(child, c));
                proof {
                    self.lemma_replaced(before, s as int, depth as int);
                    self.lemma_dispatch(depth as int);
                    if fits(child_before@, key) {
                        assert(self@ =~= before@.insert(key, val));
                    } else {
                        assert(self@ =~= before@);
                    }
                }
                r
            },
        }
    }

    /// Stores `val` under `key`, and returns the value that was there.
    /// A key whose path agrees with the path of another stored key at every
    /// depth the counter can reach (as happens when their digests are
    /// equal) cannot be told apart from it: such a pair is not stored and
    /// the map stays as it was.
    pub fn insert(&mut self, key: u64, val: V) -> (r: Option<V>)
        requires
            old(self).wf(),
            old(self).leaves().len() < u64::MAX,
        ensures
            final(self).wf(),
            final(self).counts_exact(),
            r == lookup(old(self)@, key),
            final(self)@ == after_insert(old(self)@, key, val),
            final(self).leaves().len() == old(self).leaves().len() + (if old(self)@.contains_key(
                key,
            ) || !fits(old(self)@, key) {
                0int
            } else {
                1int
            }),
    {
        let digest = digest_of(key);
        let r = self.insert_at(key, val, digest, 0);
        proof {
            self.lemma_counts_exact_at(0);
        }
        r
    }

    /// Exactly one bucket holds a leaf and the other three are empty.
    pub open(crate) spec fn is_single_leaf(self) -> bool {
        ||| (self.b0 is Leaf && self.b1 is Empty && self.b2 is Empty && self.b3 is Empty)
        ||| (self.b0 is Empty && self.b1 is Leaf && self.b2 is Empty && self.b3 is Empty)
        ||| (self.b0 is Empty && self.b1 is Empty && self.b2 is Leaf && self.b3 is Empty)
        ||| (self.b0 is Empty && self.b1 is Empty && self.b2 is Empty && self.b3 is Leaf)
    }

    /// All four buckets are empty.
    pub open(crate) spec fn is_all_empty(self) -> bool {
        &&& self.b0 is Empty
        &&& self.b1 is Empty
        &&& self.b2 is Empty
        &&& self.b3 is Empty
    }

    /// A well-formed node with one leaf holds it directly, and one with
    /// none is empty: no link leads to fewer than two leaves.
    proof fn lemma_small_node(self, depth: int)
        requires
            self.wf_at(depth),
        ensures
            self.leaves().len() == 1 ==> self.is_single_leaf(),
            self.leaves().len() == 0 ==> self.is_all_empty(),
    {
        assert(self.b0.wf_at(depth, 0));
        assert(self.b1.wf_at(depth, 1));
        assert(self.b2.wf_at(depth, 2));
        assert(self.b3.wf_at(depth, 3));
    }

    /// Takes out the single leaf of a node that holds nothing else.
    fn collapse(&mut self) -> (r: Option<KvPair<u64, V>>)
        ensures
            r.is_some() == old(self).is_single_leaf(),
            r.is_some() ==> {
                &&& old(self).leaves() == seq![r.unwrap()]
                &&& old(self)@ == Map::<u64, V>::empty().insert(r.unwrap().key, r.unwrap().val)
            },
            r.is_some() ==> final(self).is_all_empty(),
            r.is_none() ==> *final(self) == *old(self),
    {
        let e0 = matches!(self.b0, Bucket::Empty);
        let e1 = matches!(self.b1, Bucket::Empty);
        let e2 = matches!(self.b2, Bucket::Empty);
        let e3 = matches!(self.b3, Bucket::Empty);
        let l0 = matches!(self.b0, Bucket::Leaf(_));
        let l1 = matches!(self.b1, Bucket::Leaf(_));
        let l2 = matches!(self.b2, Bucket::Leaf(_));
        let l3 = matches!(self.b3, Bucket::Leaf(_));
        let s: usize = if l0 && e1 && e2 && e3 {
            0
        } else if e0 && l1 && e2 && e3 {
            1
        } else if e0 && e1 && l2 && e3 {
            2
        } else if e0 && e1 && e2 && l3 {
            3
        } else {
            return None;
        };
        let ghost before = *self;
        match self.take_bucket(s) {
            Bucket::Leaf(kv) => {
                proof {
                    assert(before.leaves() =~= seq![kv]);
                    assert(before@ =~= Map::<u64, V>::empty().insert(kv.key, kv.val));
                    assert(self.bucket(0) == self.b0 && before.bucket(0) == before.b0);
                    assert(self.bucket(1) == self.b1 && before.bucket(1) == before.b1);
                    assert(self.bucket(2) == self.b2 && before.bucket(2) == before.b2);
                    assert(self.bucket(3) == self.b3 && before.bucket(3) == before.b3);
                }
                Some(kv)
            },
            other => {
                self.put_bucket(s, other);
                None
            },
        }
    }

    #[verifier::spinoff_prover]
    fn remove_at(&mut self, key: &u64, digest: u64, depth: usize) -> (r: Option<V>)
        requires
            old(self).wf_at(depth as int),
            depth < MAX_DEPTH,
            digest == sea_digest(*key),
        ensures
            final(self).wf_at(depth as int),
            r == lookup(old(self)@, *key),
            final(self)@ == old(self)@.remove(*key),
            final(self).leaves().len() == old(self).leaves().len() - (if old(self)@.contains_key(
                *key,
            ) {
                1int
            } else {
                0int
            }),
            !old(self)@.contains_key(*key) ==> *final(self) == *old(self),
        decreases MAX_DEPTH - depth,
    {
        let ghost before = *self;
        let s = slot(digest, depth);
        proof {
            before.lemma_wf_slots(depth as int);
            before.lemma_dispatch(depth as int);
        }
        let bucket = self.take_bucket(s);
        match bucket {
            Bucket::Empty => {
                proof {
                    self.lemma_replaced(before, s as int, depth as int);
                    assert(before@ =~= before@.remove(*key));
                }
                None
            },
            Bucket::Leaf(kv) => {
                if kv.key == *key {
                    proof {
                        assert(self.bucket(s as int).slots_ok(depth as int, s as int));
                        self.lemma_replaced(before, s as int, depth as int);
                        self.lemma_dispatch(depth as int);
                        assert(self@ =~= before@.remove(*key));
                    }
                    Some(kv.val)
                } else {
                    self.put_bucket(s, Bucket::Leaf(kv));
                    proof {
                        self.lemma_replaced(before, s as int, depth as int);
                        assert(before@ =~= before@.remove(*key));
                    }
                    None
                }
            },
            Bucket::Link(mut child, _) => {
                let ghost child_before = *child;
                proof {
                    assert(before.bucket(s as int).contents() == child_before@);
                }
                let r = (&mut *child).remove_at(key, digest, depth + 1);
                let ghost child_after = *child;
                proof {
                    child_after.lemma_small_node(depth + 1);
                }
                match (&mut *child).collapse() {
                    Some(kv) => {
                        self.put_bucket(s, Bucket::Leaf(kv));
                    },
                    None => {
                        proof {
                            child_after.lemma_wf_slots(depth + 1);
                        }
                        let c = Cardinality::from_child(&*child);
                        self.put_bucket(s, Bucket::Link(child, c));
                    },
                }
                proof {
                    if !before@.contains_key(*key) {
                        assert(child_before.leaves().len() >= 2);
                        assert(self.bucket(s as int) == before.bucket(s as int));
                    }
                    assert(self.bucket(s as int).contents() == child_after@);
                    assert(self.bucket(s as int).slots_ok(depth as int, s as int));
                    self.lemma_replaced(before, s as int, depth as int);
                    self.lemma_dispatch(depth as int);
                    assert(self@ =~= before@.remove(*key));
                }
                r
            },
        }
    }

    /// Removes `key` and returns its value, if it was there.
    pub fn remove(&mut self, key: &u64) -> (r: Option<V>)
        requires
            old(self).wf(),
        ensures
            final(self).wf(),
            final(self).counts_exact(),
            r == lookup(old(self)@, *key),
            final(self)@ == old(self)@.remove(*key),
            final(self).leaves().len() == old(self).leaves().len() - (if old(self)@.contains_key(
                *key,
            ) {
                1int
            } else {
                0int
            }),
            !old(self)@.contains_key(*key) ==> *final(self) == *old(self),
    {
        let digest = digest_of(*key);
        let r = self.remove_at(key, digest, 0);
        proof {
            self.lemma_counts_exact_at(0);
        }
        r
    }

    /// The leaves of bucket `i` stand in the leaves of the node from rank
    /// `rank_before(i)` on.
    proof fn lemma_leaves_at(self, i: int, t: int)
        requires
            0 <= i < 4,
            0 <= t < self.bucket(i).leaves().len(),
        ensures
            self.rank_before(i) + t < self.rank_before(i + 1) <= self.leaves().len(),
            self.leaves()[self.rank_before(i) + t] == self.bucket(i).leaves()[t],
    {
        let l0 = self.b0.leaves();
        let l1 = self.b1.leaves();
        let l2 = self.b2.leaves();
        let l3 = self.b3.leaves();
        assert(self.leaves() == l0 + l1 + l2 + l3);
        assert((l0 + l1 + l2 + l3)[self.rank_before(i) + t] == self.bucket(i).leaves()[t]);
    }

    /// The value stored under `key`, if any. The walk follows the key's path
    /// to a leaf and hands its value back only when the leaf holds this very
    /// key: a different key on the same path is never mistaken for it.
    pub fn get(&self, key: &u64) -> (r: Option<&V>)
        requires
            self.wf(),
        ensures
            r.is_some() == self@.contains_key(*key),
            r.is_some() ==> *r.unwrap() == self@[*key],
    {
        let digest = digest_of(*key);
        let start = Strategy::Path(PathWalker::new(digest));
        proof {
            self.lemma_path_leaf(0, *key);
        }
        match self.descend(start, Ghost(0)) {
            Some(kv) => {
                if kv.key == *key {
                    Some(&kv.val)
                } else {
                    None
                }
            },
            None => None,
        }
    }

    /// Every link reachable from this node caches the exact number of
    /// leaves beneath it.
    pub open(crate) spec fn counts_exact(self) -> bool
        decreases self,
    {
        &&& self.b0.counts_exact()
        &&& self.b1.counts_exact()
        &&& self.b2.counts_exact()
        &&& self.b3.counts_exact()
    }

    proof fn lemma_counts_exact_at(self, depth: int)
        requires
            self.wf_at(depth),
        ensures
            self.counts_exact(),
        decreases self, 0int,
    {
        Bucket::lemma_counts_exact_bucket(self.b0, depth, 0);
        Bucket::lemma_counts_exact_bucket(self.b1, depth, 1);
        Bucket::lemma_counts_exact_bucket(self.b2, depth, 2);
        Bucket::lemma_counts_exact_bucket(self.b3, depth, 3);
    }

    /// The leaf that the path of `digest` reaches from this node, which
    /// sits at `depth`: the walk stops at the first leaf, whatever its key.
    spec fn path_leaf(self, digest: u64, depth: int) -> Option<KvPair<u64, V>>
        decreases self,
    {
        let s = slot_of(digest, depth);
        if s == 0 {
            self.b0.path_leaf(digest, depth)
        } else if s == 1 {
            self.b1.path_leaf(digest, depth)
        } else if s == 2 {
            self.b2.path_leaf(digest, depth)
        } else {
            self.b3.path_leaf(digest, depth)
        }
    }

    /// The leaf that a path reaches is a stored pair.
    proof fn lemma_path_leaf_held(self, digest: u64, depth: int)
        requires
            self.wf_at(depth),
        ensures
            ({
                let t = self.path_leaf(digest, depth);
                t is Some ==> self@.contains_key(t->Some_0.key) && self@[t->Some_0.key]
                    == t->Some_0.val
            }),
        decreases self,
    {
        self.lemma_wf_slots(depth);
        self.lemma_dispatch(depth);
        let s = slot_of(digest, depth);
        self.lemma_bucket_wf(depth, s);
        assert(self.path_leaf(digest, depth) == self.bucket(s).path_leaf(digest, depth));
        match self.bucket(s) {
            Bucket::Link(node, _) => {
                node.lemma_path_leaf_held(digest, depth + 1);
            },
            _ => {},
        }
        let t = self.path_leaf(digest, depth);
        if t is Some {
            assert(self.bucket(s).contents().contains_key(t->Some_0.key));
        }
    }

    /// The bucket in slot `i` of a well-formed node is well formed.
    proof fn lemma_bucket_wf(self, depth: int, i: int)
        requires
            self.wf_at(depth),
            0 <= i < 4,
        ensures
            self.bucket(i).wf_at(depth, i),
    {
    }

    /// The leaf that a search ends at is a stored pair.
    proof fn lemma_target_held(self, strategy: Strategy, depth: int)
        requires
            self.wf_at(depth),
            strategy.at_depth(depth),
        ensures
            ({
                let t = strategy.target(self);
                t is Some ==> self@.contains_key(t->Some_0.key) && self@[t->Some_0.key]
                    == t->Some_0.val
            }),
    {
        match strategy {
            Strategy::Path(w) => {
                self.lemma_path_leaf_held(w.digest, depth);
            },
            Strategy::Rank(ix) => {
                self.lemma_lists_exactly_at(depth);
                if (ix.0 as int) < self.leaves().len() {
                    assert(self.leaves()[ix.0 as int].key == strategy.target(self)->Some_0.key);
                }
            },
        }
    }

    /// The leaf on a key's path holds that key exactly when the key is
    /// stored, and then holds its value.
    proof fn lemma_path_leaf(self, depth: int, key: u64)
        requires
            self.wf_at(depth),
        ensures
            ({
                let t = self.path_leaf(sea_digest(key), depth);
                &&& self@.contains_key(key) == (t is Some && t->Some_0.key == key)
                &&& self@.contains_key(key) ==> self@[key] == t->Some_0.val
            }),
        decreases self,
    {
        self.lemma_wf_slots(depth);
        self.lemma_dispatch(depth);
        let s = key_slot(key, depth);
        assert(self.path_leaf(sea_digest(key), depth) == self.bucket(s).path_leaf(
            sea_digest(key),
            depth,
        ));
        assert(self.bucket(s).wf_at(depth, s)) by {
            assert(self.bucket(0) == self.b0);
            assert(self.bucket(1) == self.b1);
            assert(self.bucket(2) == self.b2);
            assert(self.bucket(3) == self.b3);
        }
        match self.bucket(s) {
            Bucket::Link(node, _) => {
                node.lemma_path_leaf(depth + 1, key);
            },
            _ => {},
        }
    }

    /// Every rank falls in the leaves of one bucket.
    proof fn lemma_locate(self, n: int) -> (r: (int, int))
        requires
            0 <= n < self.leaves().len(),
        ensures
            0 <= r.0 < 4,
            0 <= r.1 < self.bucket(r.0).leaves().len(),
            n == self.rank_before(r.0) + r.1,
    {
        if n < self.rank_before(1) {
            (0, n)
        } else if n < self.rank_before(2) {
            (1, n - self.rank_before(1))
        } else if n < self.rank_before(3) {
            (2, n - self.rank_before(2))
        } else {
            (3, n - self.rank_before(3))
        }
    }

    #[verifier::spinoff_prover]
    proof fn lemma_lists_exactly_at(self, depth: int)
        requires
            self.wf_at(depth),
        ensures
            lists_exactly(self.leaves(), self@),
        decreases self, 0int,
    {
        Bucket::lemma_lists_exactly_bucket(self.b0, depth, 0);
        Bucket::lemma_lists_exactly_bucket(self.b1, depth, 1);
        Bucket::lemma_lists_exactly_bucket(self.b2, depth, 2);
        Bucket::lemma_lists_exactly_bucket(self.b3, depth, 3);
        assert(self.bucket(0) == self.b0);
        assert(self.bucket(1) == self.b1);
        assert(self.bucket(2) == self.b2);
        assert(self.bucket(3) == self.b3);
        self.lemma_wf_slots(depth);
        self.lemma_dispatch(depth);
        let l = self.leaves();
        assert forall|n1: int, n2: int| 0 <= n1 < n2 < l.len() implies #[trigger] l[n1].key
            != #[trigger] l[n2].key by {
            let (i1, t1) = self.lemma_locate(n1);
            let (i2, t2) = self.lemma_locate(n2);
            self.lemma_leaves_at(i1, t1);
            self.lemma_leaves_at(i2, t2);
            if i1 != i2 {
                assert(self.bucket(i1).contents().contains_key(l[n1].key));
                assert(self.bucket(i2).contents().contains_key(l[n2].key));
            } else {
                assert(t1 < t2);
            }
        }
        assert forall|n: int| 0 <= n < l.len() implies self@.contains_key(#[trigger] l[n].key)
            && self@[l[n].key] == l[n].val by {
            let (i, t) = self.lemma_locate(n);
            self.lemma_leaves_at(i, t);
            assert(self.bucket(i).contents().contains_key(l[n].key));
            assert(key_slot(l[n].key, depth) == i);
        }
        assert forall|k: u64| #[trigger] self@.contains_key(k) implies exists|n: int|
            0 <= n < l.len() && #[trigger] l[n].key == k by {
            let i = key_slot(k, depth);
            let bl = self.bucket(i).leaves();
            let t = choose|t: int| 0 <= t < bl.len() && #[trigger] bl[t].key == k;
            self.lemma_leaves_at(i, t);
            assert(l[self.rank_before(i) + t].key == k);
        }
    }

    fn collect_keys(&self, out: &mut Vec<u64>)
        ensures
            final(out)@ == old(out)@ + keys_of(self.leaves()),
        decreases self,
    {
        let ghost start = out@;
        self.b0.collect_keys(out);
        self.b1.collect_keys(out);
        self.b2.collect_keys(out);
        self.b3.collect_keys(out);
        proof {
            let l0 = self.b0.leaves();
            let l1 = self.b1.leaves();
            let l2 = self.b2.leaves();
            let l3 = self.b3.leaves();
            assert(keys_of(l0 + l1 + l2 + l3) =~= keys_of(l0) + keys_of(l1) + keys_of(l2)
                + keys_of(l3));
            assert(out@ =~= start + keys_of(self.leaves()));
        }
    }

    /// Every key, once each, in slot order, depth first: the order of
    /// `nth`.
    pub fn keys(&self) -> (r: Vec<u64>)
        ensures
            r@ == keys_of(self.leaves()),
    {
        let mut out: Vec<u64> = Vec::new();
        self.collect_keys(&mut out);
        assert(out@ =~= keys_of(self.leaves()));
        out
    }

    /// Number of leaves, recounted from the four buckets of the root.
    pub fn len(&self) -> (r: u64)
        requires
            self.wf(),
            self.leaves().len() <= u64::MAX,
        ensures
            r == self.leaves().len(),
    {
        proof {
            self.lemma_wf_slots(0);
        }
        Cardinality::from_child(self).0
    }

    /// All four buckets of the root are empty.
    pub fn is_empty(&self) -> (r: bool)
        ensures
            r == self.is_all_empty(),
    {
        matches!(self.b0, Bucket::Empty) && matches!(self.b1, Bucket::Empty) && matches!(
            self.b2,
            Bucket::Empty,
        ) && matches!(self.b3, Bucket::Empty)
    }

    fn take_bucket(&mut self, s: usize) -> (b: Bucket<V>)
        requires
            s < 4,
        ensures
            b == old(self).bucket(s as int),
            final(self).bucket(s as int) == Bucket::<V>::Empty,
            forall|j: int| 0 <= j < 4 && j != s ==> #[trigger] final(self).bucket(j) == old(self).bucket(j),
    {
        let mut b = Bucket::Empty;
        if s == 0 {
            std::mem::swap(&mut self.b0, &mut b);
        } else if s == 1 {
            std::mem::swap(&mut self.b1, &mut b);
        } else if s == 2 {
            std::mem::swap(&mut self.b2, &mut b);
        } else {
            std::mem::swap(&mut self.b3, &mut b);
        }
        b
    }

    fn put_bucket(&mut self, s: usize, b: Bucket<V>)
        requires
            s < 4,
        ensures
            final(self).bucket(s as int) == b,
            forall|j: int| 0 <= j < 4 && j != s ==> #[trigger] final(self).bucket(j) == old(self).bucket(j),
    {
        if s == 0 {
            self.b0 = b;
        } else if s == 1 {
            self.b1 = b;
        } else if s == 2 {
            self.b2 = b;
        } else {
            self.b3 = b;
        }
    }
}

impl<V: Clone> Bucket<V> {
    fn clone_bucket(&self) -> (r: Bucket<V>)
        ensures
            r.contents().dom() == self.contents().dom(),
            forall|k: u64| #[trigger]
                r.contents().contains_key(k) ==> cloned::<V>(self.contents()[k], r.contents()[k]),
            r.leaves().len() == self.leaves().len(),
            forall|d: int, i: int| #[trigger] self.wf_at(d, i) ==> r.wf_at(d, i),
        decreases self,
    {
        match self {
            Bucket::Empty => {
                let r = Bucket::Empty;
                assert(r.contents() =~= self.contents());
                assert forall|d: int, i: int| #[trigger] self.wf_at(d, i) implies r.wf_at(d, i) by {
                    assert(r.slots_ok(d, i));
                }
                r
            },
            Bucket::Leaf(kv) => {
                let r = Bucket::Leaf(KvPair { key: kv.key, val: kv.val.clone() });
                assert(r.contents().dom() =~= self.contents().dom());
                assert forall|d: int, i: int| #[trigger] self.wf_at(d, i) implies r.wf_at(d, i) by {
                    assert(self.contents().contains_key(kv.key));
                    assert(r.slots_ok(d, i));
                }
                r
            },
            Bucket::Link(node, c) => {
                let r = Bucket::Link(Box::new((&**node).clone_node()), Cardinality(c.0));
                assert forall|d: int, i: int| #[trigger] self.wf_at(d, i) implies r.wf_at(d, i) by {
                    assert(node.wf_at(d + 1));
                    assert forall|k: u64| #[trigger]
                        r.contents().contains_key(k) implies key_slot(k, d) == i by {
                        assert(self.contents().contains_key(k));
                    }
                    assert(r.slots_ok(d, i));
                }
                r
            },
        }
    }
}

impl<V: Clone> Hamt<V> {
    fn clone_node(&self) -> (r: Hamt<V>)
        ensures
            r@.dom() == self@.dom(),
            forall|k: u64| #[trigger] r@.contains_key(k) ==> cloned::<V>(self@[k], r@[k]),
            r.leaves().len() == self.leaves().len(),
            forall|d: int| #[trigger] self.wf_at(d) ==> r.wf_at(d),
        decreases self,
    {
        let r = Hamt {
            b0: self.b0.clone_bucket(),
            b1: self.b1.clone_bucket(),
            b2: self.b2.clone_bucket(),
            b3: self.b3.clone_bucket(),
        };
        assert(r@.dom() =~= self@.dom());
        assert forall|d: int| #[trigger] self.wf_at(d) implies r.wf_at(d) by {
            assert(self.b0.wf_at(d, 0));
            assert(self.b1.wf_at(d, 1));
            assert(self.b2.wf_at(d, 2));
            assert(self.b3.wf_at(d, 3));
        }
        r
    }
}

impl<V: Clone> Clone for Hamt<V> {
    /// A copy with the same keys, each value cloned, and the same shape.
    fn clone(&self) -> (r: Self)
        ensures
            r@.dom() == self@.dom(),
            forall|k: u64| #[trigger] r@.contains_key(k) ==> cloned::<V>(self@[k], r@[k]),
            r.leaves().len() == self.leaves().len(),
            self.wf() ==> r.wf(),
    {
        self.clone_node()
    }
}

impl Strategy {
    /// The walker stands where a node at `depth` is looked at.
    spec fn at_depth(self, depth: int) -> bool {
        match self {
            Strategy::Path(w) => w.depth == depth,
            Strategy::Rank(_) => true,
        }
    }

    /// The leaf at which this search ends when started on `node`, if any:
    /// the leaf on the path for a path walker, the leaf of the remaining
    /// rank for a rank walker.
    spec fn target<V>(self, node: Hamt<V>) -> Option<KvPair<u64, V>> {
        match self {
            Strategy::Path(w) => node.path_leaf(w.digest, w.depth as int),
            Strategy::Rank(ix) => if (ix.0 as int) < node.leaves().len() {
                Some(node.leaves()[ix.0 as int])
            } else {
                None
            },
        }
    }
}

impl<V> Default for Hamt<V> {
    fn default() -> (r: Self)
        ensures
            r.wf(),
            r@ == Map::<u64, V>::empty(),
            r.leaves().len() == 0,
    {
        Hamt::new()
    }
}

impl<V> View for Hamt<V> {
    type V = Map<u64, V>;

    open spec fn view(&self) -> Map<u64, V> {
        self.contents()
    }
}

} // verus!
