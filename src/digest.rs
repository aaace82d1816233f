//! Digests of keys and the slot that a digest selects at each depth.
use vstd::prelude::*;

verus! {

/// Number of levels a path may take: as many as the depth counter can
/// count. Two keys whose slots agree at every such depth, as keys with
/// equal digests do, cannot be told apart by the trie.
pub const MAX_DEPTH: usize = usize::MAX;

/// The SeaHash digest of a `u64`, as `SeaHasher` computes it.
pub uninterp spec fn sea_digest(x: u64) -> u64;

/// Relies on `seahash::SeaHasher` (created with its fixed default seeds) and
/// its `Hasher::write_u64` / `Hasher::finish`: the digest depends on the
/// written value alone.
#[verifier::external_body]
pub(crate) fn hash_u64(x: u64) -> (r: u64)
    ensures
        r == sea_digest(x),
{
    let mut hasher = seahash::SeaHasher::new();
    std::hash::Hasher::write_u64(&mut hasher, x);
    std::hash::Hasher::finish(&hasher)
}

/// The slot (0 to 3) that `digest` selects at `depth`: the digest is offset
/// by the depth and hashed again, so that paths stay well spread at any
/// depth.
pub open spec fn slot_of(digest: u64, depth: int) -> int {
    (sea_digest(digest.wrapping_add(depth as u64)) % 4) as int
}

/// The slot of `key` at `depth`.
pub open spec fn key_slot(key: u64, depth: int) -> int {
    slot_of(sea_digest(key), depth)
}

/// Two keys whose slots agree at every depth that a path may take.
pub open spec fn paths_collide(a: u64, b: u64) -> bool {
    forall|d: int| 0 <= d < MAX_DEPTH ==> #[trigger] key_slot(a, d) == key_slot(b, d)
}

/// The digest of a key.
pub fn digest_of(key: u64) -> (r: u64)
    ensures
        r == sea_digest(key),
{
    hash_u64(key)
}

/// The slot that `digest` selects at `depth`.
pub fn slot(digest: u64, depth: usize) -> (r: usize)
    ensures
        r as int == slot_of(digest, depth as int),
        r < 4,
{
    let derived = hash_u64(digest.wrapping_add(depth as u64));
    (derived % 4) as usize
}

/// The first depth in `from..MAX_DEPTH` at which the two digests select
/// different slots, if any.
pub fn first_divergence(d1: u64, d2: u64, from: usize) -> (r: Option<usize>)
    ensures
        match r {
            Some(j) => {
                &&& from <= j < MAX_DEPTH
                &&& slot_of(d1, j as int) != slot_of(d2, j as int)
                &&& forall|t: int| from <= t < j ==> #[trigger] slot_of(d1, t) == slot_of(d2, t)
            },
            None => forall|t: int| from <= t < MAX_DEPTH ==> #[trigger] slot_of(d1, t) == slot_of(d2, t),
        },
{
    let mut depth: usize = from;
    while depth < MAX_DEPTH
        invariant
            from <= depth,
            forall|t: int| from <= t < depth ==> #[trigger] slot_of(d1, t) == slot_of(d2, t),
        decreases MAX_DEPTH - depth,
    {
        if slot(d1, depth) != slot(d2, depth) {
            return Some(depth);
        }
        depth = depth + 1;
    }
    None
}

} // verus!
