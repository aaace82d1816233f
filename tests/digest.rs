use std::hash::Hasher;

use dusk_hamt::annotation::Cardinality;
use dusk_hamt::digest::{digest_of, first_divergence, slot, MAX_DEPTH};
use dusk_hamt::walk::PathWalker;

fn sea(x: u64) -> u64 {
    let mut hasher = seahash::SeaHasher::new();
    hasher.write_u64(x);
    hasher.finish()
}

#[test]
fn digest_is_seahash_of_key() {
    assert_eq!(digest_of(5), sea(5));
    assert_ne!(digest_of(5), 5);
    assert_ne!(digest_of(1), digest_of(2));
}

#[test]
fn slot_rehashes_digest_plus_depth() {
    for depth in 0..10usize {
        let d = digest_of(77);
        assert_eq!(slot(d, depth), (sea(d.wrapping_add(depth as u64)) % 4) as usize);
        assert!(slot(d, depth) < 4);
    }
    assert_eq!(slot(u64::MAX, 1), (sea(0) % 4) as usize);
}

#[test]
fn first_divergence_finds_first_differing_depth() {
    let a = digest_of(1);
    let b = digest_of(2);
    match first_divergence(a, b, 0) {
        Some(j) => {
            assert!(j < MAX_DEPTH);
            assert_ne!(slot(a, j), slot(b, j));
            for t in 0..j {
                assert_eq!(slot(a, t), slot(b, t));
            }
        }
        None => panic!("distinct digests should part within the depth bound"),
    }
    assert_eq!(first_divergence(a, a, MAX_DEPTH - 4), None);
    assert_eq!(first_divergence(a, b, MAX_DEPTH), None);
}

#[test]
fn path_walker_starts_at_root() {
    let walker = PathWalker::new(123);
    assert_eq!(walker.digest, 123);
    assert_eq!(walker.depth, 0);
}

#[test]
fn cardinality_from_and_get() {
    let c = Cardinality::from(9);
    assert_eq!(c.get(), 9);
    assert_eq!(c, Cardinality(9));
}

