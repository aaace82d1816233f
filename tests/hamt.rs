use dusk_hamt::digest::{digest_of, slot};
use dusk_hamt::Hamt;

fn fill(n: u64) -> Hamt<u64> {
    let mut hamt = Hamt::<u64>::new();
    for i in 0..n {
        hamt.insert(i, i);
    }
    hamt
}

#[test]
fn trivial() {
    let mut hamt = Hamt::<u32>::new();
    assert_eq!(hamt.remove(&0), None);
}

#[test]
fn replace() {
    let mut hamt = Hamt::<u32>::new();
    assert_eq!(hamt.insert(0, 38), None);
    assert_eq!(hamt.insert(0, 0), Some(38));
}

#[test]
fn multiple() {
    let n: u32 = 1024;

    let mut hamt = Hamt::<u32>::new();

    for i in 0..n {
        hamt.insert(i as u64, i);
    }

    for i in 0..n {
        assert_eq!(hamt.remove(&(i as u64)), Some(i));
    }

    assert!(hamt.is_empty());
}

#[test]
fn insert_get_immut() {
    let n: u32 = 1024;

    let mut hamt = Hamt::<u32>::new();

    for i in 0..n {
        hamt.insert(i as u64, i);
    }

    for i in 0..n {
        assert_eq!(*hamt.get(&(i as u64)).expect("Some(_)"), i);
    }
}

#[test]
fn nth() {
    let n: u64 = 1024;

    let mut hamt = Hamt::<u64>::new();

    let mut result: Vec<u64> = vec![];
    let mut sorted = vec![];

    for i in 0..n {
        hamt.insert(i, i);
    }

    for i in 0..n {
        let res = hamt.nth(i).expect("Some(_)");
        result.push(res.key);
        sorted.push(i);
    }

    result.sort_unstable();

    assert_eq!(result, sorted);
}

#[test]
fn insert_get_mut() {
    let n: u32 = 1024;

    let mut hamt = Hamt::<u32>::new();

    for i in 0..n {
        hamt.insert(i as u64, i);
    }

    for i in 0..n {
        *hamt.get_mut(&(i as u64)).expect("Some(_)") += 1;
    }

    for i in 0..n {
        assert_eq!(*hamt.get(&(i as u64)).expect("Some(_)"), i + 1);
    }
}

#[test]
fn iterate() {
    let n: u64 = 1024;

    let mut hamt = Hamt::<u64>::new();

    let mut reference = vec![];
    let mut gotten: Vec<u64> = vec![];
    let mut from_nth: Vec<u64> = vec![];

    for i in 0..n {
        hamt.insert(i, i);
        reference.push(i);
    }

    for i in 0..n {
        gotten.push(*hamt.get(&i).unwrap());
    }

    for i in 0..n {
        from_nth.push(hamt.nth(i).unwrap().val);
    }

    let mut from_iter: Vec<u64> = hamt.keys();

    assert_eq!(from_iter, from_nth);

    reference.sort_unstable();
    from_iter.sort_unstable();
    from_nth.sort_unstable();

    assert_eq!(reference, from_iter);
    assert_eq!(from_iter, gotten);
    assert_eq!(gotten, from_nth);
}

fn secret_key(secret_data: [u8; 32]) -> u64 {
    let mut word = [0u8; 8];
    word.copy_from_slice(&secret_data[..8]);
    u64::from_le_bytes(word)
}

#[test]
fn map_behavior_with_struct_key() {
    const TEST_SIZE: u32 = 4 * 256;
    assert_eq!(TEST_SIZE % 256, 0);

    let mut secrets: Hamt<u32> = Hamt::new();
    for i in 0..TEST_SIZE {
        let secret_data: [u8; 32] = [(i % 256) as u8; 32];
        let secret_hash = secret_key(secret_data);
        if let Some(value) = secrets.get_mut(&secret_hash) {
            *value += 1;
        } else {
            secrets.insert(secret_hash, 1);
        }
    }

    for i in 0..TEST_SIZE {
        let secret_data: [u8; 32] = [(i % 256) as u8; 32];
        let secret_hash = secret_key(secret_data);
        let value = secrets.get(&secret_hash).copied().unwrap_or(0);
        assert_eq!(value, TEST_SIZE / 256);
    }
}

#[test]
fn map_behavior_with_simple_key() {
    let mut secrets: Hamt<u32> = Hamt::<u32>::new();
    const TEST_SIZE: u64 = 4 * 256;
    for i in 0..TEST_SIZE {
        let key = i;
        if let Some(_value) = secrets.get_mut(&key) {
            assert!(false);
        } else {
            secrets.insert(key, 1);
        }
    }
}

#[test]
fn round_trip_each_insert() {
    let mut hamt = Hamt::<u64>::new();
    for i in 0..500u64 {
        let key = i.wrapping_mul(0x9e37_79b9_7f4a_7c15);
        assert_eq!(hamt.insert(key, i * 3), None);
        assert_eq!(hamt.get(&key), Some(&(i * 3)));
    }
}

#[test]
fn replace_keeps_count_and_new_value() {
    let mut hamt = fill(100);
    assert_eq!(hamt.insert(42, 4200), Some(42));
    assert_eq!(hamt.get(&42), Some(&4200));
    assert_eq!(hamt.len(), 100);
}

#[test]
fn remove_present_and_absent() {
    let mut hamt = fill(64);
    assert_eq!(hamt.remove(&10), Some(10));
    assert_eq!(hamt.remove(&10), None);
    assert_eq!(hamt.get(&10), None);
    assert_eq!(hamt.remove(&1_000_000), None);
    assert_eq!(hamt.len(), 63);
    for i in 0..64u64 {
        if i != 10 {
            assert_eq!(hamt.get(&i), Some(&i));
        }
    }
}

#[test]
fn collapse_to_single_and_empty() {
    let mut hamt = fill(300);
    for i in 1..300u64 {
        assert_eq!(hamt.remove(&i), Some(i));
    }
    assert_eq!(hamt.len(), 1);
    assert_eq!(hamt.nth(0).map(|kv| kv.key), Some(0));
    assert!(!hamt.is_empty());
    assert_eq!(hamt.remove(&0), Some(0));
    assert!(hamt.is_empty());
    assert_eq!(hamt.len(), 0);
}

#[test]
fn cardinality_tracks_inserts_and_removes() {
    let mut hamt = Hamt::<u64>::new();
    assert_eq!(hamt.len(), 0);
    for i in 0..200u64 {
        hamt.insert(i, i);
        assert_eq!(hamt.len(), i + 1);
    }
    for i in 0..100u64 {
        hamt.remove(&(i * 2));
    }
    assert_eq!(hamt.len(), 100);
    assert!(hamt.nth(99).is_some());
    assert!(hamt.nth(100).is_none());
}

#[test]
fn nth_out_of_range_and_ranks_distinct() {
    let hamt = fill(50);
    let mut keys: Vec<u64> = (0..50u64).map(|i| hamt.nth(i).unwrap().key).collect();
    keys.sort_unstable();
    keys.dedup();
    assert_eq!(keys.len(), 50);
    assert!(hamt.nth(50).is_none());
    assert!(Hamt::<u64>::new().nth(0).is_none());
}

#[test]
fn nth_mut_changes_value() {
    let mut hamt = fill(20);
    let key = hamt.nth(7).unwrap().key;
    *hamt.nth_mut(7).unwrap() = 777;
    assert_eq!(hamt.get(&key), Some(&777));
    assert!(hamt.nth_mut(20).is_none());
}

#[test]
fn keys_independent_of_insertion_order() {
    let mut forward = Hamt::<u64>::new();
    let mut backward = Hamt::<u64>::new();
    for i in 0..256u64 {
        forward.insert(i, i);
        backward.insert(255 - i, 255 - i);
    }
    let mut a = forward.keys();
    let mut b = backward.keys();
    a.sort_unstable();
    b.sort_unstable();
    assert_eq!(a, (0..256u64).collect::<Vec<u64>>());
    assert_eq!(a, b);
    assert!(Hamt::<u64>::new().keys().is_empty());
}

#[test]
fn extreme_keys() {
    let mut hamt = Hamt::<&str>::new();
    assert_eq!(hamt.insert(0, "zero"), None);
    assert_eq!(hamt.insert(u64::MAX, "max"), None);
    assert_eq!(hamt.get(&0), Some(&"zero"));
    assert_eq!(hamt.get(&u64::MAX), Some(&"max"));
    assert_eq!(hamt.get(&1), None);
}

#[test]
fn default_is_empty() {
    let hamt: Hamt<u8> = Default::default();
    assert!(hamt.is_empty());
    assert_eq!(hamt.len(), 0);
}

#[test]
fn clone_is_independent_of_original() {
    let n: u64 = 1024;
    let mut hamt = Hamt::<u64>::new();
    for i in 0..n {
        hamt.insert(i, i + 1);
    }

    let copy = hamt.clone();

    for i in 0..n {
        assert_eq!(copy.get(&i), Some(&(i + 1)));
    }

    for i in 0..n {
        assert_eq!(hamt.remove(&i), Some(i + 1));
    }
    assert!(hamt.is_empty());

    for i in 0..n {
        assert_eq!(copy.get(&i), Some(&(i + 1)));
    }
    assert_eq!(copy.len(), n);
}

#[test]
fn other_key_on_same_path_is_not_returned() {
    let mut hamt = Hamt::<u64>::new();
    hamt.insert(0, 100);
    let first = slot(digest_of(0), 0);
    let other = (1..1000u64)
        .find(|k| slot(digest_of(*k), 0) == first)
        .expect("a key sharing the first slot");
    assert_eq!(hamt.get(&other), None);
    assert!(hamt.get_mut(&other).is_none());
    assert_eq!(hamt.remove(&other), None);
    assert_eq!(hamt.get(&0), Some(&100));
    assert_eq!(hamt.len(), 1);
}
