use hashset_bench::keyset::KeySet;
use rand::rngs::StdRng;
use rand::SeedableRng;

#[test]
fn keyset_hands_out_keys_in_order() {
    let mut keys = KeySet::default();
    assert_eq!(keys.len(), 0);
    assert_eq!(keys.push(), 0);
    assert_eq!(keys.push(), 1);
    assert_eq!(keys.push(), 2);
    assert_eq!(keys.len(), 3);
}

#[test]
fn keyset_pop_gives_the_new_lower_cursor() {
    let mut keys = KeySet::default();
    for _ in 0..5 {
        keys.push();
    }
    assert_eq!(keys.pop(), 1);
    assert_eq!(keys.pop(), 2);
    assert_eq!(keys.len(), 3);
    assert_eq!(keys.push(), 5);
    assert_eq!(keys.len(), 4);
}

#[test]
fn keyset_existing_lies_between_the_cursors() {
    let mut rng = StdRng::seed_from_u64(1);
    let mut keys = KeySet::default();
    for _ in 0..10 {
        keys.push();
    }
    keys.pop();
    keys.pop();
    for _ in 0..200 {
        let key = keys.existing(&mut rng);
        assert!(key > 2 && key < 10);
    }
}

#[test]
fn keyset_existing_with_one_key_in_use() {
    let mut rng = StdRng::seed_from_u64(2);
    let mut keys = KeySet::default();
    keys.push();
    keys.push();
    for _ in 0..20 {
        assert_eq!(keys.existing(&mut rng), 1);
    }
}

#[test]
fn keyset_nonexisting_lies_above_the_upper_cursor() {
    let mut rng = StdRng::seed_from_u64(3);
    let mut keys = KeySet::default();
    for _ in 0..10 {
        keys.push();
    }
    for _ in 0..200 {
        let key = keys.nonexisting(&mut rng);
        assert!(key >= 10);
        assert!(key < u64::MAX);
    }
}

#[test]
fn keyset_draws_are_spread_over_the_range() {
    let mut rng = StdRng::seed_from_u64(4);
    let mut keys = KeySet::default();
    for _ in 0..1000 {
        keys.push();
    }
    let mut seen = std::collections::BTreeSet::new();
    for _ in 0..200 {
        seen.insert(keys.existing(&mut rng));
    }
    assert!(seen.len() > 100);
    let mut above = std::collections::BTreeSet::new();
    for _ in 0..200 {
        above.insert(keys.nonexisting(&mut rng));
    }
    assert!(above.len() > 100);
}
