use hashset_bench::robinhood::RobinHood;

#[test]
fn robinhood_twelve_keys_in_sixteen_buckets() {
    let mut table = RobinHood::with_seed(16, 1, 42);
    for key in 1..=12u64 {
        let update = table.insert(key);
        assert!(update.completed);
        assert!(update.total_writes >= 1);
    }
    assert_eq!(table.len(), 12);
    for key in 1..=12u64 {
        assert!(table.probe(key).contained);
    }
    for key in 13..=20u64 {
        assert!(!table.probe(key).contained);
    }
    let update = table.remove(5);
    assert!(update.completed);
    assert!(update.total_writes >= 1);
    assert!(!table.probe(5).contained);
    assert!(table.probe(6).contained);
    assert_eq!(table.len(), 11);
}

#[test]
fn robinhood_works_at_every_metadata_width() {
    for bits in [0usize, 1, 2, 3, 4, 8] {
        for seed in 0..20u64 {
            let mut table = RobinHood::with_seed(64, bits, seed);
            for key in 0..60u64 {
                assert!(table.insert(key * 7 + 1).completed);
            }
            assert_eq!(table.len(), 60);
            for key in 0..60u64 {
                assert!(table.probe(key * 7 + 1).contained);
                assert!(!table.probe(key * 7 + 2).contained);
            }
            for key in 0..30u64 {
                let update = table.remove(key * 14 + 1);
                assert!(update.completed);
                assert!(update.total_writes >= 1);
            }
            assert_eq!(table.len(), 30);
            for key in 0..60u64 {
                assert_eq!(table.probe(key * 7 + 1).contained, key % 2 == 1);
            }
        }
    }
}

#[test]
fn robinhood_insert_is_idempotent() {
    let mut table = RobinHood::with_seed(32, 4, 7);
    for key in 0..20u64 {
        table.insert(key);
    }
    for key in 0..20u64 {
        let update = table.insert(key);
        assert!(update.completed);
        assert_eq!(update.total_writes, 0);
        assert_eq!(table.len(), 20);
    }
}

#[test]
fn robinhood_first_key_lands_at_home_with_one_write() {
    let mut table = RobinHood::with_seed(8, 2, 3);
    let update = table.insert(99);
    assert!(update.completed);
    assert_eq!(update.total_writes, 1);
    assert_eq!(update.total_probes, 0);
    let probe = table.probe(99);
    assert!(probe.contained);
    assert_eq!(probe.probes, 1);
}

#[test]
fn robinhood_full_table_rejects_a_new_key() {
    for bits in [0usize, 1, 4] {
        let mut table = RobinHood::with_seed(8, bits, 11);
        for key in 0..8u64 {
            assert!(table.insert(key).completed);
        }
        assert_eq!(table.len(), 8);
        assert_eq!(table.capacity(), 8);
        let update = table.insert(100);
        assert!(!update.completed);
        assert_eq!(update.total_writes, 0);
        assert_eq!(table.len(), 8);
        assert!(!table.probe(100).contained);
        for key in 0..8u64 {
            assert!(table.probe(key).contained);
            assert!(table.insert(key).completed);
        }
        assert!(table.remove(3).completed);
        assert!(table.insert(100).completed);
        assert!(table.probe(100).contained);
        assert_eq!(table.len(), 8);
    }
}

#[test]
fn robinhood_remove_from_empty_is_a_no_op() {
    let mut table = RobinHood::with_seed(16, 4, 5);
    let update = table.remove(1);
    assert!(update.completed);
    assert_eq!(update.total_writes, 0);
    assert_eq!(table.len(), 0);
}

#[test]
fn robinhood_insert_then_remove_restores_the_set() {
    let mut table = RobinHood::with_seed(16, 4, 9);
    for key in 0..10u64 {
        table.insert(key);
    }
    table.insert(77);
    assert_eq!(table.len(), 11);
    table.remove(77);
    assert_eq!(table.len(), 10);
    assert!(!table.probe(77).contained);
    for key in 0..10u64 {
        assert!(table.probe(key).contained);
    }
}

#[test]
fn robinhood_one_bucket_table() {
    let mut table = RobinHood::with_seed(1, 4, 1);
    assert!(table.insert(5).completed);
    assert!(!table.insert(6).completed);
    assert!(table.probe(5).contained);
    assert!(!table.probe(6).contained);
    assert!(table.remove(5).completed);
    assert_eq!(table.len(), 0);
    assert!(table.insert(6).completed);
    assert!(table.probe(6).contained);
}

#[test]
fn robinhood_random_hasher_behaves_like_a_set() {
    let mut table = RobinHood::new(128, 2);
    for key in 0..100u64 {
        assert!(table.insert(key).completed);
    }
    for key in 0..100u64 {
        assert!(table.probe(key).contained);
    }
    for key in 100..200u64 {
        assert!(!table.probe(key).contained);
    }
    for key in 0..100u64 {
        table.remove(key);
    }
    assert_eq!(table.len(), 0);
}

#[test]
fn robinhood_same_seed_gives_the_same_history() {
    let mut first = RobinHood::with_seed(32, 2, 1234);
    let mut second = RobinHood::with_seed(32, 2, 1234);
    for step in 0..200u64 {
        let key = (step * 37) % 50;
        if step % 3 == 2 {
            assert_eq!(first.remove(key), second.remove(key));
        } else {
            assert_eq!(first.insert(key), second.insert(key));
        }
        assert_eq!(first.len(), second.len());
        assert_eq!(first.probe(key), second.probe(key));
    }
}

#[test]
fn robinhood_metadata_never_adds_a_read() {
    let mut blind = RobinHood::with_seed(128, 0, 11);
    let mut sighted = RobinHood::with_seed(128, 4, 11);
    for key in 0..100u64 {
        assert_eq!(blind.insert(key).completed, sighted.insert(key).completed);
    }
    let mut blind_reads = 0;
    let mut sighted_reads = 0;
    for key in 0..400u64 {
        let without = blind.probe(key);
        let with = sighted.probe(key);
        assert_eq!(without.contained, with.contained);
        assert!(with.probes <= without.probes);
        blind_reads += without.probes;
        sighted_reads += with.probes;
    }
    assert!(sighted_reads < blind_reads);
}
