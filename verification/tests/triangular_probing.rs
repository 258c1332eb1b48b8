use hashset_bench::triangular_probing::TriaProb;

#[test]
fn tria_insert_remove_and_insert_again() {
    let mut table = TriaProb::with_seed(256, 8, 42);
    for key in 1..=200u64 {
        let update = table.insert(key);
        assert!(update.completed);
        assert_eq!(update.total_writes, 1);
    }
    assert_eq!(table.len(), 200);
    for key in (2..=200u64).step_by(2) {
        let update = table.remove(key);
        assert!(update.completed);
        assert_eq!(update.total_writes, 1);
    }
    assert_eq!(table.len(), 100);
    for key in (2..=200u64).step_by(2) {
        assert!(!table.probe(key).contained);
    }
    for key in (2..=200u64).step_by(2) {
        let update = table.insert(key);
        assert!(update.completed);
        assert_eq!(update.total_writes, 1);
    }
    assert_eq!(table.len(), 200);
    for key in 1..=200u64 {
        assert!(table.probe(key).contained);
    }
    for key in 201..=400u64 {
        assert!(!table.probe(key).contained);
    }
}

#[test]
fn tria_works_at_every_metadata_width() {
    for bits in [0usize, 1, 2, 4, 8] {
        for seed in 0..10u64 {
            let mut table = TriaProb::with_seed(128, bits, seed);
            for key in 0..100u64 {
                assert!(table.insert(key).completed);
            }
            for key in 0..100u64 {
                if key % 3 == 0 {
                    assert!(table.remove(key).completed);
                }
            }
            for key in 0..100u64 {
                assert_eq!(table.probe(key).contained, key % 3 != 0);
            }
            for key in 0..100u64 {
                let update = table.insert(key);
                assert!(update.completed);
                assert_eq!(update.total_writes, if key % 3 == 0 { 1 } else { 0 });
            }
            assert_eq!(table.len(), 100);
            for key in 0..100u64 {
                assert!(table.probe(key).contained);
            }
        }
    }
}

#[test]
fn tria_key_behind_a_tombstone_is_not_put_twice() {
    for bits in [0usize, 1, 2, 8] {
        for seed in 0..30u64 {
            let mut table = TriaProb::with_seed(16, bits, seed);
            for key in 0..12u64 {
                assert!(table.insert(key).completed);
            }
            for gone in 0..12u64 {
                assert!(table.remove(gone).completed);
                for key in 0..12u64 {
                    if key > gone {
                        let update = table.insert(key);
                        assert!(update.completed);
                        assert_eq!(update.total_writes, 0);
                    }
                }
                assert_eq!(table.len() as u64, 11 - gone);
            }
            for key in 0..12u64 {
                assert!(!table.probe(key).contained);
            }
        }
    }
}

#[test]
fn tria_remove_of_an_absent_key_does_not_complete() {
    let mut table = TriaProb::with_seed(16, 4, 5);
    let update = table.remove(3);
    assert!(!update.completed);
    assert_eq!(update.total_writes, 0);
    assert_eq!(table.len(), 0);
    assert!(table.insert(3).completed);
    assert!(table.remove(3).completed);
    let update = table.remove(3);
    assert!(!update.completed);
    assert_eq!(update.total_writes, 0);
    assert_eq!(table.len(), 0);
}

#[test]
fn tria_full_power_of_two_table_takes_every_key_and_then_no_more() {
    for bits in [0usize, 2, 8] {
        let mut table = TriaProb::with_seed(32, bits, 19);
        for key in 0..32u64 {
            assert!(table.insert(key).completed);
        }
        assert_eq!(table.len(), 32);
        assert_eq!(table.capacity(), 32);
        let update = table.insert(100);
        assert!(!update.completed);
        assert_eq!(update.total_writes, 0);
        assert_eq!(table.len(), 32);
        assert!(!table.probe(100).contained);
        for key in 0..32u64 {
            assert!(table.probe(key).contained);
            assert!(table.insert(key).completed);
        }
        assert!(table.remove(7).completed);
        assert!(table.insert(100).completed);
        assert!(table.probe(100).contained);
        assert_eq!(table.len(), 32);
    }
}

#[test]
fn tria_other_capacity_stays_a_set() {
    let mut table = TriaProb::with_seed(100, 4, 23);
    let mut kept = Vec::new();
    for key in 0..100u64 {
        if table.insert(key).completed {
            kept.push(key);
        }
    }
    assert_eq!(table.len(), kept.len());
    for key in 0..100u64 {
        assert_eq!(table.probe(key).contained, kept.contains(&key));
    }
}

#[test]
fn tria_first_key_lands_at_home() {
    let mut table = TriaProb::with_seed(64, 8, 2);
    let update = table.insert(11);
    assert!(update.completed);
    assert_eq!(update.total_writes, 1);
    assert_eq!(update.total_probes, 0);
    let probe = table.probe(11);
    assert!(probe.contained);
    assert_eq!(probe.probes, 1);
}

#[test]
fn tria_insert_then_remove_restores_the_set() {
    let mut table = TriaProb::with_seed(64, 2, 61);
    for key in 0..20u64 {
        assert!(table.insert(key).completed);
    }
    assert!(table.insert(900).completed);
    assert_eq!(table.len(), 21);
    assert!(table.remove(900).completed);
    assert_eq!(table.len(), 20);
    assert!(!table.probe(900).contained);
    for key in 0..20u64 {
        assert!(table.probe(key).contained);
    }
}

#[test]
fn tria_random_hasher_behaves_like_a_set() {
    let mut table = TriaProb::new(512, 4);
    for key in 0..300u64 {
        assert!(table.insert(key).completed);
    }
    assert_eq!(table.len(), 300);
    for key in 0..300u64 {
        assert!(table.probe(key).contained);
    }
    for key in 300..600u64 {
        assert!(!table.probe(key).contained);
    }
}

#[test]
fn tria_same_seed_gives_the_same_history() {
    let mut first = TriaProb::with_seed(64, 2, 5);
    let mut second = TriaProb::with_seed(64, 2, 5);
    for step in 0..400u64 {
        let key = (step * 37) % 60;
        if step % 3 == 2 {
            assert_eq!(first.remove(key), second.remove(key));
        } else {
            assert_eq!(first.insert(key), second.insert(key));
        }
        assert_eq!(first.len(), second.len());
        assert_eq!(first.probe(key), second.probe(key));
    }
}

#[test]
fn tria_metadata_never_adds_a_read() {
    let mut blind = TriaProb::with_seed(128, 0, 11);
    let mut sighted = TriaProb::with_seed(128, 8, 11);
    for key in 0..100u64 {
        assert_eq!(blind.insert(key).completed, sighted.insert(key).completed);
    }
    let mut blind_reads = 0;
    let mut sighted_reads = 0;
    for key in 0..400u64 {
        let without = blind.probe(key);
        let with = sighted.probe(key);
        assert_eq!(without.contained, with.contained);
        assert!(with.probes <= without.probes);
        blind_reads += without.probes;
        sighted_reads += with.probes;
    }
    assert!(sighted_reads < blind_reads);
}
