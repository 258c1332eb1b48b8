use hashset_bench::cuckoo::Cuckoo;
use hashset_bench::telemetry::MAX_CHAIN;

/// Inserts `count` keys from `first` on; gives those that went in before the
/// first insert that did not complete.
fn fill(table: &mut Cuckoo, first: u64, count: u64) -> (Vec<u64>, bool) {
    let mut kept = Vec::new();
    for key in first..first + count {
        let update = table.insert(key);
        if !update.completed {
            return (kept, false);
        }
        assert!(update.total_writes >= 1);
        assert!(update.total_writes <= MAX_CHAIN);
        kept.push(key);
    }
    (kept, true)
}

#[test]
fn cuckoo_fifty_keys_in_sixty_four_buckets() {
    let mut done = false;
    for seed in 0..2000u64 {
        let mut table = Cuckoo::with_seed(64, 4, seed);
        let (keys, complete) = fill(&mut table, 1, 50);
        if !complete {
            continue;
        }
        assert_eq!(keys.len(), 50);
        assert_eq!(table.len(), 50);
        for key in &keys {
            assert!(table.probe(*key).contained);
        }
        for key in &keys {
            let update = table.remove(*key);
            assert!(update.completed);
            assert_eq!(update.total_writes, 1);
        }
        assert_eq!(table.len(), 0);
        done = true;
        break;
    }
    assert!(done);
}

#[test]
fn cuckoo_light_load_at_every_metadata_width() {
    for bits in [0usize, 1, 2, 4, 8] {
        let mut table = Cuckoo::with_seed(256, bits, 17);
        let (keys, complete) = fill(&mut table, 1000, 64);
        assert!(complete);
        assert_eq!(table.len(), 64);
        for key in &keys {
            let probe = table.probe(*key);
            assert!(probe.contained);
            assert!(probe.probes >= 1 && probe.probes <= 2);
        }
        for key in 0..500u64 {
            let probe = table.probe(key);
            assert!(!probe.contained);
            assert!(probe.probes <= 2);
        }
    }
}

#[test]
fn cuckoo_metadata_saves_reads_of_absent_keys() {
    let mut blind = Cuckoo::with_seed(256, 0, 5);
    let mut sighted = Cuckoo::with_seed(256, 8, 5);
    for key in 0..64u64 {
        assert!(blind.insert(key).completed);
        assert!(sighted.insert(key).completed);
    }
    let mut blind_reads = 0;
    let mut sighted_reads = 0;
    for key in 1000..2000u64 {
        let without = blind.probe(key);
        let with = sighted.probe(key);
        assert!(!without.contained);
        assert!(!with.contained);
        assert_eq!(without.probes, 2);
        blind_reads += without.probes;
        sighted_reads += with.probes;
    }
    assert!(sighted_reads < blind_reads);
}

#[test]
fn cuckoo_insert_is_idempotent() {
    let mut table = Cuckoo::with_seed(128, 4, 3);
    let (keys, complete) = fill(&mut table, 0, 30);
    assert!(complete);
    for key in &keys {
        let update = table.insert(*key);
        assert!(update.completed);
        assert_eq!(update.total_writes, 0);
        assert_eq!(table.len(), 30);
    }
}

#[test]
fn cuckoo_first_key_takes_one_write() {
    let mut table = Cuckoo::with_seed(16, 4, 8);
    let update = table.insert(1);
    assert!(update.completed);
    assert_eq!(update.total_writes, 1);
    assert_eq!(update.total_probes, 0);
    assert_eq!(table.len(), 1);
    assert_eq!(table.capacity(), 16);
}

#[test]
fn cuckoo_remove_from_empty_is_a_no_op() {
    let mut table = Cuckoo::with_seed(16, 2, 8);
    let update = table.remove(1);
    assert!(update.completed);
    assert_eq!(update.total_writes, 0);
    assert_eq!(table.len(), 0);
}

#[test]
fn cuckoo_insert_then_remove_restores_the_set() {
    let mut table = Cuckoo::with_seed(64, 2, 21);
    let (keys, complete) = fill(&mut table, 0, 10);
    assert!(complete);
    assert!(table.insert(500).completed);
    assert_eq!(table.len(), 11);
    assert!(table.remove(500).completed);
    assert_eq!(table.len(), 10);
    assert!(!table.probe(500).contained);
    assert!(!table.probe(500).contained);
    for key in &keys {
        assert!(table.probe(*key).contained);
    }
}

#[test]
fn cuckoo_overfull_table_gives_up_and_stays_a_set() {
    let mut table = Cuckoo::with_seed(8, 4, 2);
    let mut failed = false;
    for key in 0..40u64 {
        let update = table.insert(key);
        assert!(table.len() <= 8);
        if !update.completed {
            failed = true;
            assert_eq!(update.total_writes, MAX_CHAIN);
        }
    }
    assert!(failed);
    let mut present = 0;
    for key in 0..40u64 {
        if table.probe(key).contained {
            present += 1;
        }
    }
    assert_eq!(present, table.len());
}

#[test]
fn cuckoo_two_bucket_table() {
    let mut table = Cuckoo::with_seed(2, 1, 0);
    assert!(table.insert(10).completed);
    assert!(table.insert(20).completed);
    assert_eq!(table.len(), 2);
    assert!(table.probe(10).contained);
    assert!(table.probe(20).contained);
    let update = table.insert(30);
    assert!(!update.completed);
    assert_eq!(table.len(), 2);
}

#[test]
fn cuckoo_random_hashers_behave_like_a_set() {
    let mut table = Cuckoo::new(1 << 16, 4);
    for key in 0..40u64 {
        assert!(table.insert(key).completed);
    }
    assert_eq!(table.len(), 40);
    for key in 0..40u64 {
        assert!(table.probe(key).contained);
    }
    for key in 200..400u64 {
        assert!(!table.probe(key).contained);
    }
}

#[test]
fn cuckoo_same_seed_gives_the_same_history() {
    let mut first = Cuckoo::with_seed(64, 2, 99);
    let mut second = Cuckoo::with_seed(64, 2, 99);
    for step in 0..300u64 {
        let key = (step * 37) % 80;
        if step % 3 == 2 {
            assert_eq!(first.remove(key), second.remove(key));
        } else {
            assert_eq!(first.insert(key), second.insert(key));
        }
        assert_eq!(first.len(), second.len());
        assert_eq!(first.probe(key), second.probe(key));
    }
}

#[test]
fn cuckoo_keys_that_agree_modulo_the_capacity_are_spread_out() {
    let mut done = false;
    for seed in 0..2000u64 {
        let mut table = Cuckoo::with_seed(64, 4, seed);
        let mut complete = true;
        for step in 0..16u64 {
            if !table.insert(step * 64).completed {
                complete = false;
                break;
            }
        }
        if !complete {
            continue;
        }
        assert_eq!(table.len(), 16);
        for step in 0..16u64 {
            assert!(table.probe(step * 64).contained);
        }
        done = true;
        break;
    }
    assert!(done);
}
