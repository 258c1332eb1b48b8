use hashset_bench::telemetry::MAX_CHAIN;
use hashset_bench::three_ary_cuckoo::ThreeAryCuckoo;

#[test]
fn three_ary_fills_to_nine_tenths() {
    let mut done = false;
    for seed in 0..2000u64 {
        let mut table = ThreeAryCuckoo::with_seed(99, 2, seed);
        let mut complete = true;
        let mut key = 0u64;
        while table.len() * 10 < table.capacity() * 9 {
            key += 1;
            if !table.insert(key).completed {
                complete = false;
                break;
            }
        }
        if !complete {
            continue;
        }
        assert_eq!(table.len(), 90);
        assert_eq!(key, 90);
        for present in 1..=90u64 {
            let probe = table.probe(present);
            assert!(probe.contained);
            assert!(probe.probes >= 1 && probe.probes <= 3);
        }
        for absent in 1000..1200u64 {
            assert!(!table.probe(absent).contained);
        }
        done = true;
        break;
    }
    assert!(done);
}

#[test]
fn three_ary_light_load_at_every_metadata_width() {
    for bits in [0usize, 1, 2, 4, 8] {
        let mut table = ThreeAryCuckoo::with_seed(300, bits, 4);
        for key in 0..150u64 {
            let update = table.insert(key);
            assert!(update.completed);
            assert!(update.total_writes >= 1 && update.total_writes <= MAX_CHAIN);
        }
        assert_eq!(table.len(), 150);
        for key in 0..150u64 {
            assert!(table.probe(key).contained);
        }
        for key in 150..400u64 {
            assert!(!table.probe(key).contained);
        }
        for key in 0..150u64 {
            let update = table.remove(key);
            assert!(update.completed);
            assert_eq!(update.total_writes, 1);
        }
        assert_eq!(table.len(), 0);
    }
}

#[test]
fn three_ary_without_metadata_reads_more() {
    let mut blind = ThreeAryCuckoo::with_seed(300, 0, 6);
    let mut sighted = ThreeAryCuckoo::with_seed(300, 8, 6);
    let mut blind_reads = 0;
    let mut sighted_reads = 0;
    for key in 0..100u64 {
        let without = blind.insert(key);
        let with = sighted.insert(key);
        assert!(without.completed && with.completed);
        blind_reads += without.total_probes;
        sighted_reads += with.total_probes;
    }
    assert!(blind_reads > sighted_reads);
    for key in 0..100u64 {
        assert!(blind.probe(key).contained);
        assert!(sighted.probe(key).contained);
    }
}

#[test]
fn three_ary_insert_is_idempotent() {
    let mut table = ThreeAryCuckoo::with_seed(64, 4, 31);
    for key in 0..30u64 {
        assert!(table.insert(key).completed);
    }
    for key in 0..30u64 {
        let update = table.insert(key);
        assert!(update.completed);
        assert_eq!(update.total_writes, 0);
        assert_eq!(table.len(), 30);
    }
}

#[test]
fn three_ary_first_key_takes_one_write() {
    let mut table = ThreeAryCuckoo::with_seed(9, 4, 1);
    let update = table.insert(7);
    assert!(update.completed);
    assert_eq!(update.total_writes, 1);
    assert_eq!(update.total_probes, 0);
    assert_eq!(table.len(), 1);
}

#[test]
fn three_ary_remove_from_empty_is_a_no_op() {
    let mut table = ThreeAryCuckoo::with_seed(9, 4, 1);
    let update = table.remove(7);
    assert!(update.completed);
    assert_eq!(update.total_writes, 0);
    assert_eq!(update.total_probes, 0);
    assert_eq!(table.len(), 0);
}

#[test]
fn three_ary_three_bucket_table_fills_up_and_then_gives_up() {
    for bits in [0usize, 2] {
        let mut table = ThreeAryCuckoo::with_seed(3, bits, 12);
        for key in 1..=3u64 {
            assert!(table.insert(key).completed);
        }
        assert_eq!(table.len(), 3);
        let update = table.insert(4);
        assert!(!update.completed);
        assert_eq!(update.total_writes, MAX_CHAIN);
        assert_eq!(table.len(), 3);
        let mut present = 0;
        for key in 1..=4u64 {
            if table.probe(key).contained {
                present += 1;
            }
        }
        assert_eq!(present, 3);
    }
}

#[test]
fn three_ary_insert_then_remove_restores_the_set() {
    let mut table = ThreeAryCuckoo::with_seed(64, 2, 77);
    for key in 0..20u64 {
        assert!(table.insert(key).completed);
    }
    assert!(table.insert(900).completed);
    assert_eq!(table.len(), 21);
    assert!(table.remove(900).completed);
    assert_eq!(table.len(), 20);
    assert!(!table.probe(900).contained);
    for key in 0..20u64 {
        assert!(table.probe(key).contained);
    }
}

#[test]
fn three_ary_random_table_behaves_like_a_set() {
    let mut table = ThreeAryCuckoo::new(10_000, 4);
    for key in 0..300u64 {
        assert!(table.insert(key).completed);
    }
    assert_eq!(table.len(), 300);
    for key in 0..300u64 {
        assert!(table.probe(key).contained);
    }
    for key in 300..600u64 {
        assert!(!table.probe(key).contained);
    }
}

#[test]
fn three_ary_same_seed_gives_the_same_history() {
    let mut first = ThreeAryCuckoo::with_seed(50, 2, 5);
    let mut second = ThreeAryCuckoo::with_seed(50, 2, 5);
    for step in 0..400u64 {
        let key = (step * 37) % 70;
        if step % 3 == 2 {
            assert_eq!(first.remove(key), second.remove(key));
        } else {
            assert_eq!(first.insert(key), second.insert(key));
        }
        assert_eq!(first.len(), second.len());
        assert_eq!(first.probe(key), second.probe(key));
    }
}
