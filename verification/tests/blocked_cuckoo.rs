use hashset_bench::blocked_cuckoo::{BlockedCuckoo, BUCKET_PER_BLOCK};
use hashset_bench::telemetry::MAX_CHAIN;

#[test]
fn blocked_two_hundred_keys_in_two_blocks() {
    let mut table = BlockedCuckoo::with_seed(214, 3);
    assert_eq!(table.capacity(), 214);
    for key in 0..200u64 {
        let update = table.insert(key);
        assert!(update.completed);
        assert_eq!(update.total_writes, 1);
        assert_eq!(update.total_probes, 2);
    }
    assert_eq!(table.len(), 200);
    for key in 0..200u64 {
        let probe = table.probe(key);
        assert!(probe.contained);
        assert!(probe.probes == 1 || probe.probes == 2);
    }
    for key in 200..300u64 {
        let probe = table.probe(key);
        assert!(!probe.contained);
        assert_eq!(probe.probes, 2);
    }
}

#[test]
fn blocked_capacity_is_cut_to_whole_blocks() {
    let table = BlockedCuckoo::with_seed(500, 1);
    assert_eq!(table.capacity(), 4 * BUCKET_PER_BLOCK);
    assert_eq!(table.len(), 0);
}

#[test]
fn blocked_insert_is_idempotent() {
    let mut table = BlockedCuckoo::with_seed(428, 9);
    for key in 0..300u64 {
        assert!(table.insert(key).completed);
    }
    assert_eq!(table.len(), 300);
    for key in 0..300u64 {
        let update = table.insert(key);
        assert!(update.completed);
        assert_eq!(update.total_writes, 0);
        assert!(update.total_probes == 1 || update.total_probes == 2);
    }
    assert_eq!(table.len(), 300);
}

#[test]
fn blocked_removed_key_is_not_put_twice() {
    let mut table = BlockedCuckoo::with_seed(214, 4);
    for key in 0..150u64 {
        assert!(table.insert(key).completed);
    }
    for key in 0..50u64 {
        let update = table.remove(key);
        assert!(update.completed);
        assert_eq!(update.total_writes, 1);
    }
    for key in 50..150u64 {
        let update = table.insert(key);
        assert!(update.completed);
        assert_eq!(update.total_writes, 0);
    }
    assert_eq!(table.len(), 100);
    for key in 50..150u64 {
        assert!(table.remove(key).completed);
        assert!(!table.probe(key).contained);
    }
    assert_eq!(table.len(), 0);
}

#[test]
fn blocked_remove_from_empty_is_a_no_op() {
    let mut table = BlockedCuckoo::with_seed(214, 4);
    let update = table.remove(9);
    assert!(update.completed);
    assert_eq!(update.total_writes, 0);
    assert_eq!(update.total_probes, 2);
    assert_eq!(table.len(), 0);
}

#[test]
fn blocked_full_table_gives_up_and_stays_a_set() {
    let mut table = BlockedCuckoo::with_seed(214, 8);
    for key in 0..214u64 {
        assert!(table.insert(key).completed);
    }
    assert_eq!(table.len(), 214);
    let update = table.insert(1000);
    assert!(!update.completed);
    assert_eq!(update.total_writes, MAX_CHAIN);
    assert_eq!(update.total_probes, MAX_CHAIN + 2);
    assert_eq!(table.len(), 214);
    let mut present = 0;
    for key in 0..214u64 {
        if table.probe(key).contained {
            present += 1;
        }
    }
    if table.probe(1000).contained {
        present += 1;
    }
    assert_eq!(present, 214);
}

#[test]
fn blocked_eviction_moves_a_key_to_its_other_block() {
    let mut done = false;
    for seed in 0..200u64 {
        let mut table = BlockedCuckoo::with_seed(4 * 107, seed);
        let mut evicted = false;
        let mut complete = true;
        let mut keys = Vec::new();
        for key in 0..400u64 {
            let update = table.insert(key);
            if !update.completed {
                complete = false;
                break;
            }
            if update.total_writes > 1 {
                evicted = true;
                assert_eq!(update.total_probes, update.total_writes + 1);
            }
            keys.push(key);
        }
        if !complete || !evicted {
            continue;
        }
        assert_eq!(table.len(), keys.len());
        for key in &keys {
            assert!(table.probe(*key).contained);
        }
        done = true;
        break;
    }
    assert!(done);
}

#[test]
fn blocked_insert_then_remove_restores_the_set() {
    let mut table = BlockedCuckoo::with_seed(214, 15);
    for key in 0..20u64 {
        assert!(table.insert(key).completed);
    }
    assert!(table.insert(900).completed);
    assert_eq!(table.len(), 21);
    assert!(table.remove(900).completed);
    assert_eq!(table.len(), 20);
    assert!(!table.probe(900).contained);
    for key in 0..20u64 {
        assert!(table.probe(key).contained);
    }
}

#[test]
fn blocked_random_table_behaves_like_a_set() {
    let mut table = BlockedCuckoo::new(1070);
    for key in 0..500u64 {
        assert!(table.insert(key).completed);
    }
    assert_eq!(table.len(), 500);
    for key in 0..500u64 {
        assert!(table.probe(key).contained);
    }
    for key in 500..700u64 {
        assert!(!table.probe(key).contained);
    }
}

#[test]
fn blocked_same_seed_gives_the_same_history() {
    let mut first = BlockedCuckoo::with_seed(214, 5);
    let mut second = BlockedCuckoo::with_seed(214, 5);
    for step in 0..600u64 {
        let key = (step * 37) % 260;
        if step % 3 == 2 {
            assert_eq!(first.remove(key), second.remove(key));
        } else {
            assert_eq!(first.insert(key), second.insert(key));
        }
        assert_eq!(first.len(), second.len());
        assert_eq!(first.probe(key), second.probe(key));
    }
}
