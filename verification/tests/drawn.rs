use hashset_bench::blocked_cuckoo::BlockedCuckoo;
use hashset_bench::telemetry::MAX_CHAIN;
use hashset_bench::three_ary_cuckoo::ThreeAryCuckoo;

fn picks_of(value: usize) -> Vec<usize> {
    vec![value; MAX_CHAIN]
}

fn stepped_picks() -> Vec<usize> {
    let mut picks = Vec::new();
    for index in 0..MAX_CHAIN {
        picks.push(index * 7 + 3);
    }
    picks
}

#[test]
fn three_ary_drawn_insert_without_eviction_ignores_the_picks() {
    let mut one = ThreeAryCuckoo::with_seed(64, 4, 9);
    let mut other = ThreeAryCuckoo::with_seed(64, 4, 9);
    for key in 0..10u64 {
        let first = one.insert_drawn(key, &picks_of(0));
        let second = other.insert_drawn(key, &picks_of(2));
        assert!(first.completed);
        assert_eq!(first, second);
    }
    assert_eq!(one.len(), 10);
    for key in 0..10u64 {
        assert!(one.probe(key).contained);
        assert!(other.probe(key).contained);
    }
}

#[test]
fn three_ary_drawn_insert_of_a_present_key_is_a_lookup() {
    let mut table = ThreeAryCuckoo::with_seed(64, 4, 9);
    assert!(table.insert_drawn(5, &picks_of(1)).completed);
    let probe = table.probe(5);
    let update = table.insert_drawn(5, &picks_of(1));
    assert!(update.completed);
    assert_eq!(update.total_writes, 0);
    assert_eq!(update.total_probes, probe.probes);
    assert_eq!(table.len(), 1);
}

#[test]
fn three_ary_drawn_insert_into_a_full_table_runs_the_whole_chain() {
    for bits in [0usize, 2] {
        let mut table = ThreeAryCuckoo::with_seed(3, bits, 12);
        for key in 1..=3u64 {
            assert!(table.insert_drawn(key, &picks_of(0)).completed);
        }
        let looks = table.probe(4).probes;
        let update = table.insert_drawn(4, &stepped_picks());
        assert!(!update.completed);
        assert_eq!(update.total_writes, MAX_CHAIN);
        let chain_reads = if bits == 0 { 3 + 2 * (MAX_CHAIN - 1) } else { MAX_CHAIN };
        assert_eq!(update.total_probes, looks + chain_reads);
        assert_eq!(table.len(), 3);
    }
}

#[test]
fn three_ary_same_picks_give_the_same_outcome() {
    let mut one = ThreeAryCuckoo::with_seed(30, 2, 77);
    let mut other = ThreeAryCuckoo::with_seed(30, 2, 77);
    let picks = stepped_picks();
    let mut evicted = false;
    for key in 0..60u64 {
        let first = one.insert_drawn(key, &picks);
        let second = other.insert_drawn(key, &picks);
        assert_eq!(first, second);
        if first.total_writes > 1 {
            evicted = true;
        }
        assert_eq!(one.len(), other.len());
    }
    assert!(evicted);
    let mut present = 0;
    for key in 0..60u64 {
        assert_eq!(one.probe(key), other.probe(key));
        if one.probe(key).contained {
            present += 1;
        }
    }
    assert_eq!(present, one.len());
}

#[test]
fn blocked_drawn_insert_into_a_full_table_runs_the_whole_chain() {
    let mut table = BlockedCuckoo::with_seed(214, 8);
    for key in 0..214u64 {
        let update = table.insert_drawn(key, &picks_of(0));
        assert!(update.completed);
        assert_eq!(update.total_writes, 1);
        assert_eq!(update.total_probes, 2);
    }
    let update = table.insert_drawn(1000, &stepped_picks());
    assert!(!update.completed);
    assert_eq!(update.total_writes, MAX_CHAIN);
    assert_eq!(update.total_probes, MAX_CHAIN + 2);
    assert_eq!(table.len(), 214);
}

#[test]
fn blocked_drawn_insert_of_a_present_key_writes_nothing() {
    let mut table = BlockedCuckoo::with_seed(214, 8);
    assert!(table.insert_drawn(5, &picks_of(0)).completed);
    let probe = table.probe(5);
    let update = table.insert_drawn(5, &picks_of(3));
    assert!(update.completed);
    assert_eq!(update.total_writes, 0);
    assert_eq!(update.total_probes, probe.probes);
    assert_eq!(table.len(), 1);
}

#[test]
fn blocked_same_picks_give_the_same_outcome() {
    let mut one = BlockedCuckoo::with_seed(428, 21);
    let mut other = BlockedCuckoo::with_seed(428, 21);
    let picks = stepped_picks();
    let mut evicted = false;
    for key in 0..440u64 {
        let first = one.insert_drawn(key, &picks);
        let second = other.insert_drawn(key, &picks);
        assert_eq!(first, second);
        if first.completed && first.total_writes > 1 {
            evicted = true;
            assert_eq!(first.total_probes, first.total_writes + 1);
        }
        assert_eq!(one.len(), other.len());
    }
    assert!(evicted);
    let mut present = 0;
    for key in 0..440u64 {
        assert_eq!(one.probe(key), other.probe(key));
        if one.probe(key).contained {
            present += 1;
        }
    }
    assert_eq!(present, one.len());
}
