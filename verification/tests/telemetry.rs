use hashset_bench::telemetry::{Probe, Update, MAX_CHAIN};

#[test]
fn chain_budget_is_one_hundred_and_twenty_eight() {
    assert_eq!(MAX_CHAIN, 128);
}

#[test]
fn update_within_budget() {
    let fine = Update { total_probes: 128, total_writes: 3, completed: true };
    assert!(fine.within_budget());
    let slow = Update { total_probes: 129, total_writes: 3, completed: true };
    assert!(!slow.within_budget());
    let failed = Update { total_probes: 1, total_writes: 0, completed: false };
    assert!(!failed.within_budget());
}

#[test]
fn probe_compares_by_fields() {
    let one = Probe { contained: true, probes: 2 };
    let other = Probe { contained: true, probes: 2 };
    assert_eq!(one, other);
    assert_ne!(one, Probe { contained: false, probes: 2 });
}
