use hashset_bench::hashing::{bucket_for_hash, stream_word};
use hashset_bench::slots::next_bucket;
use hashset_bench::three_ary_cuckoo::{spare_for, victim};
use hashset_bench::triangular_probing::TriaProb;

#[test]
fn bucket_is_the_hash_modulo_the_capacity() {
    assert_eq!(bucket_for_hash(130, 64), 2);
    assert_eq!(bucket_for_hash(63, 64), 63);
    assert_eq!(bucket_for_hash(64, 64), 0);
    assert_eq!(bucket_for_hash(u64::MAX, 1), 0);
    assert_eq!(bucket_for_hash(u64::MAX, 10), 5);
    assert_eq!(bucket_for_hash(0, 7), 0);
}

#[test]
fn next_bucket_wraps_around() {
    assert_eq!(next_bucket(0, 4), 1);
    assert_eq!(next_bucket(2, 4), 3);
    assert_eq!(next_bucket(3, 4), 0);
    assert_eq!(next_bucket(0, 1), 0);
}

#[test]
fn spare_bucket_avoids_both_taken_buckets() {
    assert_eq!(spare_for(5, 0, 0), 1);
    assert_eq!(spare_for(5, 0, 1), 2);
    assert_eq!(spare_for(5, 2, 1), 3);
    assert_eq!(spare_for(5, 0, 4), 1);
    assert_eq!(spare_for(5, 4, 3), 0);
    assert_eq!(spare_for(3, 1, 0), 2);
    assert_eq!(spare_for(3, 0, 2), 1);
}

#[test]
fn victim_counts_through_the_usable_buckets() {
    assert_eq!(victim(10, 20, 30, 3, 0), 10);
    assert_eq!(victim(10, 20, 30, 3, 1), 20);
    assert_eq!(victim(10, 20, 30, 3, 2), 30);
    assert_eq!(victim(10, 20, 30, 3, 4), 20);
    assert_eq!(victim(10, 20, 30, 0, 0), 20);
    assert_eq!(victim(10, 20, 30, 0, 1), 30);
    assert_eq!(victim(10, 20, 30, 1, 0), 10);
    assert_eq!(victim(10, 20, 30, 1, 1), 30);
    assert_eq!(victim(10, 20, 30, 2, 0), 10);
    assert_eq!(victim(10, 20, 30, 2, 1), 20);
    assert_eq!(victim(10, 20, 30, 2, 7), 20);
}

#[test]
fn triangular_steps_wrap_around() {
    assert_eq!(TriaProb::step_on(5, 3, 8), 0);
    assert_eq!(TriaProb::step_on(0, 1, 8), 1);
    assert_eq!(TriaProb::step_on(1, 2, 8), 3);
    assert_eq!(TriaProb::step_on(3, 3, 8), 6);
    assert_eq!(TriaProb::step_on(6, 4, 8), 2);
    assert_eq!(TriaProb::step_on(7, 7, 8), 6);
    assert_eq!(TriaProb::step_on(0, 0, 1), 0);
}

#[test]
fn stream_words_are_stirred() {
    assert_eq!(stream_word(0, 0), 0);
    assert_eq!(stream_word(0, 1), 0xE220_A839_7B1D_CDAF);
    assert_eq!(stream_word(0, 2), 0x6E78_9E6A_A1B9_65F4);
    assert_eq!(stream_word(1, 1), 0x910A_2DEC_8902_5CC1);
    assert_eq!(stream_word(u64::MAX, 7), 0xF14F_2CF8_0208_3FA5);
}
