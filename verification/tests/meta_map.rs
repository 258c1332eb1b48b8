use hashset_bench::meta_map::{MetaMap, Metadata, PslHint};

#[test]
fn psl_hint_is_exact_below_the_cap_and_saturates_at_it() {
    let mut map = MetaMap::new(4, 4);
    map.set_full(2, Metadata::Psl(3));
    assert_eq!(map.hint_psl(2), Some(PslHint::Exact(3)));
    map.set_full(2, Metadata::Psl(1024));
    assert_eq!(map.hint_psl(2), Some(PslHint::AtLeast(8)));
    map.set_empty(2);
    assert!(map.hint_empty(2));
    assert_eq!(map.hint_psl(2), None);
}

#[test]
fn psl_hint_at_every_length_of_a_four_bit_cell() {
    let mut map = MetaMap::new(3, 4);
    for psl in 1..8usize {
        map.set_full(1, Metadata::Psl(psl));
        assert_eq!(map.hint_psl(1), Some(PslHint::Exact(psl)));
    }
    for psl in 8..20usize {
        map.set_full(1, Metadata::Psl(psl));
        assert_eq!(map.hint_psl(1), Some(PslHint::AtLeast(8)));
    }
    assert_eq!(map.hint_psl(0), None);
    assert_eq!(map.hint_psl(2), None);
}

#[test]
fn new_map_reads_empty_everywhere() {
    for bits in [1usize, 2, 3, 4, 5, 8] {
        let map = MetaMap::new(10, bits);
        assert_eq!(map.bits(), bits);
        for bucket in 0..10 {
            assert!(map.hint_empty(bucket));
            assert!(!map.hint_tombstone(bucket));
            assert_eq!(map.hint_psl(bucket), None);
            assert!(map.hint_not_match(bucket, 0));
        }
    }
}

#[test]
fn zero_bits_gives_the_cautious_answer() {
    let mut map = MetaMap::new(5, 0);
    assert_eq!(map.bits(), 0);
    map.set_full(3, Metadata::Hash(u64::MAX));
    map.set_tombstone(1);
    map.set_empty(2);
    for bucket in 0..5 {
        assert!(!map.hint_empty(bucket));
        assert!(!map.hint_tombstone(bucket));
        assert!(!map.hint_not_match(bucket, 17));
        assert_eq!(map.hint_psl(bucket), Some(PslHint::AtLeast(1)));
    }
}

#[test]
fn one_bit_tells_full_from_empty_only() {
    let mut map = MetaMap::new(4, 1);
    map.set_full(0, Metadata::Hash(0xdead_beef));
    assert!(!map.hint_empty(0));
    assert!(!map.hint_not_match(0, 1));
    assert_eq!(map.hint_psl(0), Some(PslHint::AtLeast(1)));
    assert!(map.hint_empty(1));
    assert!(map.hint_not_match(1, 0xdead_beef));
    map.set_tombstone(2);
    assert!(!map.hint_empty(2));
    assert!(!map.hint_tombstone(2));
    map.set_empty(0);
    assert!(map.hint_empty(0));
}

#[test]
fn fingerprint_is_the_top_bits_of_the_hash() {
    let mut map = MetaMap::new(8, 4);
    let hash: u64 = 0b101 << 61;
    map.set_full(5, Metadata::Hash(hash));
    assert!(!map.hint_not_match(5, hash));
    assert!(!map.hint_not_match(5, hash | 0xffff));
    assert!(map.hint_not_match(5, 0b100 << 61));
    assert!(map.hint_not_match(5, 0));
    assert!(map.hint_not_match(4, hash));
    assert_eq!(map.hint_psl(5), Some(PslHint::Exact(0b101 + 1)));
}

#[test]
fn fingerprint_of_eight_bits_keeps_seven() {
    let mut map = MetaMap::new(9, 8);
    let hash: u64 = 0x8123_4567_89ab_cdef;
    map.set_full(8, Metadata::Hash(hash));
    assert!(!map.hint_not_match(8, hash));
    assert!(!map.hint_not_match(8, hash ^ (1u64 << 56)));
    assert!(map.hint_not_match(8, hash ^ (1u64 << 57)));
    assert!(map.hint_not_match(8, hash ^ (1u64 << 63)));
}

#[test]
fn tombstone_is_neither_empty_nor_full() {
    for bits in [2usize, 4, 8] {
        let mut map = MetaMap::new(6, bits);
        map.set_full(3, Metadata::Hash(7));
        map.set_tombstone(3);
        assert!(map.hint_tombstone(3));
        assert!(!map.hint_empty(3));
        assert_eq!(map.hint_psl(3), None);
        assert!(map.hint_not_match(3, u64::MAX));
        assert!(!map.hint_tombstone(2));
        assert!(map.hint_empty(2));
        assert!(map.hint_empty(4));
    }
}

#[test]
fn writing_one_cell_leaves_its_neighbours() {
    let mut map = MetaMap::new(40, 3);
    for bucket in 0..40usize {
        map.set_full(bucket, Metadata::Psl(bucket % 3 + 1));
    }
    map.set_empty(21);
    map.set_full(22, Metadata::Psl(9));
    for bucket in 0..40usize {
        let expected = if bucket == 21 {
            None
        } else if bucket == 22 {
            Some(PslHint::AtLeast(4))
        } else {
            Some(PslHint::Exact(bucket % 3 + 1))
        };
        assert_eq!(map.hint_psl(bucket), expected);
    }
}
