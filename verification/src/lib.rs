//! Fixed-capacity open-addressed hash sets for `u64` keys, with a bit-packed
//! metadata sidecar, each reporting how many buckets an operation read and wrote.

pub mod bits;
pub mod coverage;
pub mod blocked_cuckoo;
pub mod cuckoo;
pub mod hashing;
pub mod keyset;
pub mod meta_map;
pub mod random;
pub mod robinhood;
pub mod slots;
pub mod telemetry;
pub mod three_ary_cuckoo;
pub mod triangular_probing;
