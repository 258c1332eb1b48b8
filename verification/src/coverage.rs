//! Why a triangular probe sequence looks at every bucket of a table whose
//! size is a power of two.

use crate::triangular_probing::{law_triangular_number, lemma_position_range, position, triangle};
use vstd::arithmetic::div_mod::{
    lemma_fundamental_div_mod, lemma_mod_equivalence, lemma_mod_multiples_basic, lemma_small_mod,
};
use vstd::arithmetic::power2::{lemma_pow2_pos, lemma_pow2_unfold, pow2};
use vstd::prelude::*;
use vstd::relations::injective_on;
use vstd::set_lib::{lemma_int_range, lemma_map_size, lemma_subset_equality, set_int_range};

verus! {

/// Whether `n` is a power of two.
pub open spec fn power_of_two(n: int) -> bool {
    exists|k: nat| n == pow2(k)
}

/// Where a power of two divides a product with an odd factor, it divides the
/// other factor.
pub proof fn lemma_odd_factor(a: int, b: int, k: nat)
    requires
        a % 2 == 1,
        (a * b) % (pow2(k) as int) == 0,
    ensures
        b % (pow2(k) as int) == 0,
    decreases k,
{
    lemma_pow2_pos(k);
    if k > 0 {
        let less = (k - 1) as nat;
        lemma_pow2_unfold(k);
        lemma_pow2_pos(less);
        let p = pow2(less) as int;
        let q = (a * b) / (2 * p);
        lemma_fundamental_div_mod(a * b, 2 * p);
        assert(a * b == 2 * p * q);
        let x = a / 2;
        assert(a == 2 * x + 1);
        if b % 2 == 1 {
            let y = b / 2;
            assert(b == 2 * y + 1);
            assert(a * b == 2 * (2 * x * y + x + y) + 1) by (nonlinear_arith)
                requires
                    a == 2 * x + 1,
                    b == 2 * y + 1,
            ;
            assert(2 * p * q == 2 * (p * q)) by (nonlinear_arith);
            assert(false);
        }
        let h = b / 2;
        assert(b == 2 * h);
        assert(a * h == q * p) by (nonlinear_arith)
            requires
                a * b == 2 * p * q,
                b == 2 * h,
        ;
        lemma_mod_multiples_basic(q, p);
        lemma_odd_factor(a, h, less);
        let r = h / p;
        lemma_fundamental_div_mod(h, p);
        assert(b == r * (2 * p)) by (nonlinear_arith)
            requires
                b == 2 * h,
                h == p * r,
        ;
        lemma_mod_multiples_basic(r, 2 * p);
        assert(b % (2 * p) == 0);
    } else {
        vstd::arithmetic::power2::lemma2_to64();
    }
}

/// Two steps below a power of two have triangular numbers that differ modulo
/// that power.
pub proof fn lemma_steps_differ(i: int, j: int, k: nat)
    requires
        0 <= i < j < pow2(k),
    ensures
        triangle(i) % (pow2(k) as int) != triangle(j) % (pow2(k) as int),
{
    let n = pow2(k) as int;
    if triangle(j) % n == triangle(i) % n {
        law_triangular_number(i);
        law_triangular_number(j);
        let d = triangle(j) - triangle(i);
        lemma_mod_equivalence(triangle(j), triangle(i), n);
        lemma_fundamental_div_mod(d, n);
        let q = d / n;
        let a = j - i;
        let b = i + j + 1;
        lemma_pow2_unfold(k + 1);
        assert(a * b == q * (2 * n)) by (nonlinear_arith)
            requires
                a == j - i,
                b == i + j + 1,
                2 * triangle(j) == j * (j + 1),
                2 * triangle(i) == i * (i + 1),
                triangle(j) - triangle(i) == n * q,
        ;
        lemma_mod_multiples_basic(q, 2 * n);
        if a % 2 == 1 {
            lemma_odd_factor(a, b, k + 1);
            lemma_small_mod(b as nat, (2 * n) as nat);
        } else {
            assert(b * a == a * b) by (nonlinear_arith);
            lemma_odd_factor(b, a, k + 1);
            lemma_small_mod(a as nat, (2 * n) as nat);
        }
    }
}

/// Two steps below a power of two look at different buckets of a table of
/// that size.
pub proof fn lemma_positions_differ(home: int, i: int, j: int, k: nat)
    requires
        0 <= i < pow2(k),
        0 <= j < pow2(k),
        i != j,
    ensures
        position(home, i, pow2(k) as int) != position(home, j, pow2(k) as int),
{
    let n = pow2(k) as int;
    if i < j {
        lemma_steps_differ(i, j, k);
    } else {
        lemma_steps_differ(j, i, k);
    }
    lemma_mod_equivalence(home + triangle(i), home + triangle(j), n);
    lemma_mod_equivalence(triangle(i), triangle(j), n);
}

/// In a table whose size is a power of two, every bucket is looked at by one
/// of the steps of a probe sequence, whatever its home.
pub proof fn law_every_bucket_is_visited(home: int, bucket: int, capacity: int)
    requires
        power_of_two(capacity),
        0 <= home < capacity,
        0 <= bucket < capacity,
    ensures
        exists|i: int| 0 <= i < capacity && #[trigger] position(home, i, capacity) == bucket,
{
    let k = choose|k: nat| capacity == pow2(k);
    let steps = set_int_range(0, capacity);
    let look = |i: int| position(home, i, capacity);
    let seen = steps.map(look);
    lemma_int_range(0, capacity);
    assert(injective_on(look, steps)) by {
        assert forall|i: int, j: int|
            steps.contains(i) && steps.contains(j) && #[trigger] look(i) == #[trigger] look(
                j,
            ) implies i == j by {
            if i != j {
                lemma_positions_differ(home, i, j, k);
            }
        }
    }
    lemma_map_size(steps, seen, look);
    assert(seen.subset_of(steps)) by {
        assert forall|b: int| seen.contains(b) implies steps.contains(b) by {
            let i = choose|i: int| steps.contains(i) && b == look(i);
            lemma_position_range(home, i, capacity);
        }
    }
    lemma_subset_equality(seen, steps);
    assert(steps.contains(bucket));
    assert(seen.contains(bucket));
    let i = choose|i: int| steps.contains(i) && bucket == look(i);
    assert(0 <= i < capacity && position(home, i, capacity) == bucket);
}

} // verus!
