//! Arithmetic modulo the prime `MODULUS`: congruence and inverses.

use vstd::arithmetic::div_mod::{lemma_fundamental_div_mod, lemma_mod_multiples_basic};
use vstd::prelude::*;

verus! {

/// The prime modulus of the field in which boundary ranks are computed.
pub const MODULUS: u64 = 65521;

/// `x` and `y` are congruent modulo `MODULUS`.
pub open spec fn congruent(x: int, y: int) -> bool {
    (x - y) % (MODULUS as int) == 0
}

/// `MODULUS` is prime: nothing between 1 and `MODULUS` divides it.
pub proof fn lemma_modulus_prime(d: int)
    requires
        2 <= d < MODULUS,
    ensures
        (MODULUS as int) % d != 0,
{
    let p = MODULUS as int;
    assert(forall|e: u64| 2 <= e < 256 ==> #[trigger] (65521u64 % e) != 0) by (bit_vector);
    if d < 256 {
        assert(65521u64 % (d as u64) != 0);
    } else if p % d == 0 {
        lemma_fundamental_div_mod(p, d);
        let k = p / d;
        assert(p == d * k);
        assert(k >= 1) by (nonlinear_arith)
            requires
                p == d * k,
                d >= 256,
                p > 0,
        ;
        assert(k < 256) by (nonlinear_arith)
            requires
                p == d * k,
                d >= 256,
                p == 65521,
        ;
        if k == 1 {
            assert(d * k == d) by (nonlinear_arith)
                requires
                    k == 1,
            ;
        }
        lemma_mod_multiples_basic(d, k);
        assert(p % k == 0);
        assert(65521u64 % (k as u64) != 0);
    }
}

/// A multiple of `MODULUS` stays one under integer combinations.
pub proof fn lemma_multiple_comb(a: int, x: int, b: int, y: int)
    requires
        x % (MODULUS as int) == 0,
        y % (MODULUS as int) == 0,
    ensures
        (a * x + b * y) % (MODULUS as int) == 0,
{
    let p = MODULUS as int;
    lemma_fundamental_div_mod(x, p);
    lemma_fundamental_div_mod(y, p);
    let kx = x / p;
    let ky = y / p;
    assert(a * x + b * y == (a * kx + b * ky) * p) by (nonlinear_arith)
        requires
            x == p * kx + 0,
            y == p * ky + 0,
    ;
    lemma_mod_multiples_basic(a * kx + b * ky, p);
}

/// Congruence is kept by integer combinations.
pub proof fn lemma_congruent_comb(a: int, x1: int, y1: int, b: int, x2: int, y2: int)
    requires
        congruent(x1, y1),
        congruent(x2, y2),
    ensures
        congruent(a * x1 + b * x2, a * y1 + b * y2),
{
    lemma_multiple_comb(a, x1 - y1, b, x2 - y2);
    assert(a * (x1 - y1) + b * (x2 - y2) == (a * x1 + b * x2) - (a * y1 + b * y2)) by (nonlinear_arith);
}

/// Congruence is transitive.
pub proof fn lemma_congruent_trans(x: int, y: int, z: int)
    requires
        congruent(x, y),
        congruent(y, z),
    ensures
        congruent(x, z),
{
    lemma_multiple_comb(1, x - y, 1, y - z);
}

/// Congruence is symmetric.
pub proof fn lemma_congruent_symm(x: int, y: int)
    requires
        congruent(x, y),
    ensures
        congruent(y, x),
{
    lemma_multiple_comb(-1, x - y, 0, 0);
}

/// Congruence is reflexive.
pub proof fn lemma_congruent_refl(x: int)
    ensures
        congruent(x, x),
{
    assert((x - x) % (MODULUS as int) == 0);
}

/// A residue between 1 and `MODULUS - 1` has an inverse.
proof fn lemma_inverse_residue(a: int) -> (z: int)
    requires
        0 < a < MODULUS,
    ensures
        congruent(a * z, 1),
    decreases a,
{
    let p = MODULUS as int;
    if a == 1 {
        assert(congruent(1, 1));
        1
    } else {
        lemma_modulus_prime(a);
        lemma_fundamental_div_mod(p, a);
        let q = p / a;
        let r = p % a;
        assert(0 < r < a);
        let z1 = lemma_inverse_residue(r);
        lemma_fundamental_div_mod(r * z1 - 1, p);
        let k = (r * z1 - 1) / p;
        let z = -q * z1;
        assert(a * z - 1 == (k - z1) * p) by (nonlinear_arith)
            requires
                p == a * q + r,
                r * z1 - 1 == p * k + 0,
                z == -q * z1,
        ;
        lemma_mod_multiples_basic(k - z1, p);
        z
    }
}

/// Every integer that is not a multiple of `MODULUS` has an inverse.
pub proof fn lemma_inverse(x: int) -> (z: int)
    requires
        x % (MODULUS as int) != 0,
    ensures
        congruent(x * z, 1),
{
    let p = MODULUS as int;
    let a = x % p;
    lemma_fundamental_div_mod(x, p);
    let z = lemma_inverse_residue(a);
    // x * z - a * z = (x - a) * z, a multiple of p.
    assert(x - a == p * (x / p));
    lemma_multiple_comb(z, x - a, 0, 0);
    assert(z * (x - a) + 0 * 0 == x * z - a * z) by (nonlinear_arith);
    lemma_congruent_trans(x * z, a * z, 1);
    z
}

/// A product of two integers that are not multiples of `MODULUS` is not
/// one either.
pub proof fn lemma_product_nonzero(x: int, y: int)
    requires
        x % (MODULUS as int) != 0,
        y % (MODULUS as int) != 0,
    ensures
        (x * y) % (MODULUS as int) != 0,
{
    let z = lemma_inverse(x);
    if (x * y) % (MODULUS as int) == 0 {
        // y = (x * z) * y - (x * z - 1) * y is then a multiple.
        lemma_multiple_comb(z, x * y, -y, x * z - 1);
        assert(z * (x * y) + (-y) * (x * z - 1) == y) by (nonlinear_arith);
    }
}

} // verus!
