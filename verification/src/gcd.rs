//! Greatest common divisor: the specification, the Euclidean algorithm,
//! and the divisibility lemmas that canonical-form reasoning rests on.

use vstd::prelude::*;

verus! {

use vstd::arithmetic::div_mod::{
    lemma_fundamental_div_mod,
    lemma_mod_multiples_vanish,
    lemma_truncate_middle,
};
use vstd::arithmetic::mul::lemma_mul_is_commutative;

/// The greatest common divisor, by Euclid's recurrence.
/// `gcd(a, 0) == a`, so `gcd(0, 0) == 0`; for every other pair the result
/// is the largest value dividing both arguments.
pub open spec fn gcd(a: nat, b: nat) -> nat
    decreases b,
{
    if b == 0 {
        a
    } else {
        gcd(b, a % b)
    }
}

/// The gcd of two values, at least one nonzero, is positive.
pub proof fn lemma_gcd_pos(a: nat, b: nat)
    requires
        a > 0 || b > 0,
    ensures
        gcd(a, b) > 0,
    decreases b,
{
    if b > 0 {
        lemma_gcd_pos(b, a % b);
    }
}

/// The gcd divides both of its arguments.
pub proof fn lemma_gcd_divides(a: nat, b: nat)
    requires
        a > 0 || b > 0,
    ensures
        gcd(a, b) > 0,
        a % gcd(a, b) == 0,
        b % gcd(a, b) == 0,
    decreases b,
{
    lemma_gcd_pos(a, b);
    let g = gcd(a, b);
    if b == 0 {
        assert(a % a == 0) by (nonlinear_arith)
            requires a > 0;
        assert(b % g == 0);
    } else {
        lemma_gcd_divides(b, a % b);
        // b and a % b are multiples of g; so is a == b * (a / b) + a % b.
        lemma_fundamental_div_mod(a as int, b as int);
        lemma_fundamental_div_mod(b as int, g as int);
        assert(b == g * (b / g));
        assert(b * (a / b) == g * ((b / g) * (a / b))) by (nonlinear_arith)
            requires b == g * (b / g);
        lemma_mod_multiples_vanish(((b / g) * (a / b)) as int, (a % b) as int, g as int);
    }
}

/// Every common divisor of the two arguments divides their gcd.
pub proof fn lemma_gcd_greatest(a: nat, b: nat, c: nat)
    requires
        c > 0,
        a % c == 0,
        b % c == 0,
    ensures
        gcd(a, b) % c == 0,
    decreases b,
{
    if b == 0 {
    } else {
        // c divides a and b, hence a % b == a - b * (a / b) as well.
        lemma_fundamental_div_mod(a as int, b as int);
        lemma_fundamental_div_mod(a as int, c as int);
        lemma_fundamental_div_mod(b as int, c as int);
        assert(a % b == c * ((a / c) - (b / c) * (a / b))) by (nonlinear_arith)
            requires
                a == c * (a / c),
                b == c * (b / c),
                a % b == a - b * (a / b);
        assert((a % b) % c == 0) by {
            lemma_mod_multiples_vanish((a / c) - (b / c) * (a / b), 0, c as int);
        }
        lemma_gcd_greatest(b, a % b, c);
    }
}

/// The gcd is symmetric in its arguments.
pub proof fn lemma_gcd_sym(a: nat, b: nat)
    requires
        a > 0 || b > 0,
    ensures
        gcd(a, b) == gcd(b, a),
{
    let g1 = gcd(a, b);
    let g2 = gcd(b, a);
    lemma_gcd_divides(a, b);
    lemma_gcd_divides(b, a);
    lemma_gcd_greatest(b, a, g1);
    lemma_gcd_greatest(a, b, g2);
    lemma_divisor_bound(g2, g1);
    lemma_divisor_bound(g1, g2);
}

/// A positive multiple is at least as large as its divisor.
pub proof fn lemma_divisor_bound(x: nat, c: nat)
    requires
        c > 0,
        x > 0,
        x % c == 0,
    ensures
        c <= x,
{
    lemma_fundamental_div_mod(x as int, c as int);
    assert(c <= x) by (nonlinear_arith)
        requires
            x == c * (x / c),
            x > 0,
            c > 0;
}

/// A common factor moves out of a gcd: `gcd(c * a, c * b) == c * gcd(a, b)`.
pub proof fn lemma_gcd_mul_factor(a: nat, b: nat, c: nat)
    requires
        c > 0,
    ensures
        gcd(c * a, c * b) == c * gcd(a, b),
    decreases b,
{
    if b == 0 {
        assert(c * b == 0) by (nonlinear_arith)
            requires b == 0;
    } else {
        assert(c * b > 0) by (nonlinear_arith)
            requires c > 0, b > 0;
        lemma_truncate_middle(a as int, c as int, b as int);
        assert((c * a) % (c * b) == c * (a % b));
        lemma_gcd_mul_factor(b, a % b, c);
    }
}

/// Euclid's lemma: a value coprime to `c` can be cancelled from a
/// product divisible by `c`.
pub proof fn lemma_coprime_cancel(a: nat, b: nat, c: nat)
    requires
        c > 0,
        gcd(c, a) == 1,
        (a * b) % c == 0,
    ensures
        b % c == 0,
{
    if b == 0 {
        assert(0nat % c == 0) by (nonlinear_arith)
            requires c > 0;
    } else {
        lemma_gcd_mul_factor(c, a, b);
        assert(gcd(b * c, b * a) == b * 1 == b);
        lemma_mul_is_commutative(b as int, c as int);
        lemma_mul_is_commutative(b as int, a as int);
        assert(gcd(c * b, a * b) == b);
        // c divides both c * b and a * b, hence their gcd, which is b.
        assert((c * b) % c == 0) by {
            lemma_mul_is_commutative(c as int, b as int);
            lemma_mod_multiples_vanish(b as int, 0, c as int);
        }
        lemma_gcd_greatest(c * b, a * b, c);
    }
}

/// Dividing two values by their gcd leaves a coprime pair.
pub proof fn lemma_reduce_coprime(n: nat, d: nat)
    requires
        d > 0,
    ensures
        gcd(n, d) > 0,
        gcd(n / gcd(n, d), d / gcd(n, d)) == 1,
{
    let g = gcd(n, d);
    lemma_gcd_divides(n, d);
    lemma_fundamental_div_mod(n as int, g as int);
    lemma_fundamental_div_mod(d as int, g as int);
    assert(n == g * (n / g));
    assert(d == g * (d / g));
    assert(d / g > 0) by (nonlinear_arith)
        requires
            d == g * (d / g),
            d > 0;
    lemma_gcd_mul_factor(n / g, d / g, g);
    assert(gcd(g * (n / g), g * (d / g)) == g * gcd(n / g, d / g));
    assert(g == g * gcd(n / g, d / g));
    assert(gcd(n / g, d / g) == 1) by (nonlinear_arith)
        requires
            g == g * gcd(n / g, d / g),
            g > 0;
}

/// A coprime representation of a ratio is unique: two coprime pairs with
/// positive denominators and equal cross-products are the same pair.
pub proof fn lemma_coprime_pair_unique(n1: nat, d1: nat, n2: nat, d2: nat)
    requires
        d1 > 0,
        d2 > 0,
        gcd(n1, d1) == 1,
        gcd(n2, d2) == 1,
        n1 * d2 == n2 * d1,
    ensures
        n1 == n2,
        d1 == d2,
{
    lemma_gcd_sym(n1, d1);
    lemma_gcd_sym(n2, d2);
    // d1 divides n1 * d2 and is coprime to n1, so d1 divides d2.
    assert((n1 * d2) % d1 == 0) by {
        lemma_mul_is_commutative(n2 as int, d1 as int);
        lemma_mod_multiples_vanish(n2 as int, 0, d1 as int);
    }
    lemma_coprime_cancel(n1, d2, d1);
    assert((n2 * d1) % d2 == 0) by {
        lemma_mul_is_commutative(n1 as int, d2 as int);
        lemma_mod_multiples_vanish(n1 as int, 0, d2 as int);
    }
    lemma_coprime_cancel(n2, d1, d2);
    lemma_divisor_bound(d2, d1);
    lemma_divisor_bound(d1, d2);
    assert(n1 == n2) by (nonlinear_arith)
        requires
            n1 * d2 == n2 * d1,
            d1 == d2,
            d1 > 0;
}

/// The Euclidean algorithm, as the `reduce` step runs it: repeatedly
/// replace the pair `(a, b)` by `(b, a % b)` until the second entry is zero.
pub fn gcd_exec(a0: u128, b0: u128) -> (g: u128)
    requires
        a0 > 0 || b0 > 0,
    ensures
        g == gcd(a0 as nat, b0 as nat),
        g > 0,
{
    let mut a = a0;
    let mut b = b0;
    while b != 0
        invariant
            a > 0 || b > 0,
            gcd(a as nat, b as nat) == gcd(a0 as nat, b0 as nat),
        decreases b,
    {
        let remainder = a % b;
        a = b;
        b = remainder;
    }
    proof {
        lemma_gcd_pos(a0 as nat, b0 as nat);
    }
    a
}

} // verus!
