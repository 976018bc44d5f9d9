//! The decimal digit expansion of a non-negative fraction: a single-use
//! long-division engine that yields digits one at a time and can isolate
//! the repeating block of the expansion.

use vstd::prelude::*;

verus! {

use crate::rational::Rational;
use vstd::arithmetic::div_mod::{
    lemma_div_nonincreasing, lemma_fundamental_div_mod, lemma_mod_division_less_than_divisor,
};
use vstd::set_lib::{lemma_int_range, lemma_len_subset, set_int_range};

/// A single-use long-division engine over a non-negative numerator and a
/// positive denominator. Each digit-production step consumes the state
/// destructively; a fresh engine must be built for every expansion.
pub struct Decimal {
    /// The running numerator; scaled by ten after every digit.
    pub numerator: u128,
    /// The divisor; never zero and never changed.
    pub denominator: u64,
}

/// The remainder after `i` digit-production steps of the long division of
/// `n0` by `d`: first `n0 % d`, then each step scales by ten and reduces.
pub open spec fn rem_at(n0: nat, d: nat, i: nat) -> nat
    decreases i,
{
    if i == 0 {
        n0 % d
    } else {
        (rem_at(n0, d, (i - 1) as nat) * 10) % d
    }
}

/// The `i`-th digit of the expansion of `n0 / d`: digit zero is the whole
/// part, digit `i >= 1` the `i`-th fractional decimal digit.
pub open spec fn digit_at(n0: nat, d: nat, i: nat) -> nat {
    if i == 0 {
        n0 / d
    } else {
        (rem_at(n0, d, (i - 1) as nat) * 10) / d
    }
}

/// Every remainder of the expansion is below the divisor.
pub proof fn lemma_rem_bound(n0: nat, d: nat, i: nat)
    requires
        d > 0,
    ensures
        rem_at(n0, d, i) < d,
{
    if i == 0 {
        lemma_mod_division_less_than_divisor(n0 as int, d as int);
    } else {
        lemma_mod_division_less_than_divisor((rem_at(n0, d, (i - 1) as nat) * 10) as int, d as int);
    }
}

/// Every fractional digit of the expansion is below ten.
pub proof fn lemma_digit_bound(n0: nat, d: nat, i: nat)
    requires
        d > 0,
        i >= 1,
    ensures
        digit_at(n0, d, i) < 10,
{
    lemma_rem_bound(n0, d, (i - 1) as nat);
    let r = rem_at(n0, d, (i - 1) as nat);
    let q = (r * 10) as int / d as int;
    lemma_fundamental_div_mod((r * 10) as int, d as int);
    lemma_mod_division_less_than_divisor((r * 10) as int, d as int);
    assert(q < 10) by (nonlinear_arith)
        requires
            d as int * q + ((r * 10) as int % d as int) == (r * 10) as int,
            (r * 10) as int % d as int >= 0,
            r < d,
            d > 0,
            q >= 0,
    ;
}

/// Pigeonhole: a duplicate-free sequence of values drawn from the range
/// `1` to `d - 1` is shorter than `d`.
pub proof fn lemma_distinct_bounded(s: Seq<u64>, d: u64)
    requires
        d >= 1,
        s.no_duplicates(),
        forall|i: int| 0 <= i < s.len() ==> 1 <= #[trigger] s[i] && s[i] < d,
    ensures
        s.len() < d,
{
    let t = s.map_values(|x: u64| x as int);
    assert(t.no_duplicates()) by {
        assert forall|i: int, j: int|
            0 <= i < t.len() && 0 <= j < t.len() && i != j implies t[i] != t[j] by {
            assert(s[i] != s[j]);
        }
    }
    t.unique_seq_to_set();
    assert(t.to_set().subset_of(set_int_range(1, d as int))) by {
        assert forall|x: int| t.to_set().contains(x) implies set_int_range(
            1,
            d as int,
        ).contains(x) by {
            let i = choose|i: int| 0 <= i < t.len() && t[i] == x;
            assert(1 <= s[i] && s[i] < d);
        }
    }
    lemma_int_range(1, d as int);
    lemma_len_subset(t.to_set(), set_int_range(1, d as int));
}

impl Decimal {
    /// Well-formedness: the divisor is positive, and the numerator either
    /// still holds its initial 64-bit value or has already been reduced
    /// below ten times the divisor, so the next digit fits.
    pub open spec fn wf(self) -> bool {
        &&& self.denominator > 0
        &&& (self.numerator <= u64::MAX || (self.numerator as int) < 10 * (self.denominator as int))
    }

    /// Builds a digit engine from a numerator and a positive denominator.
    pub fn build(numerator: u64, denominator: u64) -> (r: Decimal)
        requires
            denominator > 0,
        ensures
            r.wf(),
            r.numerator == numerator,
            r.denominator == denominator,
    {
        Decimal { numerator: numerator as u128, denominator }
    }

    /// The divisor of the engine; positive on every well-formed value.
    pub fn get_denominator(&self) -> (r: u64)
        ensures
            r == self.denominator,
            self.wf() ==> r > 0,
    {
        self.denominator
    }

    /// One canonical long-division step, shared by every digit producer:
    /// yields the quotient as the next digit and scales the remainder by
    /// ten for the step after it.
    fn step(&mut self) -> (digit: u64)
        requires
            old(self).wf(),
        ensures
            final(self).wf(),
            final(self).denominator == old(self).denominator,
            digit as int == old(self).numerator as int / old(self).denominator as int,
            final(self).numerator as int == (old(self).numerator as int % old(
                self,
            ).denominator as int) * 10,
    {
        let d: u128 = self.denominator as u128;
        let digit: u128 = self.numerator / d;
        let rem: u128 = self.numerator % d;
        proof {
            lemma_mod_division_less_than_divisor(self.numerator as int, d as int);
            if self.numerator <= u64::MAX {
                lemma_div_nonincreasing(self.numerator as int, d as int);
            } else {
                lemma_fundamental_div_mod(self.numerator as int, d as int);
                assert(digit < 10) by (nonlinear_arith)
                    requires
                        d as int * digit + (self.numerator as int % d as int)
                            == self.numerator as int,
                        self.numerator as int % d as int >= 0,
                        (self.numerator as int) < 10 * d as int,
                        d > 0,
                        digit >= 0,
                ;
            }
        }
        self.numerator = rem * 10;
        digit as u64
    }

    /// The digits of the expansion, split into the non-repeating prefix and
    /// the repeating cycle. The first prefix entry is the whole part; every
    /// later prefix entry and every cycle entry is one fractional decimal
    /// digit. An empty cycle means the expansion terminates right after the
    /// prefix; a nonempty cycle repeats forever, as the matching remainders
    /// state. The remainders seen before the split are pairwise distinct
    /// and nonzero, so the split is the earliest possible and the total
    /// digit count never exceeds the divisor.
    pub fn get_repeating(&mut self) -> (r: (Vec<u64>, Vec<u64>))
        requires
            old(self).wf(),
        ensures
            final(self).wf(),
            final(self).denominator == old(self).denominator,
            ({
                let n0 = old(self).numerator as nat;
                let d = old(self).denominator as nat;
                let prefix = r.0@;
                let cycle = r.1@;
                let p = (prefix.len() - 1) as nat;
                let k = (p + cycle.len()) as nat;
                &&& prefix.len() >= 1
                &&& prefix[0] as nat == digit_at(n0, d, 0)
                &&& (forall|i: int|
                    1 <= i < prefix.len() ==> #[trigger] prefix[i] as nat == digit_at(
                        n0,
                        d,
                        i as nat,
                    ))
                &&& (forall|j: int|
                    0 <= j < cycle.len() ==> #[trigger] cycle[j] as nat == digit_at(
                        n0,
                        d,
                        (p + 1 + j) as nat,
                    ))
                &&& prefix.len() + cycle.len() <= d
                &&& (cycle.len() == 0 ==> rem_at(n0, d, p) == 0)
                &&& (cycle.len() > 0 ==> rem_at(n0, d, k) == rem_at(n0, d, p))
                &&& (forall|i: int, j: int|
                    0 <= i < j < k ==> #[trigger] rem_at(n0, d, i as nat) != #[trigger] rem_at(
                        n0,
                        d,
                        j as nat,
                    ))
                &&& (forall|i: int| 0 <= i < k ==> #[trigger] rem_at(n0, d, i as nat) != 0)
                &&& (forall|i: int| 1 <= i < prefix.len() ==> #[trigger] prefix[i] < 10)
                &&& (forall|j: int| 0 <= j < cycle.len() ==> #[trigger] cycle[j] < 10)
            }),
    {
        let ghost n0: nat = self.numerator as nat;
        let ghost d: nat = self.denominator as nat;
        let divisor: u128 = self.denominator as u128;
        let mut digits: Vec<u64> = Vec::new();
        let mut remainders: Vec<u64> = Vec::new();
        proof {
            lemma_mod_division_less_than_divisor(self.numerator as int, divisor as int);
        }
        let mut remainder: u64 = (self.numerator % divisor) as u64;
        let mut go: bool = remainder != 0 && !contains_val(&remainders, remainder);
        while go
            invariant
                d >= 1,
                self.wf(),
                self.denominator as u128 == divisor,
                d == divisor as nat,
                digits@.len() == remainders@.len(),
                remainders@.len() < d,
                remainder as nat == rem_at(n0, d, digits@.len() as nat),
                (digits@.len() == 0 ==> self.numerator as nat == n0),
                (digits@.len() > 0 ==> self.numerator as nat == rem_at(
                    n0,
                    d,
                    (digits@.len() - 1) as nat,
                ) * 10),
                forall|i: int|
                    0 <= i < digits@.len() ==> #[trigger] digits@[i] as nat == digit_at(
                        n0,
                        d,
                        i as nat,
                    ),
                forall|i: int|
                    0 <= i < remainders@.len() ==> #[trigger] remainders@[i] as nat == rem_at(
                        n0,
                        d,
                        i as nat,
                    ),
                forall|i: int|
                    0 <= i < remainders@.len() ==> 1 <= #[trigger] remainders@[i]
                        && remainders@[i] < d,
                remainders@.no_duplicates(),
                go == (remainder != 0 && !remainders@.contains(remainder)),
            decreases d - remainders@.len(),
        {
            let ghost k: nat = digits@.len() as nat;
            let ghost old_remainders = remainders@;
            let digit: u64 = self.step();
            digits.push(digit);
            remainders.push(remainder);
            proof {
                lemma_rem_bound(n0, d, k);
                assert(digits@[k as int] as nat == digit_at(n0, d, k));
                assert(remainders@.no_duplicates()) by {
                    assert forall|i: int, j: int|
                        0 <= i < remainders@.len() && 0 <= j < remainders@.len() && i
                            != j implies remainders@[i] != remainders@[j] by {
                        if i < old_remainders.len() && j < old_remainders.len() {
                            assert(old_remainders[i] != old_remainders[j]);
                        } else if j == old_remainders.len() {
                            assert(!old_remainders.contains(remainder));
                            assert(old_remainders[i] != remainder);
                        } else {
                            assert(!old_remainders.contains(remainder));
                            assert(old_remainders[j] != remainder);
                        }
                    }
                }
                lemma_distinct_bounded(remainders@, self.denominator);
            }
            proof {
                lemma_mod_division_less_than_divisor(self.numerator as int, divisor as int);
            }
            remainder = (self.numerator % divisor) as u64;
            proof {
                assert(remainder as nat == rem_at(n0, d, (k + 1) as nat));
            }
            go = remainder != 0 && !contains_val(&remainders, remainder);
        }
        let ghost k: nat = digits@.len() as nat;
        let ghost pre = digits@;
        let last: u64 = self.step();
        digits.push(last);
        let ghost whole = digits@;
        proof {
            assert(whole[k as int] as nat == digit_at(n0, d, k));
            assert forall|t: int| 0 <= t < whole.len() implies #[trigger] whole[t] as nat
                == digit_at(n0, d, t as nat) by {
                if t < k {
                    assert(whole[t] == pre[t]);
                }
            }
            assert forall|t: int, u: int| 0 <= t < u < k implies #[trigger] rem_at(n0, d, t as nat)
                != #[trigger] rem_at(n0, d, u as nat) by {
                assert(remainders@[t] as nat == rem_at(n0, d, t as nat));
                assert(remainders@[u] as nat == rem_at(n0, d, u as nat));
                assert(remainders@[t] != remainders@[u]);
            }
            assert forall|t: int| 0 <= t < k implies #[trigger] rem_at(n0, d, t as nat) != 0 by {
                assert(remainders@[t] as nat == rem_at(n0, d, t as nat));
                assert(remainders@[t] >= 1);
            }
            assert forall|t: int| 1 <= t < whole.len() implies #[trigger] whole[t] < 10 by {
                lemma_digit_bound(n0, d, t as nat);
            }
        }
        let bound: usize = remainders.len();
        match position_first(&remainders, remainder) {
            Some(i) => {
                proof {
                    assert(i < bound);
                }
                let cycle: Vec<u64> = digits.split_off(i + 1);
                proof {
                    assert(digits@ == whole.subrange(0, i + 1));
                    assert(cycle@ == whole.subrange(i + 1, whole.len() as int));
                    assert(digits@[0] == whole[0]);
                    assert forall|t: int| 1 <= t < digits@.len() implies #[trigger] digits@[t] as nat
                        == digit_at(n0, d, t as nat) by {
                        assert(digits@[t] == whole[t]);
                    }
                    assert forall|j: int| 0 <= j < cycle@.len() implies #[trigger] cycle@[j] as nat
                        == digit_at(n0, d, (i + 1 + j) as nat) by {
                        assert(cycle@[j] == whole[i + 1 + j]);
                    }
                    assert(remainders@[i as int] as nat == rem_at(n0, d, i as nat));
                    assert(rem_at(n0, d, k) == remainder as nat);
                }
                (digits, cycle)
            },
            None => {
                proof {
                    assert(!remainders@.contains(remainder)) by {
                        if remainders@.contains(remainder) {
                            let j = choose|j: int|
                                0 <= j < remainders@.len() && remainders@[j] == remainder;
                            assert(remainders@[j] != remainder);
                        }
                    }
                    assert(remainder == 0);
                    assert(rem_at(n0, d, k) == 0);
                }
                (digits, Vec::new())
            },
        }
    }

    /// The next digit of the expansion, as an endless generator: after the
    /// whole part it yields one fractional decimal digit per call and
    /// never runs out, so the caller must bound its own iteration.
    pub fn next(&mut self) -> (r: Option<u64>)
        requires
            old(self).wf(),
        ensures
            final(self).wf(),
            final(self).denominator == old(self).denominator,
            (r matches Some(digit) && digit as int == old(self).numerator as int / old(
                self,
            ).denominator as int),
            final(self).numerator as int == (old(self).numerator as int % old(
                self,
            ).denominator as int) * 10,
    {
        Some(self.step())
    }
}

impl Rational {
    /// A fresh digit engine over this rational's magnitude; drives the
    /// decimal rendering of the value.
    pub fn get_decimal_iterator(&self) -> (r: Decimal)
        requires
            self.wf(),
        ensures
            r.wf(),
            r.numerator == self.numerator as u128,
            r.denominator == self.denominator,
    {
        Decimal::build(self.get_numerator(), self.get_denominator())
    }
}

/// Whether `x` occurs in the vector.
fn contains_val(v: &Vec<u64>, x: u64) -> (b: bool)
    ensures
        b == v@.contains(x),
{
    let mut idx: usize = 0;
    while idx < v.len()
        invariant
            idx <= v@.len(),
            forall|j: int| 0 <= j < idx ==> v@[j] != x,
        decreases v@.len() - idx,
    {
        if v[idx] == x {
            assert(v@[idx as int] == x);
            return true;
        }
        idx += 1;
    }
    false
}

/// The index of the first occurrence of `x` in the vector, if any.
fn position_first(v: &Vec<u64>, x: u64) -> (r: Option<usize>)
    ensures
        (r matches Some(i) ==> i < v@.len() && v@[i as int] == x && forall|j: int|
            0 <= j < i ==> v@[j] != x),
        (r is None ==> forall|j: int| 0 <= j < v@.len() ==> v@[j] != x),
{
    let mut idx: usize = 0;
    while idx < v.len()
        invariant
            idx <= v@.len(),
            forall|j: int| 0 <= j < idx ==> v@[j] != x,
        decreases v@.len() - idx,
    {
        if v[idx] == x {
            return Some(idx);
        }
        idx += 1;
    }
    None
}

} // verus!
