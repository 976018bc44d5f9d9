//! Canonical signed fractions: construction, reduction to lowest terms,
//! arithmetic operators, and the algebraic laws they obey.

use vstd::prelude::*;

verus! {

use crate::gcd::{
    gcd, gcd_exec, lemma_coprime_pair_unique, lemma_gcd_divides, lemma_gcd_sym,
    lemma_reduce_coprime,
};
use vstd::arithmetic::div_mod::lemma_fundamental_div_mod;
use vstd::arithmetic::mul::lemma_mul_upper_bound;

/// The failures a rational-number operation can report.
#[derive(Clone, Copy, Debug, PartialEq, Eq, Structural)]
pub enum RationalError {
    /// A constructor was given a zero denominator.
    InvalidDenominator,
    /// A reciprocal or quotient of an exactly-zero rational was requested.
    DivisionByZero,
    /// A reduced result does not fit the fixed-width magnitude fields.
    Overflow,
}

/// A rational number in canonical form: a sign flag and two unsigned
/// magnitudes with no common factor, the denominator never zero.
#[derive(Clone, Copy, Debug, PartialEq, Eq, Structural)]
pub struct Rational {
    /// The sign: `false` is non-negative, `true` is negative.
    pub sign: bool,
    /// The magnitude of the numerator; may be zero.
    pub numerator: u64,
    /// The magnitude of the denominator; never zero in a well-formed value.
    pub denominator: u64,
}

/// The magnitude of an integer.
pub open spec fn abs_int(x: int) -> nat {
    if x < 0 {
        (-x) as nat
    } else {
        x as nat
    }
}

/// The numerator magnitude of `n / d` in lowest terms, for `d > 0`.
pub open spec fn canonical_num(n: int, d: int) -> nat {
    abs_int(n) / gcd(abs_int(n), d as nat)
}

/// The denominator of `n / d` in lowest terms, for `d > 0`.
pub open spec fn canonical_den(n: int, d: int) -> nat {
    (d as nat) / gcd(abs_int(n), d as nat)
}

/// Whether `n / d` in lowest terms fits the fixed-width magnitude fields.
pub open spec fn canonical_fits(n: int, d: int) -> bool {
    canonical_num(n, d) <= u64::MAX && canonical_den(n, d) <= u64::MAX
}

/// The canonical representation of the rational value `n / d`, for `d > 0`;
/// exact whenever `canonical_fits(n, d)` holds.
pub open spec fn canonical(n: int, d: int) -> Rational {
    Rational {
        sign: n < 0,
        numerator: canonical_num(n, d) as u64,
        denominator: canonical_den(n, d) as u64,
    }
}

/// Whether `q` represents exactly the ratio `n / d`: the cross-products agree.
pub open spec fn is_ratio(q: Rational, n: int, d: int) -> bool {
    q.num_int() * d == n * q.den_int()
}

/// The canonical representation of one.
pub open spec fn one() -> Rational {
    Rational { sign: false, numerator: 1, denominator: 1 }
}

impl Rational {
    /// The signed numerator of this value.
    pub open spec fn num_int(self) -> int {
        if self.sign {
            -(self.numerator as int)
        } else {
            self.numerator as int
        }
    }

    /// The denominator of this value, as an integer.
    pub open spec fn den_int(self) -> int {
        self.denominator as int
    }

    /// Well-formedness: the denominator is positive, numerator and
    /// denominator share no factor, and zero is normalized to `0 / 1`
    /// with a non-negative sign.
    pub open spec fn wf(self) -> bool {
        &&& self.denominator > 0
        &&& gcd(self.numerator as nat, self.denominator as nat) == 1
        &&& (self.numerator == 0 ==> !self.sign && self.denominator == 1)
    }

    /// The sign of this value: -1, 0 or 1.
    pub open spec fn signum_spec(self) -> int {
        if self.numerator == 0 {
            0
        } else if self.sign {
            -1
        } else {
            1
        }
    }
}

/// The canonical representation of `n / d` is well formed and represents
/// exactly the ratio `n / d`.
pub proof fn lemma_canonical_wf(n: int, d: int)
    requires
        d > 0,
        canonical_fits(n, d),
    ensures
        canonical(n, d).wf(),
        is_ratio(canonical(n, d), n, d),
        canonical(n, d).numerator == 0 <==> n == 0,
{
    let m = abs_int(n);
    let dd = d as nat;
    let g = gcd(m, dd);
    lemma_reduce_coprime(m, dd);
    lemma_gcd_divides(m, dd);
    lemma_fundamental_div_mod(m as int, g as int);
    lemma_fundamental_div_mod(dd as int, g as int);
    assert(m == g * (m / g));
    assert(dd == g * (dd / g));
    assert(dd / g > 0) by (nonlinear_arith)
        requires
            dd == g * (dd / g),
            dd > 0,
    ;
    if m == 0 {
        assert(m / g == 0) by (nonlinear_arith)
            requires
                m == g * (m / g),
                m == 0,
                g > 0,
        ;
        // gcd(0, dd) == dd, so the denominator reduces to one.
        assert(gcd(0, dd) == gcd(dd, 0nat % dd));
        assert(0nat % dd == 0) by (nonlinear_arith)
            requires dd > 0,
        ;
        assert(g == dd);
        assert(dd / g == 1) by (nonlinear_arith)
            requires
                g == dd,
                dd > 0,
        ;
    } else {
        assert(m / g > 0) by (nonlinear_arith)
            requires
                m == g * (m / g),
                m > 0,
        ;
    }
    // The cross-products agree: (m / g) * dd == m * (dd / g).
    assert((m / g) * dd == m * (dd / g)) by (nonlinear_arith)
        requires
            m == g * (m / g),
            dd == g * (dd / g),
    ;
    let q = canonical(n, d);
    assert(q.numerator as nat == m / g);
    assert(q.denominator as nat == dd / g);
    assert(q.num_int() * d == n * q.den_int()) by (nonlinear_arith)
        requires
            q.num_int() == if n < 0 {
                -((m / g) as int)
            } else {
                (m / g) as int
            },
            n == if n < 0 {
                -(m as int)
            } else {
                m as int
            },
            q.den_int() == (dd / g) as int,
            d == dd as int,
            ((m / g) as int) * (dd as int) == (m as int) * ((dd / g) as int),
    ;
}

/// Reduces a sign and two magnitudes to a canonical rational: computes the
/// gcd by the Euclidean algorithm, divides it out, and normalizes zero.
/// Reports `Overflow` exactly when the reduced magnitudes do not fit.
fn reduce(sign: bool, numerator: u128, denominator: u128) -> (r: Result<
    Rational,
    RationalError,
>)
    requires
        denominator > 0,
    ensures
        ({
            let v = if sign {
                -(numerator as int)
            } else {
                numerator as int
            };
            let d = denominator as int;
            &&& (r matches Ok(q) ==> q == canonical(v, d) && q.wf() && is_ratio(q, v, d))
            &&& ((r is Err) <==> !canonical_fits(v, d))
            &&& (r is Err ==> r == Err::<Rational, RationalError>(RationalError::Overflow))
        }),
{
    let ghost v: int = if sign {
        -(numerator as int)
    } else {
        numerator as int
    };
    proof {
        assert(abs_int(v) == numerator as nat);
    }
    let g: u128 = gcd_exec(numerator, denominator);
    proof {
        lemma_gcd_divides(numerator as nat, denominator as nat);
        lemma_fundamental_div_mod(numerator as int, g as int);
        lemma_fundamental_div_mod(denominator as int, g as int);
    }
    let num_red: u128 = numerator / g;
    let den_red: u128 = denominator / g;
    proof {
        assert(num_red == canonical_num(v, denominator as int));
        assert(den_red == canonical_den(v, denominator as int));
    }
    if num_red > u64::MAX as u128 || den_red > u64::MAX as u128 {
        return Err(RationalError::Overflow);
    }
    proof {
        lemma_canonical_wf(v, denominator as int);
        if num_red == 0 {
            assert(numerator == 0) by (nonlinear_arith)
                requires
                    numerator == g * (numerator as int / g as int),
                    numerator as int / g as int == 0,
            ;
        }
    }
    let result_sign: bool = if num_red == 0 {
        false
    } else {
        sign
    };
    Ok(Rational { sign: result_sign, numerator: num_red as u64, denominator: den_red as u64 })
}

impl Rational {
    /// Builds a rational from a signed numerator and denominator: derives the
    /// sign from the signs of the inputs, takes their magnitudes, and reduces
    /// to canonical form. Rejects a zero denominator.
    pub fn new(numerator: i64, denominator: i64) -> (r: Result<Rational, RationalError>)
        ensures
            (denominator == 0) <==> (r == Err::<Rational, RationalError>(
                RationalError::InvalidDenominator,
            )),
            denominator != 0 ==> ({
                let v = if denominator < 0 {
                    -(numerator as int)
                } else {
                    numerator as int
                };
                let d = abs_int(denominator as int) as int;
                r matches Ok(q) && q == canonical(v, d) && q.wf() && is_ratio(q, v, d)
            }),
    {
        if denominator == 0 {
            return Err(RationalError::InvalidDenominator);
        }
        let ghost v: int = if denominator < 0 {
            -(numerator as int)
        } else {
            numerator as int
        };
        let ghost d: int = abs_int(denominator as int) as int;
        let sign: bool = (numerator < 0) != (denominator < 0);
        let num_mag: u64 = abs_i64(numerator);
        let den_mag: u64 = abs_i64(denominator);
        proof {
            assert(abs_int(v) == num_mag as nat);
            lemma_gcd_divides(num_mag as nat, den_mag as nat);
            lemma_fundamental_div_mod(num_mag as int, gcd(num_mag as nat, den_mag as nat) as int);
            lemma_fundamental_div_mod(den_mag as int, gcd(num_mag as nat, den_mag as nat) as int);
            let g = gcd(num_mag as nat, den_mag as nat) as int;
            assert(canonical_num(v, d) <= num_mag && canonical_den(v, d) <= den_mag)
                by (nonlinear_arith)
                requires
                    g > 0,
                    canonical_num(v, d) == num_mag as int / g,
                    canonical_den(v, d) == den_mag as int / g,
                    num_mag == g * (num_mag as int / g),
                    den_mag == g * (den_mag as int / g),
                    num_mag as int / g >= 0,
                    den_mag as int / g >= 0,
            ;
        }
        match reduce(sign, num_mag as u128, den_mag as u128) {
            Ok(q) => Ok(q),
            Err(_) => {
                proof {
                    assert(false);
                }
                Err(RationalError::InvalidDenominator)
            },
        }
    }

    /// The sign of the rational number: 1 if positive, 0 if zero,
    /// -1 if negative.
    pub fn signum(&self) -> (r: i32)
        ensures
            r as int == self.signum_spec(),
    {
        if self.numerator == 0 {
            return 0;
        }
        if self.sign {
            -1
        } else {
            1
        }
    }

    /// The numerator magnitude of the rational number.
    pub fn get_numerator(&self) -> (r: u64)
        ensures
            r == self.numerator,
    {
        self.numerator
    }

    /// The denominator of the rational number; positive on every
    /// well-formed value.
    pub fn get_denominator(&self) -> (r: u64)
        ensures
            r == self.denominator,
            self.wf() ==> r > 0,
    {
        self.denominator
    }

    /// The additive inverse: the sign flips, the magnitudes stay; zero is
    /// its own negation.
    pub fn neg(self) -> (r: Rational)
        requires
            self.wf(),
        ensures
            r.wf(),
            r.num_int() == -self.num_int(),
            r.numerator == self.numerator,
            r.denominator == self.denominator,
    {
        if self.numerator == 0 {
            self
        } else {
            Rational { sign: !self.sign, numerator: self.numerator, denominator: self.denominator }
        }
    }

    /// The reciprocal: numerator and denominator swap, the sign stays.
    /// Fails with `DivisionByZero` exactly when the value is zero.
    pub fn reciprocal(&self) -> (r: Result<Rational, RationalError>)
        requires
            self.wf(),
        ensures
            (self.numerator == 0) <==> (r == Err::<Rational, RationalError>(
                RationalError::DivisionByZero,
            )),
            self.numerator != 0 ==> (r matches Ok(q) && q.wf() && q.numerator == self.denominator
                && q.denominator == self.numerator && q.sign == self.sign),
    {
        if self.numerator == 0 {
            return Err(RationalError::DivisionByZero);
        }
        proof {
            lemma_gcd_sym(self.numerator as nat, self.denominator as nat);
        }
        Ok(
            Rational {
                sign: self.sign,
                numerator: self.denominator,
                denominator: self.numerator,
            },
        )
    }
}

/// The signed numerator of the sum `a + b` over the common denominator
/// `den_prod(a, b)`, by cross-multiplication.
pub open spec fn sum_num(a: Rational, b: Rational) -> int {
    a.num_int() * b.den_int() + b.num_int() * a.den_int()
}

/// The signed numerator of the difference `a - b` over `den_prod(a, b)`.
pub open spec fn diff_num(a: Rational, b: Rational) -> int {
    a.num_int() * b.den_int() - b.num_int() * a.den_int()
}

/// The signed numerator of the product `a * b` over `den_prod(a, b)`.
pub open spec fn prod_num(a: Rational, b: Rational) -> int {
    a.num_int() * b.num_int()
}

/// The common denominator of a sum, difference or product.
pub open spec fn den_prod(a: Rational, b: Rational) -> int {
    a.den_int() * b.den_int()
}

/// The signed numerator of the quotient `a / b`, for `b` nonzero.
pub open spec fn quot_num(a: Rational, b: Rational) -> int {
    if b.sign {
        -(a.num_int() * b.den_int())
    } else {
        a.num_int() * b.den_int()
    }
}

/// The denominator of the quotient `a / b`, for `b` nonzero.
pub open spec fn quot_den(a: Rational, b: Rational) -> int {
    a.den_int() * (b.numerator as int)
}

impl Rational {
    /// The sum: cross-multiplied numerators over the product of the
    /// denominators, reduced to canonical form. Reports `Overflow` exactly
    /// when an intermediate magnitude or the reduced result does not fit.
    pub fn add(self, rhs: Rational) -> (r: Result<Rational, RationalError>)
        requires
            self.wf(),
            rhs.wf(),
        ensures
            (r matches Ok(q) ==> q == canonical(sum_num(self, rhs), den_prod(self, rhs)) && q.wf()
                && is_ratio(q, sum_num(self, rhs), den_prod(self, rhs))),
            (r is Err) <==> (abs_int(sum_num(self, rhs)) > u128::MAX || !canonical_fits(
                sum_num(self, rhs),
                den_prod(self, rhs),
            )),
            r is Err ==> r == Err::<Rational, RationalError>(RationalError::Overflow),
    {
        proof {
            lemma_mul_upper_bound(
                self.numerator as int,
                u64::MAX as int,
                rhs.denominator as int,
                u64::MAX as int,
            );
            lemma_mul_upper_bound(
                rhs.numerator as int,
                u64::MAX as int,
                self.denominator as int,
                u64::MAX as int,
            );
            lemma_mul_upper_bound(
                self.denominator as int,
                u64::MAX as int,
                rhs.denominator as int,
                u64::MAX as int,
            );
        }
        let n1: u128 = (self.numerator as u128) * (rhs.denominator as u128);
        let n2: u128 = (rhs.numerator as u128) * (self.denominator as u128);
        let d: u128 = (self.denominator as u128) * (rhs.denominator as u128);
        let ghost sn: int = sum_num(self, rhs);
        proof {
            assert(d > 0) by (nonlinear_arith)
                requires
                    self.denominator > 0,
                    rhs.denominator > 0,
                    d == (self.denominator as u128) * (rhs.denominator as u128),
            ;
            assert(den_prod(self, rhs) == d as int);
            assert(self.num_int() * rhs.den_int() == if self.sign {
                -(n1 as int)
            } else {
                n1 as int
            }) by (nonlinear_arith)
                requires
                    n1 == self.numerator as int * rhs.denominator as int,
                    self.num_int() == if self.sign {
                        -(self.numerator as int)
                    } else {
                        self.numerator as int
                    },
                    rhs.den_int() == rhs.denominator as int,
            ;
            assert(rhs.num_int() * self.den_int() == if rhs.sign {
                -(n2 as int)
            } else {
                n2 as int
            }) by (nonlinear_arith)
                requires
                    n2 == rhs.numerator as int * self.denominator as int,
                    rhs.num_int() == if rhs.sign {
                        -(rhs.numerator as int)
                    } else {
                        rhs.numerator as int
                    },
                    self.den_int() == self.denominator as int,
            ;
        }
        if self.sign == rhs.sign {
            if n1 > u128::MAX - n2 {
                proof {
                    assert(abs_int(sn) == n1 + n2);
                }
                return Err(RationalError::Overflow);
            }
            let s: u128 = n1 + n2;
            proof {
                assert(sn == if self.sign {
                    -(s as int)
                } else {
                    s as int
                });
                assert(abs_int(sn) == s);
            }
            reduce(self.sign, s, d)
        } else if n1 >= n2 {
            let s: u128 = n1 - n2;
            proof {
                assert(sn == if self.sign {
                    -(s as int)
                } else {
                    s as int
                });
                assert(abs_int(sn) == s);
            }
            reduce(self.sign, s, d)
        } else {
            let s: u128 = n2 - n1;
            proof {
                assert(sn == if rhs.sign {
                    -(s as int)
                } else {
                    s as int
                });
                assert(abs_int(sn) == s);
            }
            reduce(rhs.sign, s, d)
        }
    }

    /// The difference: the sum with the negated subtrahend.
    pub fn sub(self, rhs: Rational) -> (r: Result<Rational, RationalError>)
        requires
            self.wf(),
            rhs.wf(),
        ensures
            (r matches Ok(q) ==> q == canonical(diff_num(self, rhs), den_prod(self, rhs))
                && q.wf() && is_ratio(q, diff_num(self, rhs), den_prod(self, rhs))),
            (r is Err) <==> (abs_int(diff_num(self, rhs)) > u128::MAX || !canonical_fits(
                diff_num(self, rhs),
                den_prod(self, rhs),
            )),
            r is Err ==> r == Err::<Rational, RationalError>(RationalError::Overflow),
    {
        let negated: Rational = rhs.neg();
        proof {
            assert(negated.num_int() * self.den_int() == -(rhs.num_int() * self.den_int()))
                by (nonlinear_arith)
                requires
                    negated.num_int() == -rhs.num_int(),
                    self.den_int() == self.denominator as int,
            ;
            assert(sum_num(self, negated) == diff_num(self, rhs));
            assert(den_prod(self, negated) == den_prod(self, rhs));
        }
        self.add(negated)
    }

    /// The product: the numerator and denominator magnitudes multiply and
    /// the signs combine, reduced to canonical form. Reports `Overflow`
    /// exactly when the reduced result does not fit.
    pub fn mul(self, rhs: Rational) -> (r: Result<Rational, RationalError>)
        requires
            self.wf(),
            rhs.wf(),
        ensures
            (r matches Ok(q) ==> q == canonical(prod_num(self, rhs), den_prod(self, rhs))
                && q.wf() && is_ratio(q, prod_num(self, rhs), den_prod(self, rhs))),
            (r is Err) <==> !canonical_fits(prod_num(self, rhs), den_prod(self, rhs)),
            r is Err ==> r == Err::<Rational, RationalError>(RationalError::Overflow),
    {
        proof {
            lemma_mul_upper_bound(
                self.numerator as int,
                u64::MAX as int,
                rhs.numerator as int,
                u64::MAX as int,
            );
            lemma_mul_upper_bound(
                self.denominator as int,
                u64::MAX as int,
                rhs.denominator as int,
                u64::MAX as int,
            );
        }
        let m: u128 = (self.numerator as u128) * (rhs.numerator as u128);
        let d: u128 = (self.denominator as u128) * (rhs.denominator as u128);
        let sign: bool = self.sign != rhs.sign;
        proof {
            assert(d > 0) by (nonlinear_arith)
                requires
                    self.denominator > 0,
                    rhs.denominator > 0,
                    d == (self.denominator as u128) * (rhs.denominator as u128),
            ;
            assert(den_prod(self, rhs) == d as int);
            assert(prod_num(self, rhs) == if sign {
                -(m as int)
            } else {
                m as int
            }) by (nonlinear_arith)
                requires
                    m == self.numerator as int * rhs.numerator as int,
                    sign == (self.sign != rhs.sign),
                    self.num_int() == if self.sign {
                        -(self.numerator as int)
                    } else {
                        self.numerator as int
                    },
                    rhs.num_int() == if rhs.sign {
                        -(rhs.numerator as int)
                    } else {
                        rhs.numerator as int
                    },
                    prod_num(self, rhs) == self.num_int() * rhs.num_int(),
            ;
        }
        reduce(sign, m, d)
    }

    /// The quotient: the product with the divisor's reciprocal. Fails with
    /// `DivisionByZero` exactly when the divisor is zero, and with
    /// `Overflow` exactly when the reduced result does not fit.
    pub fn div(self, rhs: Rational) -> (r: Result<Rational, RationalError>)
        requires
            self.wf(),
            rhs.wf(),
        ensures
            (rhs.numerator == 0) <==> (r == Err::<Rational, RationalError>(
                RationalError::DivisionByZero,
            )),
            rhs.numerator != 0 ==> ({
                &&& (r matches Ok(q) ==> q == canonical(quot_num(self, rhs), quot_den(self, rhs))
                    && q.wf() && is_ratio(q, quot_num(self, rhs), quot_den(self, rhs)))
                &&& ((r is Err) <==> !canonical_fits(quot_num(self, rhs), quot_den(self, rhs)))
                &&& (r is Err ==> r == Err::<Rational, RationalError>(RationalError::Overflow))
            }),
    {
        match rhs.reciprocal() {
            Err(e) => Err(e),
            Ok(recip) => {
                proof {
                    assert(prod_num(self, recip) == quot_num(self, rhs)) by (nonlinear_arith)
                        requires
                            recip.num_int() == if rhs.sign {
                                -(rhs.denominator as int)
                            } else {
                                rhs.denominator as int
                            },
                            rhs.den_int() == rhs.denominator as int,
                            prod_num(self, recip) == self.num_int() * recip.num_int(),
                            quot_num(self, rhs) == if rhs.sign {
                                -(self.num_int() * rhs.den_int())
                            } else {
                                self.num_int() * rhs.den_int()
                            },
                    ;
                    assert(den_prod(self, recip) == quot_den(self, rhs));
                }
                self.mul(recip)
            },
        }
    }
}

/// Canonical form is unique: two well-formed rationals representing the
/// same ratio are equal as values, fields included.
pub proof fn lemma_canonical_unique(x: Rational, y: Rational)
    requires
        x.wf(),
        y.wf(),
        x.num_int() * y.den_int() == y.num_int() * x.den_int(),
    ensures
        x == y,
{
    if x.numerator == 0 {
        assert(x.num_int() == 0);
        assert(y.num_int() == 0) by (nonlinear_arith)
            requires
                x.num_int() * y.den_int() == y.num_int() * x.den_int(),
                x.num_int() == 0,
                x.den_int() > 0,
        ;
        assert(y.numerator == 0);
    } else {
        assert(y.numerator != 0) by (nonlinear_arith)
            requires
                x.num_int() * y.den_int() == y.num_int() * x.den_int(),
                x.num_int() != 0,
                y.den_int() > 0,
                x.den_int() > 0,
                y.num_int() == if y.sign {
                    -(y.numerator as int)
                } else {
                    y.numerator as int
                },
        ;
        assert(x.sign == y.sign && (x.numerator as nat) * (y.denominator as nat) == (
        y.numerator as nat) * (x.denominator as nat)) by (nonlinear_arith)
            requires
                x.num_int() * y.den_int() == y.num_int() * x.den_int(),
                x.numerator > 0,
                y.numerator > 0,
                x.den_int() == x.denominator as int,
                y.den_int() == y.denominator as int,
                x.denominator > 0,
                y.denominator > 0,
                x.num_int() == if x.sign {
                    -(x.numerator as int)
                } else {
                    x.numerator as int
                },
                y.num_int() == if y.sign {
                    -(y.numerator as int)
                } else {
                    y.numerator as int
                },
        ;
        lemma_coprime_pair_unique(
            x.numerator as nat,
            x.denominator as nat,
            y.numerator as nat,
            y.denominator as nat,
        );
    }
}

/// Adding and then subtracting the same value is the identity: if `c`
/// represents `a + b` and `r` represents `c - b`, then `r` is `a` itself.
#[verifier::rlimit(50)]
pub proof fn lemma_add_sub_cancel(a: Rational, b: Rational, c: Rational, r: Rational)
    requires
        a.wf(),
        b.wf(),
        c.wf(),
        r.wf(),
        is_ratio(c, sum_num(a, b), den_prod(a, b)),
        is_ratio(r, diff_num(c, b), den_prod(c, b)),
    ensures
        r == a,
{
    let na = a.num_int();
    let da = a.den_int();
    let nb = b.num_int();
    let db = b.den_int();
    let nc = c.num_int();
    let dc = c.den_int();
    let nr = r.num_int();
    let dr = r.den_int();
    assert((nr * da) * (dc * db) == ((nc * db - nb * dc) * dr) * da) by (nonlinear_arith)
        requires
            nr * (dc * db) == (nc * db - nb * dc) * dr,
    ;
    assert(((nc * db - nb * dc) * dr) * da == ((nc * db) * dr) * da - ((nb * dc) * dr) * da)
        by (nonlinear_arith);
    assert(((nc * db) * dr) * da == (nc * (da * db)) * dr) by (nonlinear_arith);
    assert(((nb * dc) * dr) * da == ((nb * da) * dc) * dr) by (nonlinear_arith);
    assert(((nc * db - nb * dc) * dr) * da == (nc * (da * db)) * dr - ((nb * da) * dc) * dr);
    assert((nc * (da * db)) * dr == ((na * db + nb * da) * dc) * dr) by (nonlinear_arith)
        requires
            nc * (da * db) == (na * db + nb * da) * dc,
    ;
    assert(((na * db + nb * da) * dc) * dr - ((nb * da) * dc) * dr == (na * dr) * (dc * db))
        by (nonlinear_arith);
    assert((nr * da) * (dc * db) == (na * dr) * (dc * db));
    assert(nr * da == na * dr) by (nonlinear_arith)
        requires
            (nr * da) * (dc * db) == (na * dr) * (dc * db),
            dc > 0,
            db > 0,
    ;
    lemma_canonical_unique(r, a);
}

/// A nonzero rational times its reciprocal is one: if `c` is the
/// reciprocal of `a` and `p` represents `a * c`, then `p` is exactly one.
pub proof fn lemma_mul_reciprocal(a: Rational, c: Rational, p: Rational)
    requires
        a.wf(),
        a.numerator != 0,
        c.wf(),
        c.numerator == a.denominator,
        c.denominator == a.numerator,
        c.sign == a.sign,
        p.wf(),
        is_ratio(p, prod_num(a, c), den_prod(a, c)),
    ensures
        p == one(),
{
    assert(prod_num(a, c) == den_prod(a, c)) by (nonlinear_arith)
        requires
            prod_num(a, c) == a.num_int() * c.num_int(),
            den_prod(a, c) == a.den_int() * c.den_int(),
            a.num_int() == if a.sign {
                -(a.numerator as int)
            } else {
                a.numerator as int
            },
            c.num_int() == if c.sign {
                -(c.numerator as int)
            } else {
                c.numerator as int
            },
            c.sign == a.sign,
            c.numerator == a.denominator,
            c.denominator == a.numerator,
            a.den_int() == a.denominator as int,
            c.den_int() == c.denominator as int,
    ;
    assert(den_prod(a, c) > 0) by (nonlinear_arith)
        requires
            den_prod(a, c) == a.den_int() * c.den_int(),
            a.den_int() > 0,
            c.den_int() > 0,
    ;
    assert(p.num_int() == p.den_int()) by (nonlinear_arith)
        requires
            p.num_int() * den_prod(a, c) == prod_num(a, c) * p.den_int(),
            prod_num(a, c) == den_prod(a, c),
            den_prod(a, c) > 0,
    ;
    assert(one().wf()) by {
        assert(1nat % 1nat == 0) by (nonlinear_arith);
        assert(gcd(1, 1) == gcd(1, 0));
    }
    assert(one().num_int() == 1);
    assert(one().den_int() == 1);
    assert(p.num_int() * one().den_int() == one().num_int() * p.den_int());
    lemma_canonical_unique(p, one());
}

/// Division is multiplication by the reciprocal: if `c` is the reciprocal
/// of a nonzero `b`, a rational represents the product `a * c` exactly
/// when it represents the quotient `a / b`.
pub proof fn lemma_div_is_mul_reciprocal(a: Rational, b: Rational, c: Rational, q: Rational)
    requires
        a.wf(),
        b.wf(),
        b.numerator != 0,
        c.wf(),
        c.numerator == b.denominator,
        c.denominator == b.numerator,
        c.sign == b.sign,
        q.wf(),
    ensures
        is_ratio(q, prod_num(a, c), den_prod(a, c)) <==> is_ratio(q, quot_num(a, b), quot_den(a, b)),
{
    assert(prod_num(a, c) == quot_num(a, b)) by (nonlinear_arith)
        requires
            prod_num(a, c) == a.num_int() * c.num_int(),
            c.num_int() == if c.sign {
                -(c.numerator as int)
            } else {
                c.numerator as int
            },
            c.sign == b.sign,
            c.numerator == b.denominator,
            b.den_int() == b.denominator as int,
            quot_num(a, b) == if b.sign {
                -(a.num_int() * b.den_int())
            } else {
                a.num_int() * b.den_int()
            },
    ;
    assert(den_prod(a, c) == quot_den(a, b));
}

/// The sign of a freshly reduced value matches the sign of the exact
/// ratio it was built from.
pub proof fn lemma_signum_canonical(n: int, d: int)
    requires
        d > 0,
        canonical_fits(n, d),
    ensures
        canonical(n, d).signum_spec() == if n < 0 {
            -1int
        } else if n == 0 {
            0int
        } else {
            1int
        },
{
    lemma_canonical_wf(n, d);
}

/// The magnitude of a signed 64-bit integer.
fn abs_i64(x: i64) -> (r: u64)
    ensures
        r as nat == abs_int(x as int),
{
    if x < 0 {
        (-(x as i128)) as u64
    } else {
        x as u64
    }
}

} // verus!
