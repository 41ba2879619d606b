//! Exact probabilities as executable values.
//!
//! A [`Prob`] carries a sign and the little-endian 32-bit limbs of an
//! unbounded numerator and denominator.  Its view is the exact rational
//! [`Rat`] it denotes.  The arithmetic itself is done by the `fraction`
//! crate behind trusted wrappers whose contracts state the exact rational
//! result by cross multiplication.

use vstd::prelude::*;

use crate::rat::{rat_add, rat_eqv, rat_le, rat_lt, rat_mul, rat_of_int, rat_one, rat_sub, rat_wf,
    rat_zero, Rat};

verus! {

/// Numeric value of a little-endian sequence of 32-bit limbs.
pub open spec fn limbs_val(s: Seq<u32>) -> nat
    decreases s.len(),
{
    if s.len() == 0 {
        0
    } else {
        (s[0] as nat) + 0x1_0000_0000 * limbs_val(s.drop_first())
    }
}

/// An exact rational probability (or aggregate value such as a mean):
/// a sign and the little-endian 32-bit limbs of numerator and denominator.
#[derive(Debug, PartialEq, Eq)]
pub struct Prob {
    /// true for strictly negative values
    pub neg: bool,
    /// numerator magnitude, little-endian limbs
    pub num: Vec<u32>,
    /// denominator, little-endian limbs; must denote a nonzero number
    pub den: Vec<u32>,
}

impl View for Prob {
    type V = Rat;

    open spec fn view(&self) -> Rat {
        Rat {
            n: if self.neg {
                -(limbs_val(self.num@) as int)
            } else {
                limbs_val(self.num@) as int
            },
            d: limbs_val(self.den@) as int,
        }
    }
}

impl Clone for Prob {
    /// A clone denotes the same rational value.
    fn clone(&self) -> (res: Self)
        ensures
            res@ == self@,
            res.neg == self.neg,
            res.num@ == self.num@,
            res.den@ == self.den@,
    {
        let res = Prob { neg: self.neg, num: self.num.clone(), den: self.den.clone() };
        proof {
            assert(res.num@ =~= self.num@);
            assert(res.den@ =~= self.den@);
        }
        res
    }
}

impl Prob {
    /// well-formed: the denominator is nonzero, so the value is a rational
    pub open spec fn wf(&self) -> bool {
        rat_wf(self@)
    }

    /// The probability zero.
    pub fn zero() -> (r: Prob)
        ensures
            r.wf(),
            r@ == rat_zero(),
    {
        let num: Vec<u32> = Vec::new();
        let mut den: Vec<u32> = Vec::new();
        den.push(1);
        proof {
            assert(limbs_val(Seq::<u32>::empty()) == 0);
            assert(limbs_val(num@) == 0);
            assert(den@.drop_first() =~= Seq::<u32>::empty());
            assert(limbs_val(den@) == 1);
        }
        Prob { neg: false, num, den }
    }

    /// The probability one.
    pub fn one() -> (r: Prob)
        ensures
            r.wf(),
            r@ == rat_one(),
    {
        let mut num: Vec<u32> = Vec::new();
        num.push(1);
        let mut den: Vec<u32> = Vec::new();
        den.push(1);
        proof {
            assert(limbs_val(Seq::<u32>::empty()) == 0);
            assert(num@.drop_first() =~= Seq::<u32>::empty());
            assert(den@.drop_first() =~= Seq::<u32>::empty());
            assert(limbs_val(num@) == 1);
            assert(limbs_val(den@) == 1);
        }
        Prob { neg: false, num, den }
    }

    /// The exact fraction `num / den`.
    ///
    /// Relies on `fraction::BigFraction::new`: builds the reduced fraction
    /// with the given numerator and denominator.
    #[verifier::external_body]
    pub fn new(num: u64, den: u64) -> (r: Prob)
        requires
            den > 0,
        ensures
            r.wf(),
            rat_eqv(r@, Rat { n: num as int, d: den as int }),
    {
        let f = fraction::BigFraction::new(num, den);
        match f {
            fraction::GenericFraction::Rational(s, ratio) => Prob {
                neg: matches!(s, fraction::Sign::Minus),
                num: ratio.numer().to_u32_digits(),
                den: ratio.denom().to_u32_digits(),
            },
            _ => Prob { neg: false, num: Vec::new(), den: Vec::new() },
        }
    }
}

/// The exact rational value of the integer `v`.
///
/// Relies on `fraction::BigFraction::from` for `i64`: the fraction `v / 1`.
#[verifier::external_body]
pub(crate) fn prob_of_value(v: i64) -> (r: Prob)
    ensures
        r.wf(),
        rat_eqv(r@, rat_of_int(v as int)),
{
    let f = fraction::BigFraction::from(v);
    match f {
        fraction::GenericFraction::Rational(s, ratio) => Prob {
            neg: matches!(s, fraction::Sign::Minus),
            num: ratio.numer().to_u32_digits(),
            den: ratio.denom().to_u32_digits(),
        },
        _ => Prob { neg: false, num: Vec::new(), den: Vec::new() },
    }
}

/// The exact sum `a + b`.
///
/// Relies on `fraction::BigFraction` addition: exact, sign-correct rational
/// arithmetic with a reduced result.
#[verifier::external_body]
pub(crate) fn prob_add(a: &Prob, b: &Prob) -> (r: Prob)
    requires
        a.wf(),
        b.wf(),
    ensures
        r.wf(),
        rat_eqv(r@, rat_add(a@, b@)),
{
    let fa = fraction::BigFraction::new(fraction::BigUint::from_slice(&a.num),
        fraction::BigUint::from_slice(&a.den));
    let fa = if a.neg { -fa } else { fa };
    let fb = fraction::BigFraction::new(fraction::BigUint::from_slice(&b.num),
        fraction::BigUint::from_slice(&b.den));
    let fb = if b.neg { -fb } else { fb };
    match fa + fb {
        fraction::GenericFraction::Rational(s, ratio) => Prob {
            neg: matches!(s, fraction::Sign::Minus),
            num: ratio.numer().to_u32_digits(),
            den: ratio.denom().to_u32_digits(),
        },
        _ => Prob { neg: false, num: Vec::new(), den: Vec::new() },
    }
}

/// The exact difference `a - b`.
///
/// Relies on `fraction::BigFraction` subtraction: exact, sign-correct
/// rational arithmetic with a reduced result.
#[verifier::external_body]
pub(crate) fn prob_sub(a: &Prob, b: &Prob) -> (r: Prob)
    requires
        a.wf(),
        b.wf(),
    ensures
        r.wf(),
        rat_eqv(r@, rat_sub(a@, b@)),
{
    let fa = fraction::BigFraction::new(fraction::BigUint::from_slice(&a.num),
        fraction::BigUint::from_slice(&a.den));
    let fa = if a.neg { -fa } else { fa };
    let fb = fraction::BigFraction::new(fraction::BigUint::from_slice(&b.num),
        fraction::BigUint::from_slice(&b.den));
    let fb = if b.neg { -fb } else { fb };
    match fa - fb {
        fraction::GenericFraction::Rational(s, ratio) => Prob {
            neg: matches!(s, fraction::Sign::Minus),
            num: ratio.numer().to_u32_digits(),
            den: ratio.denom().to_u32_digits(),
        },
        _ => Prob { neg: false, num: Vec::new(), den: Vec::new() },
    }
}

/// The exact product `a * b`.
///
/// Relies on `fraction::BigFraction` multiplication: exact, sign-correct
/// rational arithmetic with a reduced result.
#[verifier::external_body]
pub(crate) fn prob_mul(a: &Prob, b: &Prob) -> (r: Prob)
    requires
        a.wf(),
        b.wf(),
    ensures
        r.wf(),
        rat_eqv(r@, rat_mul(a@, b@)),
{
    let fa = fraction::BigFraction::new(fraction::BigUint::from_slice(&a.num),
        fraction::BigUint::from_slice(&a.den));
    let fa = if a.neg { -fa } else { fa };
    let fb = fraction::BigFraction::new(fraction::BigUint::from_slice(&b.num),
        fraction::BigUint::from_slice(&b.den));
    let fb = if b.neg { -fb } else { fb };
    match fa * fb {
        fraction::GenericFraction::Rational(s, ratio) => Prob {
            neg: matches!(s, fraction::Sign::Minus),
            num: ratio.numer().to_u32_digits(),
            den: ratio.denom().to_u32_digits(),
        },
        _ => Prob { neg: false, num: Vec::new(), den: Vec::new() },
    }
}

/// Whether `a >= b` as rational values.
///
/// Relies on `fraction::BigFraction` ordering: rational values compare by
/// cross multiplication with positive denominators.
#[verifier::external_body]
pub(crate) fn prob_ge(a: &Prob, b: &Prob) -> (r: bool)
    requires
        a.wf(),
        b.wf(),
    ensures
        r == rat_le(b@, a@),
{
    let fa = fraction::BigFraction::new(fraction::BigUint::from_slice(&a.num),
        fraction::BigUint::from_slice(&a.den));
    let fa = if a.neg { -fa } else { fa };
    let fb = fraction::BigFraction::new(fraction::BigUint::from_slice(&b.num),
        fraction::BigUint::from_slice(&b.den));
    let fb = if b.neg { -fb } else { fb };
    fa >= fb
}

/// Whether `a > b` as rational values.
///
/// Relies on `fraction::BigFraction` ordering: rational values compare by
/// cross multiplication with positive denominators.
#[verifier::external_body]
pub(crate) fn prob_gt(a: &Prob, b: &Prob) -> (r: bool)
    requires
        a.wf(),
        b.wf(),
    ensures
        r == rat_lt(b@, a@),
{
    let fa = fraction::BigFraction::new(fraction::BigUint::from_slice(&a.num),
        fraction::BigUint::from_slice(&a.den));
    let fa = if a.neg { -fa } else { fa };
    let fb = fraction::BigFraction::new(fraction::BigUint::from_slice(&b.num),
        fraction::BigUint::from_slice(&b.den));
    let fb = if b.neg { -fb } else { fb };
    fa > fb
}

/// Whether `a == b` as rational values.
///
/// Relies on `fraction::BigFraction` equality: reduced fractions are equal
/// exactly when they denote the same rational.
#[verifier::external_body]
pub(crate) fn prob_eq(a: &Prob, b: &Prob) -> (r: bool)
    requires
        a.wf(),
        b.wf(),
    ensures
        r == rat_eqv(a@, b@),
{
    let fa = fraction::BigFraction::new(fraction::BigUint::from_slice(&a.num),
        fraction::BigUint::from_slice(&a.den));
    let fa = if a.neg { -fa } else { fa };
    let fb = fraction::BigFraction::new(fraction::BigUint::from_slice(&b.num),
        fraction::BigUint::from_slice(&b.den));
    let fb = if b.neg { -fb } else { fb };
    fa == fb
}

} // verus!
