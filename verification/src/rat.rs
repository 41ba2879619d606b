//! Exact rational numbers at the specification level.
//!
//! A probability is modelled as a pair of unbounded integers `n / d` with
//! `d > 0`.  Pairs are compared by cross multiplication (`rat_eqv`), so a
//! pair need not be in lowest terms to denote its value.

use vstd::prelude::*;
use vstd::arithmetic::mul::{lemma_mul_is_distributive_add, lemma_mul_is_distributive_add_other_way,
    lemma_mul_is_distributive_sub_other_way};

verus! {

/// A rational number as a numerator/denominator pair of unbounded integers.
/// This is a specification-only value: contracts speak of it, executable
/// code carries `Prob` values whose view is a `Rat`.
pub struct Rat {
    /// numerator
    pub n: int,
    /// denominator; well-formed values keep it strictly positive
    pub d: int,
}

/// well-formed: the denominator is strictly positive
pub open spec fn rat_wf(a: Rat) -> bool {
    a.d > 0
}

/// the rational zero
pub open spec fn rat_zero() -> Rat {
    Rat { n: 0, d: 1 }
}

/// the rational one
pub open spec fn rat_one() -> Rat {
    Rat { n: 1, d: 1 }
}

/// the integer `v` as a rational
pub open spec fn rat_of_int(v: int) -> Rat {
    Rat { n: v, d: 1 }
}

/// exact sum
pub open spec fn rat_add(a: Rat, b: Rat) -> Rat {
    Rat { n: a.n * b.d + b.n * a.d, d: a.d * b.d }
}

/// exact difference
pub open spec fn rat_sub(a: Rat, b: Rat) -> Rat {
    Rat { n: a.n * b.d - b.n * a.d, d: a.d * b.d }
}

/// exact product
pub open spec fn rat_mul(a: Rat, b: Rat) -> Rat {
    Rat { n: a.n * b.n, d: a.d * b.d }
}

/// the two pairs denote the same rational value
pub open spec fn rat_eqv(a: Rat, b: Rat) -> bool {
    a.n * b.d == b.n * a.d
}

/// `a <= b` as rational values; meaningful when both are well-formed
pub open spec fn rat_le(a: Rat, b: Rat) -> bool {
    a.n * b.d <= b.n * a.d
}

/// `a < b` as rational values; meaningful when both are well-formed
pub open spec fn rat_lt(a: Rat, b: Rat) -> bool {
    a.n * b.d < b.n * a.d
}

/// strictly positive as a rational value (for well-formed pairs)
pub open spec fn rat_pos(a: Rat) -> bool {
    a.n > 0
}

/// Value equivalence is transitive on pairs with nonzero denominators.
pub proof fn lemma_eqv_trans(a: Rat, b: Rat, c: Rat)
    requires
        rat_wf(b),
        rat_eqv(a, b),
        rat_eqv(b, c),
    ensures
        rat_eqv(a, c),
{
    assert(rat_eqv(a, c)) by (nonlinear_arith)
        requires
            b.d > 0,
            a.n * b.d == b.n * a.d,
            b.n * c.d == c.n * b.d,
    {
    }
}

/// Addition respects value equivalence.
pub proof fn lemma_add_cong(a: Rat, a2: Rat, b: Rat, b2: Rat)
    requires
        rat_eqv(a, a2),
        rat_eqv(b, b2),
    ensures
        rat_eqv(rat_add(a, b), rat_add(a2, b2)),
{
    assert((a.n * a2.d) * (b.d * b2.d) == (a2.n * a.d) * (b.d * b2.d));
    assert((a.n * a2.d) * (b.d * b2.d) == (a.n * b.d) * (a2.d * b2.d)) by (nonlinear_arith);
    assert((a2.n * a.d) * (b.d * b2.d) == (a2.n * b2.d) * (a.d * b.d)) by (nonlinear_arith);
    assert((b.n * b2.d) * (a.d * a2.d) == (b2.n * b.d) * (a.d * a2.d));
    assert((b.n * b2.d) * (a.d * a2.d) == (b.n * a.d) * (a2.d * b2.d)) by (nonlinear_arith);
    assert((b2.n * b.d) * (a.d * a2.d) == (b2.n * a2.d) * (a.d * b.d)) by (nonlinear_arith);
    lemma_mul_is_distributive_add_other_way(a2.d * b2.d, a.n * b.d, b.n * a.d);
    lemma_mul_is_distributive_add_other_way(a.d * b.d, a2.n * b2.d, b2.n * a2.d);
}

/// Multiplication respects value equivalence.
pub proof fn lemma_mul_cong(a: Rat, a2: Rat, b: Rat, b2: Rat)
    requires
        rat_eqv(a, a2),
        rat_eqv(b, b2),
    ensures
        rat_eqv(rat_mul(a, b), rat_mul(a2, b2)),
{
    assert((a.n * a2.d) * (b.n * b2.d) == (a2.n * a.d) * (b2.n * b.d));
    assert((a.n * a2.d) * (b.n * b2.d) == (a.n * b.n) * (a2.d * b2.d)) by (nonlinear_arith);
    assert((a2.n * a.d) * (b2.n * b.d) == (a2.n * b2.n) * (a.d * b.d)) by (nonlinear_arith);
}

/// Subtraction respects value equivalence.
pub proof fn lemma_sub_cong(a: Rat, a2: Rat, b: Rat, b2: Rat)
    requires
        rat_eqv(a, a2),
        rat_eqv(b, b2),
    ensures
        rat_eqv(rat_sub(a, b), rat_sub(a2, b2)),
{
    assert((a.n * a2.d) * (b.d * b2.d) == (a2.n * a.d) * (b.d * b2.d));
    assert((a.n * a2.d) * (b.d * b2.d) == (a.n * b.d) * (a2.d * b2.d)) by (nonlinear_arith);
    assert((a2.n * a.d) * (b.d * b2.d) == (a2.n * b2.d) * (a.d * b.d)) by (nonlinear_arith);
    assert((b.n * b2.d) * (a.d * a2.d) == (b2.n * b.d) * (a.d * a2.d));
    assert((b.n * b2.d) * (a.d * a2.d) == (b.n * a.d) * (a2.d * b2.d)) by (nonlinear_arith);
    assert((b2.n * b.d) * (a.d * a2.d) == (b2.n * a2.d) * (a.d * b.d)) by (nonlinear_arith);
    lemma_mul_is_distributive_sub_other_way(a2.d * b2.d, a.n * b.d, b.n * a.d);
    lemma_mul_is_distributive_sub_other_way(a.d * b.d, a2.n * b2.d, b2.n * a2.d);
}

/// Addition is commutative up to value equivalence.
pub proof fn lemma_add_comm(a: Rat, b: Rat)
    ensures
        rat_eqv(rat_add(a, b), rat_add(b, a)),
{
    assert((a.n * b.d + b.n * a.d) * (b.d * a.d) == (b.n * a.d + a.n * b.d) * (a.d
        * b.d)) by (nonlinear_arith) {
    }
}

/// Addition is associative up to value equivalence.
pub proof fn lemma_add_assoc(a: Rat, b: Rat, c: Rat)
    ensures
        rat_eqv(rat_add(rat_add(a, b), c), rat_add(a, rat_add(b, c))),
{
    lemma_mul_is_distributive_add_other_way(c.d, a.n * b.d, b.n * a.d);
    assert((a.n * b.d) * c.d == a.n * (b.d * c.d)) by (nonlinear_arith);
    assert((b.n * a.d) * c.d == (b.n * c.d) * a.d) by (nonlinear_arith);
    assert(c.n * (a.d * b.d) == (c.n * b.d) * a.d) by (nonlinear_arith);
    lemma_mul_is_distributive_add_other_way(a.d, b.n * c.d, c.n * b.d);
    assert((a.d * b.d) * c.d == a.d * (b.d * c.d)) by (nonlinear_arith);
}

/// Multiplication distributes over addition up to value equivalence.
pub proof fn lemma_mul_distr(c: Rat, a: Rat, b: Rat)
    ensures
        rat_eqv(rat_mul(c, rat_add(a, b)), rat_add(rat_mul(c, a), rat_mul(c, b))),
{
    lemma_mul_is_distributive_add(c.n, a.n * b.d, b.n * a.d);
    lemma_mul_is_distributive_add(c.d, c.n * (a.n * b.d), c.n * (b.n * a.d));
    assert((c.n * a.n) * (c.d * b.d) == c.d * (c.n * (a.n * b.d))) by (nonlinear_arith);
    assert((c.n * b.n) * (c.d * a.d) == c.d * (c.n * (b.n * a.d))) by (nonlinear_arith);
    assert((c.d * a.d) * (c.d * b.d) == c.d * (c.d * (a.d * b.d))) by (nonlinear_arith);
    assert((c.n * (a.n * b.d + b.n * a.d)) * ((c.d * a.d) * (c.d * b.d)) == (c.n * (a.n * b.d + b.n
        * a.d)) * (c.d * (c.d * (a.d * b.d))));
    assert((c.n * (a.n * b.d + b.n * a.d)) * (c.d * (c.d * (a.d * b.d))) == (c.d * (c.n * (a.n * b.d
        + b.n * a.d))) * (c.d * (a.d * b.d))) by (nonlinear_arith);
}

/// Multiplication of pairs is commutative outright.
pub proof fn lemma_mul_comm(a: Rat, b: Rat)
    ensures
        rat_mul(a, b) == rat_mul(b, a),
{
    assert(a.n * b.n == b.n * a.n) by (nonlinear_arith);
    assert(a.d * b.d == b.d * a.d) by (nonlinear_arith);
}

/// A positive value stays positive across value equivalence.
pub proof fn lemma_pos_cong(a: Rat, b: Rat)
    requires
        rat_wf(a),
        rat_wf(b),
        rat_eqv(a, b),
    ensures
        rat_pos(a) == rat_pos(b),
{
    assert((a.n > 0) == (b.n > 0)) by (nonlinear_arith)
        requires
            a.d > 0,
            b.d > 0,
            a.n * b.d == b.n * a.d,
    {
    }
}

/// Multiplying by one keeps the value.
pub proof fn lemma_mul_one(a: Rat)
    ensures
        rat_mul(a, rat_one()) == a,
        rat_mul(rat_one(), a) == a,
{
}

/// Adding zero keeps the value.
pub proof fn lemma_add_zero(a: Rat)
    ensures
        rat_add(rat_zero(), a) == a,
        rat_add(a, rat_zero()) == a,
{
}

/// Sums of well-formed positive rationals are well-formed and positive.
pub proof fn lemma_add_wf_pos(a: Rat, b: Rat)
    requires
        rat_wf(a),
        rat_wf(b),
    ensures
        rat_wf(rat_add(a, b)),
        rat_pos(a) && rat_pos(b) ==> rat_pos(rat_add(a, b)),
{
    assert(a.d * b.d > 0) by (nonlinear_arith)
        requires
            a.d > 0,
            b.d > 0,
    {
    }
    if a.n > 0 && b.n > 0 {
        assert(a.n * b.d + b.n * a.d > 0) by (nonlinear_arith)
            requires
                a.d > 0,
                b.d > 0,
                a.n > 0,
                b.n > 0,
        {
        }
    }
}

/// Differences of well-formed rationals are well-formed.
pub proof fn lemma_sub_wf(a: Rat, b: Rat)
    requires
        rat_wf(a),
        rat_wf(b),
    ensures
        rat_wf(rat_sub(a, b)),
{
    assert(a.d * b.d > 0) by (nonlinear_arith)
        requires
            a.d > 0,
            b.d > 0,
    {
    }
}

/// Products of well-formed positive rationals are well-formed and positive.
pub proof fn lemma_mul_wf_pos(a: Rat, b: Rat)
    requires
        rat_wf(a),
        rat_wf(b),
    ensures
        rat_wf(rat_mul(a, b)),
        rat_pos(a) && rat_pos(b) ==> rat_pos(rat_mul(a, b)),
{
    assert(a.d * b.d > 0) by (nonlinear_arith)
        requires
            a.d > 0,
            b.d > 0,
    {
    }
    if a.n > 0 && b.n > 0 {
        assert(a.n * b.n > 0) by (nonlinear_arith)
            requires
                a.n > 0,
                b.n > 0,
        {
        }
    }
}

/// A non-strict bound followed by a strict one gives a strict bound.
pub proof fn lemma_le_lt_trans(a: Rat, b: Rat, c: Rat)
    requires
        rat_wf(a),
        rat_wf(b),
        rat_wf(c),
        rat_le(a, b),
        rat_lt(b, c),
    ensures
        rat_lt(a, c),
{
    assert(a.n * c.d < c.n * a.d) by (nonlinear_arith)
        requires
            a.d > 0,
            b.d > 0,
            c.d > 0,
            a.n * b.d <= b.n * a.d,
            b.n * c.d < c.n * b.d,
    {
    }
}

/// Adding and then subtracting the same value returns the first value.
pub proof fn lemma_add_sub_cancel(x: Rat, y: Rat)
    ensures
        rat_eqv(rat_sub(rat_add(x, y), y), x),
{
    assert(((x.n * y.d + y.n * x.d) * y.d - y.n * (x.d * y.d)) * x.d == x.n * ((x.d * y.d)
        * y.d)) by (nonlinear_arith);
}

/// `y + (1 - (x + y))` has the value `1 - x`.
pub proof fn lemma_complement_shift(x: Rat, y: Rat)
    ensures
        rat_eqv(rat_add(y, rat_sub(rat_one(), rat_add(x, y))), rat_sub(rat_one(), x)),
{
    let z = rat_add(x, y);
    let w = rat_sub(rat_one(), z);
    assert(rat_one().n == 1 && rat_one().d == 1);
    assert(w.n == 1 * z.d - z.n * 1 && w.d == 1 * z.d);
    assert(w.n == z.d - z.n && w.d == z.d);
    assert((y.n * z.d + (z.d - z.n) * y.d) * x.d == (x.d - x.n) * (y.d * z.d)) by (nonlinear_arith)
        requires
            z.n == x.n * y.d + y.n * x.d,
            z.d == x.d * y.d,
    {
    }
    assert(rat_add(y, w).n == y.n * w.d + w.n * y.d && rat_add(y, w).d == y.d * w.d);
    assert(rat_sub(rat_one(), x).n == z.d - z.n ==> true);
    assert(rat_sub(rat_one(), x) == Rat { n: 1 * x.d - x.n * 1, d: 1 * x.d });
    assert((y.n * z.d + (z.d - z.n) * y.d) * x.d == (x.d - x.n) * (y.d * z.d));
}

/// The order relation respects value equivalence on well-formed pairs.
pub proof fn lemma_le_cong(a: Rat, a2: Rat, b: Rat, b2: Rat)
    requires
        rat_wf(a),
        rat_wf(a2),
        rat_wf(b),
        rat_wf(b2),
        rat_eqv(a, a2),
        rat_eqv(b, b2),
    ensures
        rat_le(a, b) == rat_le(a2, b2),
        rat_lt(a, b) == rat_lt(a2, b2),
{
    assert((a.n * b.d <= b.n * a.d) == (a2.n * b2.d <= b2.n * a2.d) && (a.n * b.d < b.n * a.d) == (
    a2.n * b2.d < b2.n * a2.d)) by (nonlinear_arith)
        requires
            a.d > 0,
            a2.d > 0,
            b.d > 0,
            b2.d > 0,
            a.n * a2.d == a2.n * a.d,
            b.n * b2.d == b2.n * b.d,
    {
    }
}

} // verus!
