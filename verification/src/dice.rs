//! The computed distribution of a dice formula, with its statistics,
//! probability queries and random sampling.

use vstd::prelude::*;

use crate::dice_builder::{evaluable, spec_render, DiceBuilder, Value};
use crate::engine::{eval_distribution, pmf_view, vwf};
use crate::pmf::{lemma_smass_wf, lemma_wf_drop_last, smass, spmf_dens, spmf_equiv, spmf_sorted,
    spmf_wf, sval, OpKind};
use crate::prob::{prob_add, prob_ge, prob_gt, prob_eq, prob_mul, prob_of_value, prob_sub, Prob};
use crate::rat::{lemma_add_cong, lemma_add_sub_cancel, lemma_add_wf_pos, lemma_complement_shift,
    lemma_eqv_trans, lemma_le_cong, lemma_le_lt_trans,
    lemma_mul_cong, lemma_mul_wf_pos, lemma_pos_cong, lemma_sub_cong, lemma_sub_wf, rat_add,
    rat_eqv, rat_le, rat_lt, rat_mul, rat_of_int, rat_one, rat_pos, rat_sub, rat_wf, rat_zero,
    Rat};

verus! {

/// one half, the threshold of the median
pub open spec fn rat_half() -> Rat {
    Rat { n: 1, d: 2 }
}

/// the exact expectation of the distribution
pub open spec fn smean(s: Seq<(int, Rat)>) -> Rat
    decreases s.len(),
{
    if s.len() == 0 {
        rat_zero()
    } else {
        rat_add(smean(s.drop_last()), rat_mul(rat_of_int(s.last().0), s.last().1))
    }
}

/// the exact second central moment around `mu`
pub open spec fn svar(s: Seq<(int, Rat)>, mu: Rat) -> Rat
    decreases s.len(),
{
    if s.len() == 0 {
        rat_zero()
    } else {
        rat_add(svar(s.drop_last(), mu),
            rat_mul(rat_mul(rat_sub(rat_of_int(s.last().0), mu), rat_sub(rat_of_int(s.last().0),
                mu)), s.last().1))
    }
}

/// `v` is the smallest outcome whose cumulative probability reaches 1/2
pub open spec fn is_median(s: Seq<(int, Rat)>, v: int) -> bool {
    exists|i: int|
        0 <= i < s.len() && (#[trigger] s[i]).0 == v && rat_le(rat_half(), smass(s.take(i + 1)))
            && (forall|j: int| 0 <= j < i ==> rat_lt(smass(#[trigger] s.take(j + 1)), rat_half()))
}

/// the entry at `i` carries a maximal probability of the distribution
pub open spec fn is_max_at(s: Seq<(int, Rat)>, i: int) -> bool {
    forall|j: int| 0 <= j < s.len() ==> rat_le((#[trigger] s[j]).1, s[i].1)
}

/// how many leading outcomes are at most `v` (the sorted prefix below
/// or at `v`)
pub open spec fn upto_idx(s: Seq<(int, Rat)>, v: int) -> int
    decreases s.len(),
{
    if s.len() == 0 {
        0
    } else if s[0].0 <= v {
        1 + upto_idx(s.drop_first(), v)
    } else {
        0
    }
}

/// how many leading outcomes are strictly below `v`
pub open spec fn upto_idx_strict(s: Seq<(int, Rat)>, v: int) -> int
    decreases s.len(),
{
    if s.len() == 0 {
        0
    } else if s[0].0 < v {
        1 + upto_idx_strict(s.drop_first(), v)
    } else {
        0
    }
}

/// the probability that a sample is at most `v`
pub open spec fn spec_prob_lte(s: Seq<(int, Rat)>, v: int) -> Rat {
    smass(s.take(upto_idx(s, v)))
}

/// the probability that a sample is strictly below `v`
pub open spec fn spec_prob_lt(s: Seq<(int, Rat)>, v: int) -> Rat {
    smass(s.take(upto_idx_strict(s, v)))
}

/// The split position of `upto_idx`: everything before it is at most
/// `v`, everything from it on is above `v`.
proof fn lemma_upto_idx(s: Seq<(int, Rat)>, v: int)
    requires
        spmf_sorted(s),
    ensures
        0 <= upto_idx(s, v) <= s.len(),
        forall|j: int| 0 <= j < upto_idx(s, v) ==> (#[trigger] s[j]).0 <= v,
        forall|j: int| upto_idx(s, v) <= j < s.len() ==> (#[trigger] s[j]).0 > v,
    decreases s.len(),
{
    if s.len() > 0 {
        assert(spmf_sorted(s.drop_first())) by {
            assert(forall|j: int|
                0 <= j < s.drop_first().len() ==> #[trigger] s.drop_first()[j] == s[j + 1]);
        }
        lemma_upto_idx(s.drop_first(), v);
        assert(forall|j: int|
            0 <= j < s.drop_first().len() ==> #[trigger] s.drop_first()[j] == s[j + 1]);
        let u = upto_idx(s, v);
        if s[0].0 <= v {
            assert(u == 1 + upto_idx(s.drop_first(), v));
            assert forall|j: int| 0 <= j < u implies (#[trigger] s[j]).0 <= v by {
                if j > 0 {
                    assert(s.drop_first()[j - 1] == s[j]);
                }
            }
            assert forall|j: int| u <= j < s.len() implies (#[trigger] s[j]).0 > v by {
                assert(s.drop_first()[j - 1] == s[j]);
            }
        } else {
            assert(u == 0);
            assert forall|j: int| u <= j < s.len() implies (#[trigger] s[j]).0 > v by {
                if j > 0 {
                    assert(s[0].0 < s[j].0);
                }
            }
        }
    }
}

/// With sorted outcomes the upper half of the strict split is above or
/// at `v`.
proof fn lemma_upto_idx_strict(s: Seq<(int, Rat)>, v: int)
    requires
        spmf_sorted(s),
    ensures
        0 <= upto_idx_strict(s, v) <= s.len(),
        forall|j: int| 0 <= j < upto_idx_strict(s, v) ==> (#[trigger] s[j]).0 < v,
        forall|j: int| upto_idx_strict(s, v) <= j < s.len() ==> (#[trigger] s[j]).0 >= v,
    decreases s.len(),
{
    if s.len() > 0 {
        assert(spmf_sorted(s.drop_first())) by {
            assert(forall|j: int|
                0 <= j < s.drop_first().len() ==> #[trigger] s.drop_first()[j] == s[j + 1]);
        }
        lemma_upto_idx_strict(s.drop_first(), v);
        assert(forall|j: int|
            0 <= j < s.drop_first().len() ==> #[trigger] s.drop_first()[j] == s[j + 1]);
        let u = upto_idx_strict(s, v);
        if s[0].0 < v {
            assert(u == 1 + upto_idx_strict(s.drop_first(), v));
            assert forall|j: int| 0 <= j < u implies (#[trigger] s[j]).0 < v by {
                if j > 0 {
                    assert(s.drop_first()[j - 1] == s[j]);
                }
            }
            assert forall|j: int| u <= j < s.len() implies (#[trigger] s[j]).0 >= v by {
                assert(s.drop_first()[j - 1] == s[j]);
            }
        } else {
            assert(u == 0);
            assert forall|j: int| u <= j < s.len() implies (#[trigger] s[j]).0 >= v by {
                if j > 0 {
                    assert(s[0].0 < s[j].0);
                }
            }
        }
    }
}

/// The stored probability at an index is `sval` of its outcome.
proof fn lemma_sval_at(s: Seq<(int, Rat)>, i: int)
    requires
        spmf_sorted(s),
        0 <= i < s.len(),
    ensures
        sval(s, s[i].0) == s[i].1,
    decreases s.len(),
{
    if i > 0 {
        assert(s[0].0 < s[i].0);
        assert(forall|j: int| 0 <= j < s.drop_first().len() ==> #[trigger] s.drop_first()[j]
            == s[j + 1]);
        lemma_sval_at(s.drop_first(), i - 1);
    }
}

/// An outcome stored nowhere has probability zero.
proof fn lemma_sval_absent(s: Seq<(int, Rat)>, k: int)
    requires
        forall|j: int| 0 <= j < s.len() ==> (#[trigger] s[j]).0 != k,
    ensures
        sval(s, k) == rat_zero(),
    decreases s.len(),
{
    if s.len() > 0 {
        assert(forall|j: int| 0 <= j < s.drop_first().len() ==> #[trigger] s.drop_first()[j]
            == s[j + 1]);
        lemma_sval_absent(s.drop_first(), k);
    }
}

/// The mean of a distribution with well-formed probabilities is
/// well-formed.
proof fn lemma_smean_wf(s: Seq<(int, Rat)>)
    requires
        spmf_dens(s),
    ensures
        rat_wf(smean(s)),
    decreases s.len(),
{
    if s.len() > 0 {
        lemma_wf_drop_last(s);
        lemma_smean_wf(s.drop_last());
        lemma_mul_wf_pos(rat_of_int(s.last().0), s.last().1);
        lemma_add_wf_pos(smean(s.drop_last()), rat_mul(rat_of_int(s.last().0), s.last().1));
    }
}

/// The variance of a distribution with well-formed probabilities is
/// well-formed.
proof fn lemma_svar_wf(s: Seq<(int, Rat)>, mu: Rat)
    requires
        spmf_dens(s),
        rat_wf(mu),
    ensures
        rat_wf(svar(s, mu)),
    decreases s.len(),
{
    if s.len() > 0 {
        lemma_wf_drop_last(s);
        lemma_svar_wf(s.drop_last(), mu);
        let dv = rat_sub(rat_of_int(s.last().0), mu);
        lemma_sub_wf(rat_of_int(s.last().0), mu);
        lemma_mul_wf_pos(dv, dv);
        lemma_mul_wf_pos(rat_mul(dv, dv), s.last().1);
        lemma_add_wf_pos(svar(s.drop_last(), mu), rat_mul(rat_mul(dv, dv), s.last().1));
    }
}

/// A `Dice` represents the exact discrete probability distribution of a
/// dice formula: its outcomes and probabilities, together with the
/// statistics computed when it was built and a `roll_with` method that
/// samples from the distribution with a host-supplied uniform draw.
#[derive(Debug)]
pub struct Dice {
    /// a string that can be used to recreate the `DiceBuilder` the
    /// `Dice` was created from
    pub builder_string: String,
    /// minimum value of the probability distribution
    pub min: Value,
    /// maximum value of the probability distribution
    pub max: Value,
    /// median of the probability distribution
    pub median: Value,
    /// mode or modes of the probability distribution
    pub mode: Vec<Value>,
    /// mean of the probability distribution
    pub mean: Prob,
    /// variance of the probability distribution
    pub variance: Prob,
    /// the probability mass function: each outcome with its probability,
    /// in ascending outcome order
    pub distribution: Vec<(Value, Prob)>,
    /// the cumulative distribution function: each outcome with its
    /// running probability, in ascending outcome order
    pub cumulative_distribution: Vec<(Value, Prob)>,
    /// time it took to build the dice in milliseconds; the library
    /// leaves it zero, and the host that owns the clock fills it in
    pub build_time: u64,
}

impl Dice {
    /// The structural invariant of a built `Dice`: the distribution is a
    /// well-formed unit-mass distribution, the cumulative distribution
    /// carries its exact prefix sums, and `min`/`max` are its first and
    /// last outcomes.
    pub open spec fn wf(&self) -> bool {
        &&& vwf(self.distribution@)
        &&& self.distribution@.len() >= 1
        &&& rat_eqv(smass(pmf_view(self.distribution@)), rat_one())
        &&& self.cumulative_distribution@.len() == self.distribution@.len()
        &&& forall|i: int|
            0 <= i < self.distribution@.len() ==> (#[trigger] self.cumulative_distribution@[i]).0
                == self.distribution@[i].0
        &&& forall|i: int|
            0 <= i < self.distribution@.len() ==> rat_wf(
                (#[trigger] self.cumulative_distribution@[i]).1@) && rat_eqv(
                self.cumulative_distribution@[i].1@, smass(pmf_view(self.distribution@).take(i
                    + 1)))
        &&& self.min == self.distribution@[0].0
        &&& self.max == self.distribution@[self.distribution@.len() - 1].0
    }
}

/// The exact prefix sums of the distribution.
fn cumulative_distribution_from_distribution(dist: &Vec<(i64, Prob)>) -> (r: Vec<(i64, Prob)>)
    requires
        vwf(dist@),
    ensures
        r@.len() == dist@.len(),
        forall|i: int| 0 <= i < dist@.len() ==> (#[trigger] r@[i]).0 == dist@[i].0,
        forall|i: int|
            0 <= i < dist@.len() ==> rat_wf((#[trigger] r@[i]).1@) && rat_eqv(r@[i].1@,
                smass(pmf_view(dist@).take(i + 1))),
{
    let ghost s = pmf_view(dist@);
    let mut acc = Prob::zero();
    let mut out: Vec<(i64, Prob)> = Vec::new();
    proof {
        assert(s.take(0) =~= Seq::<(int, Rat)>::empty());
    }
    let mut i: usize = 0;
    while i < dist.len()
        invariant
            0 <= i <= dist@.len(),
            vwf(dist@),
            s == pmf_view(dist@),
            acc.wf(),
            rat_eqv(acc@, smass(s.take(i as int))),
            out@.len() == i,
            forall|m: int| 0 <= m < i ==> (#[trigger] out@[m]).0 == dist@[m].0,
            forall|m: int|
                0 <= m < i ==> rat_wf((#[trigger] out@[m]).1@) && rat_eqv(out@[m].1@,
                    smass(s.take(m + 1))),
        decreases dist@.len() - i,
    {
        proof {
            assert(s[i as int].1 == dist@[i as int].1@);
            assert(rat_wf(s[i as int].1));
            assert(spmf_dens(s.take(i as int))) by {
                assert(forall|m: int| 0 <= m < i ==> #[trigger] s.take(i as int)[m] == s[m]);
            }
            lemma_smass_wf(s.take(i as int));
        }
        let next = prob_add(&acc, &dist[i].1);
        proof {
            // next ~ acc + p ~ smass(take(i)) + p == smass(take(i+1))
            lemma_add_cong(acc@, smass(s.take(i as int)), dist@[i as int].1@,
                dist@[i as int].1@);
            lemma_add_wf_pos(acc@, dist@[i as int].1@);
            assert(s.take(i + 1).drop_last() =~= s.take(i as int));
            assert(s.take(i + 1).last() == s[i as int]);
            assert(smass(s.take(i + 1)) == rat_add(smass(s.take(i as int)), s[i as int].1));
            lemma_eqv_trans(next@, rat_add(acc@, dist@[i as int].1@), smass(s.take(i + 1)));
        }
        let ghost before = out@;
        out.push((dist[i].0, next.clone()));
        acc = next;
        proof {
            assert(forall|m: int| 0 <= m < i ==> #[trigger] out@[m] == before[m]);
        }
        i += 1;
    }
    out
}

/// The exact expectation of the distribution.
fn compute_mean(dist: &Vec<(i64, Prob)>) -> (m: Prob)
    requires
        vwf(dist@),
    ensures
        m.wf(),
        rat_eqv(m@, smean(pmf_view(dist@))),
{
    let ghost s = pmf_view(dist@);
    let mut acc = Prob::zero();
    proof {
        assert(s.take(0) =~= Seq::<(int, Rat)>::empty());
    }
    let mut i: usize = 0;
    while i < dist.len()
        invariant
            0 <= i <= dist@.len(),
            vwf(dist@),
            s == pmf_view(dist@),
            acc.wf(),
            rat_eqv(acc@, smean(s.take(i as int))),
        decreases dist@.len() - i,
    {
        proof {
            assert(s[i as int].1 == dist@[i as int].1@);
            assert(s[i as int].0 == dist@[i as int].0 as int);
            assert(rat_wf(s[i as int].1));
        }
        let vp = prob_of_value(dist[i].0);
        let term = prob_mul(&vp, &dist[i].1);
        let next = prob_add(&acc, &term);
        proof {
            let sterm = rat_mul(rat_of_int(s[i as int].0), s[i as int].1);
            lemma_mul_cong(vp@, rat_of_int(s[i as int].0), dist@[i as int].1@, s[i as int].1);
            lemma_mul_wf_pos(vp@, dist@[i as int].1@);
            lemma_mul_wf_pos(rat_of_int(s[i as int].0), s[i as int].1);
            lemma_eqv_trans(term@, rat_mul(vp@, dist@[i as int].1@), sterm);
            assert(spmf_dens(s.take(i as int))) by {
                assert(forall|m: int| 0 <= m < i ==> #[trigger] s.take(i as int)[m] == s[m]);
            }
            lemma_smean_wf(s.take(i as int));
            lemma_add_cong(acc@, smean(s.take(i as int)), term@, sterm);
            lemma_add_wf_pos(acc@, term@);
            assert(s.take(i + 1).drop_last() =~= s.take(i as int));
            assert(s.take(i + 1).last() == s[i as int]);
            assert(smean(s.take(i + 1)) == rat_add(smean(s.take(i as int)), sterm));
            lemma_add_wf_pos(smean(s.take(i as int)), sterm);
            lemma_eqv_trans(next@, rat_add(acc@, term@), rat_add(smean(s.take(i as int)),
                sterm));
        }
        acc = next;
        i += 1;
    }
    proof {
        assert(s.take(dist@.len() as int) =~= s);
    }
    acc
}

/// The exact second central moment of the distribution around the
/// computed mean.
fn compute_variance(dist: &Vec<(i64, Prob)>, mean: &Prob) -> (v: Prob)
    requires
        vwf(dist@),
        mean.wf(),
    ensures
        v.wf(),
        rat_eqv(v@, svar(pmf_view(dist@), mean@)),
{
    let ghost s = pmf_view(dist@);
    let ghost mu = mean@;
    let mut acc = Prob::zero();
    proof {
        assert(s.take(0) =~= Seq::<(int, Rat)>::empty());
    }
    let mut i: usize = 0;
    while i < dist.len()
        invariant
            0 <= i <= dist@.len(),
            vwf(dist@),
            s == pmf_view(dist@),
            mean.wf(),
            mu == mean@,
            acc.wf(),
            rat_eqv(acc@, svar(s.take(i as int), mu)),
        decreases dist@.len() - i,
    {
        proof {
            assert(s[i as int].1 == dist@[i as int].1@);
            assert(s[i as int].0 == dist@[i as int].0 as int);
            assert(rat_wf(s[i as int].1));
        }
        let vp = prob_of_value(dist[i].0);
        let diff = prob_sub(&vp, mean);
        let sq = prob_mul(&diff, &diff);
        let term = prob_mul(&sq, &dist[i].1);
        let next = prob_add(&acc, &term);
        proof {
            let sdiff = rat_sub(rat_of_int(s[i as int].0), mu);
            let ssq = rat_mul(sdiff, sdiff);
            let sterm = rat_mul(ssq, s[i as int].1);
            lemma_sub_cong(vp@, rat_of_int(s[i as int].0), mu, mu);
            lemma_sub_wf(vp@, mu);
            lemma_sub_wf(rat_of_int(s[i as int].0), mu);
            lemma_eqv_trans(diff@, rat_sub(vp@, mu), sdiff);
            lemma_mul_cong(diff@, sdiff, diff@, sdiff);
            lemma_mul_wf_pos(diff@, diff@);
            lemma_mul_wf_pos(sdiff, sdiff);
            lemma_eqv_trans(sq@, rat_mul(diff@, diff@), ssq);
            lemma_mul_cong(sq@, ssq, dist@[i as int].1@, s[i as int].1);
            lemma_mul_wf_pos(sq@, dist@[i as int].1@);
            lemma_mul_wf_pos(ssq, s[i as int].1);
            lemma_eqv_trans(term@, rat_mul(sq@, dist@[i as int].1@), sterm);
            assert(spmf_dens(s.take(i as int))) by {
                assert(forall|m: int| 0 <= m < i ==> #[trigger] s.take(i as int)[m] == s[m]);
            }
            lemma_svar_wf(s.take(i as int), mu);
            lemma_add_cong(acc@, svar(s.take(i as int), mu), term@, sterm);
            lemma_add_wf_pos(acc@, term@);
            assert(s.take(i + 1).drop_last() =~= s.take(i as int));
            assert(s.take(i + 1).last() == s[i as int]);
            assert(svar(s.take(i + 1), mu) == rat_add(svar(s.take(i as int), mu), sterm));
            lemma_add_wf_pos(svar(s.take(i as int), mu), sterm);
            lemma_eqv_trans(next@, rat_add(acc@, term@), rat_add(svar(s.take(i as int), mu),
                sterm));
        }
        acc = next;
        i += 1;
    }
    proof {
        assert(s.take(dist@.len() as int) =~= s);
    }
    acc
}


/// some entry below `bound` carries outcome `v` with probability `b`
pub open spec fn mode_witness(s: Seq<(int, Rat)>, bound: int, v: i64, b: Rat) -> bool {
    exists|j: int|
        0 <= j < bound && (#[trigger] s[j]).0 == v as int && rat_eqv(s[j].1, b)
}

/// `v` is an outcome carrying the maximal probability
pub open spec fn key_is_mode(s: Seq<(int, Rat)>, v: int) -> bool {
    exists|i: int| 0 <= i < s.len() && (#[trigger] s[i]).0 == v && is_max_at(s, i)
}

/// The smallest outcome whose cumulative probability reaches one half.
fn compute_median(dist: &Vec<(i64, Prob)>) -> (m: i64)
    requires
        vwf(dist@),
        dist@.len() >= 1,
        rat_eqv(smass(pmf_view(dist@)), rat_one()),
    ensures
        is_median(pmf_view(dist@), m as int),
{
    let ghost s = pmf_view(dist@);
    let half = Prob::new(1, 2);
    let mut total = Prob::zero();
    proof {
        assert(s.take(0) =~= Seq::<(int, Rat)>::empty());
    }
    let mut i: usize = 0;
    while i < dist.len()
        invariant
            0 <= i <= dist@.len(),
            vwf(dist@),
            dist@.len() >= 1,
            rat_eqv(smass(s), rat_one()),
            s == pmf_view(dist@),
            half.wf(),
            rat_eqv(half@, rat_half()),
            total.wf(),
            rat_eqv(total@, smass(s.take(i as int))),
            forall|j: int| 0 <= j < i ==> rat_lt(smass(#[trigger] s.take(j + 1)), rat_half()),
        decreases dist@.len() - i,
    {
        proof {
            assert(s[i as int].1 == dist@[i as int].1@);
            assert(rat_wf(s[i as int].1));
            assert(spmf_dens(s.take(i as int))) by {
                assert(forall|m: int| 0 <= m < i ==> #[trigger] s.take(i as int)[m] == s[m]);
            }
            lemma_smass_wf(s.take(i as int));
        }
        let next = prob_add(&total, &dist[i].1);
        proof {
            lemma_add_cong(total@, smass(s.take(i as int)), dist@[i as int].1@,
                dist@[i as int].1@);
            lemma_add_wf_pos(total@, dist@[i as int].1@);
            assert(s.take(i + 1).drop_last() =~= s.take(i as int));
            assert(s.take(i + 1).last() == s[i as int]);
            assert(smass(s.take(i + 1)) == rat_add(smass(s.take(i as int)), s[i as int].1));
            lemma_eqv_trans(next@, rat_add(total@, dist@[i as int].1@), smass(s.take(i + 1)));
            assert(spmf_dens(s.take(i + 1))) by {
                assert(forall|m: int| 0 <= m < i + 1 ==> #[trigger] s.take(i + 1)[m] == s[m]);
            }
            lemma_smass_wf(s.take(i + 1));
        }
        total = next;
        if prob_ge(&total, &half) {
            proof {
                // half <= total as values, so half <= the prefix mass
                lemma_le_cong(half@, rat_half(), total@, smass(s.take(i + 1)));
                assert(s[i as int].0 == dist@[i as int].0 as int);
                assert(is_median(s, dist@[i as int].0 as int));
            }
            return dist[i].0;
        }
        proof {
            lemma_le_cong(half@, rat_half(), total@, smass(s.take(i + 1)));
            assert(rat_lt(smass(s.take(i + 1)), rat_half()));
        }
        i += 1;
    }
    proof {
        let ghost jj = dist@.len() - 1;
        assert(rat_lt(smass(s.take(jj + 1)), rat_half()));
        assert(s.take(dist@.len() as int) =~= s);
        lemma_smass_wf(s);
        lemma_le_cong(smass(s), rat_one(), rat_half(), rat_half());
        assert(!rat_lt(rat_one(), rat_half()));
        assert(false);
    }
    0
}

/// The outcomes of maximal probability, collected in one left-to-right
/// scan: a strictly greater probability restarts the list, a tie is
/// prepended, so the list holds the modes in descending outcome order.
fn compute_mode(dist: &Vec<(i64, Prob)>) -> (mode: Vec<i64>)
    requires
        vwf(dist@),
        dist@.len() >= 1,
    ensures
        mode@.len() >= 1,
        forall|m: int|
            0 <= m < mode@.len() ==> key_is_mode(pmf_view(dist@), #[trigger] mode@[m] as int),
        forall|i: int|
            0 <= i < pmf_view(dist@).len() && is_max_at(pmf_view(dist@), i) ==> mode@.contains(
                (#[trigger] pmf_view(dist@)[i]).0 as i64),
        forall|m1: int, m2: int| 0 <= m1 < m2 < mode@.len() ==> mode@[m1] > mode@[m2],
{
    let ghost s = pmf_view(dist@);
    let mut mode: Vec<i64> = Vec::new();
    mode.push(dist[0].0);
    let mut best = dist[0].1.clone();
    proof {
        assert(s[0].1 == dist@[0].1@);
        assert(s[0].0 == dist@[0].0 as int);
        assert(mode@[0] == dist@[0].0);
        assert(rat_eqv(s[0].1, best@));
        assert(mode_witness(s, 1, mode@[0], best@));
    }
    let mut i: usize = 1;
    while i < dist.len()
        invariant
            1 <= i <= dist@.len(),
            vwf(dist@),
            s == pmf_view(dist@),
            best.wf(),
            exists|bi: int| 0 <= bi < i && rat_eqv((#[trigger] s[bi]).1, best@),
            forall|j: int| 0 <= j < i ==> rat_le((#[trigger] s[j]).1, best@),
            mode@.len() >= 1,
            forall|m: int|
                0 <= m < mode@.len() ==> mode_witness(s, i as int, #[trigger] mode@[m], best@),
            forall|j: int|
                0 <= j < i && rat_eqv((#[trigger] s[j]).1, best@) ==> mode@.contains(
                    s[j].0 as i64),
            forall|m1: int, m2: int| 0 <= m1 < m2 < mode@.len() ==> mode@[m1] > mode@[m2],
        decreases dist@.len() - i,
    {
        proof {
            assert(s[i as int].1 == dist@[i as int].1@);
            assert(s[i as int].0 == dist@[i as int].0 as int);
            assert(rat_wf(s[i as int].1));
        }
        let ghost oldbest = best@;
        if prob_gt(&dist[i].1, &best) {
            let mut fresh: Vec<i64> = Vec::new();
            fresh.push(dist[i].0);
            mode = fresh;
            best = dist[i].1.clone();
            proof {
                assert(best@ == s[i as int].1);
                assert(rat_lt(oldbest, best@));
                assert(mode@.len() == 1);
                assert(mode@[0] == dist@[i as int].0);
                assert(rat_eqv(s[i as int].1, best@));
                assert(mode_witness(s, i + 1, mode@[0], best@));
                assert forall|j: int| 0 <= j < i + 1 implies rat_le((#[trigger] s[j]).1,
                    best@) by {
                    if j < i {
                        lemma_le_lt_trans(s[j].1, oldbest, best@);
                    }
                }
                assert forall|j: int|
                    0 <= j < i + 1 && rat_eqv((#[trigger] s[j]).1, best@) implies mode@.contains(
                    s[j].0 as i64) by {
                    if j < i {
                        lemma_le_lt_trans(s[j].1, oldbest, best@);
                        assert(false);
                    } else {
                        assert(mode@[0] == s[j].0 as i64);
                    }
                }
            }
        } else if prob_eq(&dist[i].1, &best) {
            let ghost before = mode@;
            mode.insert(0, dist[i].0);
            proof {
                assert(mode@ == before.insert(0, dist@[i as int].0));
                assert(mode@[0] == dist@[i as int].0);
                assert(forall|m: int|
                    1 <= m < mode@.len() ==> #[trigger] mode@[m] == before[m - 1]);
                assert(rat_eqv(s[i as int].1, best@));
                assert(mode_witness(s, i + 1, mode@[0], best@));
                assert forall|m: int| 1 <= m < mode@.len() implies mode_witness(s, i + 1,
                    #[trigger] mode@[m], best@) by {
                    assert(mode_witness(s, i as int, before[m - 1], best@));
                    let j = choose|j: int|
                        0 <= j < i && (#[trigger] s[j]).0 == before[m - 1] as int && rat_eqv(
                            s[j].1, best@);
                    assert(0 <= j < i + 1 && s[j].0 == mode@[m] as int && rat_eqv(s[j].1,
                        best@));
                }
                assert forall|j: int|
                    0 <= j < i + 1 && rat_eqv((#[trigger] s[j]).1, best@) implies mode@.contains(
                    s[j].0 as i64) by {
                    if j < i {
                        assert(before.contains(s[j].0 as i64));
                        let m = choose|m: int| 0 <= m < before.len() && before[m] == s[j].0 as i64;
                        assert(mode@[m + 1] == s[j].0 as i64);
                    } else {
                        assert(mode@[0] == s[j].0 as i64);
                    }
                }
                assert forall|m1: int, m2: int| 0 <= m1 < m2 < mode@.len() implies mode@[m1]
                    > mode@[m2] by {
                    if m1 == 0 {
                        assert(mode_witness(s, i as int, before[m2 - 1], best@));
                        let j = choose|j: int|
                            0 <= j < i && (#[trigger] s[j]).0 == before[m2 - 1] as int
                                && rat_eqv(s[j].1, best@);
                        assert(s[j].0 < s[i as int].0);
                    }
                }
            }
        } else {
            proof {
                assert(rat_le(s[i as int].1, best@));
                assert(!rat_eqv(s[i as int].1, best@));
                assert forall|m: int| 0 <= m < mode@.len() implies mode_witness(s, i + 1,
                    #[trigger] mode@[m], best@) by {
                    assert(mode_witness(s, i as int, mode@[m], best@));
                    let j = choose|j: int|
                        0 <= j < i && (#[trigger] s[j]).0 == mode@[m] as int && rat_eqv(s[j].1,
                            best@);
                    assert(0 <= j < i + 1 && s[j].0 == mode@[m] as int && rat_eqv(s[j].1,
                        best@));
                }
            }
        }
        i += 1;
    }
    proof {
        assert forall|m: int| 0 <= m < mode@.len() implies key_is_mode(s,
            #[trigger] mode@[m] as int) by {
            assert(mode_witness(s, dist@.len() as int, mode@[m], best@));
            let j = choose|j: int|
                0 <= j < dist@.len() && (#[trigger] s[j]).0 == mode@[m] as int && rat_eqv(
                    s[j].1, best@);
            assert forall|l: int| 0 <= l < s.len() implies rat_le((#[trigger] s[l]).1,
                s[j].1) by {
                lemma_le_cong(s[l].1, s[l].1, best@, s[j].1);
            }
            assert(is_max_at(s, j));
        }
        assert forall|i0: int| 0 <= i0 < s.len() && is_max_at(s, i0) implies mode@.contains(
            (#[trigger] s[i0]).0 as i64) by {
            let bi = choose|bi: int|
                0 <= bi < dist@.len() && rat_eqv((#[trigger] s[bi]).1, best@);
            assert(rat_le(s[bi].1, s[i0].1));
            assert(rat_le(s[i0].1, best@));
            lemma_le_cong(s[bi].1, best@, s[i0].1, s[i0].1);
            assert(rat_le(best@, s[i0].1));
            assert(rat_eqv(s[i0].1, best@));
        }
    }
    mode
}

impl Dice {
    /// builds a `Dice` from a given `DiceBuilder`
    ///
    /// this method calculates the distribution and all distribution
    /// parameters: the heavy lifting of convoluting probability
    /// distributions takes place here.
    pub fn from_builder(dice_builder: DiceBuilder) -> (d: Dice)
        requires
            evaluable(dice_builder),
        ensures
            d.wf(),
            spmf_equiv(pmf_view(d.distribution@), crate::dice_builder::spec_eval(dice_builder)),
            d.builder_string@ == spec_render(dice_builder),
            rat_eqv(d.mean@, smean(pmf_view(d.distribution@))),
            d.mean.wf(),
            rat_eqv(d.variance@, svar(pmf_view(d.distribution@), d.mean@)),
            d.variance.wf(),
            is_median(pmf_view(d.distribution@), d.median as int),
            d.mode@.len() >= 1,
            forall|m: int|
                0 <= m < d.mode@.len() ==> key_is_mode(pmf_view(d.distribution@),
                    #[trigger] d.mode@[m] as int),
            forall|i: int|
                0 <= i < pmf_view(d.distribution@).len() && is_max_at(pmf_view(d.distribution@),
                    i) ==> d.mode@.contains((#[trigger] pmf_view(d.distribution@)[i]).0 as i64),
            d.build_time == 0,
    {
        let builder_string = dice_builder.reconstruct_string();
        let distribution = eval_distribution(&dice_builder);
        proof {
            crate::engine::lemma_eval_mass(dice_builder);
            crate::pmf::lemma_mass_equiv(pmf_view(distribution@),
                crate::dice_builder::spec_eval(dice_builder));
            lemma_smass_wf(pmf_view(distribution@));
            lemma_smass_wf(crate::dice_builder::spec_eval(dice_builder));
            lemma_eqv_trans(smass(pmf_view(distribution@)),
                smass(crate::dice_builder::spec_eval(dice_builder)), rat_one());
        }
        let min = distribution[0].0;
        let max = distribution[distribution.len() - 1].0;
        let mean = compute_mean(&distribution);
        let variance = compute_variance(&distribution, &mean);
        let median = compute_median(&distribution);
        let mode = compute_mode(&distribution);
        let cumulative_distribution = cumulative_distribution_from_distribution(&distribution);
        Dice {
            builder_string,
            min,
            max,
            median,
            mode,
            mean,
            variance,
            distribution,
            cumulative_distribution,
            build_time: 0,
        }
    }
}


/// some entry of the distribution carries the outcome `v`
pub open spec fn supp_has(s: Seq<(i64, Prob)>, v: i64) -> bool {
    exists|i: int| 0 <= i < s.len() && (#[trigger] s[i]).0 == v
}

/// all five tail probabilities of one outcome
pub struct ProbAll {
    /// probability of a sample below the outcome
    pub lt: Prob,
    /// probability of a sample below or at the outcome
    pub lte: Prob,
    /// probability of a sample at the outcome
    pub eq: Prob,
    /// probability of a sample at or above the outcome
    pub gte: Prob,
    /// probability of a sample above the outcome
    pub gt: Prob,
}

/// The mass below-or-at `v` splits into the mass strictly below `v` and
/// the probability of `v` itself.
proof fn lemma_upto_split(s: Seq<(int, Rat)>, v: int)
    requires
        spmf_wf(s),
    ensures
        rat_eqv(spec_prob_lte(s, v), rat_add(spec_prob_lt(s, v), sval(s, v))),
{
    let u = upto_idx(s, v);
    let w = upto_idx_strict(s, v);
    lemma_upto_idx(s, v);
    lemma_upto_idx_strict(s, v);
    assert(spmf_dens(s.take(u))) by {
        assert(forall|m: int| 0 <= m < u ==> #[trigger] s.take(u)[m] == s[m]);
    }
    assert(spmf_dens(s.take(w))) by {
        assert(forall|m: int| 0 <= m < w ==> #[trigger] s.take(w)[m] == s[m]);
    }
    lemma_smass_wf(s.take(u));
    lemma_smass_wf(s.take(w));
    assert(w <= u) by {
        if u < w {
            assert(s[u].0 < v);
            assert(s[u].0 > v);
        }
    }
    if u == w {
        // no entry carries v
        assert forall|j: int| 0 <= j < s.len() implies (#[trigger] s[j]).0 != v by {
            if j < w {
                assert(s[j].0 < v);
            } else {
                assert(s[j].0 > v);
            }
        }
        lemma_sval_absent(s, v);
        crate::rat::lemma_add_zero(smass(s.take(w)));
    } else {
        // exactly one entry carries v, at position w
        assert(u == w + 1) by {
            if u > w + 1 {
                assert(s[w].0 >= v && s[w].0 <= v);
                assert(s[w + 1].0 >= v && s[w + 1].0 <= v);
                assert(s[w].0 < s[w + 1].0);
            }
        }
        assert(s[w].0 == v);
        lemma_sval_at(s, w);
        assert(s.take(u).drop_last() =~= s.take(w));
        assert(s.take(u).last() == s[w]);
        assert(smass(s.take(u)) == rat_add(smass(s.take(w)), s[w].1));
    }
}

impl Dice {
    /// probability that a number sampled from `self` is `value`
    pub fn prob(&self, value: Value) -> (r: Prob)
        requires
            self.wf(),
        ensures
            r.wf(),
            rat_eqv(r@, sval(pmf_view(self.distribution@), value as int)),
    {
        let ghost s = pmf_view(self.distribution@);
        let mut i: usize = 0;
        while i < self.distribution.len()
            invariant
                0 <= i <= self.distribution@.len(),
                self.wf(),
                s == pmf_view(self.distribution@),
                forall|j: int| 0 <= j < i ==> (#[trigger] s[j]).0 != value as int,
            decreases self.distribution@.len() - i,
        {
            proof {
                assert(s[i as int].0 == self.distribution@[i as int].0 as int);
                assert(s[i as int].1 == self.distribution@[i as int].1@);
            }
            if self.distribution[i].0 == value {
                proof {
                    lemma_sval_at(s, i as int);
                }
                return self.distribution[i].1.clone();
            }
            i += 1;
        }
        proof {
            lemma_sval_absent(s, value as int);
        }
        Prob::zero()
    }

    /// probability that a number sampled from `self` is less than or
    /// equal to `value`
    pub fn prob_lte(&self, value: Value) -> (r: Prob)
        requires
            self.wf(),
        ensures
            r.wf(),
            rat_eqv(r@, spec_prob_lte(pmf_view(self.distribution@), value as int)),
    {
        let ghost s = pmf_view(self.distribution@);
        proof {
            lemma_upto_idx(s, value as int);
        }
        let mut i: usize = 0;
        while i < self.distribution.len() && self.distribution[i].0 <= value
            invariant
                0 <= i <= self.distribution@.len(),
                self.wf(),
                s == pmf_view(self.distribution@),
                forall|j: int| 0 <= j < i ==> (#[trigger] s[j]).0 <= value as int,
            decreases self.distribution@.len() - i,
        {
            proof {
                assert(s[i as int].0 == self.distribution@[i as int].0 as int);
            }
            i += 1;
        }
        proof {
            assert(i < self.distribution@.len() ==> s[i as int].0 > value as int) by {
                if i < self.distribution@.len() {
                    assert(s[i as int].0 == self.distribution@[i as int].0 as int);
                }
            }
            assert(i as int == upto_idx(s, value as int)) by {
                let u = upto_idx(s, value as int);
                if (i as int) < u {
                    assert(s[i as int].0 <= value as int);
                } else if u < i as int {
                    assert(s[u].0 > value as int);
                    assert(s[u].0 <= value as int);
                }
            }
        }
        if i == 0 {
            proof {
                assert(s.take(0) =~= Seq::<(int, Rat)>::empty());
            }
            Prob::zero()
        } else {
            proof {
                assert(rat_eqv(self.cumulative_distribution@[i - 1].1@, smass(s.take(i
                    as int))));
            }
            self.cumulative_distribution[i - 1].1.clone()
        }
    }

    /// probability that a number sampled from `self` is less than `value`
    pub fn prob_lt(&self, value: Value) -> (r: Prob)
        requires
            self.wf(),
        ensures
            r.wf(),
            rat_eqv(r@, spec_prob_lt(pmf_view(self.distribution@), value as int)),
    {
        let ghost s = pmf_view(self.distribution@);
        proof {
            lemma_upto_idx_strict(s, value as int);
        }
        let mut i: usize = 0;
        while i < self.distribution.len() && self.distribution[i].0 < value
            invariant
                0 <= i <= self.distribution@.len(),
                self.wf(),
                s == pmf_view(self.distribution@),
                forall|j: int| 0 <= j < i ==> (#[trigger] s[j]).0 < value as int,
            decreases self.distribution@.len() - i,
        {
            proof {
                assert(s[i as int].0 == self.distribution@[i as int].0 as int);
            }
            i += 1;
        }
        proof {
            assert(i < self.distribution@.len() ==> s[i as int].0 >= value as int) by {
                if i < self.distribution@.len() {
                    assert(s[i as int].0 == self.distribution@[i as int].0 as int);
                }
            }
            assert(i as int == upto_idx_strict(s, value as int)) by {
                let u = upto_idx_strict(s, value as int);
                if (i as int) < u {
                    assert(s[i as int].0 < value as int);
                } else if u < i as int {
                    assert(s[u].0 >= value as int);
                    assert(s[u].0 < value as int);
                }
            }
        }
        if i == 0 {
            proof {
                assert(s.take(0) =~= Seq::<(int, Rat)>::empty());
            }
            Prob::zero()
        } else {
            proof {
                assert(rat_eqv(self.cumulative_distribution@[i - 1].1@, smass(s.take(i
                    as int))));
            }
            self.cumulative_distribution[i - 1].1.clone()
        }
    }

    /// probability that a number sampled from `self` is greater than or
    /// equal to `value`: exactly the complement of `prob_lt`
    pub fn prob_gte(&self, value: Value) -> (r: Prob)
        requires
            self.wf(),
        ensures
            r.wf(),
            rat_eqv(r@, rat_sub(rat_one(), spec_prob_lt(pmf_view(self.distribution@),
                value as int))),
    {
        let one = Prob::one();
        let lt = self.prob_lt(value);
        let r = prob_sub(&one, &lt);
        proof {
            let ghost s = pmf_view(self.distribution@);
            lemma_upto_idx_strict(s, value as int);
            assert(spmf_dens(s.take(upto_idx_strict(s, value as int)))) by {
                assert(forall|m: int|
                    0 <= m < upto_idx_strict(s, value as int) ==> #[trigger] s.take(
                        upto_idx_strict(s, value as int))[m] == s[m]);
            }
            lemma_smass_wf(s.take(upto_idx_strict(s, value as int)));
            lemma_sub_cong(one@, rat_one(), lt@, spec_prob_lt(s, value as int));
            lemma_sub_wf(one@, lt@);
            lemma_eqv_trans(r@, rat_sub(one@, lt@), rat_sub(rat_one(), spec_prob_lt(s,
                value as int)));
        }
        r
    }

    /// probability that a number sampled from `self` is greater than
    /// `value`: exactly the complement of `prob_lte`
    pub fn prob_gt(&self, value: Value) -> (r: Prob)
        requires
            self.wf(),
        ensures
            r.wf(),
            rat_eqv(r@, rat_sub(rat_one(), spec_prob_lte(pmf_view(self.distribution@),
                value as int))),
    {
        let one = Prob::one();
        let lte = self.prob_lte(value);
        let r = prob_sub(&one, &lte);
        proof {
            let ghost s = pmf_view(self.distribution@);
            lemma_upto_idx(s, value as int);
            assert(spmf_dens(s.take(upto_idx(s, value as int)))) by {
                assert(forall|m: int|
                    0 <= m < upto_idx(s, value as int) ==> #[trigger] s.take(upto_idx(s,
                        value as int))[m] == s[m]);
            }
            lemma_smass_wf(s.take(upto_idx(s, value as int)));
            lemma_sub_cong(one@, rat_one(), lte@, spec_prob_lte(s, value as int));
            lemma_sub_wf(one@, lte@);
            lemma_eqv_trans(r@, rat_sub(one@, lte@), rat_sub(rat_one(), spec_prob_lte(s,
                value as int)));
        }
        r
    }
}


impl Dice {
    /// returns `prob_lt`, `prob_lte`, `prob`, `prob_gte` and `prob_gt`
    /// in the `ProbAll` struct, computed from only the `prob_gt` and
    /// `prob` scans plus exact arithmetic
    pub fn prob_all(&self, value: Value) -> (r: ProbAll)
        requires
            self.wf(),
        ensures
            r.lt.wf() && rat_eqv(r.lt@, spec_prob_lt(pmf_view(self.distribution@), value as int)),
            r.lte.wf() && rat_eqv(r.lte@, spec_prob_lte(pmf_view(self.distribution@),
                value as int)),
            r.eq.wf() && rat_eqv(r.eq@, sval(pmf_view(self.distribution@), value as int)),
            r.gte.wf() && rat_eqv(r.gte@, rat_sub(rat_one(), spec_prob_lt(
                pmf_view(self.distribution@), value as int))),
            r.gt.wf() && rat_eqv(r.gt@, rat_sub(rat_one(), spec_prob_lte(
                pmf_view(self.distribution@), value as int))),
    {
        let ghost s = pmf_view(self.distribution@);
        let gt = self.prob_gt(value);
        let eq = self.prob(value);
        let one = Prob::one();
        let gte = prob_add(&eq, &gt);
        let lte = prob_sub(&one, &gt);
        let lt = prob_sub(&lte, &eq);
        proof {
            let slt = spec_prob_lt(s, value as int);
            let slte = spec_prob_lte(s, value as int);
            let sv = sval(s, value as int);
            lemma_upto_idx(s, value as int);
            lemma_upto_idx_strict(s, value as int);
            assert(spmf_dens(s.take(upto_idx(s, value as int)))) by {
                assert(forall|m: int|
                    0 <= m < upto_idx(s, value as int) ==> #[trigger] s.take(upto_idx(s,
                        value as int))[m] == s[m]);
            }
            assert(spmf_dens(s.take(upto_idx_strict(s, value as int)))) by {
                assert(forall|m: int|
                    0 <= m < upto_idx_strict(s, value as int) ==> #[trigger] s.take(
                        upto_idx_strict(s, value as int))[m] == s[m]);
            }
            lemma_smass_wf(s.take(upto_idx(s, value as int)));
            lemma_smass_wf(s.take(upto_idx_strict(s, value as int)));
            assert(rat_wf(sv)) by {
                lemma_sval_wf_help(s, value as int);
            }
            lemma_upto_split(s, value as int);
            // gte = eq + gt ~ sv + (1 - slte) ~ sv + (1 - (slt + sv)) ~ 1 - slt
            lemma_sub_wf(rat_one(), slte);
            lemma_add_cong(eq@, sv, gt@, rat_sub(rat_one(), slte));
            lemma_add_wf_pos(eq@, gt@);
            lemma_add_wf_pos(sv, rat_sub(rat_one(), slte));
            lemma_eqv_trans(gte@, rat_add(eq@, gt@), rat_add(sv, rat_sub(rat_one(), slte)));
            // rat_add(sv, 1 - slte) ~ rat_add(sv, 1 - (slt + sv)) ~ 1 - slt
            lemma_add_wf_pos(slt, sv);
            lemma_sub_cong(rat_one(), rat_one(), slte, rat_add(slt, sv));
            lemma_add_cong(sv, sv, rat_sub(rat_one(), slte), rat_sub(rat_one(), rat_add(slt,
                sv)));
            lemma_sub_wf(rat_one(), rat_add(slt, sv));
            lemma_add_wf_pos(sv, rat_sub(rat_one(), rat_add(slt, sv)));
            lemma_eqv_trans(gte@, rat_add(sv, rat_sub(rat_one(), slte)), rat_add(sv,
                rat_sub(rat_one(), rat_add(slt, sv))));
            lemma_complement_shift(slt, sv);
            lemma_sub_wf(rat_one(), slt);
            lemma_eqv_trans(gte@, rat_add(sv, rat_sub(rat_one(), rat_add(slt, sv))),
                rat_sub(rat_one(), slt));
            // lte = 1 - gt ~ 1 - (1 - slte) ~ slte
            lemma_sub_cong(one@, rat_one(), gt@, rat_sub(rat_one(), slte));
            lemma_sub_wf(one@, gt@);
            lemma_sub_wf(rat_one(), rat_sub(rat_one(), slte));
            lemma_eqv_trans(lte@, rat_sub(one@, gt@), rat_sub(rat_one(), rat_sub(rat_one(),
                slte)));
            assert(rat_sub(rat_one(), rat_sub(rat_one(), slte)) == Rat {
                n: 1 * (1 * slte.d) - (1 * slte.d - slte.n * 1) * 1,
                d: 1 * (1 * slte.d),
            });
            assert(rat_eqv(rat_sub(rat_one(), rat_sub(rat_one(), slte)), slte));
            lemma_eqv_trans(lte@, rat_sub(rat_one(), rat_sub(rat_one(), slte)), slte);
            // lt = lte - eq ~ (slt + sv) - sv ~ slt
            lemma_eqv_trans(lte@, slte, rat_add(slt, sv));
            lemma_sub_cong(lte@, rat_add(slt, sv), eq@, sv);
            lemma_sub_wf(lte@, eq@);
            lemma_sub_wf(rat_add(slt, sv), sv);
            lemma_eqv_trans(lt@, rat_sub(lte@, eq@), rat_sub(rat_add(slt, sv), sv));
            lemma_add_sub_cancel(slt, sv);
            lemma_eqv_trans(lt@, rat_sub(rat_add(slt, sv), sv), slt);
        }
        ProbAll { lt, lte, eq, gte, gt }
    }

    /// Rolls this `Dice` with the given uniform draw from `[0,1)`: the
    /// outcome at the first position whose cumulative probability
    /// reaches the draw is returned.  The draw itself is injected by the
    /// host, which owns the platform's source of randomness.
    pub fn roll_with(&self, draw: &Prob) -> (v: Value)
        requires
            self.wf(),
            draw.wf(),
            rat_le(rat_zero(), draw@),
            rat_lt(draw@, rat_one()),
        ensures
            exists|i: int|
                0 <= i < self.distribution@.len() && v == (#[trigger] self.distribution@[i]).0
                    && rat_le(draw@, self.cumulative_distribution@[i].1@) && (forall|j: int|
                    0 <= j < i ==> rat_lt((#[trigger] self.cumulative_distribution@[j]).1@,
                        draw@)),
            supp_has(self.distribution@, v),
    {
        let ghost s = pmf_view(self.distribution@);
        let mut i: usize = 0;
        while i < self.cumulative_distribution.len()
            invariant
                0 <= i <= self.distribution@.len(),
                self.wf(),
                s == pmf_view(self.distribution@),
                draw.wf(),
                rat_lt(draw@, rat_one()),
                forall|j: int|
                    0 <= j < i ==> rat_lt((#[trigger] self.cumulative_distribution@[j]).1@,
                        draw@),
            decreases self.distribution@.len() - i,
        {
            proof {
                assert(rat_wf(self.cumulative_distribution@[i as int].1@));
            }
            if prob_ge(&self.cumulative_distribution[i].1, draw) {
                proof {
                    assert(self.cumulative_distribution@[i as int].0 == self.distribution@[i
                        as int].0);
                    assert(supp_has(self.distribution@, self.distribution@[i as int].0));
                }
                return self.cumulative_distribution[i].0;
            }
            i += 1;
        }
        proof {
            let n = self.distribution@.len();
            assert(rat_lt(self.cumulative_distribution@[n - 1].1@, draw@));
            assert(rat_eqv(self.cumulative_distribution@[n - 1].1@, smass(s.take(n as int))));
            assert(s.take(n as int) =~= s);
            lemma_smass_wf(s);
            // the last cumulative probability has value one, which cannot
            // be below a draw that is below one
            lemma_eqv_trans(self.cumulative_distribution@[n - 1].1@, smass(s), rat_one());
            lemma_le_cong(self.cumulative_distribution@[n - 1].1@, rat_one(), draw@, draw@);
            assert(rat_lt(rat_one(), draw@));
            lemma_le_lt_trans(rat_one(), draw@, rat_one());
            assert(false);
        }
        self.distribution[0].0
    }

    /// Rolls this `Dice` once with each of the given uniform draws and
    /// returns the outcomes in order.
    pub fn roll_with_many(&self, draws: &Vec<Prob>) -> (v: Vec<Value>)
        requires
            self.wf(),
            forall|m: int|
                0 <= m < draws@.len() ==> (#[trigger] draws@[m]).wf() && rat_le(rat_zero(),
                    draws@[m]@) && rat_lt(draws@[m]@, rat_one()),
        ensures
            v@.len() == draws@.len(),
            forall|m: int| 0 <= m < draws@.len() ==> supp_has(self.distribution@, #[trigger] v@[m]),
    {
        let mut out: Vec<Value> = Vec::new();
        let mut k: usize = 0;
        while k < draws.len()
            invariant
                0 <= k <= draws@.len(),
                self.wf(),
                forall|m: int|
                    0 <= m < draws@.len() ==> (#[trigger] draws@[m]).wf() && rat_le(rat_zero(),
                        draws@[m]@) && rat_lt(draws@[m]@, rat_one()),
                out@.len() == k,
                forall|m: int| 0 <= m < k ==> supp_has(self.distribution@, #[trigger] out@[m]),
            decreases draws@.len() - k,
        {
            let r = self.roll_with(&draws[k]);
            out.push(r);
            k += 1;
        }
        out
    }
}

/// helper: `sval` of a well-formed distribution is well-formed
proof fn lemma_sval_wf_help(s: Seq<(int, Rat)>, k: int)
    requires
        spmf_dens(s),
    ensures
        rat_wf(sval(s, k)),
    decreases s.len(),
{
    if s.len() > 0 {
        assert(forall|j: int|
            0 <= j < s.drop_first().len() ==> #[trigger] s.drop_first()[j] == s[j + 1]);
        lemma_sval_wf_help(s.drop_first(), k);
    }
}


impl Dice {
    /// uses the `input` to create a `DiceBuilder` and builds the `Dice`
    pub fn build_from_string(input: &str) -> (r: Result<Dice,
        crate::dice_string_parser::DiceBuildingError>)
        requires
            crate::dice_string_parser::parsed_evaluable(input@),
        ensures
            match r {
                Ok(d) => d.wf() && (exists|t: DiceBuilder|
                    #[trigger] crate::dice_string_parser::string_parse_rel(input@, Ok(t))
                        && spmf_equiv(pmf_view(d.distribution@),
                        crate::dice_builder::spec_eval(t))),
                Err(e) => crate::dice_string_parser::string_parse_rel(input@, Err(e)),
            },
    {
        DiceBuilder::build_from_string(input)
    }

    /// uses the `input` to create a `DiceBuilder`; the same as
    /// `DiceBuilder::from_string(input)`
    pub fn builder(input: &str) -> (r: Result<DiceBuilder,
        crate::dice_string_parser::DiceBuildingError>)
        ensures
            crate::dice_string_parser::string_parse_rel(input@, r),
    {
        DiceBuilder::from_string(input)
    }
}


/// Normalization: a built distribution's probabilities sum to exactly
/// one, and the final entry of its cumulative distribution is exactly
/// one.
pub proof fn lemma_dice_normalization(d: Dice)
    requires
        d.wf(),
    ensures
        rat_eqv(smass(pmf_view(d.distribution@)), rat_one()),
        rat_eqv(d.cumulative_distribution@.last().1@, rat_one()),
{
    let s = pmf_view(d.distribution@);
    let n = d.distribution@.len();
    assert(rat_eqv(d.cumulative_distribution@[n - 1].1@, smass(s.take(n as int))));
    assert(s.take(n as int) =~= s);
    lemma_smass_wf(s);
    lemma_eqv_trans(d.cumulative_distribution@[n - 1].1@, smass(s), rat_one());
}

} // verus!
