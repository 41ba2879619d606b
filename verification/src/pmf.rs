//! Probability mass functions at the specification level.
//!
//! A distribution is a sequence of `(outcome, probability)` pairs with
//! strictly ascending outcomes and positive, well-formed probabilities.
//! The executable engine works on `Vec<(i64, Prob)>`; its view here is a
//! `Seq<(int, Rat)>`.  All combining steps reduce to `sput`, ordered
//! insertion that accumulates probability on an existing outcome.

use vstd::prelude::*;

use crate::rat::{lemma_add_assoc, lemma_add_cong, lemma_add_comm, lemma_add_wf_pos,
    lemma_add_zero, lemma_eqv_trans, lemma_mul_comm, lemma_mul_cong, lemma_mul_distr,
    lemma_mul_one, lemma_mul_wf_pos, lemma_pos_cong, rat_add, rat_eqv, rat_mul, rat_one, rat_pos,
    rat_wf, rat_zero, Rat};

verus! {

/// every probability of the sequence is well-formed (nonzero denominator)
pub open spec fn spmf_dens(s: Seq<(int, Rat)>) -> bool {
    forall|i: int| 0 <= i < s.len() ==> rat_wf((#[trigger] s[i]).1)
}

/// every probability of the sequence is strictly positive
pub open spec fn spmf_pos(s: Seq<(int, Rat)>) -> bool {
    forall|i: int| 0 <= i < s.len() ==> rat_pos((#[trigger] s[i]).1)
}

/// outcomes are strictly ascending (hence unique)
pub open spec fn spmf_sorted(s: Seq<(int, Rat)>) -> bool {
    forall|i: int, j: int| 0 <= i < j < s.len() ==> (#[trigger] s[i]).0 < (#[trigger] s[j]).0
}

/// a well-formed distribution sequence
pub open spec fn spmf_wf(s: Seq<(int, Rat)>) -> bool {
    spmf_dens(s) && spmf_pos(s) && spmf_sorted(s)
}

/// some entry carries the outcome `k`
pub open spec fn spmf_has_key(s: Seq<(int, Rat)>, k: int) -> bool {
    exists|i: int| 0 <= i < s.len() && (#[trigger] s[i]).0 == k
}

/// the probability of outcome `k`: the stored value, or zero when absent
pub open spec fn sval(s: Seq<(int, Rat)>, k: int) -> Rat
    decreases s.len(),
{
    if s.len() == 0 {
        rat_zero()
    } else if s[0].0 == k {
        s[0].1
    } else {
        sval(s.drop_first(), k)
    }
}

/// the two sequences list the same outcomes in the same order, with
/// probabilities equal as rational values
pub open spec fn spmf_equiv(a: Seq<(int, Rat)>, b: Seq<(int, Rat)>) -> bool {
    &&& a.len() == b.len()
    &&& forall|i: int|
        0 <= i < a.len() ==> (#[trigger] a[i]).0 == b[i].0 && rat_eqv(a[i].1, b[i].1)
}

/// total probability mass of the sequence
pub open spec fn smass(s: Seq<(int, Rat)>) -> Rat
    decreases s.len(),
{
    if s.len() == 0 {
        rat_zero()
    } else {
        rat_add(smass(s.drop_last()), s.last().1)
    }
}

/// ordered insertion of mass `p` at outcome `o`: an existing entry for `o`
/// accumulates, otherwise a new entry appears at its sorted position
pub open spec fn sput(s: Seq<(int, Rat)>, o: int, p: Rat) -> Seq<(int, Rat)>
    decreases s.len(),
{
    if s.len() == 0 {
        seq![(o, p)]
    } else if o < s[0].0 {
        seq![(o, p)] + s
    } else if o == s[0].0 {
        seq![(s[0].0, rat_add(s[0].1, p))] + s.drop_first()
    } else {
        seq![s[0]] + sput(s.drop_first(), o, p)
    }
}

/// The mass of a well-formed sequence is well-formed.
pub proof fn lemma_smass_wf(s: Seq<(int, Rat)>)
    requires
        spmf_dens(s),
    ensures
        rat_wf(smass(s)),
    decreases s.len(),
{
    if s.len() > 0 {
        assert(spmf_dens(s.drop_last())) by {
            assert(forall|i: int|
                0 <= i < s.drop_last().len() ==> #[trigger] s.drop_last()[i] == s[i]);
        }
        lemma_smass_wf(s.drop_last());
        lemma_add_wf_pos(smass(s.drop_last()), s.last().1);
    }
}

/// Prepending an entry adds its probability to the mass.
pub proof fn lemma_smass_prepend(e: (int, Rat), s: Seq<(int, Rat)>)
    requires
        rat_wf(e.1),
        spmf_dens(s),
    ensures
        rat_eqv(smass(seq![e] + s), rat_add(e.1, smass(s))),
    decreases s.len(),
{
    lemma_smass_wf(s);
    if s.len() == 0 {
        assert(seq![e] + s =~= seq![e]);
        assert((seq![e]).drop_last() =~= Seq::<(int, Rat)>::empty());
        assert(smass(Seq::<(int, Rat)>::empty()) == rat_zero());
        assert(smass(seq![e]) == rat_add(rat_zero(), e.1));
        lemma_add_zero(e.1);
        lemma_add_comm(e.1, rat_zero());
        assert(rat_add(e.1, smass(s)) == rat_add(e.1, rat_zero()));
        assert(rat_add(e.1, rat_zero()) == e.1);
    } else {
        let t = seq![e] + s;
        assert(t.len() == s.len() + 1);
        assert(t.drop_last() =~= seq![e] + s.drop_last());
        assert(t.last() == s.last());
        assert(spmf_dens(s.drop_last())) by {
            assert(forall|i: int|
                0 <= i < s.drop_last().len() ==> #[trigger] s.drop_last()[i] == s[i]);
        }
        lemma_smass_prepend(e, s.drop_last());
        lemma_smass_wf(s.drop_last());
        // smass(t) == rat_add(smass(seq![e] + s.drop_last()), s.last().1)
        //          ~  rat_add(rat_add(e.1, smass(s.drop_last())), s.last().1)
        lemma_add_cong(smass(seq![e] + s.drop_last()), rat_add(e.1, smass(s.drop_last())),
            s.last().1, s.last().1);
        // ~ rat_add(e.1, rat_add(smass(s.drop_last()), s.last().1)) == rat_add(e.1, smass(s))
        lemma_add_assoc(e.1, smass(s.drop_last()), s.last().1);
        lemma_add_wf_pos(e.1, smass(s.drop_last()));
        lemma_add_wf_pos(rat_add(e.1, smass(s.drop_last())), s.last().1);
        lemma_eqv_trans(smass(t), rat_add(rat_add(e.1, smass(s.drop_last())), s.last().1),
            rat_add(e.1, smass(s)));
    }
}

/// `sput` keeps the sequence well-formed, adds at most one entry, and
/// changes exactly the probability at `o`.
pub proof fn lemma_sput_wf(s: Seq<(int, Rat)>, o: int, p: Rat)
    requires
        spmf_wf(s),
        rat_wf(p),
        rat_pos(p),
    ensures
        spmf_wf(sput(s, o, p)),
        s.len() <= sput(s, o, p).len() <= s.len() + 1,
        forall|k: int| #[trigger]
            spmf_has_key(sput(s, o, p), k) <==> (spmf_has_key(s, k) || k == o),
        sval(sput(s, o, p), o) == if spmf_has_key(s, o) {
            rat_add(sval(s, o), p)
        } else {
            p
        },
        forall|k: int| k != o ==> #[trigger] sval(sput(s, o, p), k) == sval(s, k),
    decreases s.len(),
{
    let r = sput(s, o, p);
    if s.len() == 0 {
        assert forall|k: int| #[trigger]
            spmf_has_key(r, k) <==> (spmf_has_key(s, k) || k == o) by {
            if spmf_has_key(r, k) {
                let i = choose|i: int| 0 <= i < r.len() && (#[trigger] r[i]).0 == k;
                assert(i == 0);
            }
            if k == o {
                assert(r[0].0 == k);
            }
        }
        assert(r.drop_first() =~= Seq::<(int, Rat)>::empty());
        assert forall|k: int| k != o implies #[trigger] sval(r, k) == sval(s, k) by {
            assert(sval(r.drop_first(), k) == rat_zero());
        }
    } else if o < s[0].0 {
        assert(r =~= seq![(o, p)] + s);
        assert forall|k: int| #[trigger]
            spmf_has_key(r, k) <==> (spmf_has_key(s, k) || k == o) by {
            if spmf_has_key(r, k) {
                let i = choose|i: int| 0 <= i < r.len() && (#[trigger] r[i]).0 == k;
                if i > 0 {
                    assert(s[i - 1].0 == k);
                }
            }
            if spmf_has_key(s, k) {
                let i = choose|i: int| 0 <= i < s.len() && (#[trigger] s[i]).0 == k;
                assert(r[i + 1].0 == k);
            }
            if k == o {
                assert(r[0].0 == k);
            }
        }
        assert(r.drop_first() =~= s);
        assert(!spmf_has_key(s, o)) by {
            if spmf_has_key(s, o) {
                let i = choose|i: int| 0 <= i < s.len() && (#[trigger] s[i]).0 == o;
                if i > 0 {
                    assert(s[0].0 < s[i].0);
                }
            }
        }
        assert forall|k: int| k != o implies #[trigger] sval(r, k) == sval(s, k) by {}
    } else if o == s[0].0 {
        assert(r.drop_first() =~= s.drop_first());
        assert(spmf_wf(s.drop_first())) by {
            assert(forall|i: int|
                0 <= i < s.drop_first().len() ==> #[trigger] s.drop_first()[i] == s[i + 1]);
        }
        assert(spmf_has_key(s, o)) by {
            assert(s[0].0 == o);
        }
        lemma_add_wf_pos(s[0].1, p);
        assert forall|k: int| #[trigger]
            spmf_has_key(r, k) <==> (spmf_has_key(s, k) || k == o) by {
            if spmf_has_key(r, k) {
                let i = choose|i: int| 0 <= i < r.len() && (#[trigger] r[i]).0 == k;
                assert(s[i].0 == k);
            }
            if spmf_has_key(s, k) {
                let i = choose|i: int| 0 <= i < s.len() && (#[trigger] s[i]).0 == k;
                assert(r[i].0 == k);
            }
        }
        assert forall|k: int| k != o implies #[trigger] sval(r, k) == sval(s, k) by {
            assert(r.drop_first() == s.drop_first());
        }
    } else {
        let t = sput(s.drop_first(), o, p);
        assert(spmf_wf(s.drop_first())) by {
            assert(forall|i: int|
                0 <= i < s.drop_first().len() ==> #[trigger] s.drop_first()[i] == s[i + 1]);
        }
        lemma_sput_wf(s.drop_first(), o, p);
        assert(r =~= seq![s[0]] + t);
        // sortedness: s[0].0 is below o and below every key of s.drop_first(),
        // and every key of t is a key of s.drop_first() or o itself
        assert forall|i: int, j: int| 0 <= i < j < r.len() implies (#[trigger] r[i]).0 < (
        #[trigger] r[j]).0 by {
            if i == 0 {
                assert(r[j] == t[j - 1]);
                assert(spmf_has_key(t, t[j - 1].0)) by {
                    assert(t[j - 1].0 == t[j - 1].0);
                }
                if spmf_has_key(s.drop_first(), t[j - 1].0) {
                    let m = choose|m: int|
                        0 <= m < s.drop_first().len() && (#[trigger] s.drop_first()[m]).0 == t[j
                            - 1].0;
                    assert(s.drop_first()[m] == s[m + 1]);
                    assert(s[0].0 < s[m + 1].0);
                }
            } else {
                assert(r[i] == t[i - 1] && r[j] == t[j - 1]);
            }
        }
        assert forall|k: int| #[trigger]
            spmf_has_key(r, k) <==> (spmf_has_key(s, k) || k == o) by {
            if spmf_has_key(r, k) {
                let i = choose|i: int| 0 <= i < r.len() && (#[trigger] r[i]).0 == k;
                if i == 0 {
                    assert(s[0].0 == k);
                } else {
                    assert(t[i - 1].0 == k);
                    assert(spmf_has_key(t, k));
                    if spmf_has_key(s.drop_first(), k) {
                        let m = choose|m: int|
                            0 <= m < s.drop_first().len() && (#[trigger] s.drop_first()[m]).0 == k;
                        assert(s[m + 1].0 == k);
                    }
                }
            }
            if spmf_has_key(s, k) {
                let i = choose|i: int| 0 <= i < s.len() && (#[trigger] s[i]).0 == k;
                if i == 0 {
                    assert(r[0].0 == k);
                } else {
                    assert(s.drop_first()[i - 1].0 == k);
                    assert(spmf_has_key(t, k));
                    let m = choose|m: int| 0 <= m < t.len() && (#[trigger] t[m]).0 == k;
                    assert(r[m + 1].0 == k);
                }
            }
            if k == o {
                assert(spmf_has_key(t, o));
                let m = choose|m: int| 0 <= m < t.len() && (#[trigger] t[m]).0 == o;
                assert(r[m + 1].0 == k);
            }
        }
        assert(spmf_has_key(s, o) <==> spmf_has_key(s.drop_first(), o)) by {
            if spmf_has_key(s, o) {
                let i = choose|i: int| 0 <= i < s.len() && (#[trigger] s[i]).0 == o;
                assert(i > 0);
                assert(s.drop_first()[i - 1].0 == o);
            }
            if spmf_has_key(s.drop_first(), o) {
                let m = choose|m: int|
                    0 <= m < s.drop_first().len() && (#[trigger] s.drop_first()[m]).0 == o;
                assert(s[m + 1].0 == o);
            }
        }
        assert(r.drop_first() =~= t);
        assert(sval(r, o) == sval(t, o));
        assert(sval(s, o) == sval(s.drop_first(), o));
        assert forall|k: int| k != o implies #[trigger] sval(r, k) == sval(s, k) by {
            assert(r.drop_first() =~= t);
            if k != s[0].0 {
                assert(sval(r, k) == sval(t, k));
                assert(sval(t, k) == sval(s.drop_first(), k));
            }
        }
    }
}

/// `sput` adds exactly `p` to the total mass.
pub proof fn lemma_sput_mass(s: Seq<(int, Rat)>, o: int, p: Rat)
    requires
        spmf_dens(s),
        rat_wf(p),
    ensures
        rat_eqv(smass(sput(s, o, p)), rat_add(smass(s), p)),
    decreases s.len(),
{
    let r = sput(s, o, p);
    lemma_smass_wf(s);
    if s.len() == 0 {
        assert(r =~= seq![(o, p)]);
        assert(r.drop_last() =~= Seq::<(int, Rat)>::empty());
        assert(smass(Seq::<(int, Rat)>::empty()) == rat_zero());
        assert(smass(r) == rat_add(rat_zero(), p));
        lemma_add_zero(p);
        assert(smass(s) == rat_zero());
    } else if o < s[0].0 {
        lemma_smass_prepend((o, p), s);
        // smass(r) ~ p + smass(s) ~ smass(s) + p
        lemma_add_comm(p, smass(s));
        lemma_add_wf_pos(p, smass(s));
        lemma_eqv_trans(smass(r), rat_add(p, smass(s)), rat_add(smass(s), p));
    } else if o == s[0].0 {
        let e = (s[0].0, rat_add(s[0].1, p));
        assert(r == seq![e] + s.drop_first());
        assert(spmf_dens(s.drop_first())) by {
            assert(forall|i: int|
                0 <= i < s.drop_first().len() ==> #[trigger] s.drop_first()[i] == s[i + 1]);
        }
        lemma_add_wf_pos(s[0].1, p);
        lemma_smass_prepend(e, s.drop_first());
        lemma_smass_wf(s.drop_first());
        // smass(r) ~ (s0 + p) + rest ~ (s0 + rest) + p ~ smass(s) + p
        lemma_add_assoc(s[0].1, p, smass(s.drop_first()));
        lemma_add_wf_pos(rat_add(s[0].1, p), smass(s.drop_first()));
        lemma_eqv_trans(smass(r), rat_add(rat_add(s[0].1, p), smass(s.drop_first())),
            rat_add(s[0].1, rat_add(p, smass(s.drop_first()))));
        lemma_add_comm(p, smass(s.drop_first()));
        lemma_add_cong(s[0].1, s[0].1, rat_add(p, smass(s.drop_first())),
            rat_add(smass(s.drop_first()), p));
        lemma_add_wf_pos(p, smass(s.drop_first()));
        lemma_add_wf_pos(s[0].1, rat_add(p, smass(s.drop_first())));
        lemma_eqv_trans(smass(r), rat_add(s[0].1, rat_add(p, smass(s.drop_first()))),
            rat_add(s[0].1, rat_add(smass(s.drop_first()), p)));
        lemma_add_assoc(s[0].1, smass(s.drop_first()), p);
        lemma_eqv_symm_help(rat_add(rat_add(s[0].1, smass(s.drop_first())), p),
            rat_add(s[0].1, rat_add(smass(s.drop_first()), p)));
        lemma_add_wf_pos(smass(s.drop_first()), p);
        lemma_add_wf_pos(s[0].1, rat_add(smass(s.drop_first()), p));
        lemma_eqv_trans(smass(r), rat_add(s[0].1, rat_add(smass(s.drop_first()), p)),
            rat_add(rat_add(s[0].1, smass(s.drop_first())), p));
        // rat_add(s[0].1, smass(s.drop_first())) ~ smass(s)
        lemma_smass_prepend(s[0], s.drop_first());
        assert(seq![s[0]] + s.drop_first() =~= s);
        lemma_add_comm(s[0].1, smass(s.drop_first()));
        lemma_add_wf_pos(s[0].1, smass(s.drop_first()));
        lemma_eqv_symm_help(smass(s), rat_add(s[0].1, smass(s.drop_first())));
        lemma_add_cong(rat_add(s[0].1, smass(s.drop_first())), smass(s), p, p);
        lemma_add_wf_pos(rat_add(s[0].1, smass(s.drop_first())), p);
        lemma_eqv_trans(smass(r), rat_add(rat_add(s[0].1, smass(s.drop_first())), p),
            rat_add(smass(s), p));
    } else {
        let t = sput(s.drop_first(), o, p);
        assert(spmf_dens(s.drop_first())) by {
            assert(forall|i: int|
                0 <= i < s.drop_first().len() ==> #[trigger] s.drop_first()[i] == s[i + 1]);
        }
        lemma_sput_mass(s.drop_first(), o, p);
        lemma_sput_dens(s.drop_first(), o, p);
        lemma_smass_wf(s.drop_first());
        lemma_smass_wf(t);
        assert(r == seq![s[0]] + t);
        lemma_smass_prepend(s[0], t);
        // smass(r) ~ s0 + smass(t) ~ s0 + (smass(rest) + p) ~ (s0 + smass(rest)) + p ~ smass(s) + p
        lemma_add_cong(s[0].1, s[0].1, smass(t), rat_add(smass(s.drop_first()), p));
        lemma_add_wf_pos(s[0].1, smass(t));
        lemma_add_wf_pos(smass(s.drop_first()), p);
        lemma_add_wf_pos(s[0].1, rat_add(smass(s.drop_first()), p));
        lemma_eqv_trans(smass(r), rat_add(s[0].1, smass(t)),
            rat_add(s[0].1, rat_add(smass(s.drop_first()), p)));
        lemma_add_assoc(s[0].1, smass(s.drop_first()), p);
        lemma_eqv_symm_help(rat_add(rat_add(s[0].1, smass(s.drop_first())), p),
            rat_add(s[0].1, rat_add(smass(s.drop_first()), p)));
        lemma_eqv_trans(smass(r), rat_add(s[0].1, rat_add(smass(s.drop_first()), p)),
            rat_add(rat_add(s[0].1, smass(s.drop_first())), p));
        lemma_smass_prepend(s[0], s.drop_first());
        assert(seq![s[0]] + s.drop_first() =~= s);
        lemma_add_comm(s[0].1, smass(s.drop_first()));
        lemma_add_wf_pos(s[0].1, smass(s.drop_first()));
        lemma_eqv_symm_help(smass(s), rat_add(s[0].1, smass(s.drop_first())));
        lemma_add_cong(rat_add(s[0].1, smass(s.drop_first())), smass(s), p, p);
        lemma_add_wf_pos(rat_add(s[0].1, smass(s.drop_first())), p);
        lemma_eqv_trans(smass(r), rat_add(rat_add(s[0].1, smass(s.drop_first())), p),
            rat_add(smass(s), p));
    }
}

/// `sput` keeps every probability well-formed.
pub proof fn lemma_sput_dens(s: Seq<(int, Rat)>, o: int, p: Rat)
    requires
        spmf_dens(s),
        rat_wf(p),
    ensures
        spmf_dens(sput(s, o, p)),
    decreases s.len(),
{
    if s.len() == 0 {
    } else if o < s[0].0 {
    } else if o == s[0].0 {
        lemma_add_wf_pos(s[0].1, p);
    } else {
        assert(spmf_dens(s.drop_first())) by {
            assert(forall|i: int|
                0 <= i < s.drop_first().len() ==> #[trigger] s.drop_first()[i] == s[i + 1]);
        }
        lemma_sput_dens(s.drop_first(), o, p);
        assert(forall|i: int|
            0 <= i < sput(s, o, p).len() ==> rat_wf((#[trigger] sput(s, o, p)[i]).1));
    }
}

/// a convenience restatement of symmetry used by the mass proofs
proof fn lemma_eqv_symm_help(a: Rat, b: Rat)
    requires
        rat_eqv(a, b),
    ensures
        rat_eqv(b, a),
{
}

/// `sput` respects value equivalence of its arguments.
pub proof fn lemma_sput_cong(a: Seq<(int, Rat)>, b: Seq<(int, Rat)>, o: int, p: Rat, q: Rat)
    requires
        spmf_equiv(a, b),
        rat_eqv(p, q),
    ensures
        spmf_equiv(sput(a, o, p), sput(b, o, q)),
    decreases a.len(),
{
    if a.len() == 0 {
    } else if o < a[0].0 {
    } else if o == a[0].0 {
        lemma_add_cong(a[0].1, b[0].1, p, q);
        assert(forall|i: int|
            0 <= i < a.drop_first().len() ==> #[trigger] a.drop_first()[i] == a[i + 1]
                && b.drop_first()[i] == b[i + 1]);
    } else {
        assert(spmf_equiv(a.drop_first(), b.drop_first())) by {
            assert(forall|i: int|
                0 <= i < a.drop_first().len() ==> #[trigger] a.drop_first()[i] == a[i + 1]
                    && b.drop_first()[i] == b[i + 1]);
        }
        lemma_sput_cong(a.drop_first(), b.drop_first(), o, p, q);
        assert(spmf_equiv(sput(a, o, p), sput(b, o, q))) by {
            assert(sput(a, o, p) == seq![a[0]] + sput(a.drop_first(), o, p));
            assert(sput(b, o, q) == seq![b[0]] + sput(b.drop_first(), o, q));
            assert(forall|i: int|
                1 <= i < sput(a, o, p).len() ==> #[trigger] sput(a, o, p)[i] == sput(
                    a.drop_first(), o, p)[i - 1] && sput(b, o, q)[i] == sput(b.drop_first(), o, q)[i
                    - 1]);
        }
    }
}

/// Inserting an outcome above every stored outcome appends the entry.
pub proof fn lemma_sput_append(s: Seq<(int, Rat)>, o: int, p: Rat)
    requires
        forall|i: int| 0 <= i < s.len() ==> (#[trigger] s[i]).0 < o,
    ensures
        sput(s, o, p) == s.push((o, p)),
    decreases s.len(),
{
    if s.len() == 0 {
        assert(sput(s, o, p) =~= s.push((o, p)));
    } else {
        lemma_sput_append(s.drop_first(), o, p);
        assert(forall|i: int|
            0 <= i < s.drop_first().len() ==> #[trigger] s.drop_first()[i] == s[i + 1]);
        assert(sput(s, o, p) == seq![s[0]] + s.drop_first().push((o, p)));
        assert(seq![s[0]] + s.drop_first().push((o, p)) =~= s.push((o, p)));
    }
}


/// Dropping the last entry keeps a sequence well-formed.
pub proof fn lemma_wf_drop_last(s: Seq<(int, Rat)>)
    requires
        s.len() > 0,
    ensures
        spmf_dens(s) ==> spmf_dens(s.drop_last()),
        spmf_pos(s) ==> spmf_pos(s.drop_last()),
        spmf_sorted(s) ==> spmf_sorted(s.drop_last()),
        spmf_wf(s) ==> spmf_wf(s.drop_last()),
{
    assert(forall|i: int| 0 <= i < s.drop_last().len() ==> #[trigger] s.drop_last()[i] == s[i]);
}

/// Two equivalent sequences are equivalent to a common third.
pub proof fn lemma_equiv_trans(a: Seq<(int, Rat)>, b: Seq<(int, Rat)>, c: Seq<(int, Rat)>)
    requires
        spmf_dens(b),
        spmf_equiv(a, b),
        spmf_equiv(b, c),
    ensures
        spmf_equiv(a, c),
{
    assert forall|i: int| 0 <= i < a.len() implies (#[trigger] a[i]).0 == c[i].0 && rat_eqv(
        a[i].1, c[i].1) by {
        lemma_eqv_trans(a[i].1, b[i].1, c[i].1);
    }
}

/// Equivalence preserves well-formedness, given well-formed denominators.
pub proof fn lemma_wf_equiv(a: Seq<(int, Rat)>, b: Seq<(int, Rat)>)
    requires
        spmf_wf(a),
        spmf_dens(b),
        spmf_equiv(a, b),
    ensures
        spmf_wf(b),
{
    assert forall|i: int| 0 <= i < b.len() implies rat_pos((#[trigger] b[i]).1) by {
        lemma_pos_cong(a[i].1, b[i].1);
    }
    assert forall|i: int, j: int| 0 <= i < j < b.len() implies (#[trigger] b[i]).0 < (
    #[trigger] b[j]).0 by {
        assert(a[i].0 == b[i].0);
        assert(a[j].0 == b[j].0);
        assert(a[i].0 < a[j].0);
    }
}

/// Equivalent sequences have equivalent mass.
pub proof fn lemma_mass_equiv(a: Seq<(int, Rat)>, b: Seq<(int, Rat)>)
    requires
        spmf_dens(a),
        spmf_dens(b),
        spmf_equiv(a, b),
    ensures
        rat_eqv(smass(a), smass(b)),
    decreases a.len(),
{
    if a.len() == 0 {
    } else {
        lemma_wf_drop_last(a);
        lemma_wf_drop_last(b);
        assert(spmf_equiv(a.drop_last(), b.drop_last())) by {
            assert(forall|i: int|
                0 <= i < a.drop_last().len() ==> #[trigger] a.drop_last()[i] == a[i]
                    && b.drop_last()[i] == b[i]);
        }
        lemma_mass_equiv(a.drop_last(), b.drop_last());
        assert(rat_eqv(a.last().1, b.last().1));
        lemma_add_cong(smass(a.drop_last()), smass(b.drop_last()), a.last().1, b.last().1);
    }
}

/// the binary outcome-combining operator of an n-ary combinator
#[derive(Clone, Copy, Debug, PartialEq, Eq, Structural)]
pub enum OpKind {
    /// integer addition
    Add,
    /// integer multiplication
    Mul,
    /// round-half-away-from-zero integer division
    Div,
    /// the greater operand
    Max,
    /// the smaller operand
    Min,
}

/// absolute value of an unbounded integer
pub open spec fn iabs(a: int) -> int {
    if a < 0 {
        -a
    } else {
        a
    }
}

/// Integer division rounded to the nearest integer, halves away from zero;
/// zero when the divisor is zero (executable code never divides by zero).
pub open spec fn spec_rounded_div(a: int, b: int) -> int {
    if b == 0 {
        0
    } else {
        let q = (iabs(a) + iabs(b) / 2) / iabs(b);
        if (a < 0) != (b < 0) {
            -q
        } else {
            q
        }
    }
}

/// the outcome produced by an operator on a pair of operand outcomes
pub open spec fn op_apply(op: OpKind, a: int, b: int) -> int {
    match op {
        OpKind::Add => a + b,
        OpKind::Mul => a * b,
        OpKind::Div => spec_rounded_div(a, b),
        OpKind::Max => if a >= b {
            a
        } else {
            b
        },
        OpKind::Min => if a <= b {
            a
        } else {
            b
        },
    }
}

/// the operator may combine these operand outcomes: the result fits an
/// `i64`, and a division never sees a zero divisor
pub open spec fn op_ok(op: OpKind, a: int, b: int) -> bool {
    &&& i64::MIN <= op_apply(op, a, b) <= i64::MAX
    &&& (op is Div ==> b != 0)
}

/// every operand pair of the two distributions may be combined
pub open spec fn conv_ok(a: Seq<(int, Rat)>, b: Seq<(int, Rat)>, op: OpKind) -> bool {
    forall|i: int, j: int|
        0 <= i < a.len() && 0 <= j < b.len() ==> op_ok(op, (#[trigger] a[i]).0, (
        #[trigger] b[j]).0)
}

/// one row of pairwise convolution: every pairing of the single entry `a`
/// with an entry of `b`, accumulated onto `acc` in order
pub open spec fn sconv_row(acc: Seq<(int, Rat)>, a: (int, Rat), b: Seq<(int, Rat)>, op: OpKind) -> Seq<
    (int, Rat),
>
    decreases b.len(),
{
    if b.len() == 0 {
        acc
    } else {
        sput(sconv_row(acc, a, b.drop_last(), op), op_apply(op, a.0, b.last().0),
            rat_mul(a.1, b.last().1))
    }
}

/// pairwise convolution of `a` and `b` under `op`, accumulated onto `acc`:
/// rows in the order of `a`, pairings in the order of `b`
pub open spec fn sconv_from(acc: Seq<(int, Rat)>, a: Seq<(int, Rat)>, b: Seq<(int, Rat)>, op: OpKind) -> Seq<
    (int, Rat),
>
    decreases a.len(),
{
    if a.len() == 0 {
        acc
    } else {
        sconv_row(sconv_from(acc, a.drop_last(), b, op), a.last(), b, op)
    }
}

/// pairwise convolution: for every operand pair, the product of the two
/// probabilities accumulates on the combined outcome
pub open spec fn sconv(a: Seq<(int, Rat)>, b: Seq<(int, Rat)>, op: OpKind) -> Seq<(int, Rat)> {
    sconv_from(Seq::<(int, Rat)>::empty(), a, b, op)
}

/// A convolution row keeps the accumulator well-formed.
pub proof fn lemma_row_wf(acc: Seq<(int, Rat)>, a: (int, Rat), b: Seq<(int, Rat)>, op: OpKind)
    requires
        spmf_wf(acc),
        rat_wf(a.1),
        rat_pos(a.1),
        spmf_dens(b),
        spmf_pos(b),
    ensures
        spmf_wf(sconv_row(acc, a, b, op)),
        sconv_row(acc, a, b, op).len() >= acc.len(),
        b.len() > 0 ==> sconv_row(acc, a, b, op).len() >= 1,
    decreases b.len(),
{
    if b.len() > 0 {
        lemma_wf_drop_last(b);
        assert(spmf_dens(b.drop_last()) && spmf_pos(b.drop_last()));
        lemma_row_wf(acc, a, b.drop_last(), op);
        lemma_mul_wf_pos(a.1, b.last().1);
        lemma_sput_wf(sconv_row(acc, a, b.drop_last(), op), op_apply(op, a.0, b.last().0),
            rat_mul(a.1, b.last().1));
    }
}

/// A convolution row adds `a.1 * smass(b)` to the accumulated mass.
pub proof fn lemma_row_mass(acc: Seq<(int, Rat)>, a: (int, Rat), b: Seq<(int, Rat)>, op: OpKind)
    requires
        spmf_dens(acc),
        rat_wf(a.1),
        spmf_dens(b),
    ensures
        rat_eqv(smass(sconv_row(acc, a, b, op)), rat_add(smass(acc), rat_mul(a.1, smass(b)))),
    decreases b.len(),
{
    lemma_smass_wf(acc);
    lemma_smass_wf(b);
    if b.len() == 0 {
        lemma_mul_wf_pos(a.1, smass(b));
        assert(rat_mul(a.1, rat_zero()).n == a.1.n * 0);
        assert(a.1.n * 0 == 0) by (nonlinear_arith);
        // acc + a.1 * 0 has the same value as acc
        assert(rat_eqv(smass(acc), rat_add(smass(acc), rat_mul(a.1, smass(b))))) by {
            let m = smass(acc);
            let z = rat_mul(a.1, rat_zero());
            assert(rat_add(m, z) == Rat { n: m.n * z.d + z.n * m.d, d: m.d * z.d });
            assert(z.n == 0);
            assert(z.n * m.d == 0) by (nonlinear_arith)
                requires
                    z.n == 0,
            {
            }
            assert(m.n * (m.d * z.d) == (m.n * z.d + 0) * m.d) by (nonlinear_arith);
        }
    } else {
        let prev = sconv_row(acc, a, b.drop_last(), op);
        let o = op_apply(op, a.0, b.last().0);
        let p = rat_mul(a.1, b.last().1);
        lemma_wf_drop_last(b);
        lemma_row_mass(acc, a, b.drop_last(), op);
        lemma_row_dens(acc, a, b.drop_last(), op);
        lemma_mul_wf_pos(a.1, b.last().1);
        lemma_sput_mass(prev, o, p);
        lemma_smass_wf(prev);
        lemma_smass_wf(b.drop_last());
        // smass(sput(prev, o, p)) ~ smass(prev) + p
        //                         ~ (smass(acc) + a.1 * smass(b.drop_last())) + a.1 * b.last().1
        lemma_mul_wf_pos(a.1, smass(b.drop_last()));
        lemma_add_wf_pos(smass(acc), rat_mul(a.1, smass(b.drop_last())));
        lemma_add_cong(smass(prev), rat_add(smass(acc), rat_mul(a.1, smass(b.drop_last()))), p, p);
        lemma_add_wf_pos(smass(prev), p);
        lemma_eqv_trans(smass(sput(prev, o, p)), rat_add(smass(prev), p),
            rat_add(rat_add(smass(acc), rat_mul(a.1, smass(b.drop_last()))), p));
        // ~ smass(acc) + (a.1 * smass(b.drop_last()) + a.1 * b.last().1)
        lemma_add_assoc(smass(acc), rat_mul(a.1, smass(b.drop_last())), p);
        lemma_add_wf_pos(rat_add(smass(acc), rat_mul(a.1, smass(b.drop_last()))), p);
        lemma_eqv_trans(smass(sput(prev, o, p)),
            rat_add(rat_add(smass(acc), rat_mul(a.1, smass(b.drop_last()))), p),
            rat_add(smass(acc), rat_add(rat_mul(a.1, smass(b.drop_last())), p)));
        // a.1 * smass(b.drop_last()) + a.1 * b.last().1 ~ a.1 * smass(b)
        lemma_mul_distr(a.1, smass(b.drop_last()), b.last().1);
        assert(rat_eqv(rat_mul(a.1, smass(b)),
            rat_add(rat_mul(a.1, smass(b.drop_last())), rat_mul(a.1, b.last().1)))) by {
            assert(smass(b) == rat_add(smass(b.drop_last()), b.last().1));
        }
        lemma_mul_wf_pos(a.1, smass(b));
        lemma_add_wf_pos(rat_mul(a.1, smass(b.drop_last())), p);
        assert(rat_eqv(rat_add(rat_mul(a.1, smass(b.drop_last())), p), rat_mul(a.1, smass(b))));
        lemma_add_cong(smass(acc), smass(acc), rat_add(rat_mul(a.1, smass(b.drop_last())), p),
            rat_mul(a.1, smass(b)));
        lemma_add_wf_pos(smass(acc), rat_add(rat_mul(a.1, smass(b.drop_last())), p));
        lemma_eqv_trans(smass(sput(prev, o, p)),
            rat_add(smass(acc), rat_add(rat_mul(a.1, smass(b.drop_last())), p)),
            rat_add(smass(acc), rat_mul(a.1, smass(b))));
    }
}

/// A convolution row keeps denominators well-formed.
pub proof fn lemma_row_dens(acc: Seq<(int, Rat)>, a: (int, Rat), b: Seq<(int, Rat)>, op: OpKind)
    requires
        spmf_dens(acc),
        rat_wf(a.1),
        spmf_dens(b),
    ensures
        spmf_dens(sconv_row(acc, a, b, op)),
    decreases b.len(),
{
    if b.len() > 0 {
        lemma_wf_drop_last(b);
        lemma_row_dens(acc, a, b.drop_last(), op);
        lemma_mul_wf_pos(a.1, b.last().1);
        lemma_sput_dens(sconv_row(acc, a, b.drop_last(), op), op_apply(op, a.0, b.last().0),
            rat_mul(a.1, b.last().1));
    }
}

/// The convolution of well-formed distributions is well-formed, and is
/// nonempty when both operands are.
pub proof fn lemma_conv_wf(acc: Seq<(int, Rat)>, a: Seq<(int, Rat)>, b: Seq<(int, Rat)>, op: OpKind)
    requires
        spmf_wf(acc),
        spmf_dens(a),
        spmf_pos(a),
        spmf_dens(b),
        spmf_pos(b),
    ensures
        spmf_wf(sconv_from(acc, a, b, op)),
        sconv_from(acc, a, b, op).len() >= acc.len(),
        a.len() > 0 && b.len() > 0 ==> sconv_from(acc, a, b, op).len() >= 1,
    decreases a.len(),
{
    if a.len() > 0 {
        lemma_wf_drop_last(a);
        lemma_conv_wf(acc, a.drop_last(), b, op);
        lemma_row_wf(sconv_from(acc, a.drop_last(), b, op), a.last(), b, op);
    }
}

/// Convolution multiplies masses: the accumulated result carries
/// `smass(acc) + smass(a) * smass(b)`.
pub proof fn lemma_conv_mass(acc: Seq<(int, Rat)>, a: Seq<(int, Rat)>, b: Seq<(int, Rat)>, op: OpKind)
    requires
        spmf_dens(acc),
        spmf_dens(a),
        spmf_dens(b),
    ensures
        rat_eqv(smass(sconv_from(acc, a, b, op)),
            rat_add(smass(acc), rat_mul(smass(a), smass(b)))),
    decreases a.len(),
{
    lemma_smass_wf(acc);
    lemma_smass_wf(a);
    lemma_smass_wf(b);
    if a.len() == 0 {
        let m = smass(acc);
        let z = rat_mul(rat_zero(), smass(b));
        assert(z.n == 0 * smass(b).n);
        assert(0 * smass(b).n == 0) by (nonlinear_arith);
        assert(z.n * m.d == 0) by (nonlinear_arith)
            requires
                z.n == 0,
        {
        }
        assert(m.n * (m.d * z.d) == (m.n * z.d + 0) * m.d) by (nonlinear_arith);
        assert(rat_eqv(m, rat_add(m, z)));
    } else {
        let prev = sconv_from(acc, a.drop_last(), b, op);
        lemma_wf_drop_last(a);
        lemma_conv_mass(acc, a.drop_last(), b, op);
        lemma_conv_dens(acc, a.drop_last(), b, op);
        lemma_smass_wf(a.drop_last());
        lemma_smass_wf(prev);
        lemma_row_mass(prev, a.last(), b, op);
        // smass(row(prev, a.last)) ~ smass(prev) + a.last * smass(b)
        //  ~ (smass(acc) + smass(a.drop_last()) * smass(b)) + a.last * smass(b)
        let tail_term = rat_mul(a.last().1, smass(b));
        lemma_mul_wf_pos(a.last().1, smass(b));
        lemma_mul_wf_pos(smass(a.drop_last()), smass(b));
        lemma_add_wf_pos(smass(acc), rat_mul(smass(a.drop_last()), smass(b)));
        lemma_add_cong(smass(prev), rat_add(smass(acc), rat_mul(smass(a.drop_last()), smass(b))),
            tail_term, tail_term);
        lemma_add_wf_pos(smass(prev), tail_term);
        lemma_eqv_trans(smass(sconv_row(prev, a.last(), b, op)), rat_add(smass(prev), tail_term),
            rat_add(rat_add(smass(acc), rat_mul(smass(a.drop_last()), smass(b))), tail_term));
        // ~ smass(acc) + (smass(a.drop_last()) * smass(b) + a.last * smass(b))
        lemma_add_assoc(smass(acc), rat_mul(smass(a.drop_last()), smass(b)), tail_term);
        lemma_add_wf_pos(rat_add(smass(acc), rat_mul(smass(a.drop_last()), smass(b))), tail_term);
        lemma_eqv_trans(smass(sconv_row(prev, a.last(), b, op)),
            rat_add(rat_add(smass(acc), rat_mul(smass(a.drop_last()), smass(b))), tail_term),
            rat_add(smass(acc), rat_add(rat_mul(smass(a.drop_last()), smass(b)), tail_term)));
        // smass(a.drop_last()) * smass(b) + a.last * smass(b) ~ smass(a) * smass(b)
        lemma_mul_comm(smass(a.drop_last()), smass(b));
        lemma_mul_comm(a.last().1, smass(b));
        lemma_mul_distr(smass(b), smass(a.drop_last()), a.last().1);
        assert(smass(a) == rat_add(smass(a.drop_last()), a.last().1));
        lemma_mul_comm(smass(b), smass(a));
        // rat_mul(smass(b), smass(a)) ~ rat_add(rat_mul(smass(b), smass(a.drop_last())), rat_mul(smass(b), a.last().1))
        let lhs = rat_add(rat_mul(smass(a.drop_last()), smass(b)), tail_term);
        let rhs = rat_mul(smass(a), smass(b));
        assert(lhs == rat_add(rat_mul(smass(b), smass(a.drop_last())), rat_mul(smass(b),
            a.last().1)));
        assert(rat_eqv(rat_mul(smass(b), smass(a)), lhs));
        assert(rhs == rat_mul(smass(b), smass(a)));
        assert(rat_eqv(rhs, lhs));
        lemma_add_wf_pos(rat_mul(smass(a.drop_last()), smass(b)), tail_term);
        lemma_mul_wf_pos(smass(a), smass(b));
        lemma_add_cong(smass(acc), smass(acc), lhs, rhs);
        lemma_add_wf_pos(smass(acc), lhs);
        lemma_eqv_trans(smass(sconv_row(prev, a.last(), b, op)), rat_add(smass(acc), lhs),
            rat_add(smass(acc), rhs));
    }
}

/// Convolution keeps denominators well-formed.
pub proof fn lemma_conv_dens(acc: Seq<(int, Rat)>, a: Seq<(int, Rat)>, b: Seq<(int, Rat)>, op: OpKind)
    requires
        spmf_dens(acc),
        spmf_dens(a),
        spmf_dens(b),
    ensures
        spmf_dens(sconv_from(acc, a, b, op)),
    decreases a.len(),
{
    if a.len() > 0 {
        lemma_wf_drop_last(a);
        lemma_conv_dens(acc, a.drop_last(), b, op);
        lemma_row_dens(sconv_from(acc, a.drop_last(), b, op), a.last(), b, op);
    }
}


/// merge `x` into `acc`: probabilities on shared outcomes accumulate
pub open spec fn smerge(acc: Seq<(int, Rat)>, x: Seq<(int, Rat)>) -> Seq<(int, Rat)>
    decreases x.len(),
{
    if x.len() == 0 {
        acc
    } else {
        sput(smerge(acc, x.drop_last()), x.last().0, x.last().1)
    }
}

/// Merging keeps the accumulator well-formed.
pub proof fn lemma_merge_wf(acc: Seq<(int, Rat)>, x: Seq<(int, Rat)>)
    requires
        spmf_wf(acc),
        spmf_dens(x),
        spmf_pos(x),
    ensures
        spmf_wf(smerge(acc, x)),
        smerge(acc, x).len() >= acc.len(),
        x.len() > 0 ==> smerge(acc, x).len() >= 1,
    decreases x.len(),
{
    if x.len() > 0 {
        lemma_wf_drop_last(x);
        lemma_merge_wf(acc, x.drop_last());
        lemma_sput_wf(smerge(acc, x.drop_last()), x.last().0, x.last().1);
    }
}

/// Merging adds the merged mass.
pub proof fn lemma_merge_mass(acc: Seq<(int, Rat)>, x: Seq<(int, Rat)>)
    requires
        spmf_dens(acc),
        spmf_dens(x),
    ensures
        rat_eqv(smass(smerge(acc, x)), rat_add(smass(acc), smass(x))),
        spmf_dens(smerge(acc, x)),
    decreases x.len(),
{
    lemma_smass_wf(acc);
    lemma_smass_wf(x);
    if x.len() == 0 {
        let m = smass(acc);
        assert(rat_add(m, rat_zero()) == m);
    } else {
        let prev = smerge(acc, x.drop_last());
        lemma_wf_drop_last(x);
        lemma_merge_mass(acc, x.drop_last());
        lemma_sput_dens(prev, x.last().0, x.last().1);
        lemma_sput_mass(prev, x.last().0, x.last().1);
        lemma_smass_wf(prev);
        lemma_smass_wf(x.drop_last());
        // smass(sput(prev, ..)) ~ smass(prev) + x.last
        //   ~ (smass(acc) + smass(x.drop_last())) + x.last
        //   ~ smass(acc) + (smass(x.drop_last()) + x.last) == smass(acc) + smass(x)
        lemma_add_wf_pos(smass(acc), smass(x.drop_last()));
        lemma_add_cong(smass(prev), rat_add(smass(acc), smass(x.drop_last())), x.last().1,
            x.last().1);
        lemma_add_wf_pos(smass(prev), x.last().1);
        lemma_eqv_trans(smass(smerge(acc, x)), rat_add(smass(prev), x.last().1),
            rat_add(rat_add(smass(acc), smass(x.drop_last())), x.last().1));
        lemma_add_assoc(smass(acc), smass(x.drop_last()), x.last().1);
        lemma_add_wf_pos(rat_add(smass(acc), smass(x.drop_last())), x.last().1);
        lemma_eqv_trans(smass(smerge(acc, x)),
            rat_add(rat_add(smass(acc), smass(x.drop_last())), x.last().1),
            rat_add(smass(acc), rat_add(smass(x.drop_last()), x.last().1)));
        assert(smass(x) == rat_add(smass(x.drop_last()), x.last().1));
    }
}

/// Merging a sorted sequence into an empty accumulator reproduces it.
pub proof fn lemma_merge_empty(x: Seq<(int, Rat)>)
    requires
        spmf_sorted(x),
    ensures
        smerge(Seq::<(int, Rat)>::empty(), x) == x,
    decreases x.len(),
{
    if x.len() > 0 {
        lemma_wf_drop_last(x);
        lemma_merge_empty(x.drop_last());
        assert(forall|i: int|
            0 <= i < x.drop_last().len() ==> (#[trigger] x.drop_last()[i]).0 == x[i].0);
        lemma_sput_append(x.drop_last(), x.last().0, x.last().1);
        assert(x.drop_last().push(x.last()) =~= x);
    }
}

/// every probability multiplied by `c`, outcomes unchanged
pub open spec fn sscale(x: Seq<(int, Rat)>, c: Rat) -> Seq<(int, Rat)> {
    x.map(|i: int, e: (int, Rat)| (e.0, rat_mul(e.1, c)))
}

/// Scaling keeps the shape and multiplies the mass by `c`.
pub proof fn lemma_scale(x: Seq<(int, Rat)>, c: Rat)
    requires
        spmf_dens(x),
        rat_wf(c),
    ensures
        sscale(x, c).len() == x.len(),
        spmf_dens(sscale(x, c)),
        spmf_pos(x) && rat_pos(c) ==> spmf_pos(sscale(x, c)),
        spmf_sorted(x) ==> spmf_sorted(sscale(x, c)),
        forall|i: int| 0 <= i < x.len() ==> (#[trigger] sscale(x, c)[i]).0 == x[i].0,
        rat_eqv(smass(sscale(x, c)), rat_mul(smass(x), c)),
    decreases x.len(),
{
    let r = sscale(x, c);
    lemma_smass_wf(x);
    assert forall|i: int| 0 <= i < x.len() implies rat_wf((#[trigger] r[i]).1) && r[i].0 == x[
        i].0 by {
        lemma_mul_wf_pos(x[i].1, c);
    }
    if spmf_pos(x) && rat_pos(c) {
        assert forall|i: int| 0 <= i < x.len() implies rat_pos((#[trigger] r[i]).1) by {
            lemma_mul_wf_pos(x[i].1, c);
        }
    }
    if x.len() == 0 {
        assert(r =~= Seq::<(int, Rat)>::empty());
        let z = rat_mul(rat_zero(), c);
        assert(z.n == 0 * c.n);
        assert(0 * c.n == 0) by (nonlinear_arith);
        assert(rat_zero().n * z.d == 0) by (nonlinear_arith);
        assert(z.n * rat_zero().d == 0) by (nonlinear_arith)
            requires
                z.n == 0,
        {
        }
    } else {
        lemma_wf_drop_last(x);
        lemma_scale(x.drop_last(), c);
        assert(r.drop_last() =~= sscale(x.drop_last(), c));
        assert(r.last() == (x.last().0, rat_mul(x.last().1, c)));
        assert(smass(r) == rat_add(smass(sscale(x.drop_last(), c)), rat_mul(x.last().1, c)));
        // ~ smass(x.drop_last()) * c + x.last * c ~ (smass(x.drop_last()) + x.last) * c
        lemma_smass_wf(x.drop_last());
        lemma_mul_wf_pos(smass(x.drop_last()), c);
        lemma_mul_wf_pos(x.last().1, c);
        lemma_add_cong(smass(sscale(x.drop_last(), c)), rat_mul(smass(x.drop_last()), c),
            rat_mul(x.last().1, c), rat_mul(x.last().1, c));
        lemma_sscale_dens_help(x, c);
        lemma_smass_wf(sscale(x.drop_last(), c));
        lemma_add_wf_pos(smass(sscale(x.drop_last(), c)), rat_mul(x.last().1, c));
        lemma_eqv_trans(smass(r), rat_add(smass(sscale(x.drop_last(), c)), rat_mul(x.last().1, c)),
            rat_add(rat_mul(smass(x.drop_last()), c), rat_mul(x.last().1, c)));
        lemma_mul_comm(smass(x.drop_last()), c);
        lemma_mul_comm(x.last().1, c);
        lemma_mul_distr(c, smass(x.drop_last()), x.last().1);
        assert(rat_add(rat_mul(smass(x.drop_last()), c), rat_mul(x.last().1, c)) == rat_add(
            rat_mul(c, smass(x.drop_last())), rat_mul(c, x.last().1)));
        assert(rat_eqv(rat_mul(c, smass(x)), rat_add(rat_mul(c, smass(x.drop_last())),
            rat_mul(c, x.last().1)))) by {
            assert(smass(x) == rat_add(smass(x.drop_last()), x.last().1));
        }
        lemma_mul_comm(c, smass(x));
        lemma_mul_wf_pos(c, smass(x));
        lemma_add_wf_pos(rat_mul(smass(x.drop_last()), c), rat_mul(x.last().1, c));
        lemma_eqv_symm_pmf(rat_mul(c, smass(x)), rat_add(rat_mul(c, smass(x.drop_last())),
            rat_mul(c, x.last().1)));
        lemma_eqv_trans(smass(r), rat_add(rat_mul(smass(x.drop_last()), c), rat_mul(x.last().1,
            c)), rat_mul(smass(x), c));
    }
}

/// helper: a scaled sequence keeps denominators well-formed
proof fn lemma_sscale_dens_help(x: Seq<(int, Rat)>, c: Rat)
    requires
        x.len() > 0,
        spmf_dens(x),
        rat_wf(c),
    ensures
        spmf_dens(sscale(x, c)),
        spmf_dens(sscale(x.drop_last(), c)),
{
    assert forall|i: int| 0 <= i < sscale(x, c).len() implies rat_wf(
        (#[trigger] sscale(x, c)[i]).1) by {
        lemma_mul_wf_pos(x[i].1, c);
    }
    assert forall|i: int| 0 <= i < sscale(x.drop_last(), c).len() implies rat_wf(
        (#[trigger] sscale(x.drop_last(), c)[i]).1) by {
        assert(x.drop_last()[i] == x[i]);
        lemma_mul_wf_pos(x[i].1, c);
    }
}

/// symmetry restated for this module's proofs
proof fn lemma_eqv_symm_pmf(a: Rat, b: Rat)
    requires
        rat_eqv(a, b),
    ensures
        rat_eqv(b, a),
{
}

/// Scaling by one changes nothing.
pub proof fn lemma_scale_one(x: Seq<(int, Rat)>)
    ensures
        sscale(x, rat_one()) == x,
{
    assert forall|i: int| 0 <= i < x.len() implies #[trigger] sscale(x, rat_one())[i] == x[i] by {
        lemma_mul_one(x[i].1);
    }
    assert(sscale(x, rat_one()) =~= x);
}

/// the distribution of the sum of `k` independent draws from `b`
pub open spec fn skfold(b: Seq<(int, Rat)>, k: nat) -> Seq<(int, Rat)>
    decreases k,
{
    if k == 0 {
        seq![(0int, rat_one())]
    } else {
        sconv(skfold(b, (k - 1) as nat), b, OpKind::Add)
    }
}

/// The k-fold sum of a well-formed nonempty distribution is well-formed
/// and nonempty.
pub proof fn lemma_kfold_wf(b: Seq<(int, Rat)>, k: nat)
    requires
        spmf_dens(b),
        spmf_pos(b),
        b.len() > 0,
    ensures
        spmf_wf(skfold(b, k)),
        skfold(b, k).len() > 0,
    decreases k,
{
    if k == 0 {
        let r = skfold(b, k);
        assert(r =~= seq![(0int, rat_one())]);
        assert(rat_wf(rat_one()) && rat_pos(rat_one()));
    } else {
        lemma_kfold_wf(b, (k - 1) as nat);
        lemma_conv_wf(Seq::<(int, Rat)>::empty(), skfold(b, (k - 1) as nat), b, OpKind::Add);
    }
}

/// The k-fold sum of a unit-mass distribution has unit mass.
pub proof fn lemma_kfold_mass(b: Seq<(int, Rat)>, k: nat)
    requires
        spmf_dens(b),
        rat_eqv(smass(b), rat_one()),
    ensures
        rat_eqv(smass(skfold(b, k)), rat_one()),
        spmf_dens(skfold(b, k)),
    decreases k,
{
    lemma_smass_wf(b);
    if k == 0 {
        let r = skfold(b, k);
        assert(r.drop_last() =~= Seq::<(int, Rat)>::empty());
        assert(smass(r) == rat_add(rat_zero(), rat_one()));
    } else {
        let prev = skfold(b, (k - 1) as nat);
        lemma_kfold_mass(b, (k - 1) as nat);
        lemma_conv_dens(Seq::<(int, Rat)>::empty(), prev, b, OpKind::Add);
        lemma_conv_mass(Seq::<(int, Rat)>::empty(), prev, b, OpKind::Add);
        lemma_smass_wf(prev);
        // smass ~ 0 + smass(prev) * smass(b) ~ 1 * 1 ~ 1
        let prod = rat_mul(smass(prev), smass(b));
        assert(rat_add(rat_zero(), prod) == prod);
        lemma_mul_cong(smass(prev), rat_one(), smass(b), rat_one());
        assert(rat_mul(rat_one(), rat_one()) == rat_one());
        lemma_mul_wf_pos(smass(prev), smass(b));
        lemma_eqv_trans(smass(skfold(b, k)), prod, rat_one());
    }
}

/// sample-sum of a count distribution `c` over a sample distribution `b`:
/// for every count entry, the k-fold sum for that count, scaled by the
/// count's probability, merges into the total
pub open spec fn sss2_from(acc: Seq<(int, Rat)>, c: Seq<(int, Rat)>, b: Seq<(int, Rat)>) -> Seq<
    (int, Rat),
>
    decreases c.len(),
{
    if c.len() == 0 {
        acc
    } else {
        smerge(sss2_from(acc, c.drop_last(), b),
            sscale(skfold(b, iabs(c.last().0) as nat), c.last().1))
    }
}

/// The sample-sum combination of well-formed distributions is well-formed
/// and nonempty when the count distribution is nonempty.
pub proof fn lemma_sss2_wf(acc: Seq<(int, Rat)>, c: Seq<(int, Rat)>, b: Seq<(int, Rat)>)
    requires
        spmf_wf(acc),
        spmf_dens(c),
        spmf_pos(c),
        spmf_dens(b),
        spmf_pos(b),
        b.len() > 0,
    ensures
        spmf_wf(sss2_from(acc, c, b)),
        sss2_from(acc, c, b).len() >= acc.len(),
        c.len() > 0 ==> sss2_from(acc, c, b).len() >= 1,
    decreases c.len(),
{
    if c.len() > 0 {
        lemma_wf_drop_last(c);
        lemma_sss2_wf(acc, c.drop_last(), b);
        let kf = skfold(b, iabs(c.last().0) as nat);
        lemma_kfold_wf(b, iabs(c.last().0) as nat);
        lemma_scale(kf, c.last().1);
        lemma_merge_wf(sss2_from(acc, c.drop_last(), b), sscale(kf, c.last().1));
        assert(sscale(kf, c.last().1).len() > 0);
    }
}

/// Sample-sum combination adds the count mass (each k-fold sum has unit
/// mass, scaled by its count probability).
pub proof fn lemma_sss2_mass(acc: Seq<(int, Rat)>, c: Seq<(int, Rat)>, b: Seq<(int, Rat)>)
    requires
        spmf_dens(acc),
        spmf_dens(c),
        spmf_dens(b),
        rat_eqv(smass(b), rat_one()),
    ensures
        rat_eqv(smass(sss2_from(acc, c, b)), rat_add(smass(acc), smass(c))),
        spmf_dens(sss2_from(acc, c, b)),
    decreases c.len(),
{
    lemma_smass_wf(acc);
    lemma_smass_wf(c);
    if c.len() == 0 {
        assert(rat_add(smass(acc), rat_zero()) == smass(acc));
    } else {
        let prev = sss2_from(acc, c.drop_last(), b);
        let k = iabs(c.last().0) as nat;
        let cp = c.last().1;
        let scaled = sscale(skfold(b, k), cp);
        lemma_wf_drop_last(c);
        lemma_sss2_mass(acc, c.drop_last(), b);
        lemma_kfold_mass(b, k);
        lemma_scale(skfold(b, k), cp);
        lemma_merge_mass(prev, scaled);
        lemma_smass_wf(prev);
        lemma_smass_wf(scaled);
        lemma_smass_wf(c.drop_last());
        lemma_smass_wf(skfold(b, k));
        // smass(merge) ~ smass(prev) + smass(scaled)
        //   ~ (smass(acc) + smass(c.drop_last())) + smass(kfold) * cp
        //   ~ (smass(acc) + smass(c.drop_last())) + cp   [kfold mass ~ 1]
        lemma_mul_cong(smass(skfold(b, k)), rat_one(), cp, cp);
        lemma_mul_one(cp);
        assert(rat_eqv(rat_mul(smass(skfold(b, k)), cp), cp)) by {
            assert(rat_mul(rat_one(), cp) == cp);
        }
        lemma_mul_wf_pos(smass(skfold(b, k)), cp);
        lemma_eqv_trans(smass(scaled), rat_mul(smass(skfold(b, k)), cp), cp);
        lemma_add_wf_pos(smass(acc), smass(c.drop_last()));
        lemma_add_cong(smass(prev), rat_add(smass(acc), smass(c.drop_last())), smass(scaled), cp);
        lemma_add_wf_pos(smass(prev), smass(scaled));
        lemma_eqv_trans(smass(smerge(prev, scaled)), rat_add(smass(prev), smass(scaled)),
            rat_add(rat_add(smass(acc), smass(c.drop_last())), cp));
        lemma_add_assoc(smass(acc), smass(c.drop_last()), cp);
        lemma_add_wf_pos(rat_add(smass(acc), smass(c.drop_last())), cp);
        lemma_eqv_trans(smass(smerge(prev, scaled)),
            rat_add(rat_add(smass(acc), smass(c.drop_last())), cp),
            rat_add(smass(acc), rat_add(smass(c.drop_last()), cp)));
        assert(smass(c) == rat_add(smass(c.drop_last()), c.last().1));
    }
}

/// fold negative outcomes of `m` onto their positive counterparts,
/// accumulating onto `acc`
pub open spec fn sabs_from(acc: Seq<(int, Rat)>, m: Seq<(int, Rat)>) -> Seq<(int, Rat)>
    decreases m.len(),
{
    if m.len() == 0 {
        acc
    } else {
        sput(sabs_from(acc, m.drop_last()), iabs(m.last().0), m.last().1)
    }
}

/// Folding onto absolute values keeps well-formedness and the mass.
pub proof fn lemma_sabs(acc: Seq<(int, Rat)>, m: Seq<(int, Rat)>)
    requires
        spmf_wf(acc),
        spmf_dens(m),
        spmf_pos(m),
    ensures
        spmf_wf(sabs_from(acc, m)),
        sabs_from(acc, m).len() >= acc.len(),
        m.len() > 0 ==> sabs_from(acc, m).len() >= 1,
        rat_eqv(smass(sabs_from(acc, m)), rat_add(smass(acc), smass(m))),
    decreases m.len(),
{
    lemma_smass_wf(acc);
    lemma_smass_wf(m);
    if m.len() == 0 {
        assert(rat_add(smass(acc), rat_zero()) == smass(acc));
    } else {
        let prev = sabs_from(acc, m.drop_last());
        lemma_wf_drop_last(m);
        lemma_sabs(acc, m.drop_last());
        lemma_sput_wf(prev, iabs(m.last().0), m.last().1);
        lemma_sput_mass(prev, iabs(m.last().0), m.last().1);
        lemma_smass_wf(prev);
        lemma_smass_wf(m.drop_last());
        lemma_add_wf_pos(smass(acc), smass(m.drop_last()));
        lemma_add_cong(smass(prev), rat_add(smass(acc), smass(m.drop_last())), m.last().1,
            m.last().1);
        lemma_add_wf_pos(smass(prev), m.last().1);
        lemma_eqv_trans(smass(sabs_from(acc, m)), rat_add(smass(prev), m.last().1),
            rat_add(rat_add(smass(acc), smass(m.drop_last())), m.last().1));
        lemma_add_assoc(smass(acc), smass(m.drop_last()), m.last().1);
        lemma_add_wf_pos(rat_add(smass(acc), smass(m.drop_last())), m.last().1);
        lemma_eqv_trans(smass(sabs_from(acc, m)),
            rat_add(rat_add(smass(acc), smass(m.drop_last())), m.last().1),
            rat_add(smass(acc), rat_add(smass(m.drop_last()), m.last().1)));
        assert(smass(m) == rat_add(smass(m.drop_last()), m.last().1));
    }
}

/// the fair die: each outcome of `lo..=hi` with probability `1/(hi-lo+1)`
pub open spec fn sdie(lo: int, hi: int) -> Seq<(int, Rat)> {
    Seq::new((hi - lo + 1) as nat, |i: int| (lo + i, Rat { n: 1, d: hi - lo + 1 }))
}

/// The fair die is well-formed with exactly its range as support.
pub proof fn lemma_die_wf(lo: int, hi: int)
    requires
        lo <= hi,
    ensures
        spmf_wf(sdie(lo, hi)),
        sdie(lo, hi).len() == hi - lo + 1,
{
    let s = sdie(lo, hi);
    assert forall|i: int| 0 <= i < s.len() implies rat_wf((#[trigger] s[i]).1) && rat_pos(
        s[i].1) by {
        assert(s[i] == (lo + i, Rat { n: 1, d: hi - lo + 1 }));
    }
    assert forall|i: int, j: int| 0 <= i < j < s.len() implies (#[trigger] s[i]).0 < (
    #[trigger] s[j]).0 by {
        assert(s[i] == (lo + i, Rat { n: 1, d: hi - lo + 1 }));
        assert(s[j] == (lo + j, Rat { n: 1, d: hi - lo + 1 }));
    }
}

/// The mass of a prefix of the fair die is `j / (hi-lo+1)`.
proof fn lemma_die_mass_prefix(lo: int, hi: int, j: int)
    requires
        lo <= hi,
        0 <= j <= hi - lo + 1,
    ensures
        rat_eqv(smass(sdie(lo, hi).take(j)), Rat { n: j, d: hi - lo + 1 }),
    decreases j,
{
    let s = sdie(lo, hi);
    let d = hi - lo + 1;
    if j == 0 {
        assert(s.take(0) =~= Seq::<(int, Rat)>::empty());
        assert(smass(Seq::<(int, Rat)>::empty()) == rat_zero());
        assert(0 * d == 0) by (nonlinear_arith);
        assert(rat_eqv(rat_zero(), Rat { n: 0, d }));
    } else {
        lemma_die_mass_prefix(lo, hi, j - 1);
        assert(s.take(j).drop_last() =~= s.take(j - 1));
        assert(s.take(j).last() == s[j - 1]);
        assert(s[j - 1].1 == Rat { n: 1, d });
        lemma_die_wf(lo, hi);
        assert(spmf_dens(s.take(j - 1))) by {
            assert(forall|i: int| 0 <= i < j - 1 ==> #[trigger] s.take(j - 1)[i] == s[i]);
        }
        lemma_smass_wf(s.take(j - 1));
        lemma_add_cong(smass(s.take(j - 1)), Rat { n: j - 1, d }, Rat { n: 1, d },
            Rat { n: 1, d });
        lemma_add_wf_pos(smass(s.take(j - 1)), Rat { n: 1, d });
        assert(rat_eqv(rat_add(Rat { n: j - 1, d }, Rat { n: 1, d }), Rat { n: j, d })) by {
            assert(((j - 1) * d + 1 * d) * d == j * (d * d)) by (nonlinear_arith);
        }
        assert(rat_wf(rat_add(Rat { n: j - 1, d }, Rat { n: 1, d }))) by {
            assert(d * d > 0) by (nonlinear_arith)
                requires
                    d > 0,
            {
            }
        }
        lemma_eqv_trans(smass(s.take(j)), rat_add(Rat { n: j - 1, d }, Rat { n: 1, d }),
            Rat { n: j, d });
    }
}

/// The fair die has unit mass.
pub proof fn lemma_die_mass(lo: int, hi: int)
    requires
        lo <= hi,
    ensures
        rat_eqv(smass(sdie(lo, hi)), rat_one()),
{
    let s = sdie(lo, hi);
    let d = hi - lo + 1;
    lemma_die_mass_prefix(lo, hi, d);
    assert(s.take(d) =~= s);
    assert(rat_eqv(Rat { n: d, d }, rat_one()));
    lemma_eqv_trans(smass(s), Rat { n: d, d }, rat_one());
}

} // verus!
