//! The executable distribution engine.
//!
//! Distributions are sorted `Vec<(i64, Prob)>` values; every function is
//! proved to produce, up to exact rational equality of the probabilities,
//! the specification distribution of `spec_eval`.

use vstd::prelude::*;

use crate::dice_builder::{abs_ok, children_evaluable, evaluable, spec_eval, spec_fold,
    spec_fold_ok, spec_fold_ss, spec_fold_ss_ok, ss_pair_ok, DiceBuilder};
use crate::pmf::{conv_ok, iabs, lemma_conv_dens, lemma_conv_mass, lemma_conv_wf, lemma_die_mass,
    lemma_die_wf, lemma_kfold_wf, lemma_merge_empty, lemma_scale_one, lemma_smass_wf,
    lemma_sss2_mass, smass,
    lemma_merge_wf, lemma_row_wf, lemma_sabs, lemma_scale, lemma_sput_cong, lemma_sput_dens,
    lemma_sput_wf, lemma_sss2_wf, lemma_equiv_trans, lemma_wf_drop_last, lemma_wf_equiv, op_apply, op_ok, sconv,
    sconv_from, sconv_row, sdie, skfold, smerge, spec_rounded_div, spmf_dens, spmf_equiv,
    spmf_has_key, spmf_pos, spmf_sorted, spmf_wf, sput, sscale, sss2_from, sabs_from, OpKind};
use crate::prob::{prob_add, prob_mul, Prob};
use crate::rat::{lemma_eqv_trans, lemma_mul_cong, lemma_mul_wf_pos, rat_add, rat_eqv, rat_mul,
    rat_one, rat_pos, rat_wf, rat_zero, Rat};

verus! {

broadcast use vstd::seq::axiom_seq_index_decreases, vstd::std_specs::vec::axiom_vec_decreases_to_view;

/// the specification view of an executable distribution
pub open spec fn pmf_view(s: Seq<(i64, Prob)>) -> Seq<(int, Rat)> {
    s.map(|i: int, e: (i64, Prob)| (e.0 as int, e.1@))
}

/// the executable distribution is well-formed
pub open spec fn vwf(s: Seq<(i64, Prob)>) -> bool {
    spmf_wf(pmf_view(s))
}

/// Where `sput` lands: given the first index `i` whose outcome is not
/// below `o`, `sput` is an update at `i` (outcome present) or an
/// insertion at `i` (outcome absent).
proof fn lemma_sput_index(s: Seq<(int, Rat)>, o: int, p: Rat, i: int)
    requires
        spmf_sorted(s),
        0 <= i <= s.len(),
        forall|j: int| 0 <= j < i ==> (#[trigger] s[j]).0 < o,
        i < s.len() ==> s[i].0 >= o,
    ensures
        i < s.len() && s[i].0 == o ==> sput(s, o, p) == s.update(i, (o, rat_add(s[i].1, p))),
        !(i < s.len() && s[i].0 == o) ==> sput(s, o, p) == s.insert(i, (o, p)),
    decreases s.len(),
{
    if i == 0 {
        if s.len() == 0 {
            assert(sput(s, o, p) =~= s.insert(0, (o, p)));
        } else if s[0].0 == o {
            assert(sput(s, o, p) =~= s.update(0, (o, rat_add(s[0].1, p))));
        } else {
            assert(s[0].0 > o);
            assert(sput(s, o, p) =~= s.insert(0, (o, p)));
        }
    } else {
        assert(s[0].0 < o);
        let t = s.drop_first();
        assert(spmf_sorted(t) && forall|j: int| 0 <= j < i - 1 ==> (#[trigger] t[j]).0 < o) by {
            assert(forall|j: int| 0 <= j < t.len() ==> #[trigger] t[j] == s[j + 1]);
        }
        assert(i - 1 < t.len() ==> t[i - 1].0 >= o) by {
            if i - 1 < t.len() {
                assert(t[i - 1] == s[i]);
            }
        }
        lemma_sput_index(t, o, p, i - 1);
        assert(forall|j: int| 0 <= j < t.len() ==> #[trigger] t[j] == s[j + 1]);
        if i < s.len() && s[i].0 == o {
            assert(t[i - 1] == s[i]);
            assert(sput(s, o, p) == seq![s[0]] + t.update(i - 1, (o, rat_add(s[i].1, p))));
            assert(seq![s[0]] + t.update(i - 1, (o, rat_add(s[i].1, p))) =~= s.update(i, (o,
                rat_add(s[i].1, p))));
        } else {
            assert(sput(s, o, p) == seq![s[0]] + t.insert(i - 1, (o, p)));
            assert(seq![s[0]] + t.insert(i - 1, (o, p)) =~= s.insert(i, (o, p)));
        }
    }
}

/// Insert probability `p` at `key`, accumulating on an existing entry.
fn pmf_put(acc: &mut Vec<(i64, Prob)>, key: i64, p: Prob)
    requires
        vwf(old(acc)@),
        p.wf(),
        rat_pos(p@),
    ensures
        vwf(final(acc)@),
        spmf_equiv(pmf_view(final(acc)@), sput(pmf_view(old(acc)@), key as int, p@)),
        spmf_dens(sput(pmf_view(old(acc)@), key as int, p@)),
{
    let ghost s0 = pmf_view(old(acc)@);
    proof {
        lemma_sput_wf(s0, key as int, p@);
        lemma_sput_dens(s0, key as int, p@);
    }
    let mut i: usize = 0;
    while i < acc.len() && acc[i].0 < key
        invariant
            0 <= i <= acc@.len(),
            acc@ == old(acc)@,
            s0 == pmf_view(old(acc)@),
            forall|j: int| 0 <= j < i ==> (#[trigger] s0[j]).0 < key as int,
        decreases acc@.len() - i,
    {
        proof {
            assert(s0[i as int].0 == acc@[i as int].0 as int);
        }
        i += 1;
    }
    proof {
        assert(i < acc@.len() ==> s0[i as int].0 >= key as int) by {
            if i < acc@.len() {
                assert(s0[i as int].0 == acc@[i as int].0 as int);
            }
        }
        lemma_sput_index(s0, key as int, p@, i as int);
    }
    if i < acc.len() && acc[i].0 == key {
        let e = acc.remove(i);
        let newp = prob_add(&e.1, &p);
        acc.insert(i, (key, newp));
        proof {
            let target = sput(s0, key as int, p@);
            assert(e.1@ == s0[i as int].1);
            assert(final(acc)@ =~= old(acc)@.update(i as int, (key, newp)));
            assert(target == s0.update(i as int, (key as int, rat_add(s0[i as int].1, p@))));
            assert forall|j: int| 0 <= j < target.len() implies (#[trigger] pmf_view(
                final(acc)@)[j]).0 == target[j].0 && rat_eqv(pmf_view(final(acc)@)[j].1,
                target[j].1) by {
                if j != i {
                    assert(final(acc)@[j] == old(acc)@[j]);
                }
            }
            lemma_wf_equiv(target, pmf_view(final(acc)@));
        }
    } else {
        acc.insert(i, (key, p));
        proof {
            let target = sput(s0, key as int, p@);
            assert(final(acc)@ == old(acc)@.insert(i as int, (key, p)));
            assert(target == s0.insert(i as int, (key as int, p@)));
            assert forall|j: int| 0 <= j < target.len() implies (#[trigger] pmf_view(
                final(acc)@)[j]).0 == target[j].0 && rat_eqv(pmf_view(final(acc)@)[j].1,
                target[j].1) by {
                if j < i {
                    assert(final(acc)@[j] == old(acc)@[j]);
                } else if j == i {
                } else {
                    assert(final(acc)@[j] == old(acc)@[j - 1]);
                }
            }
            lemma_wf_equiv(target, pmf_view(final(acc)@));
        }
    }
}

/// Integer division rounded to the nearest integer, halves away from
/// zero; `None` when the divisor is zero or the result leaves `i64`.
fn rounded_div_checked(x: i64, y: i64) -> (r: Option<i64>)
    ensures
        r matches Some(z) ==> op_ok(OpKind::Div, x as int, y as int) && z as int
            == spec_rounded_div(x as int, y as int),
        r is None ==> !op_ok(OpKind::Div, x as int, y as int),
{
    if y == 0 {
        return None;
    }
    let ua: u64 = if x < 0 {
        (-(x as i128)) as u64
    } else {
        x as u64
    };
    let ub: u64 = if y < 0 {
        (-(y as i128)) as u64
    } else {
        y as u64
    };
    proof {
        assert(ua as int == iabs(x as int));
        assert(ub as int == iabs(y as int));
        assert(ub > 0);
    }
    let q: u64 = (ua + ub / 2) / ub;
    proof {
        assert(q as int == (iabs(x as int) + iabs(y as int) / 2) / iabs(y as int));
    }
    if (x < 0) != (y < 0) {
        proof {
            assert(spec_rounded_div(x as int, y as int) == -(q as int));
        }
        if q <= 9223372036854775808u64 {
            Some((-(q as i128)) as i64)
        } else {
            None
        }
    } else {
        proof {
            assert(spec_rounded_div(x as int, y as int) == q as int);
        }
        if q <= i64::MAX as u64 {
            Some(q as i64)
        } else {
            None
        }
    }
}

/// Combine two outcomes with the operator of the combinator; `None`
/// exactly when the pair may not be combined (the result would leave
/// `i64`, or a division would see a zero divisor).
fn op_exec_checked(op: OpKind, x: i64, y: i64) -> (r: Option<i64>)
    ensures
        r matches Some(z) ==> op_ok(op, x as int, y as int) && z as int == op_apply(op, x as int,
            y as int),
        r is None ==> !op_ok(op, x as int, y as int),
{
    match op {
        OpKind::Add => {
            let w: i128 = x as i128 + y as i128;
            if w >= i64::MIN as i128 && w <= i64::MAX as i128 {
                Some(w as i64)
            } else {
                None
            }
        },
        OpKind::Mul => {
            proof {
                assert(i128::MIN <= (x as i128) * (y as i128) <= i128::MAX) by (nonlinear_arith)
                    requires
                        -0x8000_0000_0000_0000 <= x as i128 <= 0x7fff_ffff_ffff_ffff,
                        -0x8000_0000_0000_0000 <= y as i128 <= 0x7fff_ffff_ffff_ffff,
                {
                }
            }
            let w: i128 = (x as i128) * (y as i128);
            if w >= i64::MIN as i128 && w <= i64::MAX as i128 {
                Some(w as i64)
            } else {
                None
            }
        },
        OpKind::Div => rounded_div_checked(x, y),
        OpKind::Max => if x >= y {
            Some(x)
        } else {
            Some(y)
        },
        OpKind::Min => if x <= y {
            Some(x)
        } else {
            Some(y)
        },
    }
}

/// Pairwise convolution of two distributions under the combinator's
/// operator: every operand pair contributes the product of its
/// probabilities to the combined outcome.  `None` exactly when some
/// operand pair may not be combined.
fn convolute_two_checked(
    a: &Vec<(i64, Prob)>,
    b: &Vec<(i64, Prob)>,
    op: OpKind,
    Ghost(sa): Ghost<Seq<(int, Rat)>>,
    Ghost(sb): Ghost<Seq<(int, Rat)>>,
) -> (r: Option<Vec<(i64, Prob)>>)
    requires
        vwf(a@),
        vwf(b@),
        spmf_wf(sa),
        spmf_wf(sb),
        spmf_equiv(pmf_view(a@), sa),
        spmf_equiv(pmf_view(b@), sb),
    ensures
        r matches Some(v) ==> conv_ok(sa, sb, op) && vwf(v@) && spmf_equiv(pmf_view(v@),
            sconv(sa, sb, op)) && spmf_wf(sconv(sa, sb, op)),
        r is None ==> !conv_ok(sa, sb, op),
{
    let ghost emp = Seq::<(int, Rat)>::empty();
    let mut acc: Vec<(i64, Prob)> = Vec::new();
    proof {
        assert(pmf_view(acc@) =~= emp);
        assert(sa.take(0) =~= emp);
        assert(sconv_from(emp, sa.take(0), sb, op) == emp);
    }
    let mut i: usize = 0;
    while i < a.len()
        invariant
            0 <= i <= a@.len(),
            vwf(a@),
            vwf(b@),
            spmf_wf(sa),
            spmf_wf(sb),
            spmf_equiv(pmf_view(a@), sa),
            spmf_equiv(pmf_view(b@), sb),
            emp == Seq::<(int, Rat)>::empty(),
            vwf(acc@),
            spmf_wf(sconv_from(emp, sa.take(i as int), sb, op)),
            spmf_equiv(pmf_view(acc@), sconv_from(emp, sa.take(i as int), sb, op)),
            forall|i2: int, j2: int|
                0 <= i2 < i && 0 <= j2 < sb.len() ==> op_ok(op, (#[trigger] sa[i2]).0, (
                #[trigger] sb[j2]).0),
        decreases a@.len() - i,
    {
        let ghost fi = sconv_from(emp, sa.take(i as int), sb, op);
        proof {
            assert(sb.take(0) =~= emp);
            assert(sconv_row(fi, sa[i as int], sb.take(0), op) == fi);
            assert(rat_wf(sa[i as int].1) && rat_pos(sa[i as int].1));
        }
        let mut j: usize = 0;
        while j < b.len()
            invariant
                0 <= i < a@.len(),
                0 <= j <= b@.len(),
                vwf(a@),
                vwf(b@),
                spmf_wf(sa),
                spmf_wf(sb),
                spmf_equiv(pmf_view(a@), sa),
                spmf_equiv(pmf_view(b@), sb),
                emp == Seq::<(int, Rat)>::empty(),
                fi == sconv_from(emp, sa.take(i as int), sb, op),
                spmf_wf(fi),
                vwf(acc@),
                spmf_wf(sconv_row(fi, sa[i as int], sb.take(j as int), op)),
                spmf_equiv(pmf_view(acc@), sconv_row(fi, sa[i as int], sb.take(j as int), op)),
                forall|i2: int, j2: int|
                    0 <= i2 < i && 0 <= j2 < sb.len() ==> op_ok(op, (#[trigger] sa[i2]).0, (
                    #[trigger] sb[j2]).0),
                forall|j2: int| 0 <= j2 < j ==> op_ok(op, sa[i as int].0, (#[trigger] sb[j2]).0),
            decreases b@.len() - j,
        {
            let ghost rowj = sconv_row(fi, sa[i as int], sb.take(j as int), op);
            proof {
                assert(pmf_view(a@)[i as int].0 == a@[i as int].0 as int);
                assert(pmf_view(a@)[i as int].0 == sa[i as int].0);
                assert(pmf_view(b@)[j as int].0 == b@[j as int].0 as int);
                assert(pmf_view(b@)[j as int].0 == sb[j as int].0);
            }
            let key = match op_exec_checked(op, a[i].0, b[j].0) {
                Some(k) => k,
                None => {
                    proof {
                        assert(!op_ok(op, sa[i as int].0, sb[j as int].0));
                        assert(!conv_ok(sa, sb, op));
                    }
                    return None;
                },
            };
            let pr = prob_mul(&a[i].1, &b[j].1);
            let ghost q = rat_mul(sa[i as int].1, sb[j as int].1);
            proof {
                // pr@ ~ a[i]@ * b[j]@ ~ sa[i] * sb[j]
                assert(pmf_view(a@)[i as int].1 == a@[i as int].1@);
                assert(pmf_view(b@)[j as int].1 == b@[j as int].1@);
                assert(rat_eqv(a@[i as int].1@, sa[i as int].1));
                assert(rat_eqv(b@[j as int].1@, sb[j as int].1));
                lemma_mul_cong(a@[i as int].1@, sa[i as int].1, b@[j as int].1@, sb[j as int].1);
                lemma_mul_wf_pos(a@[i as int].1@, b@[j as int].1@);
                lemma_eqv_trans(pr@, rat_mul(a@[i as int].1@, b@[j as int].1@), q);
                lemma_mul_wf_pos(sa[i as int].1, sb[j as int].1);
                // pr is positive as a rational since it equals a positive one
                crate::rat::lemma_pos_cong(q, pr@);
            }
            let ghost before = pmf_view(acc@);
            pmf_put(&mut acc, key, pr);
            proof {
                lemma_sput_cong(before, rowj, key as int, pr@, q);
                assert(spmf_equiv(pmf_view(acc@), sput(rowj, key as int, q))) by {
                    lemma_equiv_trans(pmf_view(acc@), sput(before, key as int, pr@),
                        sput(rowj, key as int, q));
                }
                lemma_sput_wf(rowj, key as int, q);
                assert(sb.take(j + 1).drop_last() =~= sb.take(j as int));
                assert(sb.take(j + 1).last() == sb[j as int]);
                assert(sconv_row(fi, sa[i as int], sb.take(j + 1), op) == sput(rowj,
                    op_apply(op, sa[i as int].0, sb.take(j + 1).last().0),
                    rat_mul(sa[i as int].1, sb.take(j + 1).last().1)));
                assert(key as int == op_apply(op, sa[i as int].0, sb[j as int].0));
            }
            j += 1;
        }
        proof {
            assert(sb.take(b@.len() as int) =~= sb);
            assert(sa.take(i + 1).drop_last() =~= sa.take(i as int));
            assert(sa.take(i + 1).last() == sa[i as int]);
            assert(sconv_from(emp, sa.take(i + 1), sb, op) == sconv_row(fi, sa[i as int], sb,
                op));
        }
        i += 1;
    }
    proof {
        assert(sa.take(a@.len() as int) =~= sa);
        assert(conv_ok(sa, sb, op));
    }
    Some(acc)
}

/// Merge one distribution into another: shared outcomes accumulate.
fn merge_distributions(
    acc: &mut Vec<(i64, Prob)>,
    x: &Vec<(i64, Prob)>,
    Ghost(s0): Ghost<Seq<(int, Rat)>>,
    Ghost(sx): Ghost<Seq<(int, Rat)>>,
)
    requires
        vwf(old(acc)@),
        vwf(x@),
        spmf_wf(s0),
        spmf_wf(sx),
        spmf_equiv(pmf_view(old(acc)@), s0),
        spmf_equiv(pmf_view(x@), sx),
    ensures
        vwf(final(acc)@),
        spmf_equiv(pmf_view(final(acc)@), smerge(s0, sx)),
        spmf_wf(smerge(s0, sx)),
{
    proof {
        assert(sx.take(0) =~= Seq::<(int, Rat)>::empty());
        assert(smerge(s0, sx.take(0)) == s0);
    }
    let mut j: usize = 0;
    while j < x.len()
        invariant
            0 <= j <= x@.len(),
            vwf(x@),
            spmf_wf(s0),
            spmf_wf(sx),
            spmf_equiv(pmf_view(x@), sx),
            vwf(acc@),
            spmf_wf(smerge(s0, sx.take(j as int))),
            spmf_equiv(pmf_view(acc@), smerge(s0, sx.take(j as int))),
        decreases x@.len() - j,
    {
        let ghost mj = smerge(s0, sx.take(j as int));
        proof {
            assert(pmf_view(x@)[j as int].0 == x@[j as int].0 as int);
            assert(pmf_view(x@)[j as int].1 == x@[j as int].1@);
            assert(rat_eqv(x@[j as int].1@, sx[j as int].1));
            crate::rat::lemma_pos_cong(sx[j as int].1, x@[j as int].1@);
        }
        let key = x[j].0;
        let p = x[j].1.clone();
        let ghost before = pmf_view(acc@);
        pmf_put(acc, key, p);
        proof {
            lemma_sput_cong(before, mj, key as int, p@, sx[j as int].1);
            lemma_equiv_trans(pmf_view(acc@), sput(before, key as int, p@),
                sput(mj, key as int, sx[j as int].1));
            lemma_sput_wf(mj, key as int, sx[j as int].1);
            assert(sx.take(j + 1).drop_last() =~= sx.take(j as int));
            assert(sx.take(j + 1).last() == sx[j as int]);
            assert(smerge(s0, sx.take(j + 1)) == sput(mj, sx[j as int].0, sx[j as int].1));
            assert(key as int == sx[j as int].0);
        }
        j += 1;
    }
    proof {
        assert(sx.take(x@.len() as int) =~= sx);
    }
}

/// Multiply every probability of the distribution by `c`.
fn scale_distribution(
    x: &Vec<(i64, Prob)>,
    c: &Prob,
    Ghost(sx): Ghost<Seq<(int, Rat)>>,
    Ghost(sc): Ghost<Rat>,
) -> (r: Vec<(i64, Prob)>)
    requires
        vwf(x@),
        c.wf(),
        rat_wf(sc),
        rat_pos(sc),
        rat_eqv(c@, sc),
        spmf_wf(sx),
        spmf_equiv(pmf_view(x@), sx),
    ensures
        vwf(r@),
        spmf_equiv(pmf_view(r@), sscale(sx, sc)),
        spmf_wf(sscale(sx, sc)),
        r@.len() == x@.len(),
    decreases x@.len(),
{
    proof {
        lemma_scale(sx, sc);
        crate::rat::lemma_pos_cong(sc, c@);
    }
    let mut out: Vec<(i64, Prob)> = Vec::new();
    let mut j: usize = 0;
    while j < x.len()
        invariant
            0 <= j <= x@.len(),
            vwf(x@),
            c.wf(),
            rat_wf(sc),
            rat_pos(sc),
            rat_eqv(c@, sc),
            spmf_wf(sx),
            spmf_equiv(pmf_view(x@), sx),
            out@.len() == j,
            spmf_dens(pmf_view(out@)),
            forall|m: int|
                0 <= m < j ==> (#[trigger] pmf_view(out@)[m]).0 == sscale(sx, sc)[m].0 && rat_eqv(
                    pmf_view(out@)[m].1, sscale(sx, sc)[m].1),
        decreases x@.len() - j,
    {
        proof {
            assert(pmf_view(x@)[j as int].1 == x@[j as int].1@);
            assert(rat_eqv(x@[j as int].1@, sx[j as int].1));
            assert(rat_wf(x@[j as int].1@));
        }
        let p = prob_mul(&x[j].1, c);
        proof {
            lemma_mul_cong(x@[j as int].1@, sx[j as int].1, c@, sc);
            lemma_mul_wf_pos(x@[j as int].1@, c@);
            lemma_eqv_trans(p@, rat_mul(x@[j as int].1@, c@), rat_mul(sx[j as int].1, sc));
            assert(sscale(sx, sc)[j as int] == (sx[j as int].0, rat_mul(sx[j as int].1, sc)));
            assert(pmf_view(x@)[j as int].0 == x@[j as int].0 as int);
        }
        let key = x[j].0;
        let ghost before = out@;
        out.push((key, p));
        proof {
            assert(out@ == before.push((key, p)));
            assert forall|m: int| 0 <= m < j implies #[trigger] pmf_view(out@)[m] == pmf_view(
                before)[m] by {
                assert(out@[m] == before[m]);
            }
            assert(out@[j as int] == (key, p));
            assert(pmf_view(out@)[j as int] == (key as int, p@));
        }
        j += 1;
    }
    proof {
        assert(spmf_equiv(pmf_view(out@), sscale(sx, sc)));
        lemma_wf_equiv(sscale(sx, sc), pmf_view(out@));
    }
    out
}


/// A prefix of an in-range fold is in range.
proof fn lemma_fold_ok_prefix(cs: Seq<DiceBuilder>, op: OpKind, m: int)
    requires
        spec_fold_ok(cs, op),
        0 <= m <= cs.len(),
    ensures
        spec_fold_ok(cs.take(m), op),
    decreases cs.len(),
{
    if m == cs.len() {
        assert(cs.take(m) =~= cs);
    } else if cs.len() <= 1 {
        assert(cs.take(m).len() <= 1);
    } else {
        assert(cs.take(m) =~= cs.drop_last().take(m));
        lemma_fold_ok_prefix(cs.drop_last(), op, m);
    }
}

/// A prefix of an in-range sample-sum fold is in range.
proof fn lemma_fold_ss_ok_prefix(cs: Seq<DiceBuilder>, m: int)
    requires
        spec_fold_ss_ok(cs),
        0 <= m <= cs.len(),
    ensures
        spec_fold_ss_ok(cs.take(m)),
    decreases cs.len(),
{
    if m == cs.len() {
        assert(cs.take(m) =~= cs);
    } else if cs.len() <= 1 {
        assert(cs.take(m).len() <= 1);
    } else {
        assert(cs.take(m) =~= cs.drop_last().take(m));
        lemma_fold_ss_ok_prefix(cs.drop_last(), m);
    }
}

/// The distribution of an evaluable tree is well-formed and nonempty.
pub proof fn lemma_eval_wf(t: DiceBuilder)
    requires
        evaluable(t),
    ensures
        spmf_wf(spec_eval(t)),
        spec_eval(t).len() >= 1,
    decreases t,
{
    broadcast use vstd::seq::axiom_seq_index_decreases, vstd::std_specs::vec::axiom_vec_decreases_to_view;

    match t {
        DiceBuilder::Constant(v) => {
            let s = spec_eval(t);
            assert(s == seq![(v as int, rat_one())]);
            assert(rat_wf(rat_one()) && rat_pos(rat_one()));
        },
        DiceBuilder::FairDie { min, max } => {
            lemma_die_wf(min as int, max as int);
        },
        DiceBuilder::SumCompound(cs) => lemma_fold_wf(cs@, OpKind::Add),
        DiceBuilder::ProductCompound(cs) => lemma_fold_wf(cs@, OpKind::Mul),
        DiceBuilder::DivisionCompound(cs) => lemma_fold_wf(cs@, OpKind::Div),
        DiceBuilder::MaxCompound(cs) => lemma_fold_wf(cs@, OpKind::Max),
        DiceBuilder::MinCompound(cs) => lemma_fold_wf(cs@, OpKind::Min),
        DiceBuilder::SampleSumCompound(cs) => lemma_fold_ss_wf(cs@),
        DiceBuilder::Absolute(c) => {
            lemma_eval_wf(*c);
            lemma_sabs(Seq::<(int, Rat)>::empty(), spec_eval(*c));
        },
    }
}

/// The folded distribution of evaluable children is well-formed and
/// nonempty.
pub proof fn lemma_fold_wf(cs: Seq<DiceBuilder>, op: OpKind)
    requires
        children_evaluable(cs),
    ensures
        spmf_wf(spec_fold(cs, op)),
        spec_fold(cs, op).len() >= 1,
    decreases cs,
{
    broadcast use vstd::seq::axiom_seq_index_decreases;

    if cs.len() == 1 {
        lemma_eval_wf(cs[0]);
    } else {
        assert(children_evaluable(cs.drop_last())) by {
            assert(forall|i: int|
                0 <= i < cs.drop_last().len() ==> #[trigger] cs.drop_last()[i] == cs[i]);
        }
        lemma_fold_wf(cs.drop_last(), op);
        lemma_eval_wf(cs.last());
        lemma_conv_wf(Seq::<(int, Rat)>::empty(), spec_fold(cs.drop_last(), op),
            spec_eval(cs.last()), op);
    }
}

/// The sample-sum fold of evaluable children is well-formed and nonempty.
pub proof fn lemma_fold_ss_wf(cs: Seq<DiceBuilder>)
    requires
        children_evaluable(cs),
    ensures
        spmf_wf(spec_fold_ss(cs)),
        spec_fold_ss(cs).len() >= 1,
    decreases cs,
{
    broadcast use vstd::seq::axiom_seq_index_decreases;

    if cs.len() == 1 {
        lemma_eval_wf(cs[0]);
    } else {
        assert(children_evaluable(cs.drop_last())) by {
            assert(forall|i: int|
                0 <= i < cs.drop_last().len() ==> #[trigger] cs.drop_last()[i] == cs[i]);
        }
        lemma_fold_ss_wf(cs.drop_last());
        lemma_eval_wf(cs.last());
        lemma_sss2_wf(Seq::<(int, Rat)>::empty(), spec_fold_ss(cs.drop_last()),
            spec_eval(cs.last()));
    }
}

/// Normalization: the distribution of every evaluable tree has total
/// probability mass exactly one.
pub proof fn lemma_eval_mass(t: DiceBuilder)
    requires
        evaluable(t),
    ensures
        rat_eqv(smass(spec_eval(t)), rat_one()),
    decreases t,
{
    broadcast use vstd::seq::axiom_seq_index_decreases, vstd::std_specs::vec::axiom_vec_decreases_to_view;

    match t {
        DiceBuilder::Constant(v) => {
            let s = spec_eval(t);
            assert(s == seq![(v as int, rat_one())]);
            assert(s.drop_last() =~= Seq::<(int, Rat)>::empty());
            assert(smass(Seq::<(int, Rat)>::empty()) == rat_zero());
            assert(smass(s) == rat_add(rat_zero(), rat_one()));
        },
        DiceBuilder::FairDie { min, max } => {
            lemma_die_mass(min as int, max as int);
        },
        DiceBuilder::SumCompound(cs) => lemma_fold_mass(cs@, OpKind::Add),
        DiceBuilder::ProductCompound(cs) => lemma_fold_mass(cs@, OpKind::Mul),
        DiceBuilder::DivisionCompound(cs) => lemma_fold_mass(cs@, OpKind::Div),
        DiceBuilder::MaxCompound(cs) => lemma_fold_mass(cs@, OpKind::Max),
        DiceBuilder::MinCompound(cs) => lemma_fold_mass(cs@, OpKind::Min),
        DiceBuilder::SampleSumCompound(cs) => lemma_fold_ss_mass(cs@),
        DiceBuilder::Absolute(c) => {
            lemma_eval_wf(*c);
            lemma_eval_mass(*c);
            let m = spec_eval(*c);
            let emp = Seq::<(int, Rat)>::empty();
            lemma_sabs(emp, m);
            assert(smass(emp) == rat_zero());
            crate::rat::lemma_add_zero(smass(m));
            lemma_smass_wf(m);
            lemma_eqv_trans(smass(sabs_from(emp, m)), smass(m), rat_one());
        },
    }
}

/// Folding preserves unit mass: masses multiply, and each factor is one.
pub proof fn lemma_fold_mass(cs: Seq<DiceBuilder>, op: OpKind)
    requires
        children_evaluable(cs),
    ensures
        rat_eqv(smass(spec_fold(cs, op)), rat_one()),
    decreases cs,
{
    broadcast use vstd::seq::axiom_seq_index_decreases;

    if cs.len() == 1 {
        lemma_eval_mass(cs[0]);
    } else {
        assert(children_evaluable(cs.drop_last())) by {
            assert(forall|i: int|
                0 <= i < cs.drop_last().len() ==> #[trigger] cs.drop_last()[i] == cs[i]);
        }
        lemma_fold_mass(cs.drop_last(), op);
        lemma_fold_wf(cs.drop_last(), op);
        lemma_eval_mass(cs.last());
        lemma_eval_wf(cs.last());
        let a = spec_fold(cs.drop_last(), op);
        let b = spec_eval(cs.last());
        let emp = Seq::<(int, Rat)>::empty();
        lemma_conv_mass(emp, a, b, op);
        lemma_smass_wf(a);
        lemma_smass_wf(b);
        let prod = rat_mul(smass(a), smass(b));
        crate::rat::lemma_add_zero(prod);
        lemma_mul_cong(smass(a), rat_one(), smass(b), rat_one());
        assert(rat_mul(rat_one(), rat_one()) == rat_one());
        lemma_mul_wf_pos(smass(a), smass(b));
        lemma_eqv_trans(smass(sconv(a, b, op)), prod, rat_one());
    }
}

/// The sample-sum fold preserves unit mass.
pub proof fn lemma_fold_ss_mass(cs: Seq<DiceBuilder>)
    requires
        children_evaluable(cs),
    ensures
        rat_eqv(smass(spec_fold_ss(cs)), rat_one()),
    decreases cs,
{
    broadcast use vstd::seq::axiom_seq_index_decreases;

    if cs.len() == 1 {
        lemma_eval_mass(cs[0]);
    } else {
        assert(children_evaluable(cs.drop_last())) by {
            assert(forall|i: int|
                0 <= i < cs.drop_last().len() ==> #[trigger] cs.drop_last()[i] == cs[i]);
        }
        lemma_fold_ss_mass(cs.drop_last());
        lemma_fold_ss_wf(cs.drop_last());
        lemma_eval_mass(cs.last());
        lemma_eval_wf(cs.last());
        let c = spec_fold_ss(cs.drop_last());
        let b = spec_eval(cs.last());
        let emp = Seq::<(int, Rat)>::empty();
        lemma_sss2_mass(emp, c, b);
        lemma_smass_wf(c);
        assert(smass(emp) == rat_zero());
        crate::rat::lemma_add_zero(smass(c));
        lemma_eqv_trans(smass(sss2_from(emp, c, b)), smass(c), rat_one());
    }
}

/// The distribution of a fair die: each outcome of `lo..=hi` with equal
/// probability; `None` when the bounds are inverted or the span leaves
/// `u64`.
fn fair_die_checked(lo: i64, hi: i64) -> (r: Option<Vec<(i64, Prob)>>)
    ensures
        r matches Some(v) ==> lo <= hi && (hi as int) - (lo as int) + 1 <= u64::MAX && vwf(v@)
            && spmf_equiv(pmf_view(v@), sdie(lo as int, hi as int)) && spmf_wf(sdie(lo as int,
            hi as int)),
        r is None ==> !(lo <= hi && (hi as int) - (lo as int) + 1 <= u64::MAX),
{
    if lo > hi {
        return None;
    }
    let span: i128 = (hi as i128) - (lo as i128) + 1;
    if span > u64::MAX as i128 {
        return None;
    }
    let ghost d = (hi as int) - (lo as int) + 1;
    proof {
        lemma_die_wf(lo as int, hi as int);
    }
    let n: u64 = span as u64;
    let p = Prob::new(1, n);
    let mut out: Vec<(i64, Prob)> = Vec::new();
    let mut k: u64 = 0;
    while k < n
        invariant
            0 <= k <= n,
            lo <= hi,
            d == (hi as int) - (lo as int) + 1,
            n as int == d,
            p.wf(),
            rat_eqv(p@, Rat { n: 1, d }),
            out@.len() == k,
            forall|m: int|
                0 <= m < k ==> (#[trigger] pmf_view(out@)[m]).0 == lo as int + m && rat_eqv(
                    pmf_view(out@)[m].1, Rat { n: 1, d }) && rat_wf(pmf_view(out@)[m].1),
        decreases n - k,
    {
        let v: i64 = ((lo as i128) + (k as i128)) as i64;
        let pc = p.clone();
        let ghost before = out@;
        out.push((v, pc));
        proof {
            assert(out@ == before.push((v, pc)));
            assert forall|m: int| 0 <= m < k implies #[trigger] pmf_view(out@)[m] == pmf_view(
                before)[m] by {
                assert(out@[m] == before[m]);
            }
            assert(out@[k as int] == (v, pc));
            assert(pmf_view(out@)[k as int] == (v as int, pc@));
        }
        k += 1;
    }
    proof {
        let target = sdie(lo as int, hi as int);
        assert forall|m: int| 0 <= m < target.len() implies (#[trigger] pmf_view(out@)[m]).0
            == target[m].0 && rat_eqv(pmf_view(out@)[m].1, target[m].1) by {
            assert(target[m] == (lo as int + m, Rat { n: 1, d }));
        }
        assert(spmf_equiv(pmf_view(out@), target));
        lemma_wf_equiv(target, pmf_view(out@));
    }
    Some(out)
}

/// Fold every negative outcome onto its positive counterpart; `None`
/// exactly when some folded value would leave `i64`.
fn absolute_checked(m: &Vec<(i64, Prob)>, Ghost(sm): Ghost<Seq<(int, Rat)>>) -> (r: Option<Vec<
    (i64, Prob)>>)
    requires
        vwf(m@),
        spmf_wf(sm),
        spmf_equiv(pmf_view(m@), sm),
    ensures
        r matches Some(v) ==> abs_ok(sm) && vwf(v@) && spmf_equiv(pmf_view(v@),
            sabs_from(Seq::<(int, Rat)>::empty(), sm)) && spmf_wf(sabs_from(
            Seq::<(int, Rat)>::empty(), sm)),
        r is None ==> !abs_ok(sm),
{
    let mut c: usize = 0;
    while c < m.len()
        invariant
            0 <= c <= m@.len(),
            vwf(m@),
            spmf_equiv(pmf_view(m@), sm),
            forall|j: int| 0 <= j < c ==> iabs((#[trigger] sm[j]).0) <= i64::MAX,
        decreases m@.len() - c,
    {
        proof {
            assert(pmf_view(m@)[c as int].0 == m@[c as int].0 as int);
            assert(pmf_view(m@)[c as int].0 == sm[c as int].0);
        }
        if m[c].0 == i64::MIN {
            proof {
                assert(iabs(sm[c as int].0) > i64::MAX);
                assert(!abs_ok(sm));
            }
            return None;
        }
        c += 1;
    }
    let ghost emp = Seq::<(int, Rat)>::empty();
    let mut total: Vec<(i64, Prob)> = Vec::new();
    proof {
        assert(abs_ok(sm));
        assert(pmf_view(total@) =~= emp);
        assert(sm.take(0) =~= emp);
        assert(sabs_from(emp, sm.take(0)) == emp);
    }
    let mut j: usize = 0;
    while j < m.len()
        invariant
            0 <= j <= m@.len(),
            vwf(m@),
            spmf_wf(sm),
            spmf_equiv(pmf_view(m@), sm),
            abs_ok(sm),
            emp == Seq::<(int, Rat)>::empty(),
            vwf(total@),
            spmf_wf(sabs_from(emp, sm.take(j as int))),
            spmf_equiv(pmf_view(total@), sabs_from(emp, sm.take(j as int))),
        decreases m@.len() - j,
    {
        let ghost aj = sabs_from(emp, sm.take(j as int));
        proof {
            assert(pmf_view(m@)[j as int].0 == m@[j as int].0 as int);
            assert(pmf_view(m@)[j as int].0 == sm[j as int].0);
            assert(iabs(sm[j as int].0) <= i64::MAX);
            assert(pmf_view(m@)[j as int].1 == m@[j as int].1@);
            assert(rat_eqv(m@[j as int].1@, sm[j as int].1));
            crate::rat::lemma_pos_cong(sm[j as int].1, m@[j as int].1@);
        }
        let key = m[j].0;
        let k2: i64 = if key < 0 {
            -key
        } else {
            key
        };
        let p = m[j].1.clone();
        proof {
            assert(k2 as int == iabs(sm[j as int].0));
        }
        let ghost before = pmf_view(total@);
        pmf_put(&mut total, k2, p);
        proof {
            lemma_sput_cong(before, aj, k2 as int, p@, sm[j as int].1);
            lemma_equiv_trans(pmf_view(total@), sput(before, k2 as int, p@),
                sput(aj, k2 as int, sm[j as int].1));
            lemma_sput_wf(aj, k2 as int, sm[j as int].1);
            assert(sm.take(j + 1).drop_last() =~= sm.take(j as int));
            assert(sm.take(j + 1).last() == sm[j as int]);
            assert(sabs_from(emp, sm.take(j + 1)) == sput(aj, iabs(sm[j as int].0),
                sm[j as int].1));
        }
        j += 1;
    }
    proof {
        assert(sm.take(m@.len() as int) =~= sm);
    }
    Some(total)
}

/// The distribution of the sum of `k` independent draws from `b`;
/// `None` exactly when some intermediate sum would leave `i64`.
fn sample_fold_checked(b: &Vec<(i64, Prob)>, k: u64, Ghost(sb): Ghost<Seq<(int, Rat)>>) -> (r:
    Option<Vec<(i64, Prob)>>)
    requires
        vwf(b@),
        spmf_wf(sb),
        sb.len() > 0,
        spmf_equiv(pmf_view(b@), sb),
    ensures
        r matches Some(v) ==> (forall|m: int|
            0 <= m < k ==> conv_ok(#[trigger] skfold(sb, m as nat), sb, OpKind::Add)) && vwf(v@)
            && spmf_equiv(pmf_view(v@), skfold(sb, k as nat)) && spmf_wf(skfold(sb, k as nat)),
        r is None ==> exists|m: int|
            0 <= m < k && !conv_ok(#[trigger] skfold(sb, m as nat), sb, OpKind::Add),
{
    proof {
        lemma_kfold_wf(sb, 0);
    }
    let mut acc: Vec<(i64, Prob)> = Vec::new();
    let one = Prob::one();
    acc.push((0, one));
    proof {
        assert(acc@.len() == 1);
        assert(pmf_view(acc@)[0] == (0int, rat_one()));
        assert(skfold(sb, 0) == seq![(0int, rat_one())]);
        assert(spmf_equiv(pmf_view(acc@), skfold(sb, 0)));
        lemma_wf_equiv(skfold(sb, 0), pmf_view(acc@));
    }
    let mut j: u64 = 0;
    while j < k
        invariant
            0 <= j <= k,
            vwf(b@),
            spmf_wf(sb),
            sb.len() > 0,
            spmf_equiv(pmf_view(b@), sb),
            vwf(acc@),
            spmf_wf(skfold(sb, j as nat)),
            spmf_equiv(pmf_view(acc@), skfold(sb, j as nat)),
            forall|m: int| 0 <= m < j ==> conv_ok(#[trigger] skfold(sb, m as nat), sb,
                OpKind::Add),
        decreases k - j,
    {
        let next = match convolute_two_checked(&acc, b, OpKind::Add, Ghost(skfold(sb, j as nat)),
            Ghost(sb)) {
            Some(v) => v,
            None => {
                proof {
                    let mi: int = j as int;
                    assert(mi as nat == j as nat);
                    assert(0 <= mi < k && !conv_ok(skfold(sb, mi as nat), sb, OpKind::Add));
                }
                return None;
            },
        };
        acc = next;
        proof {
            assert(skfold(sb, (j + 1) as nat) == sconv(skfold(sb, j as nat), sb, OpKind::Add));
            lemma_kfold_wf(sb, (j + 1) as nat);
            let mi: int = j as int;
            assert(mi as nat == j as nat);
            assert(conv_ok(skfold(sb, mi as nat), sb, OpKind::Add));
            assert forall|m: int| 0 <= m < j + 1 implies conv_ok(#[trigger] skfold(sb, m as nat),
                sb, OpKind::Add) by {
                if m < j {
                } else {
                    assert(m == mi);
                }
            }
        }
        j += 1;
    }
    Some(acc)
}

/// `ss_pair_ok` restricted to the first `bound` count entries.
pub open spec fn ss_pair_ok_upto(c: Seq<(int, Rat)>, b: Seq<(int, Rat)>, bound: int) -> bool {
    forall|i: int, k: int|
        0 <= i < bound && 0 <= k < iabs((#[trigger] c[i]).0) ==> conv_ok(
            #[trigger] skfold(b, k as nat), b, OpKind::Add)
}

/// Sample-sum of a count distribution over a sample distribution;
/// `None` exactly when some demanded k-fold sum would leave `i64`.
fn sample_sum_checked(
    c: &Vec<(i64, Prob)>,
    b: &Vec<(i64, Prob)>,
    Ghost(sc): Ghost<Seq<(int, Rat)>>,
    Ghost(sb): Ghost<Seq<(int, Rat)>>,
) -> (r: Option<Vec<(i64, Prob)>>)
    requires
        vwf(c@),
        vwf(b@),
        spmf_wf(sc),
        spmf_wf(sb),
        sb.len() > 0,
        spmf_equiv(pmf_view(c@), sc),
        spmf_equiv(pmf_view(b@), sb),
    ensures
        r matches Some(v) ==> ss_pair_ok(sc, sb) && vwf(v@) && spmf_equiv(pmf_view(v@),
            sss2_from(Seq::<(int, Rat)>::empty(), sc, sb)) && spmf_wf(sss2_from(
            Seq::<(int, Rat)>::empty(), sc, sb)),
        r is None ==> !ss_pair_ok(sc, sb),
{
    let ghost emp = Seq::<(int, Rat)>::empty();
    let mut total: Vec<(i64, Prob)> = Vec::new();
    proof {
        assert(pmf_view(total@) =~= emp);
        assert(sc.take(0) =~= emp);
        assert(sss2_from(emp, sc.take(0), sb) == emp);
    }
    let mut i: usize = 0;
    while i < c.len()
        invariant
            0 <= i <= c@.len(),
            vwf(c@),
            vwf(b@),
            spmf_wf(sc),
            spmf_wf(sb),
            sb.len() > 0,
            spmf_equiv(pmf_view(c@), sc),
            spmf_equiv(pmf_view(b@), sb),
            emp == Seq::<(int, Rat)>::empty(),
            vwf(total@),
            spmf_wf(sss2_from(emp, sc.take(i as int), sb)),
            spmf_equiv(pmf_view(total@), sss2_from(emp, sc.take(i as int), sb)),
            ss_pair_ok_upto(sc, sb, i as int),
        decreases c@.len() - i,
    {
        proof {
            assert(pmf_view(c@)[i as int].0 == c@[i as int].0 as int);
            assert(pmf_view(c@)[i as int].0 == sc[i as int].0);
            assert(pmf_view(c@)[i as int].1 == c@[i as int].1@);
            assert(rat_eqv(c@[i as int].1@, sc[i as int].1));
        }
        let cnt = c[i].0;
        let ku: u64 = if cnt < 0 {
            (-(cnt as i128)) as u64
        } else {
            cnt as u64
        };
        proof {
            assert(ku as int == iabs(sc[i as int].0));
        }
        let kf = match sample_fold_checked(b, ku, Ghost(sb)) {
            Some(v) => v,
            None => {
                proof {
                    let m = choose|m: int|
                        0 <= m < ku && !conv_ok(#[trigger] skfold(sb, m as nat), sb,
                            OpKind::Add);
                    assert(0 <= i < sc.len() && 0 <= m < iabs(sc[i as int].0));
                    assert(!ss_pair_ok(sc, sb));
                }
                return None;
            },
        };
        let scaled = scale_distribution(&kf, &c[i].1, Ghost(skfold(sb, ku as nat)),
            Ghost(sc[i as int].1));
        let ghost s_scaled = sscale(skfold(sb, ku as nat), sc[i as int].1);
        let ghost s_tot = sss2_from(emp, sc.take(i as int), sb);
        merge_distributions(&mut total, &scaled, Ghost(s_tot), Ghost(s_scaled));
        proof {
            assert(sc.take(i + 1).drop_last() =~= sc.take(i as int));
            assert(sc.take(i + 1).last() == sc[i as int]);
            assert(sss2_from(emp, sc.take(i + 1), sb) == smerge(s_tot,
                sscale(skfold(sb, iabs(sc[i as int].0) as nat), sc[i as int].1)));
            assert(iabs(sc[i as int].0) as nat == ku as nat);
            assert forall|i2: int, k2: int|
                0 <= i2 < i + 1 && 0 <= k2 < iabs((#[trigger] sc[i2]).0) implies conv_ok(
                #[trigger] skfold(sb, k2 as nat), sb, OpKind::Add) by {
                if i2 == i {
                    assert(k2 < ku);
                }
            }
        }
        i += 1;
    }
    proof {
        assert(sc.take(c@.len() as int) =~= sc);
        assert(ss_pair_ok(sc, sb));
    }
    Some(total)
}

/// Try to evaluate an expression tree with overflow-checked arithmetic:
/// the exact distribution when the tree is evaluable, `None` exactly
/// when it is not.
fn try_eval(t: &DiceBuilder) -> (r: Option<Vec<(i64, Prob)>>)
    ensures
        r matches Some(v) ==> evaluable(*t) && vwf(v@) && spmf_equiv(pmf_view(v@), spec_eval(*t))
            && spmf_wf(spec_eval(*t)) && v@.len() >= 1,
        r is None ==> !evaluable(*t),
    decreases *t,
{
    match t {
        DiceBuilder::Constant(v) => {
            let mut out: Vec<(i64, Prob)> = Vec::new();
            let one = Prob::one();
            out.push((*v, one));
            proof {
                lemma_eval_wf(*t);
                assert(out@.len() == 1);
                assert(pmf_view(out@)[0] == (*v as int, rat_one()));
                assert(spec_eval(*t) == seq![(*v as int, rat_one())]);
                assert(spmf_equiv(pmf_view(out@), spec_eval(*t)));
                lemma_wf_equiv(spec_eval(*t), pmf_view(out@));
            }
            Some(out)
        },
        DiceBuilder::FairDie { min, max } => {
            let r = fair_die_checked(*min, *max);
            proof {
                if r is Some {
                    lemma_eval_wf(*t);
                }
            }
            r
        },
        DiceBuilder::SumCompound(cs) => try_fold(cs, OpKind::Add),
        DiceBuilder::ProductCompound(cs) => try_fold(cs, OpKind::Mul),
        DiceBuilder::DivisionCompound(cs) => try_fold(cs, OpKind::Div),
        DiceBuilder::MaxCompound(cs) => try_fold(cs, OpKind::Max),
        DiceBuilder::MinCompound(cs) => try_fold(cs, OpKind::Min),
        DiceBuilder::SampleSumCompound(cs) => try_fold_ss(cs),
        DiceBuilder::Absolute(c) => {
            let inner = match try_eval(&**c) {
                Some(v) => v,
                None => {
                    return None;
                },
            };
            let r = absolute_checked(&inner, Ghost(spec_eval(**c)));
            proof {
                if r is Some {
                    lemma_eval_wf(*t);
                }
            }
            r
        },
    }
}

/// Try to evaluate the children and reduce them by pairwise
/// convolution, left to right; `None` exactly when a child is not
/// evaluable or a combined outcome would leave `i64`.
fn try_fold(cs: &Vec<DiceBuilder>, op: OpKind) -> (r: Option<Vec<(i64, Prob)>>)
    ensures
        r matches Some(v) ==> children_evaluable(cs@) && spec_fold_ok(cs@, op) && vwf(v@)
            && spmf_equiv(pmf_view(v@), spec_fold(cs@, op)) && spmf_wf(spec_fold(cs@, op))
            && v@.len() >= 1,
        r is None ==> !(children_evaluable(cs@) && spec_fold_ok(cs@, op)),
    decreases cs@,
{
    broadcast use vstd::seq::axiom_seq_index_decreases;

    if cs.len() == 0 {
        return None;
    }
    let mut r = match try_eval(&cs[0]) {
        Some(v) => v,
        None => {
            proof {
                assert(!evaluable(cs@[0]));
                assert(!children_evaluable(cs@));
            }
            return None;
        },
    };
    proof {
        assert(cs@.take(1).len() == 1);
        assert(cs@.take(1)[0] == cs@[0]);
        assert(spec_fold(cs@.take(1), op) == spec_eval(cs@[0]));
        assert(spec_fold_ok(cs@.take(1), op));
        lemma_fold_wf(cs@.take(1), op);
    }
    let mut i: usize = 1;
    while i < cs.len()
        invariant
            1 <= i <= cs@.len(),
            vwf(r@),
            spmf_wf(spec_fold(cs@.take(i as int), op)),
            spmf_equiv(pmf_view(r@), spec_fold(cs@.take(i as int), op)),
            r@.len() >= 1,
            spec_fold(cs@.take(i as int), op).len() >= 1,
            forall|m: int| 0 <= m < i ==> evaluable(#[trigger] cs@[m]),
            spec_fold_ok(cs@.take(i as int), op),
        decreases cs@.len() - i,
    {
        let ci = match try_eval(&cs[i]) {
            Some(v) => v,
            None => {
                proof {
                    assert(!evaluable(cs@[i as int]));
                    assert(!children_evaluable(cs@));
                }
                return None;
            },
        };
        proof {
            assert(cs@.take(i + 1).drop_last() =~= cs@.take(i as int));
            assert(cs@.take(i + 1).last() == cs@[i as int]);
        }
        let rn = match convolute_two_checked(&r, &ci, op, Ghost(spec_fold(cs@.take(i as int),
            op)), Ghost(spec_eval(cs@[i as int]))) {
            Some(v) => v,
            None => {
                proof {
                    // a forbidden pair refutes the fold condition of the
                    // whole sequence through its prefix
                    assert(!spec_fold_ok(cs@, op)) by {
                        if spec_fold_ok(cs@, op) {
                            lemma_fold_ok_prefix(cs@, op, i + 1);
                            assert(spec_fold_ok(cs@.take(i + 1), op));
                            assert(conv_ok(spec_fold(cs@.take(i as int), op),
                                spec_eval(cs@[i as int]), op));
                        }
                    }
                }
                return None;
            },
        };
        r = rn;
        proof {
            assert(spec_fold(cs@.take(i + 1), op) == sconv(spec_fold(cs@.take(i as int), op),
                spec_eval(cs@[i as int]), op));
            assert(spec_fold_ok(cs@.take(i + 1), op));
            lemma_eval_wf(cs@[i as int]);
            lemma_conv_wf(Seq::<(int, Rat)>::empty(), spec_fold(cs@.take(i as int), op),
                spec_eval(cs@[i as int]), op);
        }
        i += 1;
    }
    proof {
        assert(cs@.take(cs@.len() as int) =~= cs@);
        assert(children_evaluable(cs@));
    }
    Some(r)
}

/// Try to evaluate the children and reduce them by the sample-sum rule,
/// left to right; `None` exactly when a child is not evaluable or some
/// demanded sum would leave `i64`.
fn try_fold_ss(cs: &Vec<DiceBuilder>) -> (r: Option<Vec<(i64, Prob)>>)
    ensures
        r matches Some(v) ==> children_evaluable(cs@) && spec_fold_ss_ok(cs@) && vwf(v@)
            && spmf_equiv(pmf_view(v@), spec_fold_ss(cs@)) && spmf_wf(spec_fold_ss(cs@))
            && v@.len() >= 1,
        r is None ==> !(children_evaluable(cs@) && spec_fold_ss_ok(cs@)),
    decreases cs@,
{
    broadcast use vstd::seq::axiom_seq_index_decreases;

    if cs.len() == 0 {
        return None;
    }
    let mut r = match try_eval(&cs[0]) {
        Some(v) => v,
        None => {
            proof {
                assert(!evaluable(cs@[0]));
                assert(!children_evaluable(cs@));
            }
            return None;
        },
    };
    proof {
        assert(cs@.take(1).len() == 1);
        assert(cs@.take(1)[0] == cs@[0]);
        assert(spec_fold_ss(cs@.take(1)) == spec_eval(cs@[0]));
        assert(spec_fold_ss_ok(cs@.take(1)));
        lemma_fold_ss_wf(cs@.take(1));
    }
    let mut i: usize = 1;
    while i < cs.len()
        invariant
            1 <= i <= cs@.len(),
            vwf(r@),
            spmf_wf(spec_fold_ss(cs@.take(i as int))),
            spmf_equiv(pmf_view(r@), spec_fold_ss(cs@.take(i as int))),
            r@.len() >= 1,
            spec_fold_ss(cs@.take(i as int)).len() >= 1,
            forall|m: int| 0 <= m < i ==> evaluable(#[trigger] cs@[m]),
            spec_fold_ss_ok(cs@.take(i as int)),
        decreases cs@.len() - i,
    {
        let ci = match try_eval(&cs[i]) {
            Some(v) => v,
            None => {
                proof {
                    assert(!evaluable(cs@[i as int]));
                    assert(!children_evaluable(cs@));
                }
                return None;
            },
        };
        proof {
            assert(cs@.take(i + 1).drop_last() =~= cs@.take(i as int));
            assert(cs@.take(i + 1).last() == cs@[i as int]);
            lemma_eval_wf(cs@[i as int]);
        }
        let rn = match sample_sum_checked(&r, &ci, Ghost(spec_fold_ss(cs@.take(i as int))),
            Ghost(spec_eval(cs@[i as int]))) {
            Some(v) => v,
            None => {
                proof {
                    assert(!spec_fold_ss_ok(cs@)) by {
                        if spec_fold_ss_ok(cs@) {
                            lemma_fold_ss_ok_prefix(cs@, i + 1);
                            assert(spec_fold_ss_ok(cs@.take(i + 1)));
                            assert(ss_pair_ok(spec_fold_ss(cs@.take(i as int)),
                                spec_eval(cs@[i as int])));
                        }
                    }
                }
                return None;
            },
        };
        r = rn;
        proof {
            assert(spec_fold_ss(cs@.take(i + 1)) == sss2_from(Seq::<(int, Rat)>::empty(),
                spec_fold_ss(cs@.take(i as int)), spec_eval(cs@[i as int])));
            assert(spec_fold_ss_ok(cs@.take(i + 1)));
            lemma_sss2_wf(Seq::<(int, Rat)>::empty(), spec_fold_ss(cs@.take(i as int)),
                spec_eval(cs@[i as int]));
        }
        i += 1;
    }
    proof {
        assert(cs@.take(cs@.len() as int) =~= cs@);
        assert(children_evaluable(cs@));
    }
    Some(r)
}

/// Evaluate an expression tree into its exact distribution.
pub fn eval_distribution(t: &DiceBuilder) -> (r: Vec<(i64, Prob)>)
    requires
        evaluable(*t),
    ensures
        vwf(r@),
        spmf_equiv(pmf_view(r@), spec_eval(*t)),
        spmf_wf(spec_eval(*t)),
        r@.len() >= 1,
{
    match try_eval(t) {
        Some(v) => v,
        None => {
            proof {
                assert(false);
            }
            Vec::new()
        },
    }
}

/// Whether the executable engine can evaluate this tree: die bounds are
/// ordered, every combinator has a child, every combined outcome fits an
/// `i64`, and no division sees a zero divisor.  This walks the whole
/// evaluation with overflow-checked arithmetic, so it costs as much as
/// building the distribution.
pub fn is_evaluable(t: &DiceBuilder) -> (r: bool)
    ensures
        r == evaluable(*t),
{
    match try_eval(t) {
        Some(_) => true,
        None => false,
    }
}

/// Sample-summing a constant count `k` over a distribution `x` yields
/// exactly the `|k|`-fold self-convolution of `x`'s distribution (the
/// point mass on zero when `k` is zero).
pub proof fn lemma_sample_sum_constant_count(t: DiceBuilder, k: i64, x: DiceBuilder)
    requires
        t matches DiceBuilder::SampleSumCompound(cs) && cs@ == seq![DiceBuilder::Constant(k), x],
        evaluable(x),
    ensures
        spec_eval(t) == skfold(spec_eval(x), iabs(k as int) as nat),
{
    let cs = t->SampleSumCompound_0;
    let b = spec_eval(x);
    lemma_eval_wf(x);
    assert(cs@.drop_last() =~= seq![DiceBuilder::Constant(k)]);
    assert(cs@.last() == x);
    assert(spec_fold_ss(seq![DiceBuilder::Constant(k)]) == spec_eval(
        DiceBuilder::Constant(k)));
    let c = seq![(k as int, rat_one())];
    assert(spec_eval(DiceBuilder::Constant(k)) == c);
    let emp = Seq::<(int, Rat)>::empty();
    assert(cs@.len() == 2);
    assert(spec_eval(t) == spec_fold_ss(cs@));
    assert(spec_fold_ss(cs@) == sss2_from(emp, spec_fold_ss(cs@.drop_last()),
        spec_eval(cs@.last())));
    assert(spec_fold_ss(cs@.drop_last()) == c);
    assert(spec_eval(cs@.last()) == b);
    assert(spec_eval(t) == sss2_from(emp, c, b));
    assert(c.drop_last() =~= emp);
    assert(sss2_from(emp, c.drop_last(), b) == emp);
    assert(c.last() == (k as int, rat_one()));
    assert(sss2_from(emp, c, b) == smerge(emp, sscale(skfold(b, iabs(k as int) as nat),
        rat_one())));
    lemma_scale_one(skfold(b, iabs(k as int) as nat));
    lemma_kfold_wf(b, iabs(k as int) as nat);
    lemma_merge_empty(skfold(b, iabs(k as int) as nat));
}

} // verus!
