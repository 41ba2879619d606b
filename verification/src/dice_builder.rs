//! The expression tree of a dice formula, and its exact meaning.
//!
//! [`spec_eval`] gives every tree its distribution as a specification
//! value: a sequence of `(outcome, probability)` pairs in ascending
//! outcome order.  [`evaluable`] says when the executable engine may
//! evaluate a tree: die bounds are ordered, every combined outcome fits an
//! `i64`, and no division sees a zero divisor.

use vstd::prelude::*;

use crate::pmf::{conv_ok, iabs, sabs_from, sconv, sdie, skfold, sss2_from, OpKind};
use crate::rat::{rat_one, Rat};

verus! {

broadcast use vstd::seq::axiom_seq_index_decreases, vstd::std_specs::vec::axiom_vec_decreases_to_view;

/// an outcome of a distribution
pub type Value = i64;

/// A tree-like structure representing the components of a dice formula
/// like `max(2d6+4,d20)`.
///
/// Every n-ary variant owns at least one child when built by the parser;
/// `build()` reduces the children by successive pairwise convolution.
#[derive(Debug, PartialEq, Eq)]
pub enum DiceBuilder {
    /// a constant integer value
    Constant(Value),
    /// a discrete uniform distribution over the inclusive interval `[min, max]`
    FairDie {
        /// minimum value of the die, inclusive
        min: Value,
        /// maximum value of the die, inclusive
        max: Value,
    },
    /// the sum of the children, like `d6 + 3 + d20`
    SumCompound(Vec<DiceBuilder>),
    /// the product of the children, like `d6 * 3 * d20`
    ProductCompound(Vec<DiceBuilder>),
    /// left-associative rounded integer division, like `d6 / 2`
    DivisionCompound(Vec<DiceBuilder>),
    /// the maximum of the children, like `max(d6,3,d20)`
    MaxCompound(Vec<DiceBuilder>),
    /// the minimum of the children, like `min(d6,3,d20)`
    MinCompound(Vec<DiceBuilder>),
    /// left-associative sample-sum, written `x`: the left operand's
    /// sampled value determines how many times the right operand is
    /// sampled and summed
    SampleSumCompound(Vec<DiceBuilder>),
    /// all negative outcomes of the child folded onto their positive
    /// counterparts
    Absolute(Box<DiceBuilder>),
}

/// The exact distribution of an expression tree.
pub open spec fn spec_eval(t: DiceBuilder) -> Seq<(int, Rat)>
    decreases t,
{
    match t {
        DiceBuilder::Constant(v) => seq![(v as int, rat_one())],
        DiceBuilder::FairDie { min, max } => sdie(min as int, max as int),
        DiceBuilder::SumCompound(cs) => spec_fold(cs@, OpKind::Add),
        DiceBuilder::ProductCompound(cs) => spec_fold(cs@, OpKind::Mul),
        DiceBuilder::DivisionCompound(cs) => spec_fold(cs@, OpKind::Div),
        DiceBuilder::MaxCompound(cs) => spec_fold(cs@, OpKind::Max),
        DiceBuilder::MinCompound(cs) => spec_fold(cs@, OpKind::Min),
        DiceBuilder::SampleSumCompound(cs) => spec_fold_ss(cs@),
        DiceBuilder::Absolute(c) => sabs_from(Seq::<(int, Rat)>::empty(), spec_eval(*c)),
    }
}

/// Left fold of pairwise convolution over the children's distributions.
pub open spec fn spec_fold(cs: Seq<DiceBuilder>, op: OpKind) -> Seq<(int, Rat)>
    decreases cs,
{
    if cs.len() == 0 {
        Seq::<(int, Rat)>::empty()
    } else if cs.len() == 1 {
        spec_eval(cs[0])
    } else {
        sconv(spec_fold(cs.drop_last(), op), spec_eval(cs.last()), op)
    }
}

/// Left fold of the sample-sum rule over the children's distributions.
pub open spec fn spec_fold_ss(cs: Seq<DiceBuilder>) -> Seq<(int, Rat)>
    decreases cs,
{
    if cs.len() == 0 {
        Seq::<(int, Rat)>::empty()
    } else if cs.len() == 1 {
        spec_eval(cs[0])
    } else {
        sss2_from(Seq::<(int, Rat)>::empty(), spec_fold_ss(cs.drop_last()),
            spec_eval(cs.last()))
    }
}

/// every convolution step of the left fold combines in-range outcomes
pub open spec fn spec_fold_ok(cs: Seq<DiceBuilder>, op: OpKind) -> bool
    decreases cs,
{
    if cs.len() <= 1 {
        true
    } else {
        spec_fold_ok(cs.drop_last(), op) && conv_ok(spec_fold(cs.drop_last(), op),
            spec_eval(cs.last()), op)
    }
}

/// every k-fold self-convolution demanded by a count distribution stays
/// within `i64` outcomes
pub open spec fn ss_pair_ok(c: Seq<(int, Rat)>, b: Seq<(int, Rat)>) -> bool {
    forall|i: int, k: int|
        0 <= i < c.len() && 0 <= k < iabs((#[trigger] c[i]).0) ==> conv_ok(
            #[trigger] skfold(b, k as nat), b, OpKind::Add)
}

/// every sample-sum step of the left fold stays within `i64` outcomes
pub open spec fn spec_fold_ss_ok(cs: Seq<DiceBuilder>) -> bool
    decreases cs,
{
    if cs.len() <= 1 {
        true
    } else {
        spec_fold_ss_ok(cs.drop_last()) && ss_pair_ok(spec_fold_ss(cs.drop_last()),
            spec_eval(cs.last()))
    }
}

/// every folded absolute value stays within `i64`
pub open spec fn abs_ok(m: Seq<(int, Rat)>) -> bool {
    forall|i: int| 0 <= i < m.len() ==> iabs((#[trigger] m[i]).0) <= i64::MAX
}

/// The executable engine can evaluate this tree: die bounds are ordered,
/// every combinator has a child, every combined outcome fits an `i64`,
/// and no division sees a zero divisor.
pub open spec fn evaluable(t: DiceBuilder) -> bool
    decreases t,
{
    match t {
        DiceBuilder::Constant(_) => true,
        DiceBuilder::FairDie { min, max } => min <= max && (max as int) - (min as int) + 1
            <= u64::MAX,
        DiceBuilder::SumCompound(cs) => children_evaluable(cs@) && spec_fold_ok(cs@, OpKind::Add),
        DiceBuilder::ProductCompound(cs) => children_evaluable(cs@) && spec_fold_ok(cs@,
            OpKind::Mul),
        DiceBuilder::DivisionCompound(cs) => children_evaluable(cs@) && spec_fold_ok(cs@,
            OpKind::Div),
        DiceBuilder::MaxCompound(cs) => children_evaluable(cs@) && spec_fold_ok(cs@, OpKind::Max),
        DiceBuilder::MinCompound(cs) => children_evaluable(cs@) && spec_fold_ok(cs@, OpKind::Min),
        DiceBuilder::SampleSumCompound(cs) => children_evaluable(cs@) && spec_fold_ss_ok(cs@),
        DiceBuilder::Absolute(c) => evaluable(*c) && abs_ok(spec_eval(*c)),
    }
}

/// the sequence is nonempty and every child can be evaluated
pub open spec fn children_evaluable(cs: Seq<DiceBuilder>) -> bool
    decreases cs,
{
    cs.len() >= 1 && (forall|i: int| 0 <= i < cs.len() ==> evaluable(#[trigger] cs[i]))
}


/// the decimal digit character for `d` in `0..=9`
pub open spec fn digit_char(d: int) -> char {
    if d == 0 {
        '0'
    } else if d == 1 {
        '1'
    } else if d == 2 {
        '2'
    } else if d == 3 {
        '3'
    } else if d == 4 {
        '4'
    } else if d == 5 {
        '5'
    } else if d == 6 {
        '6'
    } else if d == 7 {
        '7'
    } else if d == 8 {
        '8'
    } else {
        '9'
    }
}

/// the decimal digits of `n`, most significant first
pub open spec fn spec_digits(n: nat) -> Seq<char>
    decreases n,
{
    if n < 10 {
        seq![digit_char(n as int)]
    } else {
        spec_digits(n / 10).push(digit_char((n % 10) as int))
    }
}

/// the decimal rendering of `v`, with a leading minus sign when negative
pub open spec fn spec_int_chars(v: int) -> Seq<char> {
    if v < 0 {
        seq!['-'] + spec_digits((-v) as nat)
    } else {
        spec_digits(v as nat)
    }
}

/// The formula string of a tree: constants as digits, dice with minimum 1
/// as `d<max>` (other dice have no textual form and render empty), n-ary
/// combinators joined by their operator, `max(...)`/`min(...)` with
/// comma-joined children, and `abs(...)` for the absolute value.
pub open spec fn spec_render(t: DiceBuilder) -> Seq<char>
    decreases t,
{
    match t {
        DiceBuilder::Constant(v) => spec_int_chars(v as int),
        DiceBuilder::FairDie { min, max } => if min == 1 {
            seq!['d'] + spec_int_chars(max as int)
        } else {
            Seq::<char>::empty()
        },
        DiceBuilder::SumCompound(cs) => spec_render_list(cs@, '+'),
        DiceBuilder::ProductCompound(cs) => spec_render_list(cs@, '*'),
        DiceBuilder::DivisionCompound(cs) => spec_render_list(cs@, '/'),
        DiceBuilder::MaxCompound(cs) => seq!['m', 'a', 'x', '('] + spec_render_list(cs@, ',')
            + seq![')'],
        DiceBuilder::MinCompound(cs) => seq!['m', 'i', 'n', '('] + spec_render_list(cs@, ',')
            + seq![')'],
        DiceBuilder::SampleSumCompound(cs) => spec_render_list(cs@, 'x'),
        DiceBuilder::Absolute(c) => seq!['a', 'b', 's', '('] + spec_render(*c) + seq![')'],
    }
}

/// the children's renderings joined by `sep`
pub open spec fn spec_render_list(cs: Seq<DiceBuilder>, sep: char) -> Seq<char>
    decreases cs,
{
    if cs.len() == 0 {
        Seq::<char>::empty()
    } else if cs.len() == 1 {
        spec_render(cs[0])
    } else {
        spec_render_list(cs.drop_last(), sep) + seq![sep] + spec_render(cs.last())
    }
}

/// The character of a single decimal digit.
fn digit_exec(n: u64) -> (c: char)
    requires
        n < 10,
    ensures
        c == digit_char(n as int),
{
    if n == 0 {
        '0'
    } else if n == 1 {
        '1'
    } else if n == 2 {
        '2'
    } else if n == 3 {
        '3'
    } else if n == 4 {
        '4'
    } else if n == 5 {
        '5'
    } else if n == 6 {
        '6'
    } else if n == 7 {
        '7'
    } else if n == 8 {
        '8'
    } else {
        '9'
    }
}

/// Append the decimal digits of `n`.
fn push_digits(out: &mut Vec<char>, n: u64)
    ensures
        final(out)@ == old(out)@ + spec_digits(n as nat),
    decreases n,
{
    if n < 10 {
        out.push(digit_exec(n));
        proof {
            assert(final(out)@ =~= old(out)@ + spec_digits(n as nat));
        }
    } else {
        push_digits(out, n / 10);
        out.push(digit_exec(n % 10));
        proof {
            assert(final(out)@ =~= old(out)@ + spec_digits(n as nat));
        }
    }
}

/// Append the decimal rendering of `v`, with its sign.
fn push_int_chars(out: &mut Vec<char>, v: i64)
    ensures
        final(out)@ == old(out)@ + spec_int_chars(v as int),
{
    if v < 0 {
        out.push('-');
        let m: u64 = (-(v as i128)) as u64;
        push_digits(out, m);
        proof {
            assert(m as nat == (-(v as int)) as nat);
            assert(final(out)@ =~= old(out)@ + spec_int_chars(v as int));
        }
    } else {
        push_digits(out, v as u64);
    }
}

/// Relies on `FromIterator` for `String`: collecting characters builds
/// the string of exactly those characters.
#[verifier::external_body]
pub(crate) fn chars_to_string(v: &Vec<char>) -> (s: String)
    ensures
        s@ == v@,
{
    v.iter().collect()
}

impl DiceBuilder {
    /// constructs a string from the `DiceBuilder` that can be used to
    /// reconstruct an equivalent `DiceBuilder` from it.
    ///
    /// currently fails to construct a correct string in case dices with a
    /// non-1 minimum are present, because there is no string notation for
    /// dices with a non-1 minimum yet: such a die renders as the empty
    /// string.
    pub fn reconstruct_string(&self) -> (s: String)
        ensures
            s@ == spec_render(*self),
    {
        let mut out: Vec<char> = Vec::new();
        render_into(self, &mut out);
        chars_to_string(&out)
    }

    /// the same formula string as `reconstruct_string`
    pub fn to_string(&self) -> (s: String)
        ensures
            s@ == spec_render(*self),
    {
        self.reconstruct_string()
    }
}

/// Append the formula string of `t`.
fn render_into(t: &DiceBuilder, out: &mut Vec<char>)
    ensures
        final(out)@ == old(out)@ + spec_render(*t),
    decreases *t,
{
    match t {
        DiceBuilder::Constant(v) => {
            push_int_chars(out, *v);
        },
        DiceBuilder::FairDie { min, max } => {
            if *min == 1 {
                out.push('d');
                push_int_chars(out, *max);
                proof {
                    assert(final(out)@ =~= old(out)@ + spec_render(*t));
                }
            } else {
                proof {
                    assert(final(out)@ =~= old(out)@ + spec_render(*t));
                }
            }
        },
        DiceBuilder::SumCompound(cs) => {
            render_list_into(cs, '+', out);
        },
        DiceBuilder::ProductCompound(cs) => {
            render_list_into(cs, '*', out);
        },
        DiceBuilder::DivisionCompound(cs) => {
            render_list_into(cs, '/', out);
        },
        DiceBuilder::SampleSumCompound(cs) => {
            render_list_into(cs, 'x', out);
        },
        DiceBuilder::MaxCompound(cs) => {
            out.push('m');
            out.push('a');
            out.push('x');
            out.push('(');
            render_list_into(cs, ',', out);
            out.push(')');
            proof {
                assert(final(out)@ =~= old(out)@ + spec_render(*t));
            }
        },
        DiceBuilder::MinCompound(cs) => {
            out.push('m');
            out.push('i');
            out.push('n');
            out.push('(');
            render_list_into(cs, ',', out);
            out.push(')');
            proof {
                assert(final(out)@ =~= old(out)@ + spec_render(*t));
            }
        },
        DiceBuilder::Absolute(c) => {
            out.push('a');
            out.push('b');
            out.push('s');
            out.push('(');
            render_into(&**c, out);
            out.push(')');
            proof {
                assert(final(out)@ =~= old(out)@ + spec_render(*t));
            }
        },
    }
}

/// Append the children's renderings joined by `sep`.
fn render_list_into(cs: &Vec<DiceBuilder>, sep: char, out: &mut Vec<char>)
    ensures
        final(out)@ == old(out)@ + spec_render_list(cs@, sep),
    decreases cs@,
{
    broadcast use vstd::seq::axiom_seq_index_decreases;

    let ghost base = out@;
    let mut i: usize = 0;
    while i < cs.len()
        invariant
            0 <= i <= cs@.len(),
            base == old(out)@,
            out@ == base + spec_render_list(cs@.take(i as int), sep),
        decreases cs@.len() - i,
    {
        if i > 0 {
            out.push(sep);
        }
        render_into(&cs[i], out);
        proof {
            if i == 0 {
                assert(cs@.take(1).len() == 1);
                assert(cs@.take(1)[0] == cs@[0]);
                assert(spec_render_list(cs@.take(1), sep) == spec_render(cs@[0]));
                assert(out@ =~= base + spec_render_list(cs@.take(i + 1), sep));
            } else {
                assert(cs@.take(i + 1).drop_last() =~= cs@.take(i as int));
                assert(cs@.take(i + 1).last() == cs@[i as int]);
                assert(spec_render_list(cs@.take(i + 1), sep) == spec_render_list(
                    cs@.take(i as int), sep) + seq![sep] + spec_render(cs@[i as int]));
                assert(out@ =~= base + spec_render_list(cs@.take(i + 1), sep));
            }
        }
        i += 1;
    }
    proof {
        assert(cs@.take(cs@.len() as int) =~= cs@);
    }
}


impl DiceBuilder {
    /// parses the string into a tree-like structure to create a
    /// `DiceBuilder`
    pub fn from_string(input: &str) -> (r: Result<DiceBuilder,
        crate::dice_string_parser::DiceBuildingError>)
        ensures
            crate::dice_string_parser::string_parse_rel(input@, r),
    {
        crate::dice_string_parser::string_to_factor(input)
    }

    /// Whether `build` may be called on this tree: die bounds are
    /// ordered, every combinator has a child, every combined outcome
    /// fits an `i64`, and no division sees a zero divisor.  This walks
    /// the whole evaluation with overflow-checked arithmetic, so it
    /// costs as much as building.
    pub fn is_evaluable(&self) -> (r: bool)
        ensures
            r == evaluable(*self),
    {
        crate::engine::is_evaluable(self)
    }

    /// builds a `Dice` from `self`
    ///
    /// this method calculates the distribution and all distribution
    /// parameters; depending on the complexity of the tree, heavy lifting
    /// like convoluting probability distributions may take place here.
    pub fn build(self) -> (d: crate::dice::Dice)
        requires
            evaluable(self),
        ensures
            d.wf(),
            crate::pmf::spmf_equiv(crate::engine::pmf_view(d.distribution@), spec_eval(self)),
            d.builder_string@ == spec_render(self),
            crate::rat::rat_eqv(d.mean@, crate::dice::smean(crate::engine::pmf_view(
                d.distribution@))),
            crate::rat::rat_eqv(d.variance@, crate::dice::svar(crate::engine::pmf_view(
                d.distribution@), d.mean@)),
            crate::dice::is_median(crate::engine::pmf_view(d.distribution@), d.median as int),
            d.mode@.len() >= 1,
    {
        crate::dice::Dice::from_builder(self)
    }

    /// shortcut for parsing and then building in one step
    pub fn build_from_string(input: &str) -> (r: Result<crate::dice::Dice,
        crate::dice_string_parser::DiceBuildingError>)
        requires
            crate::dice_string_parser::parsed_evaluable(input@),
        ensures
            match r {
                Ok(d) => d.wf() && (exists|t: DiceBuilder|
                    #[trigger] crate::dice_string_parser::string_parse_rel(input@, Ok(t))
                        && crate::pmf::spmf_equiv(crate::engine::pmf_view(d.distribution@),
                        spec_eval(t))),
                Err(e) => crate::dice_string_parser::string_parse_rel(input@, Err(e)),
            },
    {
        let builder = match DiceBuilder::from_string(input) {
            Ok(b) => b,
            Err(e) => {
                return Err(e);
            },
        };
        proof {
            assert(crate::dice_string_parser::string_parse_rel(input@, Ok(builder)));
            assert(evaluable(builder));
        }
        let ghost b0 = builder;
        let d = builder.build();
        proof {
            assert(crate::dice_string_parser::string_parse_rel(input@, Ok(b0))
                && crate::pmf::spmf_equiv(crate::engine::pmf_view(d.distribution@),
                spec_eval(b0)));
        }
        Ok(d)
    }
}

} // verus!
