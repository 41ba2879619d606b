//! Tests of the distribution laws, the documented scenarios, the error
//! taxonomy, and the statistics.

use dices::{Dice, DiceBuilder, DiceBuildingError, Prob};

#[test]
fn two_d6_parses_to_sample_sum() {
    let t = DiceBuilder::from_string("2d6").unwrap();
    let expected = DiceBuilder::SampleSumCompound(vec![
        DiceBuilder::Constant(2),
        DiceBuilder::FairDie { min: 1, max: 6 },
    ]);
    assert_eq!(t, expected);
}

#[test]
fn two_d6_has_mean_seven() {
    let d = Dice::build_from_string("2d6").unwrap();
    assert_eq!(d.mean, Prob::new(7u64, 1u64));
}

#[test]
fn max_of_constants_is_point_distribution() {
    let d = Dice::build_from_string("max(1,2,3)").unwrap();
    assert_eq!(d.distribution, vec![(3, Prob::new(1u64, 1u64))]);
}

#[test]
fn product_sum_formula_evaluates_to_twenty_six() {
    let d = Dice::build_from_string("4*5+2*3").unwrap();
    assert_eq!(d.distribution, vec![(26, Prob::new(1u64, 1u64))]);
}

#[test]
fn pmf_probabilities_sum_to_one() {
    for formula in ["2d6", "max(d6,d6)-min(d6,d6)", "d4xd5", "d6/2", "3w8-3"] {
        let d = Dice::build_from_string(formula).unwrap();
        let mut total = Prob::zero();
        for (_, p) in d.distribution.iter() {
            total = add_probs(&total, p);
        }
        assert_eq!(total, Prob::new(1u64, 1u64));
        assert_eq!(d.cumulative_distribution.last().unwrap().1, Prob::new(1u64, 1u64));
    }
}

/// exact sum of two probabilities, through the `fraction` crate
fn add_probs(a: &Prob, b: &Prob) -> Prob {
    let fa = to_fraction(a);
    let fb = to_fraction(b);
    from_fraction(&(fa + fb))
}

fn to_fraction(p: &Prob) -> fraction::BigFraction {
    let f = fraction::BigFraction::new(
        fraction::BigUint::from_slice(&p.num),
        fraction::BigUint::from_slice(&p.den),
    );
    if p.neg {
        -f
    } else {
        f
    }
}

fn from_fraction(f: &fraction::BigFraction) -> Prob {
    match f {
        fraction::GenericFraction::Rational(s, r) => Prob {
            neg: matches!(s, fraction::Sign::Minus),
            num: r.numer().to_u32_digits(),
            den: r.denom().to_u32_digits(),
        },
        _ => panic!("not a rational"),
    }
}

#[test]
fn determinism_same_input_same_output() {
    let a = DiceBuilder::from_string("max(2d6+4,d20)").unwrap();
    let b = DiceBuilder::from_string("max(2d6+4,d20)").unwrap();
    assert_eq!(a, b);
    let da = a.build();
    let db = b.build();
    assert_eq!(da.distribution, db.distribution);
    assert_eq!(da.cumulative_distribution, db.cumulative_distribution);
    assert_eq!(da.mean, db.mean);
    assert_eq!(da.variance, db.variance);
}

#[test]
fn complement_laws_hold_exactly() {
    let d = Dice::build_from_string("d4xd5").unwrap();
    for v in [-1, 0, 1, 5, 10, 20, 25] {
        let all = d.prob_all(v);
        let one = Prob::new(1u64, 1u64);
        assert_eq!(to_fraction(&all.gte), to_fraction(&one) - to_fraction(&d.prob_lt(v)));
        assert_eq!(to_fraction(&all.gt), to_fraction(&one) - to_fraction(&d.prob_lte(v)));
        assert_eq!(all.lt, d.prob_lt(v));
        assert_eq!(all.lte, d.prob_lte(v));
        assert_eq!(all.eq, d.prob(v));
    }
}

#[test]
fn round_trip_reconstructs_tree() {
    for formula in ["1xd6+7", "d6*3+d20", "max(d6,d6,d20)", "min(3,4)+2xd8"] {
        let t = DiceBuilder::from_string(formula).unwrap();
        let s = t.reconstruct_string();
        let t2 = DiceBuilder::from_string(&s).unwrap();
        assert_eq!(t, t2);
    }
}

#[test]
fn constant_sample_sum_is_self_convolution() {
    let ss = DiceBuilder::SampleSumCompound(vec![
        DiceBuilder::Constant(3),
        DiceBuilder::FairDie { min: 1, max: 4 },
    ]);
    let folded = DiceBuilder::SumCompound(vec![
        DiceBuilder::FairDie { min: 1, max: 4 },
        DiceBuilder::FairDie { min: 1, max: 4 },
        DiceBuilder::FairDie { min: 1, max: 4 },
    ]);
    assert_eq!(ss.build().distribution, folded.build().distribution);
}

#[test]
fn negative_sample_count_acts_by_absolute_value() {
    let neg = DiceBuilder::SampleSumCompound(vec![
        DiceBuilder::Constant(-2),
        DiceBuilder::FairDie { min: 1, max: 2 },
    ]);
    let pos = DiceBuilder::SampleSumCompound(vec![
        DiceBuilder::Constant(2),
        DiceBuilder::FairDie { min: 1, max: 2 },
    ]);
    assert_eq!(neg.build().distribution, pos.build().distribution);
}

#[test]
fn zero_sample_count_gives_point_mass_at_zero() {
    let ss = DiceBuilder::SampleSumCompound(vec![
        DiceBuilder::Constant(0),
        DiceBuilder::FairDie { min: 1, max: 20 },
    ]);
    assert_eq!(ss.build().distribution, vec![(0, Prob::new(1u64, 1u64))]);
}

#[test]
fn rounded_division_matches_rounded_div_crate() {
    let d = Dice::build_from_string("d6/2").unwrap();
    let expected: Vec<i64> = (1..=6).map(|v| rounded_div::i64(v, 2)).collect();
    assert_eq!(expected, vec![1, 1, 2, 2, 3, 3]);
    assert_eq!(
        d.distribution,
        vec![
            (1, Prob::new(2u64, 6u64)),
            (2, Prob::new(2u64, 6u64)),
            (3, Prob::new(2u64, 6u64)),
        ]
    );
}

#[test]
fn absolute_folds_negative_outcomes() {
    let t = DiceBuilder::Absolute(Box::new(DiceBuilder::FairDie { min: -2, max: 2 }));
    let d = t.build();
    assert_eq!(
        d.distribution,
        vec![
            (0, Prob::new(1u64, 5u64)),
            (1, Prob::new(2u64, 5u64)),
            (2, Prob::new(2u64, 5u64)),
        ]
    );
}

#[test]
fn statistics_of_two_d6() {
    let d = Dice::build_from_string("2d6").unwrap();
    assert_eq!(d.min, 2);
    assert_eq!(d.max, 12);
    assert_eq!(d.median, 7);
    assert_eq!(d.mode, vec![7]);
    assert_eq!(d.variance, Prob::new(35u64, 6u64));
}

#[test]
fn mode_collects_ties_in_descending_order() {
    let d = Dice::build_from_string("d6").unwrap();
    assert_eq!(d.mode, vec![6, 5, 4, 3, 2, 1]);
}

#[test]
fn roll_selects_first_outcome_reaching_the_draw() {
    let d = Dice::build_from_string("2d6").unwrap();
    // a zero draw selects the smallest outcome
    assert_eq!(d.roll_with(&Prob::new(0, 1)), 2);
    // cumulative probability of 6 is 15/36, of 7 is 21/36
    assert_eq!(d.roll_with(&Prob::new(15, 36)), 6);
    assert_eq!(d.roll_with(&Prob::new(16, 36)), 7);
    assert_eq!(d.roll_with(&Prob::new(1, 2)), 7);
    // a draw above the second-to-last cumulative probability selects the
    // largest outcome
    assert_eq!(d.roll_with(&Prob::new(36, 37)), 12);
}

#[test]
fn rolls_stay_in_the_support() {
    let d = Dice::build_from_string("2d6").unwrap();
    for _ in 0..50 {
        let x: u32 = rand::random();
        let r = d.roll_with(&Prob::new(x as u64, 4294967296));
        assert!((2..=12).contains(&r));
    }
    let draws: Vec<Prob> = (0..10)
        .map(|_| {
            let x: u32 = rand::random();
            Prob::new(x as u64, 4294967296)
        })
        .collect();
    let many = d.roll_with_many(&draws);
    assert_eq!(many.len(), 10);
    for r in many {
        assert!((2..=12).contains(&r));
    }
}

#[test]
fn is_evaluable_decides_the_build_precondition() {
    // an ordinary formula evaluates
    let good = DiceBuilder::from_string("max(2d6+4,d20)").unwrap();
    assert!(good.is_evaluable());
    // inverted die bounds do not
    let inverted = DiceBuilder::FairDie { min: 3, max: 1 };
    assert!(!inverted.is_evaluable());
    // a die of no sides does not
    let empty_die = DiceBuilder::from_string("d0").unwrap();
    assert!(!empty_die.is_evaluable());
    // a product beyond the 64-bit range does not
    let huge = DiceBuilder::ProductCompound(vec![
        DiceBuilder::Constant(i64::MAX),
        DiceBuilder::Constant(3),
    ]);
    assert!(!huge.is_evaluable());
    // a division whose divisor can be zero does not
    let div_zero = DiceBuilder::from_string("d6/(d2-1)").unwrap();
    assert!(!div_zero.is_evaluable());
    // an empty combinator does not
    let empty = DiceBuilder::SumCompound(Vec::new());
    assert!(!empty.is_evaluable());
    // the absolute value of the most negative outcome does not fit
    let abs_min = DiceBuilder::Absolute(Box::new(DiceBuilder::Constant(i64::MIN)));
    assert!(!abs_min.is_evaluable());
}

#[test]
fn build_time_is_left_to_the_host() {
    let d = Dice::build_from_string("d6").unwrap();
    assert_eq!(d.build_time, 0);
}

#[test]
fn error_variants_are_reported() {
    assert_eq!(
        DiceBuilder::from_string(""),
        Err(DiceBuildingError::EmptySubSequence)
    );
    assert_eq!(
        DiceBuilder::from_string("3**4"),
        Err(DiceBuildingError::MultipleOperatorsBehindEachOther)
    );
    // a doubled `+` is purged back to a plain sum
    assert_eq!(
        DiceBuilder::from_string("3++4"),
        Ok(DiceBuilder::SumCompound(vec![
            DiceBuilder::Constant(3),
            DiceBuilder::Constant(4),
        ]))
    );
    assert_eq!(
        DiceBuilder::from_string("3)4+4"),
        Err(DiceBuildingError::NegativeScope)
    );
    assert_eq!(
        DiceBuilder::from_string("dx3"),
        Err(DiceBuildingError::NonDigitSymbolAfterDiceD)
    );
    assert_eq!(
        DiceBuilder::from_string("99999999999999999999"),
        Err(DiceBuildingError::NonDigitNumericCharacter)
    );
    assert_eq!(
        DiceBuilder::from_string("2?4"),
        Err(DiceBuildingError::InvalidCharacterInInput('?'))
    );
    match DiceBuilder::from_string(",") {
        Err(DiceBuildingError::OneInputSymbolButNotAtomic(_)) => {}
        other => panic!("unexpected result {:?}", other),
    }
    match DiceBuilder::from_string("(3") {
        Err(DiceBuildingError::UnknownSyntaxError(_)) => {}
        other => panic!("unexpected result {:?}", other),
    }
}

#[test]
fn builder_and_build_from_string_agree() {
    let t = Dice::builder("d4+1").unwrap();
    let d1 = t.build();
    let d2 = Dice::build_from_string("d4+1").unwrap();
    assert_eq!(d1.distribution, d2.distribution);
    assert_eq!(d1.builder_string, "d4+1");
}
