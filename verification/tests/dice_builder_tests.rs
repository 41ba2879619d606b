//! Tests of building distributions from expression trees.

use fraction::{BigFraction, GenericFraction, ToPrimitive};

use dices::{Dice, DiceBuilder, Prob};

/// the library's probability value of a `fraction` rational
fn prob_of_fraction(f: &BigFraction) -> Prob {
    match f {
        GenericFraction::Rational(s, r) => Prob {
            neg: matches!(s, fraction::Sign::Minus),
            num: r.numer().to_u32_digits(),
            den: r.denom().to_u32_digits(),
        },
        _ => panic!("not a rational"),
    }
}

/// the `fraction` rational of the library's probability value
fn fraction_of_prob(p: &Prob) -> BigFraction {
    let f = BigFraction::new(
        fraction::BigUint::from_slice(&p.num),
        fraction::BigUint::from_slice(&p.den),
    );
    if p.neg {
        -f
    } else {
        f
    }
}

/// the uniform distribution over the listed outcomes, repeats adding up
fn unif(v: Vec<i64>) -> Vec<(i64, Prob)> {
    let mut map: std::collections::HashMap<i64, BigFraction> = std::collections::HashMap::new();
    let l = v.len();
    let prob = BigFraction::new(1u64, l as u64);
    for e in v.iter() {
        let entry = map
            .entry(*e)
            .or_insert_with(|| BigFraction::new(0u64, 1u64));
        *entry += prob.clone();
    }
    let mut distribution_vec: Vec<(i64, Prob)> =
        map.iter().map(|(k, f)| (*k, prob_of_fraction(f))).collect();
    distribution_vec.sort_by_key(|a| a.0);
    distribution_vec
}

#[test]
fn adding_distributions_coin_times_2() {
    let f1 = DiceBuilder::Constant(2);
    let f2 = DiceBuilder::FairDie { min: 0, max: 1 };
    let f3 = DiceBuilder::ProductCompound(vec![f1, f2]);
    let dice = f3.build();
    let d_vec = dice.distribution;
    assert_eq!(
        d_vec,
        vec![(0, Prob::new(1u64, 2u64)), (2, Prob::new(1u64, 2u64))]
    );
}

#[test]
fn adding_distributions_two_dice() {
    let f1 = DiceBuilder::FairDie { min: 1, max: 5 };
    let f2 = DiceBuilder::FairDie { min: 1, max: 5 };
    let f3 = DiceBuilder::SumCompound(vec![f1, f2]);
    let dice = f3.build();
    let d_vec = dice.distribution;
    println!("{:?}", d_vec);
    assert_eq!(d_vec[0], (2, Prob::new(1u64, 25u64)));
}

#[test]
fn adding_20_dice() {
    let mut f = DiceBuilder::Constant(0);
    for _ in 0..20 {
        f = DiceBuilder::SumCompound(vec![f, DiceBuilder::FairDie { min: 1, max: 6 }]);
    }

    let maxval = f.build().distribution.iter().map(|e| e.0).max().unwrap();

    assert_eq!(maxval, 120);
}

#[test]
fn sample_sum_convolute_1() {
    let f1 = DiceBuilder::Constant(2);
    let f2 = DiceBuilder::FairDie { min: 1, max: 2 };
    let f = DiceBuilder::SampleSumCompound(vec![f1, f2]);
    let dice = f.build();
    let d = dice.distribution;
    assert_eq!(d, unif(vec![2, 3, 3, 4]));
}

#[test]
fn sample_sum_convolute_2() {
    let f1 = DiceBuilder::FairDie { min: 1, max: 2 };
    let f2 = DiceBuilder::FairDie { min: 1, max: 2 };
    let f = DiceBuilder::SampleSumCompound(vec![f1, f2]);
    let dice = f.build();
    let d = dice.distribution;
    assert_eq!(d, unif(vec![1, 2, 1, 2, 2, 3, 3, 4]));
}

#[test]
fn sample_sum_convolute_3() {
    let f1 = DiceBuilder::FairDie { min: 0, max: 1 };
    let f2 = DiceBuilder::FairDie { min: 1, max: 2 };
    let f = DiceBuilder::SampleSumCompound(vec![f1, f2]);
    let dice = f.build();
    let d = dice.distribution;
    assert_eq!(d, unif(vec![0, 0, 1, 2]));
}

#[test]
fn sample_sum_convolute_4() {
    let f1 = DiceBuilder::Constant(0);
    let f2 = DiceBuilder::FairDie { min: 1, max: 6 };
    let f = DiceBuilder::SampleSumCompound(vec![f1, f2]);
    let dice = f.build();
    let d = dice.distribution;
    assert_eq!(d, unif(vec![0]));
}

#[test]
fn calculating_accumulated_distribution_test() {
    let dice_strings = vec!["1w6+1", "3w8-3", "max(1,2,3)"];

    let last_elements_of_acc_distr: Vec<Prob> = dice_strings
        .iter()
        .map(|e| {
            DiceBuilder::from_string(e)
                .unwrap()
                .build()
                .cumulative_distribution
                .last()
                .unwrap()
                .1
                .clone()
        })
        .collect();
    for e in last_elements_of_acc_distr {
        assert_eq!(e, Prob::new(1u64, 1u64));
    }
}

#[test]
fn test_dice_builder_to_string() {
    let string_in = "1xd6+7";
    let string_out = DiceBuilder::from_string(string_in).unwrap().to_string();
    assert_eq!(string_in, string_out)
}

#[test]
fn test_build_and_mean() {
    let dice_builder = DiceBuilder::from_string("2d6+4").unwrap();
    let dice = dice_builder.build();
    let mean = dice.mean;
    assert_eq!(fraction_of_prob(&mean).to_f64().unwrap(), 11.0);
}

#[test]
fn prob_tests() {
    let d = Dice::build_from_string("2w6").unwrap();
    assert_eq!(d.prob(7), Prob::new(1u64, 6u64));
    assert_eq!(d.prob_lt(7), Prob::new(15u64, 36u64));
    assert_eq!(d.prob_gt(7), Prob::new(15u64, 36u64));
    assert_eq!(d.prob_lte(7), Prob::new(21u64, 36u64));
    assert_eq!(d.prob_gte(7), Prob::new(21u64, 36u64));

    assert_eq!(d.prob_lt(-3), Prob::zero());
    assert_eq!(d.prob_lt(-3), Prob::zero());
}
