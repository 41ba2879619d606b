//! Tests of the lexer and parser, on both the raw-character and the
//! symbol-sequence stages.

use dices::{
    graph_seq_to_factor, input_symbols_to_graph_seq, partition_input_symbols_bracket_aware,
    string_to_factor, string_to_input_symbols, DiceBuilder, DiceBuildingError, GraphSeq,
};
use dices::AtomicInputSymbol::{Constant, FairDie};
use dices::ClosingInputSymbol::BClosing;
use dices::InputSymbol::{Atomic, Closing, Opening, Operator, Separator};
use dices::OpeningInputSymbol::MaxOpening;
use dices::OperatorInputSymbol::{Add, Mul, SampleSum};
use dices::SeparatorInputSymbol::Comma;

#[test]
fn clean_string_test() {
    let input = " max(3w6)        ".to_owned();
    let input = dices::clean_string(&input).unwrap();
    assert_eq!("M3xd6)", input);
}

#[test]
fn dice_string_parser_clean_string_test() {
    let input = r#" max(3w6)(3+4)+d3(d3)-3()  min(3,4)       "#.to_owned();
    let input = dices::clean_string(&input).unwrap();
    assert_eq!("M3xd6)x(3+4)+d3x(d3)-3x()xm3,4)", input);
}

#[test]
fn string_to_input_symbols_1() {
    let real = string_to_input_symbols("max(13,2)").unwrap();
    let expected = vec![
        Opening(MaxOpening),
        Atomic(Constant(13)),
        Separator(Comma),
        Atomic(Constant(2)),
        Closing(BClosing),
    ];
    assert_eq!(real, expected);
}

#[test]
fn dice_string_parser_string_to_input_symbols_1() {
    let real = string_to_input_symbols("max(13,2)").unwrap();
    let expected = vec![
        Opening(MaxOpening),
        Atomic(Constant(13)),
        Separator(Comma),
        Atomic(Constant(2)),
        Closing(BClosing),
    ];
    assert_eq!(real, expected);
}

#[test]
fn string_to_input_symbols_2() {
    let real = string_to_input_symbols("4 d32 - 3").unwrap();
    let expected = vec![
        Atomic(Constant(4)),
        Operator(SampleSum),
        Atomic(FairDie { min: 1, max: 32 }),
        Operator(Add),
        Atomic(Constant(-1)),
        Operator(Mul),
        Atomic(Constant(3)),
    ];
    assert_eq!(real, expected);
}

#[test]
fn dice_string_parser_string_to_input_symbols_2() {
    let real = string_to_input_symbols("4 d32 - 3").unwrap();
    let expected = vec![
        Atomic(Constant(4)),
        Operator(SampleSum),
        Atomic(FairDie { min: 1, max: 32 }),
        Operator(Add),
        Atomic(Constant(-1)),
        Operator(Mul),
        Atomic(Constant(3)),
    ];
    assert_eq!(real, expected);
}

#[test]
fn partition_input_symbols_bracket_aware_test() {
    // 5+3*6*max(3+4)+5
    let symbols = vec![
        Atomic(Constant(5)),
        Operator(Add),
        Atomic(Constant(3)),
        Operator(Mul),
        Atomic(Constant(6)),
        Operator(Mul),
        Opening(MaxOpening),
        Atomic(Constant(3)),
        Operator(Add),
        Atomic(Constant(4)),
        Closing(BClosing),
        Operator(Add),
        Atomic(Constant(5)),
    ];
    let expected = vec![
        vec![Atomic(Constant(5))],
        vec![
            Atomic(Constant(3)),
            Operator(Mul),
            Atomic(Constant(6)),
            Operator(Mul),
            Opening(MaxOpening),
            Atomic(Constant(3)),
            Operator(Add),
            Atomic(Constant(4)),
            Closing(BClosing),
        ],
        vec![Atomic(Constant(5))],
    ];
    let res = partition_input_symbols_bracket_aware(&symbols, Operator(Add)).unwrap();
    assert_eq!(res, expected);
}

#[test]
fn input_symbols_to_graph_seq_test() {
    let input = "max(1,2,3)";
    let symbols = string_to_input_symbols(input).unwrap();
    assert_eq!(
        symbols,
        vec![
            Opening(MaxOpening),
            Atomic(Constant(1)),
            Separator(Comma),
            Atomic(Constant(2)),
            Separator(Comma),
            Atomic(Constant(3)),
            Closing(BClosing)
        ]
    );
    let graph = input_symbols_to_graph_seq(&symbols).unwrap();
    let expected_graph = GraphSeq::Max(vec![
        GraphSeq::Atomic(DiceBuilder::Constant(1)),
        GraphSeq::Atomic(DiceBuilder::Constant(2)),
        GraphSeq::Atomic(DiceBuilder::Constant(3)),
    ]);
    assert_eq!(graph, expected_graph);
}

#[test]
fn dice_string_parser_input_symbols_to_graph_seq_test() {
    let input = "max(1,2,3)";
    let symbols = string_to_input_symbols(input).unwrap();
    assert_eq!(
        symbols,
        vec![
            Opening(MaxOpening),
            Atomic(Constant(1)),
            Separator(Comma),
            Atomic(Constant(2)),
            Separator(Comma),
            Atomic(Constant(3)),
            Closing(BClosing)
        ]
    );
    let graph = input_symbols_to_graph_seq(&symbols).unwrap();
    let expected_graph = GraphSeq::Max(vec![
        GraphSeq::Atomic(DiceBuilder::Constant(1)),
        GraphSeq::Atomic(DiceBuilder::Constant(2)),
        GraphSeq::Atomic(DiceBuilder::Constant(3)),
    ]);
    assert_eq!(graph, expected_graph);
}

#[test]
fn graph_seq_to_factor_test() {
    let graph = GraphSeq::Max(vec![
        GraphSeq::Atomic(DiceBuilder::Constant(1)),
        GraphSeq::Atomic(DiceBuilder::Constant(2)),
        GraphSeq::Atomic(DiceBuilder::Constant(3)),
    ]);
    let factor = graph_seq_to_factor(graph);
    let expected_factor = DiceBuilder::MaxCompound(vec![
        DiceBuilder::Constant(1),
        DiceBuilder::Constant(2),
        DiceBuilder::Constant(3),
    ]);
    assert_eq!(factor, expected_factor);
}

#[test]
fn dice_string_parser_graph_seq_to_factor_test() {
    let graph = GraphSeq::Max(vec![
        GraphSeq::Atomic(DiceBuilder::Constant(1)),
        GraphSeq::Atomic(DiceBuilder::Constant(2)),
        GraphSeq::Atomic(DiceBuilder::Constant(3)),
    ]);
    let factor = graph_seq_to_factor(graph);
    let expected_factor = DiceBuilder::MaxCompound(vec![
        DiceBuilder::Constant(1),
        DiceBuilder::Constant(2),
        DiceBuilder::Constant(3),
    ]);
    assert_eq!(factor, expected_factor);
}

#[test]
fn string_to_factor_test() {
    let factor = string_to_factor("max(1 ,2,3)  ").unwrap();
    let expected_factor = DiceBuilder::MaxCompound(vec![
        DiceBuilder::Constant(1),
        DiceBuilder::Constant(2),
        DiceBuilder::Constant(3),
    ]);
    assert_eq!(factor, expected_factor);
}

#[test]
fn dice_string_parser_string_to_factor_test() {
    let factor = string_to_factor("max(1,2,3)  ").unwrap();
    let expected_factor = DiceBuilder::MaxCompound(vec![
        DiceBuilder::Constant(1),
        DiceBuilder::Constant(2),
        DiceBuilder::Constant(3),
    ]);
    assert_eq!(factor, expected_factor);

    let factor_failed = string_to_factor("max(1:,2,3)  ");
    assert_eq!(
        factor_failed,
        Err(DiceBuildingError::InvalidCharacterInInput(':'))
    );
}

#[test]
fn string_to_factor_test_2() {
    let factor = string_to_factor("4*5+2*3").unwrap();
    let expected_factor = DiceBuilder::SumCompound(vec![
        DiceBuilder::ProductCompound(vec![DiceBuilder::Constant(4), DiceBuilder::Constant(5)]),
        DiceBuilder::ProductCompound(vec![DiceBuilder::Constant(2), DiceBuilder::Constant(3)]),
    ]);
    assert_eq!(factor, expected_factor);

    let factor2 = string_to_factor("26").unwrap();
    let expected_factor_2 = DiceBuilder::Constant(26);
    assert_eq!(factor2, expected_factor_2);
}

#[test]
fn dice_string_parser_string_to_factor_test_2() {
    let factor = string_to_factor("4*5+2*3").unwrap();
    let expected_factor = DiceBuilder::SumCompound(vec![
        DiceBuilder::ProductCompound(vec![DiceBuilder::Constant(4), DiceBuilder::Constant(5)]),
        DiceBuilder::ProductCompound(vec![DiceBuilder::Constant(2), DiceBuilder::Constant(3)]),
    ]);
    assert_eq!(factor, expected_factor);

    let factor2 = string_to_factor("26").unwrap();
    let expected_factor_2 = DiceBuilder::Constant(26);
    assert_eq!(factor2, expected_factor_2);
}

#[test]
fn string_to_factor_test_3() {
    let factor = string_to_factor("min(8w5,8w5)+4").unwrap();
    let max = factor
        .build()
        .distribution
        .iter()
        .map(|e| e.0)
        .max()
        .unwrap();
    assert_eq!(max, 44);
}

#[test]
fn dice_string_parser_string_to_factor_test_3() {
    let factor = string_to_factor("min(8w5,8w5)+4").unwrap();
    let max = factor
        .build()
        .distribution
        .iter()
        .map(|e| e.0)
        .max()
        .unwrap();
    assert_eq!(max, 44);
}
