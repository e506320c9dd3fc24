use expression_evaluator::evaluator::{evaluate, try_evaluate, Error, Operation};
use expression_evaluator::evaluator::Operation::{Add, Div, Mul, Number, Sub};

fn value(symbols: &[Operation]) -> (i32, usize) {
    assert!(try_evaluate(symbols).is_some());
    let direct = evaluate(symbols).unwrap();
    assert_eq!(try_evaluate(symbols).unwrap().unwrap(), direct);
    direct
}

#[test]
fn evaluate_prefix_sum() {
    assert_eq!(value(&[Add, Number(2), Number(3)]), (5, 3));
}

#[test]
fn evaluate_nested_prefix() {
    assert_eq!(value(&[Mul, Add, Number(1), Number(2), Number(3)]), (9, 5));
}

#[test]
fn evaluate_empty_is_invalid_program() {
    assert!(matches!(evaluate(&[]), Err(Error::InvalidProgram)));
    assert!(matches!(try_evaluate(&[]), Some(Err(Error::InvalidProgram))));
}

#[test]
fn evaluate_number() {
    assert_eq!(value(&[Number(-4)]), (-4, 1));
}

#[test]
fn evaluate_each_operator() {
    assert_eq!(value(&[Sub, Number(2), Number(3)]), (-1, 3));
    assert_eq!(value(&[Mul, Number(-2), Number(3)]), (-6, 3));
    assert_eq!(value(&[Div, Number(7), Number(2)]), (3, 3));
}

#[test]
fn division_rounds_toward_zero() {
    assert_eq!(value(&[Div, Number(-7), Number(2)]), (-3, 3));
    assert_eq!(value(&[Div, Number(7), Number(-2)]), (-3, 3));
    assert_eq!(value(&[Div, Number(-7), Number(-2)]), (3, 3));
    assert_eq!(value(&[Div, Number(0), Number(-2)]), (0, 3));
    assert_eq!(value(&[Div, Number(i32::MIN), Number(1)]), (i32::MIN, 3));
}

#[test]
fn left_operand_comes_first() {
    assert_eq!(value(&[Sub, Sub, Number(10), Number(3), Number(2)]), (5, 5));
    assert_eq!(value(&[Sub, Number(10), Sub, Number(3), Number(2)]), (9, 5));
}

#[test]
fn trailing_symbols_are_ignored() {
    assert_eq!(value(&[Number(1), Number(2), Add]), (1, 1));
    assert_eq!(value(&[Add, Number(1), Number(2), Number(9), Mul]), (3, 3));
}

#[test]
fn missing_operand_is_invalid_program() {
    assert!(matches!(evaluate(&[Add]), Err(Error::InvalidProgram)));
    assert!(matches!(evaluate(&[Add, Number(1)]), Err(Error::InvalidProgram)));
    assert!(matches!(evaluate(&[Mul, Add, Number(1), Number(2)]), Err(Error::InvalidProgram)));
    assert!(matches!(try_evaluate(&[Add, Number(1)]), Some(Err(Error::InvalidProgram))));
}

#[test]
fn extreme_results_fit() {
    assert_eq!(value(&[Add, Number(i32::MAX), Number(0)]), (i32::MAX, 3));
    assert_eq!(value(&[Sub, Number(i32::MIN), Number(0)]), (i32::MIN, 3));
    assert_eq!(value(&[Sub, Number(-1), Number(i32::MAX)]), (i32::MIN, 3));
}

#[test]
fn numeric_faults_are_reported() {
    assert!(try_evaluate(&[Div, Number(1), Number(0)]).is_none());
    assert!(try_evaluate(&[Add, Number(i32::MAX), Number(1)]).is_none());
    assert!(try_evaluate(&[Sub, Number(i32::MIN), Number(1)]).is_none());
    assert!(try_evaluate(&[Mul, Number(65536), Number(32768)]).is_none());
    assert!(try_evaluate(&[Div, Number(i32::MIN), Number(-1)]).is_none());
    assert!(try_evaluate(&[Add, Number(1), Div, Number(1), Number(0)]).is_none());
}

#[test]
fn fault_in_left_operand_precedes_missing_right() {
    assert!(try_evaluate(&[Add, Div, Number(1), Number(0)]).is_none());
}
