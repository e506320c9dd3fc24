use expression_evaluator::evaluator::{convert_to_rpn, tokenize_string, Operation, Token};

fn infix(text: &str) -> Vec<Token> {
    text.split(' ')
        .filter(|s| !s.is_empty())
        .map(|s| tokenize_string(s).unwrap())
        .collect()
}

#[test]
fn precedence_multiplication_first() {
    assert_eq!(convert_to_rpn(infix("2 + 3 * 4")), infix("2 3 4 * +"));
}

#[test]
fn precedence_full_pipeline_order() {
    assert_eq!(
        convert_to_rpn(vec![
            Token::Number(3),
            Token::Op(Operation::Add),
            Token::Number(4),
            Token::Op(Operation::Mul),
            Token::Number(2),
        ]),
        vec![
            Token::Number(3),
            Token::Number(4),
            Token::Number(2),
            Token::Op(Operation::Mul),
            Token::Op(Operation::Add),
        ]
    );
}

#[test]
fn same_operator_is_left_associative() {
    assert_eq!(convert_to_rpn(infix("1 - 2 - 3")), infix("1 2 - 3 -"));
    assert_eq!(convert_to_rpn(infix("8 / 4 / 2")), infix("8 4 / 2 /"));
}

#[test]
fn larger_operator_on_the_stack_is_popped() {
    assert_eq!(convert_to_rpn(infix("2 * 3 + 4")), infix("2 3 * 4 +"));
    assert_eq!(convert_to_rpn(infix("2 - 3 + 4")), infix("2 3 - 4 +"));
    assert_eq!(convert_to_rpn(infix("2 / 3 * 4")), infix("2 3 / 4 *"));
}

#[test]
fn smaller_operator_on_the_stack_stays() {
    assert_eq!(convert_to_rpn(infix("2 + 3 - 4")), infix("2 3 4 - +"));
    assert_eq!(convert_to_rpn(infix("2 * 3 / 4")), infix("2 3 4 / *"));
}

#[test]
fn empty_and_single() {
    assert_eq!(convert_to_rpn(vec![]), vec![]);
    assert_eq!(convert_to_rpn(infix("5")), infix("5"));
    assert_eq!(convert_to_rpn(infix("+")), infix("+"));
}

#[test]
fn bracket_around_a_number() {
    assert_eq!(convert_to_rpn(infix("( 2 )")), infix("2"));
    assert_eq!(convert_to_rpn(infix("( 2 ) * 4")), infix("2 4 *"));
}

#[test]
fn operator_pops_an_open_bracket() {
    assert_eq!(convert_to_rpn(infix("( 2 + 3 ) * 4")), infix("2 ( 3 + 4 *"));
}

#[test]
fn unmatched_brackets_do_not_fail() {
    assert_eq!(convert_to_rpn(infix(")")), vec![]);
    assert_eq!(convert_to_rpn(infix("1 )")), infix("1"));
    assert_eq!(convert_to_rpn(infix("( 1")), infix("1 ("));
    assert_eq!(convert_to_rpn(infix("1 + 2 )")), infix("1 2 +"));
}

#[test]
fn other_tokens_pass_as_the_order_says() {
    assert_eq!(
        convert_to_rpn(vec![Token::Number(1), Token::Bracket('['), Token::Number(2)]),
        vec![Token::Number(1), Token::Number(2)]
    );
    assert_eq!(
        convert_to_rpn(vec![
            Token::Op(Operation::Number(9)),
            Token::Op(Operation::Div),
            Token::Number(2),
        ]),
        vec![
            Token::Op(Operation::Number(9)),
            Token::Number(2),
            Token::Op(Operation::Div),
        ]
    );
}
