use expression_evaluator::evaluator::{Operation, Token};

fn operations() -> Vec<Operation> {
    vec![
        Operation::Add,
        Operation::Sub,
        Operation::Mul,
        Operation::Div,
        Operation::Number(i32::MIN),
        Operation::Number(-1),
        Operation::Number(0),
        Operation::Number(5),
    ]
}

fn tokens() -> Vec<Token> {
    let mut all = vec![
        Token::Number(i32::MIN),
        Token::Number(0),
        Token::Number(3),
        Token::Bracket('('),
        Token::Bracket(')'),
        Token::Bracket('a'),
    ];
    for op in operations() {
        all.push(Token::Op(op));
    }
    all
}

#[test]
fn operations_are_ordered_as_declared() {
    let all = operations();
    for i in 0..all.len() {
        for j in 0..all.len() {
            assert_eq!(all[i].at_least(all[j]), i >= j);
        }
    }
}

#[test]
fn operation_order_agrees_with_comparison_operators() {
    for a in operations() {
        for b in operations() {
            assert_eq!(a.at_least(b), a >= b);
        }
    }
}

#[test]
fn token_order_agrees_with_comparison_operators() {
    for a in tokens() {
        for b in tokens() {
            assert_eq!(a.at_least(b), a >= b);
        }
    }
}

#[test]
fn brackets_rank_above_operators_above_numbers() {
    assert!(Token::Bracket('(').at_least(Token::Op(Operation::Div)));
    assert!(!Token::Op(Operation::Div).at_least(Token::Bracket('(')));
    assert!(Token::Op(Operation::Add).at_least(Token::Number(i32::MAX)));
    assert!(!Token::Number(i32::MAX).at_least(Token::Op(Operation::Add)));
    assert!(Token::Op(Operation::Mul).at_least(Token::Op(Operation::Sub)));
    assert!(Token::Op(Operation::Sub).at_least(Token::Op(Operation::Add)));
    assert!(!Token::Op(Operation::Add).at_least(Token::Op(Operation::Sub)));
}
