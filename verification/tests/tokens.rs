use expression_evaluator::evaluator::{
    lex, stringify_token, tokenize_string, Error, Operation, Token,
};

fn token(text: &str) -> Token {
    tokenize_string(text).unwrap()
}

fn rejected(text: &str) -> String {
    match tokenize_string(text) {
        Err(Error::InvalidToken(bad)) => bad,
        other => panic!("expected InvalidToken, got {:?}", other),
    }
}

#[test]
fn tokenize_operators() {
    assert_eq!(token("+"), Token::Op(Operation::Add));
    assert_eq!(token("-"), Token::Op(Operation::Sub));
    assert_eq!(token("*"), Token::Op(Operation::Mul));
    assert_eq!(token("/"), Token::Op(Operation::Div));
}

#[test]
fn tokenize_brackets() {
    assert_eq!(token("("), Token::Bracket('('));
    assert_eq!(token(")"), Token::Bracket(')'));
}

#[test]
fn tokenize_numbers() {
    assert_eq!(token("0"), Token::Number(0));
    assert_eq!(token("7"), Token::Number(7));
    assert_eq!(token("42"), Token::Number(42));
    assert_eq!(token("-42"), Token::Number(-42));
    assert_eq!(token("007"), Token::Number(7));
    assert_eq!(token("-0"), Token::Number(0));
    assert_eq!(token("2147483647"), Token::Number(i32::MAX));
    assert_eq!(token("-2147483648"), Token::Number(i32::MIN));
}

#[test]
fn tokenize_rejects_overflow() {
    assert_eq!(rejected("2147483648"), "2147483648");
    assert_eq!(rejected("-2147483649"), "-2147483649");
    assert_eq!(rejected("99999999999999999999999999"), "99999999999999999999999999");
}

#[test]
fn tokenize_rejects_other_text() {
    assert_eq!(rejected(""), "");
    assert_eq!(rejected("$"), "$");
    assert_eq!(rejected("12a"), "12a");
    assert_eq!(rejected("a12"), "a12");
    assert_eq!(rejected(" 1"), " 1");
    assert_eq!(rejected("1 "), "1 ");
    assert_eq!(rejected("--1"), "--1");
    assert_eq!(rejected("1-"), "1-");
    assert_eq!(rejected("()"), "()");
    assert_eq!(rejected("++"), "++");
    assert_eq!(rejected("\u{663}"), "\u{663}");
    assert_eq!(rejected("1\u{e9}"), "1\u{e9}");
}

#[test]
fn stringify_each_shape() {
    assert_eq!(stringify_token(Token::Op(Operation::Add)).unwrap(), "+");
    assert_eq!(stringify_token(Token::Op(Operation::Sub)).unwrap(), "-");
    assert_eq!(stringify_token(Token::Op(Operation::Mul)).unwrap(), "*");
    assert_eq!(stringify_token(Token::Op(Operation::Div)).unwrap(), "/");
    assert_eq!(stringify_token(Token::Bracket('(')).unwrap(), "(");
    assert_eq!(stringify_token(Token::Bracket(')')).unwrap(), ")");
    assert_eq!(stringify_token(Token::Number(0)).unwrap(), "0");
    assert_eq!(stringify_token(Token::Number(9)).unwrap(), "9");
    assert_eq!(stringify_token(Token::Number(10)).unwrap(), "10");
    assert_eq!(stringify_token(Token::Number(1205)).unwrap(), "1205");
    assert_eq!(stringify_token(Token::Number(-7)).unwrap(), "-7");
    assert_eq!(stringify_token(Token::Number(i32::MAX)).unwrap(), "2147483647");
    assert_eq!(stringify_token(Token::Number(i32::MIN)).unwrap(), "-2147483648");
}

#[test]
fn stringify_rejects_tokens_without_text() {
    assert!(matches!(
        stringify_token(Token::Op(Operation::Number(3))),
        Err(Error::InvalidString)
    ));
    assert!(matches!(stringify_token(Token::Bracket('[')), Err(Error::InvalidString)));
    assert!(matches!(stringify_token(Token::Bracket(' ')), Err(Error::InvalidString)));
}

#[test]
fn stringify_matches_std_formatting() {
    for n in [0, 1, -1, 9, 10, 99, 100, 101, -100, 123456789, i32::MAX, i32::MIN] {
        assert_eq!(stringify_token(Token::Number(n)).unwrap(), format!("{}", n));
    }
}

#[test]
fn round_trip_through_text() {
    let mut samples = vec![
        Token::Op(Operation::Add),
        Token::Op(Operation::Sub),
        Token::Op(Operation::Mul),
        Token::Op(Operation::Div),
        Token::Bracket('('),
        Token::Bracket(')'),
    ];
    for n in [0, 1, -1, 10, -10, 4096, 1000000007, i32::MAX, i32::MIN] {
        samples.push(Token::Number(n));
    }
    for t in samples {
        let text = stringify_token(t).unwrap();
        assert_eq!(tokenize_string(&text).unwrap(), t);
    }
}

#[test]
fn round_trip_from_text() {
    for text in ["+", "-", "*", "/", "(", ")", "0", "15", "-15", "0015", "-0"] {
        let t = tokenize_string(text).unwrap();
        let again = tokenize_string(&stringify_token(t).unwrap()).unwrap();
        assert_eq!(again, t);
    }
}

#[test]
fn lex_symbols() {
    assert_eq!(
        lex("1 + 2 - 3 * 4 / -5").unwrap(),
        vec![
            Operation::Number(1),
            Operation::Add,
            Operation::Number(2),
            Operation::Sub,
            Operation::Number(3),
            Operation::Mul,
            Operation::Number(4),
            Operation::Div,
            Operation::Number(-5),
        ]
    );
}

#[test]
fn lex_drops_empty_pieces() {
    assert_eq!(lex("").unwrap(), vec![]);
    assert_eq!(lex("    ").unwrap(), vec![]);
    assert_eq!(
        lex("  12   +  ").unwrap(),
        vec![Operation::Number(12), Operation::Add]
    );
    assert_eq!(lex("7").unwrap(), vec![Operation::Number(7)]);
}

#[test]
fn lex_unknown_token() {
    match lex("2 $ 3") {
        Err(Error::InvalidToken(bad)) => assert_eq!(bad, "$"),
        other => panic!("expected InvalidToken, got {:?}", other),
    }
}

#[test]
fn lex_reports_first_bad_piece() {
    match lex("1 x 2 y") {
        Err(Error::InvalidToken(bad)) => assert_eq!(bad, "x"),
        other => panic!("expected InvalidToken, got {:?}", other),
    }
    match lex("1 2147483648 y") {
        Err(Error::InvalidToken(bad)) => assert_eq!(bad, "2147483648"),
        other => panic!("expected InvalidToken, got {:?}", other),
    }
}

#[test]
fn lex_rejects_brackets() {
    match lex("( 1 )") {
        Err(Error::InvalidToken(bad)) => assert_eq!(bad, "("),
        other => panic!("expected InvalidToken, got {:?}", other),
    }
}

#[test]
fn lex_splits_on_spaces_only() {
    match lex("1\t2") {
        Err(Error::InvalidToken(bad)) => assert_eq!(bad, "1\t2"),
        other => panic!("expected InvalidToken, got {:?}", other),
    }
    match lex("1 \u{e9}t\u{e9} 2") {
        Err(Error::InvalidToken(bad)) => assert_eq!(bad, "\u{e9}t\u{e9}"),
        other => panic!("expected InvalidToken, got {:?}", other),
    }
}

#[test]
fn plus_sign_is_no_part_of_a_number() {
    assert_eq!(rejected("+5"), "+5");
    assert_eq!(rejected("-+5"), "-+5");
    match lex("1 +5") {
        Err(Error::InvalidToken(bad)) => assert_eq!(bad, "+5"),
        other => panic!("expected InvalidToken, got {:?}", other),
    }
}
