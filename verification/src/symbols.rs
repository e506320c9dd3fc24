//! The two alphabets of the pipeline, their total order, and the error type.

use vstd::prelude::*;

verus! {

/// The flat alphabet read by the evaluator: four binary operators and numbers.
#[derive(Debug, PartialEq, Eq, PartialOrd, Ord, Clone, Copy, Structural)]
pub enum Operation {
    Add,
    Sub,
    Mul,
    Div,
    Number(i32),
}

/// The structured alphabet read by the postfix converter.
#[derive(Debug, PartialEq, Eq, PartialOrd, Ord, Clone, Copy, Structural)]
pub enum Token {
    Number(i32),
    Op(Operation),
    Bracket(char),
}

/// Why a text fragment, a symbol sequence or a token was rejected.
#[derive(Debug)]
pub enum Error {
    /// The fragment is no operator, bracket or 32-bit integer literal.
    InvalidToken(String),
    /// Evaluation ran out of symbols.
    InvalidProgram,
    /// The token has no textual form.
    InvalidString,
}

/// What an error says, with its text as a sequence of characters.
pub enum Failure {
    InvalidToken(Seq<char>),
    InvalidProgram,
    InvalidString,
}

impl View for Error {
    type V = Failure;

    open spec fn view(&self) -> Failure {
        match self {
            Error::InvalidToken(bad) => Failure::InvalidToken(bad@),
            Error::InvalidProgram => Failure::InvalidProgram,
            Error::InvalidString => Failure::InvalidString,
        }
    }
}

/// Position of an operation in the order `Add < Sub < Mul < Div < Number`.
pub open spec fn operation_rank(op: Operation) -> int {
    match op {
        Operation::Add => 0,
        Operation::Sub => 1,
        Operation::Mul => 2,
        Operation::Div => 3,
        Operation::Number(_) => 4,
    }
}

/// `a <= b` in the total order on operations: by rank, and two numbers by
/// their values.
pub open spec fn operation_le(a: Operation, b: Operation) -> bool {
    match (a, b) {
        (Operation::Number(x), Operation::Number(y)) => x <= y,
        _ => operation_rank(a) <= operation_rank(b),
    }
}

/// Position of a token's tag in the order `Number < Op < Bracket`.
pub open spec fn token_rank(t: Token) -> int {
    match t {
        Token::Number(_) => 0,
        Token::Op(_) => 1,
        Token::Bracket(_) => 2,
    }
}

/// `a <= b` in the total order on tokens: by tag, and within one tag by what
/// the token carries.
pub open spec fn token_le(a: Token, b: Token) -> bool {
    match (a, b) {
        (Token::Number(x), Token::Number(y)) => x <= y,
        (Token::Op(p), Token::Op(q)) => operation_le(p, q),
        (Token::Bracket(c), Token::Bracket(d)) => c as u32 <= d as u32,
        _ => token_rank(a) < token_rank(b),
    }
}

impl Operation {
    /// Whether `self` is one of the four binary operators.
    pub open spec fn is_operator(self) -> bool {
        !(self is Number)
    }

    /// Rank of the operation's tag, as a machine integer.
    fn rank(self) -> (r: u8)
        ensures
            r as int == operation_rank(self),
    {
        match self {
            Operation::Add => 0,
            Operation::Sub => 1,
            Operation::Mul => 2,
            Operation::Div => 3,
            Operation::Number(_) => 4,
        }
    }

    /// Decides `self >= other` in the total order on operations.
    pub fn at_least(self, other: Operation) -> (r: bool)
        ensures
            r == operation_le(other, self),
    {
        match (self, other) {
            (Operation::Number(x), Operation::Number(y)) => y <= x,
            _ => other.rank() <= self.rank(),
        }
    }
}

impl Token {
    /// Decides `self >= other` in the total order on tokens.
    pub fn at_least(self, other: Token) -> (r: bool)
        ensures
            r == token_le(other, self),
    {
        match (self, other) {
            (Token::Number(x), Token::Number(y)) => y <= x,
            (Token::Op(p), Token::Op(q)) => p.at_least(q),
            (Token::Bracket(c), Token::Bracket(d)) => d <= c,
            (Token::Number(_), _) => false,
            (Token::Op(_), Token::Number(_)) => true,
            (Token::Op(_), Token::Bracket(_)) => false,
            (Token::Bracket(_), _) => true,
        }
    }
}

/// The order on tokens is total: of two tokens, one is at most the other.
pub proof fn token_order_total(a: Token, b: Token)
    ensures
        token_le(a, b) || token_le(b, a),
        token_le(a, b) && token_le(b, a) ==> a == b,
{
}

/// The order on tokens is transitive.
pub proof fn token_order_transitive(a: Token, b: Token, c: Token)
    requires
        token_le(a, b),
        token_le(b, c),
    ensures
        token_le(a, c),
{
}

/// Every bracket ranks above every operator, and every operator above every
/// number token.
pub proof fn token_order_by_tag(a: Token, b: Token)
    ensures
        token_rank(a) < token_rank(b) ==> token_le(a, b) && !token_le(b, a),
{
}

} // verus!
