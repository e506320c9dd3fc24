//! Text to tokens and back: classifying one fragment, rendering one token,
//! and lexing a whole line into symbols.

use crate::numeral::{
    is_digit, numeral_of, numeral_of_value, parse_i32, parse_int, parse_inverts_render, render_i32,
    render_int,
};
use crate::symbols::{Error, Operation, Token};
use crate::text::{char_at, piece};
use vstd::prelude::*;
use vstd::string::*;

verus! {

/// Whether `s` is the single character `c`.
pub open spec fn is_only(s: Seq<char>, c: char) -> bool {
    s.len() == 1 && s[0] == c
}

/// The operator that `s` spells, if it spells one.
pub open spec fn operator_of(s: Seq<char>) -> Option<Operation> {
    if is_only(s, '+') {
        Some(Operation::Add)
    } else if is_only(s, '-') {
        Some(Operation::Sub)
    } else if is_only(s, '*') {
        Some(Operation::Mul)
    } else if is_only(s, '/') {
        Some(Operation::Div)
    } else {
        None
    }
}

/// The symbol that a fragment spells: an operator or a 32-bit integer.
pub open spec fn symbol_of(s: Seq<char>) -> Option<Operation> {
    match operator_of(s) {
        Some(op) => Some(op),
        None => match parse_int(s) {
            Some(v) => Some(Operation::Number(v as i32)),
            None => None,
        },
    }
}

/// The token that a fragment spells: an operator, a bracket or a 32-bit
/// integer.
pub open spec fn token_of(s: Seq<char>) -> Option<Token> {
    match operator_of(s) {
        Some(op) => Some(Token::Op(op)),
        None => if is_only(s, '(') {
            Some(Token::Bracket('('))
        } else if is_only(s, ')') {
            Some(Token::Bracket(')'))
        } else {
            match parse_int(s) {
                Some(v) => Some(Token::Number(v as i32)),
                None => None,
            }
        },
    }
}

/// The text of a token. A number as an operator's payload and a bracket
/// other than the two round ones have none.
pub open spec fn text_of(t: Token) -> Option<Seq<char>> {
    match t {
        Token::Number(n) => Some(render_int(n as int)),
        Token::Op(Operation::Add) => Some(seq!['+']),
        Token::Op(Operation::Sub) => Some(seq!['-']),
        Token::Op(Operation::Mul) => Some(seq!['*']),
        Token::Op(Operation::Div) => Some(seq!['/']),
        Token::Op(Operation::Number(_)) => None,
        Token::Bracket(c) => if c == '(' || c == ')' {
            Some(seq![c])
        } else {
            None
        },
    }
}

/// What is known of a line after part of it was read: the fragments that a
/// space has closed, and the fragment under way.
pub struct Split {
    pub done: Seq<Seq<char>>,
    pub word: Seq<char>,
}

/// The closed fragments of `p`, with the fragment under way if there is one.
pub open spec fn close(p: Split) -> Seq<Seq<char>> {
    if p.word.len() > 0 {
        p.done.push(p.word)
    } else {
        p.done
    }
}

/// Reads `s` character by character: a space closes the fragment under way,
/// any other character extends it.
pub open spec fn split(s: Seq<char>) -> Split
    decreases s.len(),
{
    if s.len() == 0 {
        Split { done: Seq::empty(), word: Seq::empty() }
    } else {
        let p = split(s.drop_last());
        if s.last() == ' ' {
            Split { done: close(p), word: Seq::empty() }
        } else {
            Split { done: p.done, word: p.word.push(s.last()) }
        }
    }
}

/// The non-empty pieces of `s` between spaces, in order.
pub open spec fn fragments(s: Seq<char>) -> Seq<Seq<char>> {
    close(split(s))
}

/// Whether `w` is not empty and holds no space.
pub open spec fn is_word(w: Seq<char>) -> bool {
    w.len() > 0 && forall|i: int| 0 <= i < w.len() ==> #[trigger] w[i] != ' '
}

/// What reading has closed are words, and the fragment under way holds no
/// space.
pub proof fn split_yields_words(s: Seq<char>)
    ensures
        forall|k: int| 0 <= k < split(s).done.len() ==> is_word(#[trigger] split(s).done[k]),
        forall|i: int| 0 <= i < split(s).word.len() ==> #[trigger] split(s).word[i] != ' ',
    decreases s.len(),
{
    if s.len() > 0 {
        let p = split(s.drop_last());
        let q = split(s);
        split_yields_words(s.drop_last());
        assert forall|k: int| 0 <= k < q.done.len() implies is_word(#[trigger] q.done[k]) by {
            if k < p.done.len() {
                assert(q.done[k] == p.done[k]);
            } else {
                assert(q.done[k] == p.word);
            }
        }
        assert forall|i: int| 0 <= i < q.word.len() implies #[trigger] q.word[i] != ' ' by {
            if i < p.word.len() {
                assert(q.word[i] == p.word[i]);
            }
        }
    }
}

/// Every fragment of a line is a word: not empty, and without a space.
pub proof fn fragments_are_words(s: Seq<char>)
    ensures
        forall|k: int| 0 <= k < fragments(s).len() ==> is_word(#[trigger] fragments(s)[k]),
{
    split_yields_words(s);
}

/// The symbols that the fragments spell, or the first fragment that spells
/// none.
pub open spec fn symbols_of(frags: Seq<Seq<char>>) -> Result<Seq<Operation>, Seq<char>>
    decreases frags.len(),
{
    if frags.len() == 0 {
        Ok(Seq::empty())
    } else {
        match symbols_of(frags.drop_last()) {
            Ok(ops) => match symbol_of(frags.last()) {
                Some(op) => Ok(ops.push(op)),
                None => Err(frags.last()),
            },
            Err(bad) => Err(bad),
        }
    }
}

/// The tokens that the fragments spell, or the first fragment that spells
/// none.
pub open spec fn tokens_of(frags: Seq<Seq<char>>) -> Result<Seq<Token>, Seq<char>>
    decreases frags.len(),
{
    if frags.len() == 0 {
        Ok(Seq::empty())
    } else {
        match tokens_of(frags.drop_last()) {
            Ok(ts) => match token_of(frags.last()) {
                Some(t) => Ok(ts.push(t)),
                None => Err(frags.last()),
            },
            Err(bad) => Err(bad),
        }
    }
}

/// A failure among the first fragments is the failure of the whole.
pub proof fn symbols_of_fails_early(frags: Seq<Seq<char>>, k: int)
    requires
        0 <= k <= frags.len(),
        symbols_of(frags.take(k)) is Err,
    ensures
        symbols_of(frags) == symbols_of(frags.take(k)),
    decreases frags.len(),
{
    if k == frags.len() {
        assert(frags.take(k) =~= frags);
    } else {
        assert(frags.drop_last().take(k) =~= frags.take(k));
        symbols_of_fails_early(frags.drop_last(), k);
    }
}

/// A failure among the first fragments is the failure of the whole.
pub proof fn tokens_of_fails_early(frags: Seq<Seq<char>>, k: int)
    requires
        0 <= k <= frags.len(),
        tokens_of(frags.take(k)) is Err,
    ensures
        tokens_of(frags) == tokens_of(frags.take(k)),
    decreases frags.len(),
{
    if k == frags.len() {
        assert(frags.take(k) =~= frags);
    } else {
        assert(frags.drop_last().take(k) =~= frags.take(k));
        tokens_of_fails_early(frags.drop_last(), k);
    }
}

/// The decimal text of a 32-bit integer is not empty, holds no space, and
/// spells neither an operator nor a bracket.
pub proof fn number_text_is_plain(v: int)
    requires
        i32::MIN <= v <= i32::MAX,
    ensures
        render_int(v).len() > 0,
        forall|i: int| 0 <= i < render_int(v).len() ==> render_int(v)[i] != ' ',
        operator_of(render_int(v)) is None,
        !is_only(render_int(v), '('),
        !is_only(render_int(v), ')'),
{
    let magnitude = if v < 0 { (-v) as nat } else { v as nat };
    let digits = numeral_of(magnitude);
    numeral_of_value(magnitude);
    let s = render_int(v);
    assert(is_digit(digits[0]));
    assert forall|i: int| 0 <= i < s.len() implies s[i] != ' ' by {
        if v < 0 {
            if i > 0 {
                assert(s[i] == digits[i - 1]);
                assert(is_digit(digits[i - 1]));
            }
        } else {
            assert(is_digit(digits[i]));
        }
    }
}

/// Rendering a token that has a text and classifying that text gives the
/// token back.
pub proof fn tokenize_inverts_stringify(t: Token)
    requires
        text_of(t) is Some,
    ensures
        token_of(text_of(t).unwrap()) == Some(t),
{
    if let Token::Number(n) = t {
        parse_inverts_render(n as int);
        number_text_is_plain(n as int);
    }
}

/// Every token that some fragment spells has a text, and that text spells
/// the same token.
pub proof fn spelled_token_round_trips(s: Seq<char>)
    ensures
        token_of(s) matches Some(t) ==> text_of(t) is Some && token_of(text_of(t).unwrap())
            == Some(t),
{
    if let Some(t) = token_of(s) {
        tokenize_inverts_stringify(t);
    }
}

/// Reads an operator.
fn operator_in(text: &str) -> (r: Option<Operation>)
    ensures
        r == operator_of(text@),
{
    if text.unicode_len() != 1 {
        return None;
    }
    let c = text.get_char(0);
    if c == '+' {
        Some(Operation::Add)
    } else if c == '-' {
        Some(Operation::Sub)
    } else if c == '*' {
        Some(Operation::Mul)
    } else if c == '/' {
        Some(Operation::Div)
    } else {
        None
    }
}

/// Reads a round bracket.
fn bracket_in(text: &str) -> (r: Option<char>)
    ensures
        match r {
            Some(c) => is_only(text@, c) && (c == '(' || c == ')'),
            None => !is_only(text@, '(') && !is_only(text@, ')'),
        },
{
    if text.unicode_len() != 1 {
        return None;
    }
    let c = text.get_char(0);
    if c == '(' || c == ')' {
        Some(c)
    } else {
        None
    }
}

/// Classifies one fragment as an operator, a round bracket or a 32-bit
/// integer, and fails with the fragment on anything else.
pub fn tokenize_string(input: &str) -> (r: Result<Token, Error>)
    ensures
        match token_of(input@) {
            Some(t) => r matches Ok(x) && x == t,
            None => r matches Err(Error::InvalidToken(bad)) && bad@ == input@,
        },
{
    if let Some(op) = operator_in(input) {
        return Ok(Token::Op(op));
    }
    if let Some(c) = bracket_in(input) {
        return Ok(Token::Bracket(c));
    }
    match parse_i32(input) {
        Some(n) => Ok(Token::Number(n)),
        None => Err(Error::InvalidToken(input.to_owned())),
    }
}

/// Classifies one fragment as an operator or a 32-bit integer.
fn symbol_in(text: &str) -> (r: Option<Operation>)
    ensures
        r == symbol_of(text@),
{
    if let Some(op) = operator_in(text) {
        return Some(op);
    }
    match parse_i32(text) {
        Some(n) => Some(Operation::Number(n)),
        None => None,
    }
}

/// Renders a token as text: a number in decimal, an operator or a round
/// bracket as its character. Fails with `InvalidString` on a token that has
/// no text.
pub fn stringify_token(input: Token) -> (r: Result<String, Error>)
    ensures
        match text_of(input) {
            Some(s) => r matches Ok(x) && x@ == s,
            None => r matches Err(Error::InvalidString),
        },
{
    proof {
        reveal_strlit("+");
        reveal_strlit("-");
        reveal_strlit("*");
        reveal_strlit("/");
        reveal_strlit("(");
        reveal_strlit(")");
    }
    let text = match input {
        Token::Op(Operation::Add) => "+",
        Token::Op(Operation::Sub) => "-",
        Token::Op(Operation::Mul) => "*",
        Token::Op(Operation::Div) => "/",
        Token::Number(n) => { return Ok(render_i32(n)); },
        Token::Bracket('(') => "(",
        Token::Bracket(')') => ")",
        _ => { return Err(Error::InvalidString); },
    };
    let s = String::from_str(text);
    assert(s@ =~= text_of(input).unwrap());
    Ok(s)
}

/// Cuts a line at its spaces and keeps the non-empty pieces.
pub fn split_words(text: &str) -> (words: Vec<&str>)
    ensures
        words@.len() == fragments(text@).len(),
        forall|k: int| 0 <= k < words@.len() ==> (#[trigger] words@[k])@ == fragments(text@)[k],
{
    let n = text.unicode_len();
    let plain = text.is_ascii();
    let mut words: Vec<&str> = Vec::new();
    let mut start: usize = 0;
    let mut i: usize = 0;
    while i < n
        invariant
            n == text@.len(),
            plain ==> is_ascii(text),
            start <= i <= n,
            split(text@.take(i as int)).word == text@.subrange(start as int, i as int),
            words@.len() == split(text@.take(i as int)).done.len(),
            forall|k: int|
                0 <= k < words@.len() ==> (#[trigger] words@[k])@ == split(
                    text@.take(i as int),
                ).done[k],
        decreases n - i,
    {
        let c = char_at(text, i, plain);
        proof {
            assert(text@.take(i + 1).drop_last() =~= text@.take(i as int));
            assert(text@.take(i + 1).last() == c);
        }
        if c == ' ' {
            if start < i {
                words.push(piece(text, start, i, plain));
            }
            start = i + 1;
            assert(text@.subrange(start as int, start as int) =~= Seq::<char>::empty());
        } else {
            assert(text@.subrange(start as int, i + 1) =~= text@.subrange(
                start as int,
                i as int,
            ).push(c));
        }
        i += 1;
    }
    proof {
        assert(text@.take(n as int) =~= text@);
    }
    if start < n {
        words.push(piece(text, start, n, plain));
    }
    words
}

/// Lexes a line into symbols. The line is cut at its spaces, empty pieces
/// are dropped, and each piece must spell an operator or a 32-bit integer;
/// the first piece that does not is returned in `InvalidToken`.
pub fn lex(code: &str) -> (r: Result<Vec<Operation>, Error>)
    ensures
        match symbols_of(fragments(code@)) {
            Ok(ops) => r matches Ok(v) && v@ == ops,
            Err(f) => r matches Err(Error::InvalidToken(bad)) && bad@ == f,
        },
{
    let words = split_words(code);
    let ghost frags = fragments(code@);
    let mut tokens: Vec<Operation> = Vec::new();
    let mut k: usize = 0;
    while k < words.len()
        invariant
            k <= words@.len(),
            frags == fragments(code@),
            words@.len() == frags.len(),
            forall|j: int| 0 <= j < words@.len() ==> (#[trigger] words@[j])@ == frags[j],
            symbols_of(frags.take(k as int)) == Ok::<Seq<Operation>, Seq<char>>(tokens@),
        decreases words@.len() - k,
    {
        let word = words[k];
        proof {
            assert(frags.take(k + 1).drop_last() =~= frags.take(k as int));
            assert(frags.take(k + 1).last() == word@);
        }
        match symbol_in(word) {
            Some(op) => tokens.push(op),
            None => {
                proof {
                    symbols_of_fails_early(frags, k + 1);
                }
                return Err(Error::InvalidToken(word.to_owned()));
            },
        }
        k += 1;
    }
    proof {
        assert(frags.take(k as int) =~= frags);
    }
    Ok(tokens)
}

} // verus!
