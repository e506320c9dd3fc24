//! A whole line, from text to value: tokens, postfix order, text again,
//! symbols, reversal, evaluation.

use crate::eval::{run, try_evaluate, Outcome};
use crate::numeral::parse_inverts_render;
use crate::postfix::{convert_to_rpn, postfix, postfix_draws_from_input};
use crate::symbols::{Error, Failure, Operation, Token};
use crate::tokenizer::{
    fragments, is_word, lex, number_text_is_plain, split, split_words, stringify_token, symbol_of,
    symbols_of, text_of, token_of, tokenize_inverts_stringify, tokenize_string, tokens_of,
    tokens_of_fails_early, Split,
};
use vstd::prelude::*;
use vstd::string::*;

verus! {

/// The texts of the tokens, each followed by one space; `None` where a token
/// has no text.
pub open spec fn line_of(ts: Seq<Token>) -> Option<Seq<char>>
    decreases ts.len(),
{
    if ts.len() == 0 {
        Some(Seq::empty())
    } else {
        match (line_of(ts.drop_last()), text_of(ts.last())) {
            (Some(line), Some(text)) => Some(line + text + seq![' ']),
            _ => None,
        }
    }
}

/// The symbol that stands for a token: the number or the operator itself.
/// A bracket has none.
pub open spec fn symbol_for(t: Token) -> Option<Operation> {
    match t {
        Token::Number(n) => Some(Operation::Number(n)),
        Token::Op(op) => if op.is_operator() {
            Some(op)
        } else {
            None
        },
        Token::Bracket(_) => None,
    }
}

/// What a line comes to: its tokens are put in postfix order and written
/// out, the text is lexed into symbols, and the symbols are evaluated last
/// to first. `None` stands for a numeric fault.
pub open spec fn line_result(text: Seq<char>) -> Option<Result<(int, nat), Failure>> {
    match tokens_of(fragments(text)) {
        Err(bad) => Some(Err(Failure::InvalidToken(bad))),
        Ok(ts) => match line_of(postfix(ts)) {
            None => Some(Err(Failure::InvalidString)),
            Some(line) => match symbols_of(fragments(line)) {
                Err(bad) => Some(Err(Failure::InvalidToken(bad))),
                Ok(ops) => match run(ops.reverse()) {
                    Outcome::Value(v, used) => Some(Ok((v, used))),
                    Outcome::Missing => Some(Err(Failure::InvalidProgram)),
                    Outcome::Fault => None,
                },
            },
        },
    }
}

/// The texts of tokens that all have one.
pub open spec fn texts_of(ts: Seq<Token>) -> Seq<Seq<char>> {
    Seq::new(ts.len(), |i: int| text_of(ts[i]).unwrap())
}

/// The symbols of tokens that all have one.
pub open spec fn symbols_for(ts: Seq<Token>) -> Seq<Operation> {
    Seq::new(ts.len(), |i: int| symbol_for(ts[i]).unwrap())
}

/// A token's text is a word: not empty, and without a space.
pub proof fn text_is_one_fragment(t: Token)
    requires
        text_of(t) is Some,
    ensures
        is_word(text_of(t).unwrap()),
{
    if let Token::Number(n) = t {
        number_text_is_plain(n as int);
    }
}

/// Characters other than spaces extend the fragment under way.
pub proof fn split_extends_word(line: Seq<char>, word: Seq<char>)
    requires
        forall|i: int| 0 <= i < word.len() ==> word[i] != ' ',
    ensures
        split(line + word) == (Split {
            done: split(line).done,
            word: split(line).word + word,
        }),
    decreases word.len(),
{
    if word.len() == 0 {
        assert(line + word =~= line);
        assert(split(line).word + word =~= split(line).word);
    } else {
        let shorter = word.drop_last();
        split_extends_word(line, shorter);
        assert((line + word).drop_last() =~= line + shorter);
        assert((line + word).last() == word.last());
        assert((split(line).word + shorter).push(word.last()) =~= split(line).word + word);
    }
}

/// A written-out line falls apart into the texts of its tokens.
pub proof fn fragments_of_line(ts: Seq<Token>)
    requires
        forall|i: int| 0 <= i < ts.len() ==> text_of(#[trigger] ts[i]) is Some,
    ensures
        line_of(ts) is Some,
        split(line_of(ts).unwrap()) == (Split { done: texts_of(ts), word: Seq::empty() }),
        fragments(line_of(ts).unwrap()) == texts_of(ts),
    decreases ts.len(),
{
    if ts.len() == 0 {
        assert(texts_of(ts) =~= Seq::<Seq<char>>::empty());
    } else {
        let front = ts.drop_last();
        fragments_of_line(front);
        let line = line_of(front).unwrap();
        let text = text_of(ts.last()).unwrap();
        text_is_one_fragment(ts.last());
        split_extends_word(line, text);
        let whole = line + text + seq![' '];
        assert(whole.drop_last() =~= line + text);
        assert(whole.last() == ' ');
        assert(Seq::<char>::empty() + text =~= text);
        assert(texts_of(front).push(text) =~= texts_of(ts));
    }
}

/// Writing tokens out and reading the line again token by token gives the
/// same tokens.
pub proof fn line_reads_back_as_tokens(ts: Seq<Token>)
    requires
        forall|i: int| 0 <= i < ts.len() ==> text_of(#[trigger] ts[i]) is Some,
    ensures
        line_of(ts) is Some,
        tokens_of(fragments(line_of(ts).unwrap())) == Ok::<Seq<Token>, Seq<char>>(ts),
    decreases ts.len(),
{
    fragments_of_line(ts);
    if ts.len() == 0 {
        assert(texts_of(ts) =~= Seq::<Seq<char>>::empty());
        assert(ts =~= Seq::<Token>::empty());
    } else {
        let front = ts.drop_last();
        line_reads_back_as_tokens(front);
        fragments_of_line(front);
        assert(texts_of(ts).drop_last() =~= texts_of(front));
        tokenize_inverts_stringify(ts.last());
        assert(texts_of(ts).last() == text_of(ts.last()).unwrap());
        assert(tokens_of(texts_of(front)) == Ok::<Seq<Token>, Seq<char>>(front));
        assert(front.push(ts.last()) =~= ts);
    }
}

/// Writing out tokens that are numbers and operators and lexing the line
/// gives their symbols, in the same order.
pub proof fn line_lexes_to_symbols(ts: Seq<Token>)
    requires
        forall|i: int| 0 <= i < ts.len() ==> symbol_for(#[trigger] ts[i]) is Some,
    ensures
        line_of(ts) is Some,
        symbols_of(fragments(line_of(ts).unwrap())) == Ok::<Seq<Operation>, Seq<char>>(
            symbols_for(ts),
        ),
    decreases ts.len(),
{
    assert forall|i: int| 0 <= i < ts.len() implies text_of(#[trigger] ts[i]) is Some by {
        assert(symbol_for(ts[i]) is Some);
    }
    fragments_of_line(ts);
    if ts.len() == 0 {
        assert(texts_of(ts) =~= Seq::<Seq<char>>::empty());
        assert(symbols_for(ts) =~= Seq::<Operation>::empty());
    } else {
        let front = ts.drop_last();
        line_lexes_to_symbols(front);
        fragments_of_line(front);
        assert(texts_of(ts).drop_last() =~= texts_of(front));
        assert(symbol_for(ts.last()) is Some);
        if let Token::Number(n) = ts.last() {
            parse_inverts_render(n as int);
            number_text_is_plain(n as int);
        }
        assert(symbol_of(text_of(ts.last()).unwrap()) == symbol_for(ts.last()));
        assert(symbols_for(front).push(symbol_for(ts.last()).unwrap()) =~= symbols_for(ts));
    }
}

/// Every token read from text has a text.
pub proof fn spelled_tokens_have_text(frags: Seq<Seq<char>>)
    ensures
        tokens_of(frags) matches Ok(ts) ==> ts.len() == frags.len() && forall|i: int|
            0 <= i < ts.len() ==> token_of(frags[i]) == Some(#[trigger] ts[i]) && text_of(ts[i])
                is Some,
    decreases frags.len(),
{
    if frags.len() > 0 {
        spelled_tokens_have_text(frags.drop_last());
    }
}

/// What a line without brackets comes to, without the way through text: the
/// symbols of its postfix form, evaluated last to first.
pub proof fn line_result_without_brackets(text: Seq<char>)
    requires
        tokens_of(fragments(text)) matches Ok(ts) && forall|i: int|
            0 <= i < ts.len() ==> !(#[trigger] ts[i] is Bracket),
    ensures
        line_result(text) == match run(
            symbols_for(postfix(tokens_of(fragments(text))->Ok_0)).reverse(),
        ) {
            Outcome::Value(v, used) => Some(Ok::<(int, nat), Failure>((v, used))),
            Outcome::Missing => Some(Err(Failure::InvalidProgram)),
            Outcome::Fault => None,
        },
{
    let ts = tokens_of(fragments(text))->Ok_0;
    let ordered = postfix(ts);
    spelled_tokens_have_text(fragments(text));
    postfix_draws_from_input(ts);
    assert forall|i: int| 0 <= i < ordered.len() implies symbol_for(
        #[trigger] ordered[i],
    ) is Some by {
        let j = choose|j: int| 0 <= j < ts.len() && ts[j] == ordered[i];
        assert(!(ts[j] is Bracket));
        assert(text_of(ts[j]) is Some);
    }
    line_lexes_to_symbols(ordered);
}

/// A line never fails for want of a token's text: what was read from text
/// can be written.
pub proof fn line_result_is_never_invalid_string(text: Seq<char>)
    ensures
        line_result(text) != Some(Err::<(int, nat), Failure>(Failure::InvalidString)),
{
    if let Ok(ts) = tokens_of(fragments(text)) {
        let ordered = postfix(ts);
        spelled_tokens_have_text(fragments(text));
        postfix_draws_from_input(ts);
        assert forall|i: int| 0 <= i < ordered.len() implies text_of(
            #[trigger] ordered[i],
        ) is Some by {
            let j = choose|j: int| 0 <= j < ts.len() && ts[j] == ordered[i];
            assert(text_of(ts[j]) is Some);
        }
        fragments_of_line(ordered);
    }
}

/// Reads a line token by token. The first piece that spells no token is
/// returned in `InvalidToken`.
pub fn tokenize_line(text: &str) -> (r: Result<Vec<Token>, Error>)
    ensures
        match tokens_of(fragments(text@)) {
            Ok(ts) => r matches Ok(v) && v@ == ts,
            Err(f) => r matches Err(e) && e@ == Failure::InvalidToken(f),
        },
{
    let words = split_words(text);
    let ghost frags = fragments(text@);
    let mut tokens: Vec<Token> = Vec::new();
    let mut k: usize = 0;
    while k < words.len()
        invariant
            k <= words@.len(),
            frags == fragments(text@),
            words@.len() == frags.len(),
            forall|j: int| 0 <= j < words@.len() ==> (#[trigger] words@[j])@ == frags[j],
            tokens_of(frags.take(k as int)) == Ok::<Seq<Token>, Seq<char>>(tokens@),
        decreases words@.len() - k,
    {
        let word = words[k];
        proof {
            assert(frags.take(k + 1).drop_last() =~= frags.take(k as int));
            assert(frags.take(k + 1).last() == word@);
        }
        match tokenize_string(word) {
            Ok(t) => tokens.push(t),
            Err(e) => {
                proof {
                    tokens_of_fails_early(frags, k + 1);
                }
                return Err(e);
            },
        }
        k += 1;
    }
    proof {
        assert(frags.take(k as int) =~= frags);
    }
    Ok(tokens)
}

/// Writes tokens out, each followed by one space. Fails with
/// `InvalidString` where a token has no text.
pub fn render_line(tokens: &Vec<Token>) -> (r: Result<String, Error>)
    ensures
        match line_of(tokens@) {
            Some(line) => r matches Ok(s) && s@ == line,
            None => r matches Err(Error::InvalidString),
        },
{
    let mut line = String::new();
    let mut k: usize = 0;
    while k < tokens.len()
        invariant
            k <= tokens@.len(),
            line_of(tokens@.take(k as int)) == Some(line@),
        decreases tokens@.len() - k,
    {
        proof {
            assert(tokens@.take(k + 1).drop_last() =~= tokens@.take(k as int));
            assert(tokens@.take(k + 1).last() == tokens@[k as int]);
            reveal_strlit(" ");
        }
        match stringify_token(tokens[k]) {
            Ok(text) => {
                let ghost before = line@;
                line.append(text.as_str());
                line.append(" ");
                assert(line@ =~= before + text@ + seq![' ']);
            },
            Err(e) => {
                proof {
                    line_of_fails_early(tokens@, k + 1);
                }
                return Err(Error::InvalidString);
            },
        }
        k += 1;
    }
    proof {
        assert(tokens@.take(k as int) =~= tokens@);
    }
    Ok(line)
}

/// A token without text among the first spoils the whole line.
pub proof fn line_of_fails_early(ts: Seq<Token>, k: int)
    requires
        0 <= k <= ts.len(),
        line_of(ts.take(k)) is None,
    ensures
        line_of(ts) is None,
    decreases ts.len(),
{
    if k == ts.len() {
        assert(ts.take(k) =~= ts);
    } else {
        assert(ts.drop_last().take(k) =~= ts.take(k));
        line_of_fails_early(ts.drop_last(), k);
    }
}

/// The symbols in opposite order.
pub fn reversed(symbols: &Vec<Operation>) -> (out: Vec<Operation>)
    ensures
        out@ == symbols@.reverse(),
{
    let n = symbols.len();
    let mut out: Vec<Operation> = Vec::new();
    let mut k: usize = 0;
    while k < n
        invariant
            n == symbols@.len(),
            k <= n,
            out@.len() == k,
            forall|j: int| 0 <= j < k ==> out@[j] == symbols@[n - 1 - j],
        decreases n - k,
    {
        out.push(symbols[n - 1 - k]);
        k += 1;
    }
    assert(out@ =~= symbols@.reverse());
    out
}

/// Evaluates a line of infix text: the first error on the way is returned,
/// and `None` where a result leaves the 32-bit range or a divisor is zero.
pub fn evaluate_line(text: &str) -> (r: Option<Result<(i32, usize), Error>>)
    ensures
        match line_result(text@) {
            Some(Ok(p)) => r matches Some(Ok(q)) && q.0 as int == p.0 && q.1 as nat == p.1,
            Some(Err(f)) => r matches Some(Err(e)) && e@ == f,
            None => r is None,
        },
{
    let tokens = match tokenize_line(text) {
        Ok(tokens) => tokens,
        Err(e) => { return Some(Err(e)); },
    };
    let ordered = convert_to_rpn(tokens);
    let line = match render_line(&ordered) {
        Ok(line) => line,
        Err(e) => { return Some(Err(e)); },
    };
    let symbols = match lex(line.as_str()) {
        Ok(symbols) => symbols,
        Err(e) => { return Some(Err(e)); },
    };
    let prefix = reversed(&symbols);
    try_evaluate(prefix.as_slice())
}

} // verus!
