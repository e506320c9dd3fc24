//! Reordering of an infix token sequence into postfix order with an operator
//! stack and an output queue.

use crate::symbols::{token_le, Token};
use vstd::multiset::{lemma_multiset_empty_len, Multiset};
use vstd::prelude::*;
use vstd::seq_lib::{lemma_multiset_commutative, to_multiset_build};

verus! {

/// The converter's state: the operator stack, top last, and the output
/// queue.
pub struct Yard {
    pub stack: Seq<Token>,
    pub queue: Seq<Token>,
}

/// The state after the top of the stack moved to the end of the queue.
pub open spec fn shift(y: Yard) -> Yard {
    Yard { stack: y.stack.drop_last(), queue: y.queue.push(y.stack.last()) }
}

/// Moves tokens from the stack to the queue for as long as the top is at
/// least `incoming` in the total order on tokens.
pub open spec fn pop_not_below(y: Yard, incoming: Token) -> Yard
    decreases y.stack.len(),
{
    if y.stack.len() > 0 && token_le(incoming, y.stack.last()) {
        pop_not_below(shift(y), incoming)
    } else {
        y
    }
}

/// Moves tokens from the stack to the queue until an open bracket is on top
/// or the stack is empty.
pub open spec fn pop_to_open(y: Yard) -> Yard
    decreases y.stack.len(),
{
    if y.stack.len() > 0 && y.stack.last() != Token::Bracket('(') {
        pop_to_open(shift(y))
    } else {
        y
    }
}

/// The state after one more input token.
pub open spec fn step(y: Yard, t: Token) -> Yard {
    match t {
        Token::Number(_) => Yard { stack: y.stack, queue: y.queue.push(t) },
        Token::Op(_) => {
            let p = pop_not_below(y, t);
            Yard { stack: p.stack.push(t), queue: p.queue }
        },
        Token::Bracket(c) => if c == '(' {
            Yard { stack: y.stack.push(t), queue: y.queue }
        } else if c == ')' {
            let p = pop_to_open(y);
            if p.stack.len() > 0 {
                Yard { stack: p.stack.drop_last(), queue: p.queue }
            } else {
                p
            }
        } else {
            y
        },
    }
}

/// The state after all of `tokens`, taken left to right from an empty stack
/// and an empty queue.
pub open spec fn feed(tokens: Seq<Token>) -> Yard
    decreases tokens.len(),
{
    if tokens.len() == 0 {
        Yard { stack: Seq::empty(), queue: Seq::empty() }
    } else {
        step(feed(tokens.drop_last()), tokens.last())
    }
}

/// The postfix form of `tokens`: the queue after the last token, followed by
/// what is left on the stack, top first.
pub open spec fn postfix(tokens: Seq<Token>) -> Seq<Token> {
    let y = feed(tokens);
    y.queue + y.stack.reverse()
}

/// Number of tokens in a state.
pub open spec fn held(y: Yard) -> nat {
    y.stack.len() + y.queue.len()
}

/// Popping moves tokens and loses none.
pub proof fn pop_not_below_keeps(y: Yard, incoming: Token)
    ensures
        held(pop_not_below(y, incoming)) == held(y),
        pop_not_below(y, incoming).queue.len() >= y.queue.len(),
    decreases y.stack.len(),
{
    if y.stack.len() > 0 && token_le(incoming, y.stack.last()) {
        pop_not_below_keeps(shift(y), incoming);
    }
}

/// Popping moves tokens and loses none.
pub proof fn pop_to_open_keeps(y: Yard)
    ensures
        held(pop_to_open(y)) == held(y),
        pop_to_open(y).queue.len() >= y.queue.len(),
    decreases y.stack.len(),
{
    if y.stack.len() > 0 && y.stack.last() != Token::Bracket('(') {
        pop_to_open_keeps(shift(y));
    }
}

/// The converter never holds more tokens than it has read.
pub proof fn feed_holds_at_most(tokens: Seq<Token>)
    ensures
        held(feed(tokens)) <= tokens.len(),
        postfix(tokens).len() <= tokens.len(),
    decreases tokens.len(),
{
    if tokens.len() > 0 {
        let before = feed(tokens.drop_last());
        feed_holds_at_most(tokens.drop_last());
        pop_not_below_keeps(before, tokens.last());
        pop_to_open_keeps(before);
    }
}

/// An operator that arrives while a bracket is on top of the stack sends
/// that bracket to the queue: every bracket ranks above every operator.
pub proof fn operator_pops_bracket(y: Yard, incoming: Token)
    requires
        incoming is Op,
        y.stack.len() > 0,
        y.stack.last() is Bracket,
    ensures
        pop_not_below(y, incoming) == pop_not_below(shift(y), incoming),
{
}

/// Whether every token of the state's stack and queue occurs in `source`.
pub open spec fn drawn_from(y: Yard, source: Seq<Token>) -> bool {
    &&& forall|i: int| 0 <= i < y.stack.len() ==> source.contains(#[trigger] y.stack[i])
    &&& forall|i: int| 0 <= i < y.queue.len() ==> source.contains(#[trigger] y.queue[i])
}

/// Popping brings no new token into the state.
pub proof fn pop_not_below_draws(y: Yard, incoming: Token, source: Seq<Token>)
    requires
        drawn_from(y, source),
    ensures
        drawn_from(pop_not_below(y, incoming), source),
    decreases y.stack.len(),
{
    if y.stack.len() > 0 && token_le(incoming, y.stack.last()) {
        pop_not_below_draws(shift(y), incoming, source);
    }
}

/// Popping brings no new token into the state.
pub proof fn pop_to_open_draws(y: Yard, source: Seq<Token>)
    requires
        drawn_from(y, source),
    ensures
        drawn_from(pop_to_open(y), source),
    decreases y.stack.len(),
{
    if y.stack.len() > 0 && y.stack.last() != Token::Bracket('(') {
        pop_to_open_draws(shift(y), source);
    }
}

/// The state holds tokens of the input only.
pub proof fn feed_draws_from_input(tokens: Seq<Token>)
    ensures
        drawn_from(feed(tokens), tokens),
    decreases tokens.len(),
{
    if tokens.len() > 0 {
        let front = tokens.drop_last();
        let before = feed(front);
        feed_draws_from_input(front);
        assert forall|t: Token| front.contains(t) implies tokens.contains(t) by {
            let i = choose|i: int| 0 <= i < front.len() && front[i] == t;
            assert(tokens[i] == t);
        }
        assert(drawn_from(before, tokens));
        assert(tokens.contains(tokens.last())) by {
            assert(tokens[tokens.len() - 1] == tokens.last());
        }
        pop_not_below_draws(before, tokens.last(), tokens);
        pop_to_open_draws(before, tokens);
    }
}

/// Every token of the postfix form is a token of the input.
pub proof fn postfix_draws_from_input(tokens: Seq<Token>)
    ensures
        forall|i: int|
            0 <= i < postfix(tokens).len() ==> tokens.contains(#[trigger] postfix(tokens)[i]),
{
    feed_draws_from_input(tokens);
    let y = feed(tokens);
    let out = postfix(tokens);
    assert forall|i: int| 0 <= i < out.len() implies tokens.contains(#[trigger] out[i]) by {
        if i < y.queue.len() {
            assert(out[i] == y.queue[i]);
        } else {
            assert(out[i] == y.stack[y.stack.len() - 1 - (i - y.queue.len())]);
        }
    }
}

/// The tokens of a state, without their order.
pub open spec fn bag(y: Yard) -> Multiset<Token> {
    y.stack.to_multiset().add(y.queue.to_multiset())
}

/// Moving the top of the stack to the queue keeps the tokens.
pub proof fn shift_keeps_bag(y: Yard)
    requires
        y.stack.len() > 0,
    ensures
        bag(shift(y)) == bag(y),
{
    let top = y.stack.last();
    assert(y.stack =~= y.stack.drop_last().push(top));
    to_multiset_build(y.stack.drop_last(), top);
    to_multiset_build(y.queue, top);
    assert(bag(shift(y)) =~= bag(y));
}

/// Popping keeps the tokens.
pub proof fn pop_not_below_keeps_bag(y: Yard, incoming: Token)
    ensures
        bag(pop_not_below(y, incoming)) == bag(y),
    decreases y.stack.len(),
{
    if y.stack.len() > 0 && token_le(incoming, y.stack.last()) {
        shift_keeps_bag(y);
        pop_not_below_keeps_bag(shift(y), incoming);
    }
}

/// On input without brackets the state holds exactly the tokens read.
pub proof fn feed_keeps_bag(tokens: Seq<Token>)
    requires
        forall|i: int| 0 <= i < tokens.len() ==> !(#[trigger] tokens[i] is Bracket),
    ensures
        bag(feed(tokens)) == tokens.to_multiset(),
    decreases tokens.len(),
{
    broadcast use vstd::multiset::group_multiset_axioms;

    if tokens.len() == 0 {
        let none = Seq::<Token>::empty();
        none.to_multiset_ensures();
        lemma_multiset_empty_len(none.to_multiset());
        assert(tokens =~= none);
        assert(bag(feed(tokens)) =~= tokens.to_multiset());
    } else {
        let front = tokens.drop_last();
        let t = tokens.last();
        let before = feed(front);
        feed_keeps_bag(front);
        assert(tokens =~= front.push(t));
        to_multiset_build(front, t);
        assert(!(tokens[tokens.len() - 1] is Bracket));
        match t {
            Token::Number(_) => {
                to_multiset_build(before.queue, t);
            },
            _ => {
                let p = pop_not_below(before, t);
                pop_not_below_keeps_bag(before, t);
                to_multiset_build(p.stack, t);
            },
        }
        assert(bag(feed(tokens)) =~= bag(before).insert(t));
    }
}

/// On input without brackets the postfix form is a rearrangement of the
/// input: it holds the same tokens, each as often.
pub proof fn postfix_rearranges(tokens: Seq<Token>)
    requires
        forall|i: int| 0 <= i < tokens.len() ==> !(#[trigger] tokens[i] is Bracket),
    ensures
        postfix(tokens).to_multiset() == tokens.to_multiset(),
        postfix(tokens).len() == tokens.len(),
{
    let y = feed(tokens);
    feed_keeps_bag(tokens);
    lemma_multiset_commutative(y.queue, y.stack.reverse());
    y.stack.lemma_reverse_to_multiset();
    assert(postfix(tokens).to_multiset() =~= bag(y));
    postfix(tokens).to_multiset_ensures();
    tokens.to_multiset_ensures();
}

/// The values of the number tokens of `s`, in order.
pub open spec fn numbers_in(s: Seq<Token>) -> Seq<i32>
    decreases s.len(),
{
    if s.len() == 0 {
        Seq::empty()
    } else {
        match s.last() {
            Token::Number(n) => numbers_in(s.drop_last()).push(n),
            _ => numbers_in(s.drop_last()),
        }
    }
}

/// Whether `s` holds no number token.
pub open spec fn number_free(s: Seq<Token>) -> bool {
    forall|i: int| 0 <= i < s.len() ==> !(#[trigger] s[i] is Number)
}

/// The numbers of two sequences in a row are the numbers of the first, then
/// those of the second.
pub proof fn numbers_in_concat(a: Seq<Token>, b: Seq<Token>)
    ensures
        numbers_in(a + b) == numbers_in(a) + numbers_in(b),
    decreases b.len(),
{
    if b.len() == 0 {
        assert(a + b =~= a);
        assert(numbers_in(a) + numbers_in(b) =~= numbers_in(a));
    } else {
        numbers_in_concat(a, b.drop_last());
        assert((a + b).drop_last() =~= a + b.drop_last());
        assert((a + b).last() == b.last());
        match b.last() {
            Token::Number(n) => {
                assert((numbers_in(a) + numbers_in(b.drop_last())).push(n) =~= numbers_in(a)
                    + numbers_in(b));
            },
            _ => {},
        }
    }
}

/// Without its last token, a sequence without numbers is still one, and
/// that last token is no number.
pub proof fn number_free_drop_last(s: Seq<Token>)
    requires
        number_free(s),
        s.len() > 0,
    ensures
        number_free(s.drop_last()),
        !(s.last() is Number),
{
    assert(!(s[s.len() - 1] is Number));
    assert forall|i: int| 0 <= i < s.drop_last().len() implies !(#[trigger] s.drop_last()[i]
        is Number) by {
        assert(s.drop_last()[i] == s[i]);
    }
}

/// A token that is no number keeps a sequence free of numbers.
pub proof fn number_free_push(s: Seq<Token>, t: Token)
    requires
        number_free(s),
        !(t is Number),
    ensures
        number_free(s.push(t)),
{
    assert forall|i: int| 0 <= i < s.push(t).len() implies !(#[trigger] s.push(t)[i]
        is Number) by {
        if i < s.len() {
            assert(s.push(t)[i] == s[i]);
        }
    }
}

/// A sequence without number tokens has no numbers.
pub proof fn number_free_has_none(s: Seq<Token>)
    requires
        number_free(s),
    ensures
        numbers_in(s) == Seq::<i32>::empty(),
    decreases s.len(),
{
    if s.len() > 0 {
        number_free_drop_last(s);
        number_free_has_none(s.drop_last());
    }
}

/// Popping from a stack without numbers leaves the queue's numbers alone.
pub proof fn pop_not_below_keeps_numbers(y: Yard, incoming: Token)
    requires
        number_free(y.stack),
    ensures
        number_free(pop_not_below(y, incoming).stack),
        numbers_in(pop_not_below(y, incoming).queue) == numbers_in(y.queue),
    decreases y.stack.len(),
{
    if y.stack.len() > 0 && token_le(incoming, y.stack.last()) {
        number_free_drop_last(y.stack);
        assert(shift(y).queue.drop_last() =~= y.queue);
        pop_not_below_keeps_numbers(shift(y), incoming);
    }
}

/// Popping from a stack without numbers leaves the queue's numbers alone.
pub proof fn pop_to_open_keeps_numbers(y: Yard)
    requires
        number_free(y.stack),
    ensures
        number_free(pop_to_open(y).stack),
        numbers_in(pop_to_open(y).queue) == numbers_in(y.queue),
    decreases y.stack.len(),
{
    if y.stack.len() > 0 && y.stack.last() != Token::Bracket('(') {
        number_free_drop_last(y.stack);
        assert(shift(y).queue.drop_last() =~= y.queue);
        pop_to_open_keeps_numbers(shift(y));
    }
}

/// No number is ever stacked, and the queue holds the numbers read so far in
/// the order in which they came.
pub proof fn feed_keeps_numbers(tokens: Seq<Token>)
    ensures
        number_free(feed(tokens).stack),
        numbers_in(feed(tokens).queue) == numbers_in(tokens),
    decreases tokens.len(),
{
    if tokens.len() > 0 {
        let before = feed(tokens.drop_last());
        let t = tokens.last();
        feed_keeps_numbers(tokens.drop_last());
        match t {
            Token::Number(_) => {
                assert(feed(tokens).queue.drop_last() =~= before.queue);
            },
            Token::Op(_) => {
                pop_not_below_keeps_numbers(before, t);
                number_free_push(pop_not_below(before, t).stack, t);
            },
            Token::Bracket(c) => {
                if c == '(' {
                    number_free_push(before.stack, t);
                } else if c == ')' {
                    let p = pop_to_open(before);
                    pop_to_open_keeps_numbers(before);
                    if p.stack.len() > 0 {
                        number_free_drop_last(p.stack);
                    }
                }
            },
        }
    }
}

/// The postfix form holds the numbers of the input in their order: only
/// operators and brackets move.
pub proof fn postfix_keeps_numbers(tokens: Seq<Token>)
    ensures
        numbers_in(postfix(tokens)) == numbers_in(tokens),
{
    let y = feed(tokens);
    feed_keeps_numbers(tokens);
    let rest = y.stack.reverse();
    assert forall|i: int| 0 <= i < rest.len() implies !(#[trigger] rest[i] is Number) by {
        assert(rest[i] == y.stack[y.stack.len() - 1 - i]);
    }
    number_free_has_none(rest);
    numbers_in_concat(y.queue, rest);
    assert(numbers_in(y.queue) + Seq::<i32>::empty() =~= numbers_in(y.queue));
}

/// Converts an infix token sequence to postfix order. Numbers go to the
/// output as they come; an operator first sends to the output every stacked
/// token that is at least as large in the total order; an open bracket is
/// stacked; a close bracket sends the stack to the output down to the
/// nearest open bracket and drops that bracket. Brackets rank above
/// operators, so an operator that follows an open bracket on the stack sends
/// the bracket to the output too. Never fails: unbalanced brackets give an
/// odd sequence, not an error.
pub fn convert_to_rpn(tokens: Vec<Token>) -> (out: Vec<Token>)
    ensures
        out@ == postfix(tokens@),
{
    let mut queue: Vec<Token> = Vec::new();
    let mut stack: Vec<Token> = Vec::new();
    let n = tokens.len();
    let mut i: usize = 0;
    while i < n
        invariant
            n == tokens@.len(),
            i <= n,
            feed(tokens@.take(i as int)) == (Yard { stack: stack@, queue: queue@ }),
        decreases n - i,
    {
        let token = tokens[i];
        let ghost before = Yard { stack: stack@, queue: queue@ };
        proof {
            assert(tokens@.take(i + 1).drop_last() =~= tokens@.take(i as int));
            assert(tokens@.take(i + 1).last() == token);
        }
        match token {
            Token::Number(_) => {
                queue.push(token);
            },
            Token::Op(_) => {
                while stack.len() > 0 && stack[stack.len() - 1].at_least(token)
                    invariant
                        pop_not_below(Yard { stack: stack@, queue: queue@ }, token)
                            == pop_not_below(before, token),
                    decreases stack@.len(),
                {
                    let top = stack.pop().unwrap();
                    queue.push(top);
                }
                stack.push(token);
            },
            Token::Bracket(c) => {
                if c == '(' {
                    stack.push(token);
                } else if c == ')' {
                    while stack.len() > 0 && stack[stack.len() - 1] != Token::Bracket('(')
                        invariant
                            pop_to_open(Yard { stack: stack@, queue: queue@ }) == pop_to_open(
                                before,
                            ),
                        decreases stack@.len(),
                    {
                        let top = stack.pop().unwrap();
                        queue.push(top);
                    }
                    stack.pop();
                }
            },
        }
        i += 1;
    }
    proof {
        assert(tokens@.take(n as int) =~= tokens@);
    }
    let ghost rest = stack@;
    let ghost done = queue@;
    while stack.len() > 0
        invariant
            queue@ + stack@.reverse() == done + rest.reverse(),
        decreases stack@.len(),
    {
        let ghost s0 = stack@;
        let ghost q0 = queue@;
        let top = stack.pop().unwrap();
        queue.push(top);
        proof {
            assert(s0.reverse() =~= seq![top] + stack@.reverse());
            assert(queue@ + stack@.reverse() =~= q0 + s0.reverse());
        }
    }
    proof {
        assert(queue@ + stack@.reverse() =~= queue@);
    }
    queue
}

} // verus!
