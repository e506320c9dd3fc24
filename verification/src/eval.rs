//! Evaluation of a prefix-ordered symbol sequence by recursive descent.

use crate::symbols::{Error, Operation};
use vstd::arithmetic::div_mod::{lemma_fundamental_div_mod, lemma_mod_pos_bound};
use vstd::prelude::*;
use vstd::slice::slice_subrange;

verus! {

/// What evaluating a symbol sequence comes to.
pub enum Outcome {
    /// A value, and the number of leading symbols that make it up.
    Value(int, nat),
    /// The sequence ended where an operand was due.
    Missing,
    /// A result left the 32-bit range, or a divisor was zero.
    Fault,
}

/// Whether `v` is a value of `i32`.
pub open spec fn fits_i32(v: int) -> bool {
    i32::MIN <= v <= i32::MAX
}

/// Integer quotient rounded toward zero; `b` is not zero.
pub open spec fn quotient(a: int, b: int) -> int {
    if a >= 0 && b > 0 {
        a / b
    } else if a < 0 && b < 0 {
        (-a) / (-b)
    } else if a < 0 {
        -((-a) / b)
    } else {
        -(a / (-b))
    }
}

/// The quotient leaves a remainder smaller than the divisor and on the
/// dividend's side of zero: it is the exact ratio rounded toward zero.
pub proof fn quotient_rounds_toward_zero(a: int, b: int)
    requires
        b != 0,
    ensures
        a >= 0 ==> 0 <= a - quotient(a, b) * b,
        a <= 0 ==> a - quotient(a, b) * b <= 0,
        b > 0 ==> -b < a - quotient(a, b) * b < b,
        b < 0 ==> b < a - quotient(a, b) * b < -b,
{
    let x = if a < 0 { -a } else { a };
    let d = if b < 0 { -b } else { b };
    lemma_fundamental_div_mod(x, d);
    lemma_mod_pos_bound(x, d);
    let q = x / d;
    assert(x == d * q + x % d);
    assert(q * d == d * q) by (nonlinear_arith);
    assert((-q) * d == -(q * d)) by (nonlinear_arith);
    assert(q * (-d) == -(q * d)) by (nonlinear_arith);
    assert((-q) * (-d) == q * d) by (nonlinear_arith);
}

/// The exact result of a binary operator on two operands, or `None` where
/// the divisor is zero. `op` is an operator.
pub open spec fn combine(op: Operation, a: int, b: int) -> Option<int> {
    match op {
        Operation::Add => Some(a + b),
        Operation::Sub => Some(a - b),
        Operation::Mul => Some(a * b),
        Operation::Div => if b == 0 {
            None
        } else {
            Some(quotient(a, b))
        },
        Operation::Number(_) => None,
    }
}

/// Evaluation of the expression that starts `s`: a number stands for itself
/// and takes one symbol; an operator takes the expression that follows it as
/// its left operand and the one after that as its right operand.
pub open spec fn run(s: Seq<Operation>) -> Outcome
    decreases s.len(),
{
    if s.len() == 0 {
        Outcome::Missing
    } else {
        match s[0] {
            Operation::Number(n) => Outcome::Value(n as int, 1),
            op => match run(s.skip(1)) {
                Outcome::Value(a, used_a) => {
                    let right = if used_a < s.len() {
                        run(s.skip(1 + used_a as int))
                    } else {
                        Outcome::Missing
                    };
                    match right {
                        Outcome::Value(b, used_b) => match combine(op, a, b) {
                            Some(v) => if fits_i32(v) {
                                Outcome::Value(v, 1 + used_a + used_b)
                            } else {
                                Outcome::Fault
                            },
                            None => Outcome::Fault,
                        },
                        other => other,
                    }
                },
                other => other,
            },
        }
    }
}

/// An expression takes at least one symbol and no more than there are, and
/// its value is a 32-bit integer.
pub proof fn run_bounds(s: Seq<Operation>)
    ensures
        run(s) matches Outcome::Value(v, used) ==> 1 <= used <= s.len() && fits_i32(v),
        s.len() == 0 ==> run(s) is Missing,
    decreases s.len(),
{
    if s.len() > 0 {
        run_bounds(s.skip(1));
        if let Outcome::Value(_, used_a) = run(s.skip(1)) {
            run_bounds(s.skip(1 + used_a as int));
        }
    }
}

/// Symbols after an expression do not change what it evaluates to, unless
/// it was cut short.
pub proof fn run_ignores_trailing(s: Seq<Operation>, tail: Seq<Operation>)
    ensures
        !(run(s) is Missing) ==> run(s + tail) == run(s),
    decreases s.len(),
{
    if s.len() > 0 && !(s[0] is Number) {
        let whole = s + tail;
        assert(whole.skip(1) =~= s.skip(1) + tail);
        run_ignores_trailing(s.skip(1), tail);
        run_bounds(s.skip(1));
        if let Outcome::Value(_, used_a) = run(s.skip(1)) {
            assert(whole.skip(1 + used_a as int) =~= s.skip(1 + used_a as int) + tail);
            run_ignores_trailing(s.skip(1 + used_a as int), tail);
            run_bounds(s.skip(1 + used_a as int));
        }
    }
}

/// Applies an operator to two operands; `None` on a zero divisor or a
/// result outside the 32-bit range.
fn apply(op: Operation, a: i32, b: i32) -> (r: Option<i32>)
    requires
        op.is_operator(),
    ensures
        match combine(op, a as int, b as int) {
            Some(v) => if fits_i32(v) {
                r == Some(v as i32)
            } else {
                r is None
            },
            None => r is None,
        },
{
    match op {
        Operation::Add => a.checked_add(b),
        Operation::Sub => a.checked_sub(b),
        Operation::Mul => a.checked_mul(b),
        _ => a.checked_div(b),
    }
}

/// Evaluates the expression at the start of `tokens` and reports its value
/// with the number of symbols it took. Fails with `InvalidProgram` where the
/// sequence ends before the expression does. The caller rules out numeric
/// faults, a zero divisor or a result outside the 32-bit range;
/// [`try_evaluate`] takes every input.
pub fn evaluate(tokens: &[Operation]) -> (r: Result<(i32, usize), Error>)
    requires
        !(run(tokens@) is Fault),
    ensures
        match run(tokens@) {
            Outcome::Value(v, used) => r matches Ok(p) && p.0 as int == v && p.1 as nat == used,
            _ => r matches Err(Error::InvalidProgram),
        },
    decreases tokens@.len(),
{
    let n = tokens.len();
    if n == 0 {
        return Err(Error::InvalidProgram);
    }
    let op = tokens[0];
    if let Operation::Number(v) = op {
        return Ok((v, 1));
    }
    proof {
        run_bounds(tokens@.skip(1));
    }
    let (a, a_skip) = match evaluate(slice_subrange(tokens, 1, n)) {
        Ok(p) => p,
        Err(e) => { return Err(e); },
    };
    proof {
        run_bounds(tokens@.skip(1 + a_skip));
    }
    let (b, b_skip) = match evaluate(slice_subrange(tokens, 1 + a_skip, n)) {
        Ok(p) => p,
        Err(e) => { return Err(e); },
    };
    let v = apply(op, a, b);
    assert(v is Some);
    Ok((v.unwrap(), 1 + a_skip + b_skip))
}

/// Evaluates like [`evaluate`] on every input: `None` where a result leaves
/// the 32-bit range or a divisor is zero, and otherwise what `evaluate`
/// returns.
pub fn try_evaluate(tokens: &[Operation]) -> (r: Option<Result<(i32, usize), Error>>)
    ensures
        match run(tokens@) {
            Outcome::Value(v, used) => r matches Some(Ok(p)) && p.0 as int == v && p.1 as nat
                == used,
            Outcome::Missing => r matches Some(Err(Error::InvalidProgram)),
            Outcome::Fault => r is None,
        },
    decreases tokens@.len(),
{
    let n = tokens.len();
    if n == 0 {
        return Some(Err(Error::InvalidProgram));
    }
    let op = tokens[0];
    if let Operation::Number(v) = op {
        return Some(Ok((v, 1)));
    }
    proof {
        run_bounds(tokens@.skip(1));
    }
    let (a, a_skip) = match try_evaluate(slice_subrange(tokens, 1, n)) {
        Some(Ok(p)) => p,
        other => { return other; },
    };
    proof {
        run_bounds(tokens@.skip(1 + a_skip));
    }
    let (b, b_skip) = match try_evaluate(slice_subrange(tokens, 1 + a_skip, n)) {
        Some(Ok(p)) => p,
        other => { return other; },
    };
    match apply(op, a, b) {
        Some(v) => Some(Ok((v, 1 + a_skip + b_skip))),
        None => None,
    }
}

} // verus!
