//! Decimal text of 32-bit integers: what a numeral means, reading one, and
//! writing one.

use crate::text::char_at;
use vstd::prelude::*;
use vstd::string::*;

verus! {

/// Whether `c` is one of `0` to `9`.
pub open spec fn is_digit(c: char) -> bool {
    '0' as u32 <= c as u32 <= '9' as u32
}

/// The number that a digit stands for.
pub open spec fn digit_value(c: char) -> nat {
    (c as u32 - '0' as u32) as nat
}

/// The digit that stands for `d`, which is below ten.
pub open spec fn digit_char(d: nat) -> char {
    if d == 0 {
        '0'
    } else if d == 1 {
        '1'
    } else if d == 2 {
        '2'
    } else if d == 3 {
        '3'
    } else if d == 4 {
        '4'
    } else if d == 5 {
        '5'
    } else if d == 6 {
        '6'
    } else if d == 7 {
        '7'
    } else if d == 8 {
        '8'
    } else {
        '9'
    }
}

/// Whether `s` is a non-empty run of digits.
pub open spec fn is_numeral(s: Seq<char>) -> bool {
    s.len() > 0 && forall|i: int| 0 <= i < s.len() ==> is_digit(#[trigger] s[i])
}

/// The number that a run of digits writes in base ten.
pub open spec fn numeral_value(s: Seq<char>) -> nat
    decreases s.len(),
{
    if s.len() == 0 {
        0
    } else {
        numeral_value(s.drop_last()) * 10 + digit_value(s.last())
    }
}

/// The integer that `s` writes: an optional minus sign, then a numeral, with
/// a value in the 32-bit signed range. `None` for any other text.
pub open spec fn parse_int(s: Seq<char>) -> Option<int> {
    if s.len() > 0 && s[0] == '-' {
        let digits = s.skip(1);
        if is_numeral(digits) && numeral_value(digits) <= 0x8000_0000 {
            Some(-(numeral_value(digits) as int))
        } else {
            None
        }
    } else if is_numeral(s) && numeral_value(s) <= 0x7fff_ffff {
        Some(numeral_value(s) as int)
    } else {
        None
    }
}

/// The shortest numeral with value `n`.
pub open spec fn numeral_of(n: nat) -> Seq<char>
    decreases n,
{
    if n < 10 {
        seq![digit_char(n)]
    } else {
        numeral_of(n / 10).push(digit_char(n % 10))
    }
}

/// The decimal text of `v`: a minus sign for a negative value, then the
/// shortest numeral of its magnitude.
pub open spec fn render_int(v: int) -> Seq<char> {
    if v < 0 {
        seq!['-'] + numeral_of((-v) as nat)
    } else {
        numeral_of(v as nat)
    }
}

/// A numeral's leading part is worth no more than the whole.
pub proof fn numeral_value_grows(s: Seq<char>, k: int)
    requires
        0 <= k <= s.len(),
    ensures
        numeral_value(s.take(k)) <= numeral_value(s),
    decreases s.len(),
{
    if k == s.len() {
        assert(s.take(k) =~= s);
    } else {
        assert(s.drop_last().take(k) =~= s.take(k));
        numeral_value_grows(s.drop_last(), k);
    }
}

/// The shortest numeral of `n` is a numeral and its value is `n`.
pub proof fn numeral_of_value(n: nat)
    ensures
        is_numeral(numeral_of(n)),
        numeral_value(numeral_of(n)) == n,
    decreases n,
{
    if n < 10 {
        let s = numeral_of(n);
        assert(s.drop_last() =~= Seq::<char>::empty());
        assert(numeral_value(s.drop_last()) == 0);
    } else {
        let head = numeral_of(n / 10);
        numeral_of_value(n / 10);
        let s = head.push(digit_char(n % 10));
        assert(s.drop_last() =~= head);
        assert forall|i: int| 0 <= i < s.len() implies is_digit(#[trigger] s[i]) by {
            if i < head.len() {
                assert(s[i] == head[i]);
            }
        }
    }
}

/// Reading the decimal text of a 32-bit integer gives that integer back.
pub proof fn parse_inverts_render(v: int)
    requires
        i32::MIN <= v <= i32::MAX,
    ensures
        parse_int(render_int(v)) == Some(v),
{
    if v < 0 {
        let digits = numeral_of((-v) as nat);
        numeral_of_value((-v) as nat);
        assert(render_int(v).skip(1) =~= digits);
    } else {
        let s = numeral_of(v as nat);
        numeral_of_value(v as nat);
        assert(is_digit(s[0]));
    }
}

/// Reads a decimal 32-bit integer; `None` for text that writes none.
pub fn parse_i32(text: &str) -> (r: Option<i32>)
    ensures
        match parse_int(text@) {
            Some(v) => r == Some(v as i32),
            None => r is None,
        },
{
    let n = text.unicode_len();
    if n == 0 {
        return None;
    }
    let plain = text.is_ascii();
    let negative = char_at(text, 0, plain) == '-';
    let start: usize = if negative { 1 } else { 0 };
    let limit: u64 = if negative { 0x8000_0000 } else { 0x7fff_ffff };
    let ghost digits = text@.skip(start as int);
    proof {
        if !negative {
            assert(digits =~= text@);
        }
    }
    if start == n {
        return None;
    }
    let mut acc: u64 = 0;
    let mut i: usize = start;
    while i < n
        invariant
            n == text@.len(),
            start <= i <= n,
            digits == text@.skip(start as int),
            forall|j: int| 0 <= j < i - start ==> is_digit(#[trigger] digits[j]),
            acc as nat == numeral_value(digits.take(i - start)),
            acc <= limit,
            n > 0,
            plain ==> is_ascii(text),
            negative == (text@[0] == '-'),
            start == if negative { 1usize } else { 0usize },
            limit == if negative { 0x8000_0000u64 } else { 0x7fff_ffffu64 },
            !negative ==> digits == text@,
        decreases n - i,
    {
        let c = char_at(text, i, plain);
        if c < '0' || c > '9' {
            assert(!is_digit(digits[i - start]));
            return None;
        }
        let d: u64 = (c as u32 - '0' as u32) as u64;
        proof {
            let next = digits.take(i - start + 1);
            assert(next.drop_last() =~= digits.take(i - start));
            assert(next.last() == c);
            numeral_value_grows(digits, i - start + 1);
        }
        acc = acc * 10 + d;
        if acc > limit {
            return None;
        }
        i += 1;
    }
    proof {
        assert(digits.take(n - start) =~= digits);
    }
    if negative {
        Some((0 - acc as i64) as i32)
    } else {
        Some(acc as i32)
    }
}

/// The one-character text of a digit.
fn digit_text(d: u64) -> (s: &'static str)
    requires
        d < 10,
    ensures
        s@ == seq![digit_char(d as nat)],
{
    proof {
        reveal_strlit("0");
        reveal_strlit("1");
        reveal_strlit("2");
        reveal_strlit("3");
        reveal_strlit("4");
        reveal_strlit("5");
        reveal_strlit("6");
        reveal_strlit("7");
        reveal_strlit("8");
        reveal_strlit("9");
    }
    let s = if d == 0 {
        "0"
    } else if d == 1 {
        "1"
    } else if d == 2 {
        "2"
    } else if d == 3 {
        "3"
    } else if d == 4 {
        "4"
    } else if d == 5 {
        "5"
    } else if d == 6 {
        "6"
    } else if d == 7 {
        "7"
    } else if d == 8 {
        "8"
    } else {
        "9"
    };
    assert(s@ =~= seq![digit_char(d as nat)]);
    s
}

/// Writes the shortest numeral of `m`.
fn render_magnitude(m: u64) -> (s: String)
    ensures
        s@ == numeral_of(m as nat),
    decreases m,
{
    if m < 10 {
        String::from_str(digit_text(m))
    } else {
        let mut s = render_magnitude(m / 10);
        s.append(digit_text(m % 10));
        assert(s@ =~= numeral_of(m as nat));
        s
    }
}

/// Writes the decimal text of `v`.
pub fn render_i32(v: i32) -> (s: String)
    ensures
        s@ == render_int(v as int),
{
    if v < 0 {
        let digits = render_magnitude((0 - v as i64) as u64);
        let mut s = String::from_str("-");
        s.append(digits.as_str());
        proof {
            reveal_strlit("-");
            assert(s@ =~= render_int(v as int));
        }
        s
    } else {
        render_magnitude(v as u64)
    }
}

} // verus!
