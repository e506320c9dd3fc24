//! Reading characters and pieces of a `str` by character position, in
//! constant time where the text is known to be ASCII.

use vstd::prelude::*;
use vstd::string::*;

verus! {

/// The character at position `i`. With `plain` set the text is ASCII and the
/// character is read in place; otherwise it is found by counting from the
/// start.
pub fn char_at(text: &str, i: usize, plain: bool) -> (c: char)
    requires
        i < text@.len(),
        plain ==> is_ascii(text),
    ensures
        c == text@[i as int],
{
    if plain {
        let b = text.get_ascii(i);
        b as char
    } else {
        text.get_char(i)
    }
}

/// The characters from position `from` up to `to`, as a borrowed piece.
pub fn piece<'a>(text: &'a str, from: usize, to: usize, plain: bool) -> (part: &'a str)
    requires
        from <= to <= text@.len(),
        plain ==> is_ascii(text),
    ensures
        part@ == text@.subrange(from as int, to as int),
{
    if plain {
        text.substring_ascii(from, to)
    } else {
        text.substring_char(from, to)
    }
}

} // verus!
