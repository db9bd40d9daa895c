//! Lexer for a small C-like expression and statement language: a character
//! cursor over the source text, and a tokenizer that turns the text into a
//! flat token list ended by exactly one end-of-input marker.
use vstd::prelude::*;

pub mod lexer;
pub mod scanner;

verus! {

/// Relies on `String::push`: appends one character at the end of the string.
#[verifier::external_body]
pub(crate) fn push_char(s: &mut String, c: char)
    ensures
        final(s)@ == old(s)@.push(c),
{
    s.push(c);
}

} // verus!
