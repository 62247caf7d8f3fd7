//! The named character classes, each a fixed list of ASCII characters.

use vstd::prelude::*;
use crate::error::{ParseError, ParseFailure};
use crate::operand::{literals, push_literals, Operand};
use crate::text::str_equal;

verus! {

/// The characters with the codes `lo` to `hi`, both included, in ascending
/// order.
pub open spec fn byte_span(lo: u8, hi: u8) -> Seq<char> {
    if lo <= hi {
        Seq::new((hi - lo + 1) as nat, |i: int| ((lo + i) as u8) as char)
    } else {
        Seq::empty()
    }
}

/// The members of the class called `name`, in the order in which they enter a
/// set; `None` where there is no class of that name.
pub open spec fn class_members(name: Seq<char>) -> Option<Seq<char>> {
    if name == "alnum"@ {
        Some(byte_span('0' as u8, '9' as u8) + byte_span('A' as u8, 'Z' as u8) + byte_span(
            'a' as u8,
            'z' as u8,
        ))
    } else if name == "alpha"@ {
        Some(byte_span('A' as u8, 'Z' as u8) + byte_span('a' as u8, 'z' as u8))
    } else if name == "digit"@ {
        Some(byte_span('0' as u8, '9' as u8))
    } else if name == "lower"@ {
        Some(byte_span('a' as u8, 'z' as u8))
    } else if name == "upper"@ {
        Some(byte_span('A' as u8, 'Z' as u8))
    } else if name == "space"@ {
        Some(seq![' ', '\t', '\n', '\r', '\u{b}', '\u{c}'])
    } else if name == "blank"@ {
        Some(seq![' ', '\t'])
    } else if name == "cntrl"@ {
        Some(byte_span(0, 31) + byte_span(127, 127))
    } else if name == "graph"@ {
        Some(byte_span(33, 126))
    } else if name == "print"@ {
        Some(byte_span(32, 126))
    } else if name == "punct"@ {
        Some(byte_span(33, 47) + byte_span(58, 64) + byte_span(91, 96) + byte_span(123, 126))
    } else if name == "xdigit"@ {
        Some(byte_span('0' as u8, '9' as u8) + byte_span('A' as u8, 'F' as u8) + byte_span(
            'a' as u8,
            'f' as u8,
        ))
    } else {
        None
    }
}

/// Appends the characters with the codes `lo` to `hi` to `chars`.
fn push_span(chars: &mut Vec<char>, lo: u8, hi: u8)
    requires
        lo <= hi,
    ensures
        final(chars)@ == old(chars)@ + byte_span(lo, hi),
{
    let mut code: u16 = lo as u16;
    while code <= hi as u16
        invariant
            lo <= code <= hi + 1,
            lo <= hi,
            chars@ == old(chars)@ + Seq::new(
                (code - lo) as nat,
                |i: int| ((lo + i) as u8) as char,
            ),
        decreases hi + 1 - code,
    {
        chars.push((code as u8) as char);
        code += 1;
    }
}

/// The members of the class called `class`, if there is such a class.
pub fn class_chars(class: &str) -> (members: Option<Vec<char>>)
    ensures
        match members {
            Some(chars) => class_members(class@) == Some(chars@),
            None => class_members(class@) is None,
        },
{
    let mut chars: Vec<char> = Vec::new();
    if str_equal(class, "alnum") {
        push_span(&mut chars, '0' as u8, '9' as u8);
        push_span(&mut chars, 'A' as u8, 'Z' as u8);
        push_span(&mut chars, 'a' as u8, 'z' as u8);
    } else if str_equal(class, "alpha") {
        push_span(&mut chars, 'A' as u8, 'Z' as u8);
        push_span(&mut chars, 'a' as u8, 'z' as u8);
    } else if str_equal(class, "digit") {
        push_span(&mut chars, '0' as u8, '9' as u8);
    } else if str_equal(class, "lower") {
        push_span(&mut chars, 'a' as u8, 'z' as u8);
    } else if str_equal(class, "upper") {
        push_span(&mut chars, 'A' as u8, 'Z' as u8);
    } else if str_equal(class, "space") {
        chars.push(' ');
        chars.push('\t');
        chars.push('\n');
        chars.push('\r');
        chars.push('\u{b}');
        chars.push('\u{c}');
    } else if str_equal(class, "blank") {
        chars.push(' ');
        chars.push('\t');
    } else if str_equal(class, "cntrl") {
        push_span(&mut chars, 0, 31);
        push_span(&mut chars, 127, 127);
    } else if str_equal(class, "graph") {
        push_span(&mut chars, 33, 126);
    } else if str_equal(class, "print") {
        push_span(&mut chars, 32, 126);
    } else if str_equal(class, "punct") {
        push_span(&mut chars, 33, 47);
        push_span(&mut chars, 58, 64);
        push_span(&mut chars, 91, 96);
        push_span(&mut chars, 123, 126);
    } else if str_equal(class, "xdigit") {
        push_span(&mut chars, '0' as u8, '9' as u8);
        push_span(&mut chars, 'A' as u8, 'F' as u8);
        push_span(&mut chars, 'a' as u8, 'f' as u8);
    } else {
        return None;
    }
    Some(chars)
}

/// What expanding the class called `name` at the end of `before` gives: the
/// set with one literal operand more for each member, or the error for a name
/// that is no class.
pub open spec fn expanded_class(before: Seq<Operand>, name: Seq<char>) -> Result<
    Seq<Operand>,
    ParseFailure,
> {
    match class_members(name) {
        Some(members) => Ok(before + literals(members)),
        None => Err(ParseFailure::InvalidClassName),
    }
}

/// Appends the members of the class called `class` to `operand_vec`, each as
/// a literal operand with a count of one. Where there is no such class,
/// `operand_vec` stays as it is.
pub fn expand_character_class(class: &str, operand_vec: &mut Vec<Operand>) -> (r: Result<
    (),
    ParseError,
>)
    ensures
        match r {
            Ok(_) => expanded_class(old(operand_vec)@, class@) == Ok::<Seq<Operand>, ParseFailure>(
                final(operand_vec)@,
            ),
            Err(e) => expanded_class(old(operand_vec)@, class@) == Err::<
                Seq<Operand>,
                ParseFailure,
            >(e@) && final(operand_vec)@ == old(operand_vec)@,
        },
{
    match class_chars(class) {
        Some(char_vec) => {
            push_literals(operand_vec, char_vec.as_slice());
            Ok(())
        },
        None => Err(ParseError::InvalidClassName),
    }
}

} // verus!
