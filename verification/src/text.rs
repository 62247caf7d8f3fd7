//! Strings as sequences of characters: the few operations on `str`, `String`
//! and `char` that the rest of the library builds on.

use vstd::prelude::*;

verus! {

/// Whether `code` is the code point of a character: not a surrogate, and not
/// beyond the last code point.
pub open spec fn is_scalar_value(code: int) -> bool {
    0 <= code <= 0xD7FF || 0xE000 <= code <= 0x10FFFF
}

/// Two characters are the same exactly when their codes are.
pub proof fn lemma_code_determines_char(a: char, b: char)
    ensures
        a as u32 == b as u32 <==> a == b,
{
}

/// `str`'s `==`: whether two string slices hold the same characters.
#[verifier::external_body]
pub(crate) fn str_equal(a: &str, b: &str) -> (same: bool)
    ensures
        same == (a@ == b@),
{
    a == b
}

/// `String::push`: appends one character to the string.
#[verifier::external_body]
pub(crate) fn push_char(text: &mut String, c: char)
    ensures
        final(text)@ == old(text)@.push(c),
{
    text.push(c)
}

/// `char::from_u32`: the character with the code point `code`, or `None`
/// where `code` is a surrogate or lies beyond the last code point.
#[verifier::external_body]
pub(crate) fn char_from_u32(code: u32) -> (c: Option<char>)
    ensures
        is_scalar_value(code as int) ==> c == Some(code as char),
        !is_scalar_value(code as int) ==> c is None,
{
    char::from_u32(code)
}

/// The characters of `s`, in order.
pub fn str_to_chars(s: &str) -> (chars: Vec<char>)
    ensures
        chars@ == s@,
{
    let mut chars: Vec<char> = Vec::new();
    for c in it: s.chars()
        invariant
            chars@ == s@.take(it.index()),
            it.seq() == s@,
    {
        chars.push(c);
    }
    chars
}

/// The string made of `chars`, in order.
pub fn chars_to_string(chars: &[char]) -> (text: String)
    ensures
        text@ == chars@,
{
    let mut text = String::new();
    let mut i: usize = 0;
    while i < chars.len()
        invariant
            i <= chars.len(),
            text@ == chars@.take(i as int),
        decreases chars.len() - i,
    {
        push_char(&mut text, chars[i]);
        i += 1;
    }
    text
}

} // verus!
