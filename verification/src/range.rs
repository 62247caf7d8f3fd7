//! A set that is one range, such as `a-z`, `[a-z]` or `\141-\172`: telling
//! whether a specification is one, and writing it out.

use vstd::prelude::*;
use vstd::slice::slice_subrange;
use crate::error::{result_view, ParseError, ParseFailure};
use crate::number::{bounded_value, parse_unsigned};
use crate::operand::{lemma_literals_well_counted, literals, push_literals, well_counted, Operand};
use crate::parse::{find_from, lemma_symbols_well_counted, offset_of, parse_symbols, symbols};
use crate::text::{char_from_u32, is_scalar_value, str_to_chars};

verus! {

/// The character that `digits` gives the code of in octal, where they give
/// one.
pub open spec fn octal_char(digits: Seq<char>) -> Option<char> {
    match bounded_value(digits, 8, u32::MAX as nat) {
        Some(code) => if is_scalar_value(code as int) {
            Some(code as char)
        } else {
            None
        },
        None => None,
    }
}

/// The character that `digits` gives the code of in octal.
fn octal_char_of(digits: &[char]) -> (c: Option<char>)
    ensures
        c == octal_char(digits@),
{
    match parse_unsigned(digits, 8, u32::MAX as u64) {
        Some(code) => char_from_u32(code as u32),
        None => None,
    }
}

/// Reads `s` as the code of a character, written in octal.
pub fn parse_octal(s: &str) -> (c: Option<char>)
    ensures
        c == octal_char(s@),
{
    let digits = str_to_chars(s);
    octal_char_of(digits.as_slice())
}

/// The characters whose codes lie between `lo` and `hi`, both included, in
/// ascending order.
pub open spec fn chars_between(lo: int, hi: int) -> Seq<char>
    decreases hi - lo + 1,
{
    if hi < lo {
        Seq::empty()
    } else if is_scalar_value(hi) {
        chars_between(lo, hi - 1).push(hi as char)
    } else {
        chars_between(lo, hi - 1)
    }
}

/// The characters between two codes are exactly the characters with a code
/// in that span, each once and in ascending order.
pub proof fn lemma_chars_between(lo: int, hi: int)
    ensures
        forall|i: int|
            0 <= i < chars_between(lo, hi).len() ==> lo <= (#[trigger] chars_between(lo, hi)[i])
                as int <= hi,
        forall|i: int, j: int|
            0 <= i < j < chars_between(lo, hi).len() ==> (chars_between(lo, hi)[i] as int) < (
            chars_between(lo, hi)[j] as int),
        forall|code: int|
            lo <= code <= hi && is_scalar_value(code) ==> #[trigger] chars_between(
                lo,
                hi,
            ).contains(code as char),
    decreases hi - lo + 1,
{
    if hi >= lo {
        lemma_chars_between(lo, hi - 1);
        let init = chars_between(lo, hi - 1);
        let all = chars_between(lo, hi);
        assert forall|code: int| lo <= code <= hi && is_scalar_value(code) implies all.contains(
            code as char,
        ) by {
            if code < hi {
                assert(init.contains(code as char));
                let i = choose|i: int| 0 <= i < init.len() && init[i] == code as char;
                assert(all[i] == code as char);
            } else {
                assert(all[all.len() - 1] == code as char);
            }
        }
    }
}

/// Appends the characters from `lo` to `hi` to `chars`.
fn push_chars_between(chars: &mut Vec<char>, lo: char, hi: char)
    ensures
        final(chars)@ == old(chars)@ + chars_between(lo as int, hi as int),
{
    let first: u32 = lo as u32;
    let last: u32 = hi as u32;
    if last < first {
        assert(old(chars)@ + chars_between(first as int, last as int) == old(chars)@);
        return;
    }
    let mut code: u32 = first;
    assert(old(chars)@ + chars_between(first as int, code - 1) == old(chars)@);
    while code <= last
        invariant
            first <= code <= last + 1,
            last <= 0x10FFFF,
            chars@ == old(chars)@ + chars_between(first as int, code - 1),
        decreases last + 1 - code,
    {
        let ghost so_far = chars_between(first as int, code - 1);
        match char_from_u32(code) {
            Some(c) => {
                chars.push(c);
                assert(chars@ == old(chars)@ + so_far.push(c));
            },
            None => {},
        }
        code += 1;
    }
}

/// Whether `c` is `[` or `]`.
pub open spec fn is_bracket(c: char) -> bool {
    c == '[' || c == ']'
}

/// `s` without the brackets it starts with.
pub open spec fn trim_start(s: Seq<char>) -> Seq<char>
    decreases s.len(),
{
    if s.len() > 0 && is_bracket(s[0]) {
        trim_start(s.skip(1))
    } else {
        s
    }
}

/// `s` without the brackets it ends with.
pub open spec fn trim_end(s: Seq<char>) -> Seq<char>
    decreases s.len(),
{
    if s.len() > 0 && is_bracket(s.last()) {
        trim_end(s.drop_last())
    } else {
        s
    }
}

/// `s` without the brackets at either end.
pub open spec fn trim_brackets(s: Seq<char>) -> Seq<char> {
    trim_end(trim_start(s))
}

/// The two bounds of a range as they are written: what stands before the
/// first `-`, and what stands between it and the next `-` or the end.
pub struct RangeBounds {
    pub start: Seq<char>,
    pub end: Seq<char>,
}

/// The bounds in `s`, brackets at either end set aside; `None` where `s` has
/// no `-` between them.
pub open spec fn range_bounds(s: Seq<char>) -> Option<RangeBounds> {
    let inner = trim_brackets(s);
    let dash = offset_of(inner, 0, '-') as int;
    if dash >= inner.len() {
        None
    } else {
        let stop = dash + 1 + offset_of(inner, dash + 1, '-');
        Some(RangeBounds { start: inner.subrange(0, dash), end: inner.subrange(dash + 1, stop) })
    }
}

/// Whether `piece` begins with a backslash.
pub open spec fn is_escaped(piece: Seq<char>) -> bool {
    piece.len() > 0 && piece[0] == '\\'
}

/// Whether the bounds of `s`, if it has any, can be read: both are written
/// in octal, or only one is, or both hold a character.
pub open spec fn range_readable(s: Seq<char>) -> bool {
    match range_bounds(s) {
        Some(bounds) => is_escaped(bounds.start) || is_escaped(bounds.end) || (bounds.start.len()
            > 0 && bounds.end.len() > 0),
        None => true,
    }
}

/// The characters of the range with the given bounds. Two octal bounds give
/// the characters between the two codes, or none where a bound is no code
/// of a character. Two plain bounds give the characters between the first
/// character of the one and the first character of the other. An octal and a
/// plain bound give nothing.
pub open spec fn range_chars(bounds: RangeBounds) -> Seq<char> {
    if is_escaped(bounds.start) && is_escaped(bounds.end) {
        match (octal_char(bounds.start.skip(1)), octal_char(bounds.end.skip(1))) {
            (Some(lo), Some(hi)) => chars_between(lo as int, hi as int),
            _ => Seq::empty(),
        }
    } else if !is_escaped(bounds.start) && !is_escaped(bounds.end) {
        chars_between(bounds.start[0] as int, bounds.end[0] as int)
    } else {
        Seq::empty()
    }
}

/// The operands that the range `s` stands for: one literal for each of its
/// characters, in ascending order.
pub open spec fn range_operands(s: Seq<char>) -> Result<Seq<Operand>, ParseFailure> {
    match range_bounds(s) {
        Some(bounds) => Ok(literals(range_chars(bounds))),
        None => Err(ParseFailure::IterationFailed),
    }
}

/// A bracket at the start can be set aside before the rest is trimmed.
proof fn lemma_trim_start_step(s: Seq<char>, from: int)
    requires
        0 <= from < s.len(),
        is_bracket(s[from]),
    ensures
        trim_start(s.subrange(from, s.len() as int)) == trim_start(
            s.subrange(from + 1, s.len() as int),
        ),
{
    let tail = s.subrange(from, s.len() as int);
    assert(tail.skip(1) == s.subrange(from + 1, s.len() as int));
}

/// A bracket at the end can be set aside before the rest is trimmed.
proof fn lemma_trim_end_step(s: Seq<char>, from: int, to: int)
    requires
        0 <= from < to <= s.len(),
        is_bracket(s[to - 1]),
    ensures
        trim_end(s.subrange(from, to)) == trim_end(s.subrange(from, to - 1)),
{
    let part = s.subrange(from, to);
    assert(part.drop_last() == s.subrange(from, to - 1));
}

/// The part of `chars` that is left when the brackets at either end are set
/// aside.
fn trim(chars: &[char]) -> (inner: &[char])
    ensures
        inner@ == trim_brackets(chars@),
{
    let len = chars.len();
    let mut from: usize = 0;
    proof {
        assert(chars@.subrange(0, len as int) == chars@);
    }
    while from < len && (chars[from] == '[' || chars[from] == ']')
        invariant
            from <= len == chars.len(),
            trim_start(chars@) == trim_start(chars@.subrange(from as int, len as int)),
        decreases len - from,
    {
        proof {
            lemma_trim_start_step(chars@, from as int);
        }
        from += 1;
    }
    let mut to: usize = len;
    while to > from && (chars[to - 1] == '[' || chars[to - 1] == ']')
        invariant
            from <= to <= len == chars.len(),
            trim_end(chars@.subrange(from as int, len as int)) == trim_end(
                chars@.subrange(from as int, to as int),
            ),
        decreases to - from,
    {
        proof {
            lemma_trim_end_step(chars@, from as int, to as int);
        }
        to -= 1;
    }
    slice_subrange(chars, from, to)
}

/// The two bounds in `chars`, as slices of it.
fn split_bounds(chars: &[char]) -> (bounds: Option<(&[char], &[char])>)
    ensures
        match bounds {
            Some((start, end)) => range_bounds(chars@) == Some(
                RangeBounds { start: start@, end: end@ },
            ),
            None => range_bounds(chars@) is None,
        },
{
    let inner = trim(chars);
    let dash = find_from(inner, 0, '-');
    if dash >= inner.len() {
        return None;
    }
    let stop = find_from(inner, dash + 1, '-');
    Some((slice_subrange(inner, 0, dash), slice_subrange(inner, dash + 1, stop)))
}

/// Whether `piece` begins with a backslash.
fn starts_with_backslash(piece: &[char]) -> (escaped: bool)
    ensures
        escaped == is_escaped(piece@),
{
    piece.len() > 0 && piece[0] == '\\'
}

/// Says whether the bounds of the range `s` can be read.
pub fn is_range_readable(s: &str) -> (readable: bool)
    ensures
        readable == range_readable(s@),
{
    let chars = str_to_chars(s);
    match split_bounds(chars.as_slice()) {
        Some((start, end)) => starts_with_backslash(start) || starts_with_backslash(end) || (
        start.len() > 0 && end.len() > 0),
        None => true,
    }
}

/// Writes out the range `string1_or_string2`: one literal operand for each
/// character from the first bound to the second.
pub fn parse_ranges(string1_or_string2: &str) -> (r: Result<Vec<Operand>, ParseError>)
    requires
        range_readable(string1_or_string2@),
    ensures
        result_view(r) == range_operands(string1_or_string2@),
{
    let input = str_to_chars(string1_or_string2);
    let (start, end) = match split_bounds(input.as_slice()) {
        Some(bounds) => bounds,
        None => {
            return Err(ParseError::IterationFailed);
        },
    };
    let mut chars: Vec<char> = Vec::new();
    if starts_with_backslash(start) && starts_with_backslash(end) {
        let start_char = octal_char_of(slice_subrange(start, 1, start.len()));
        let end_char = octal_char_of(slice_subrange(end, 1, end.len()));
        match (start_char, end_char) {
            (Some(lo), Some(hi)) => {
                push_chars_between(&mut chars, lo, hi);
            },
            _ => {},
        }
    } else if !starts_with_backslash(start) && !starts_with_backslash(end) {
        push_chars_between(&mut chars, start[0], end[0]);
    }
    let mut vec: Vec<Operand> = Vec::new();
    push_literals(&mut vec, chars.as_slice());
    Ok(vec)
}

/// Whether the regular expression `pattern` has a match in `haystack`, as
/// `regex::Regex::is_match` decides it; `None` where `regex::Regex::new` does
/// not accept `pattern`.
pub uninterp spec fn regex_match(pattern: Seq<char>, haystack: Seq<char>) -> Option<bool>;

/// `regex::Regex::new`, then `Regex::is_match`: compiles `pattern` and
/// searches `haystack` for a match. Both depend on their arguments alone; what
/// they decide is known here only by its name, [`regex_match`].
#[verifier::external_body]
fn regex_is_match(pattern: &str, haystack: &str) -> (found: Option<bool>)
    ensures
        found == regex_match(pattern@, haystack@),
{
    match regex::Regex::new(pattern) {
        Ok(regex) => Some(regex.is_match(haystack)),
        Err(_) => None,
    }
}

/// The pattern of a set that is one range: a range of letters and digits in
/// square brackets, a range between two octal escapes, or a range between two
/// letters or digits. Each has to make up the whole set.
pub const RANGE_PATTERN: &'static str =
    r"^\[[a-zA-Z0-9\\]+-[a-zA-Z0-9\\]+\]$|^\\[0-7]{1,3}-\\[0-7]{1,3}$|^[a-zA-Z0-9]-[a-zA-Z0-9]$";

/// Whether `s` as a whole is one range, by [`RANGE_PATTERN`].
pub open spec fn is_single_range(s: Seq<char>) -> bool {
    regex_match(RANGE_PATTERN@, s) == Some(true)
}

/// Whether a search came back with a match.
pub fn match_found(found: Option<bool>) -> (yes: bool)
    ensures
        yes == (found == Some(true)),
{
    match found {
        Some(yes) => yes,
        None => false,
    }
}

/// Determines whether `string1_or_string2` as a whole is one range.
pub fn contains_single_range(string1_or_string2: &str) -> (is_range: bool)
    ensures
        is_range == is_single_range(string1_or_string2@),
{
    match_found(regex_is_match(RANGE_PATTERN, string1_or_string2))
}

/// The operands of the set `s`: those of a range where `s` is taken as one,
/// else what its symbols stand for. A range whose bounds cannot be read is
/// rejected.
pub open spec fn set_operands(s: Seq<char>, is_range: bool) -> Result<Seq<Operand>, ParseFailure> {
    if is_range {
        if range_readable(s) {
            range_operands(s)
        } else {
            Err(ParseFailure::IterationFailed)
        }
    } else {
        symbols(s)
    }
}

/// Reads the set `string1_or_string2`, as a range where `is_range` says so
/// and symbol by symbol where it does not.
pub fn parse_set(string1_or_string2: &str, is_range: bool) -> (r: Result<Vec<Operand>, ParseError>)
    ensures
        result_view(r) == set_operands(string1_or_string2@, is_range),
{
    if is_range {
        if is_range_readable(string1_or_string2) {
            parse_ranges(string1_or_string2)
        } else {
            Err(ParseError::IterationFailed)
        }
    } else {
        parse_symbols(string1_or_string2)
    }
}

/// Reads a set: a specification that as a whole is one range is written out,
/// any other is read symbol by symbol.
pub fn parse_string1_or_string2(string1_or_string2: &str) -> (r: Result<Vec<Operand>, ParseError>)
    ensures
        result_view(r) == set_operands(string1_or_string2@, is_single_range(string1_or_string2@)),
{
    let is_range = contains_single_range(string1_or_string2);
    parse_set(string1_or_string2, is_range)
}

/// A set that was read has no operand with a count of zero.
pub proof fn lemma_set_operands_well_counted(s: Seq<char>, is_range: bool)
    ensures
        set_operands(s, is_range) matches Ok(ops) ==> well_counted(ops),
{
    if is_range {
        if range_bounds(s) is Some {
            lemma_literals_well_counted(range_chars(range_bounds(s)->0));
        }
    } else {
        lemma_symbols_well_counted(s, 0);
    }
}

} // verus!
