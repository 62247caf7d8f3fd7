//! Reading a set specification symbol by symbol: escapes, classes,
//! equivalence classes, repeat constructs and plain characters.

use vstd::prelude::*;
use vstd::slice::slice_subrange;
use crate::class::{class_members, expand_character_class};
use crate::error::{result_view, ParseError, ParseFailure};
use crate::number::{bounded_value, digits_value, parse_unsigned};
use crate::operand::{
    equivalents, lemma_concat_well_counted, lemma_equivalents_well_counted,
    lemma_literals_well_counted, literals, push_literals, well_counted, Char, CharRepetition,
    Equiv, Operand,
};
use crate::text::{chars_to_string, str_to_chars};

verus! {

/// How many characters of `s` stand between `from` and the first `c` at or
/// after `from`, or the end of `s` where there is no such `c`.
pub open spec fn offset_of(s: Seq<char>, from: int, c: char) -> nat
    decreases s.len() - from,
{
    if from < 0 || from >= s.len() || s[from] == c {
        0
    } else {
        1 + offset_of(s, from + 1, c)
    }
}

/// `from + offset_of(s, from, c)` is the first index at or after `from`
/// that holds `c`, or the length of `s`.
pub proof fn lemma_offset_of(s: Seq<char>, from: int, c: char)
    requires
        0 <= from <= s.len(),
    ensures
        from + offset_of(s, from, c) <= s.len(),
        from + offset_of(s, from, c) < s.len() ==> s[from + offset_of(s, from, c)] == c,
        forall|j: int| from <= j < from + offset_of(s, from, c) ==> s[j] != c,
    decreases s.len() - from,
{
    if from < s.len() && s[from] != c {
        lemma_offset_of(s, from + 1, c);
    }
}

/// The index that [`lemma_offset_of`] describes is the only one of its kind.
pub proof fn lemma_offset_of_unique(s: Seq<char>, from: int, c: char, at: int)
    requires
        0 <= from <= at <= s.len(),
        at < s.len() ==> s[at] == c,
        forall|j: int| from <= j < at ==> s[j] != c,
    ensures
        from + offset_of(s, from, c) == at,
    decreases s.len() - from,
{
    if from < at {
        lemma_offset_of_unique(s, from + 1, c, at);
    }
}

/// The first index at or after `from` that holds `c`, or the length of
/// `chars`.
pub fn find_from(chars: &[char], from: usize, c: char) -> (at: usize)
    requires
        from <= chars.len(),
    ensures
        at == from + offset_of(chars@, from as int, c),
        from <= at <= chars.len(),
{
    let mut at: usize = from;
    while at < chars.len() && chars[at] != c
        invariant
            from <= at <= chars.len(),
            forall|j: int| from <= j < at ==> chars@[j] != c,
        decreases chars.len() - at,
    {
        at += 1;
    }
    proof {
        lemma_offset_of_unique(chars@, from as int, c, at as int);
    }
    at
}

/// The operands of an equivalence class: one for each character between
/// `[=` and the next `=`, which `]` has to follow.
pub open spec fn equiv_class(chars: Seq<char>) -> Result<Seq<Operand>, ParseFailure> {
    let stop = 2 + offset_of(chars, 2, '=') as int;
    let body = chars.subrange(2, stop);
    if body.len() == 0 {
        Err(ParseFailure::MissingEquivSymbol)
    } else if stop >= chars.len() {
        Err(ParseFailure::MissingEquivEquals)
    } else if stop + 1 >= chars.len() || chars[stop + 1] != ']' {
        Err(ParseFailure::MissingEquivBracket)
    } else {
        Ok(equivalents(body))
    }
}

/// Reads an equivalence class, `[=` and the characters after it.
pub fn parse_equiv(chars: &[char]) -> (r: Result<Vec<Operand>, ParseError>)
    requires
        chars.len() >= 2,
        chars[0] == '[',
        chars[1] == '=',
    ensures
        result_view(r) == equiv_class(chars@),
{
    let stop = find_from(chars, 2, '=');
    if stop == 2 {
        return Err(ParseError::MissingEquivSymbol);
    }
    if stop >= chars.len() {
        return Err(ParseError::MissingEquivEquals);
    }
    if stop + 1 >= chars.len() || chars[stop + 1] != ']' {
        return Err(ParseError::MissingEquivBracket);
    }
    let ghost body = chars@.subrange(2, stop as int);
    let mut operands: Vec<Operand> = Vec::new();
    let mut i: usize = 2;
    while i < stop
        invariant
            2 <= i <= stop <= chars.len(),
            body == chars@.subrange(2, stop as int),
            operands@ == equivalents(body.take(i - 2)),
        decreases stop - i,
    {
        operands.push(Operand::Equiv(Equiv { char: chars[i] }));
        proof {
            assert(body.take(i - 2 + 1) == body.take(i - 2).push(chars@[i as int]));
            assert(equivalents(body.take(i - 2 + 1)) == equivalents(body.take(i - 2)).push(
                Operand::class_of(chars@[i as int]),
            ));
        }
        i += 1;
    }
    proof {
        assert(body.take(stop - 2) == body);
    }
    Ok(operands)
}

/// Whether `chars` has the outline of a repeat construct: `[`, a character,
/// `*`, and then no `]` before the last character, which is one.
pub open spec fn repeat_shaped(chars: Seq<char>) -> bool {
    &&& chars.len() >= 4
    &&& chars[0] == '['
    &&& chars[2] == '*'
    &&& 3 + offset_of(chars, 3, ']') == chars.len() - 1
}

/// The operand of a repeat construct `[c*n]`. Without `n`, or with an `n`
/// that is zero, the character is repeated as often as needed. An `n` that
/// starts with `0` is octal, any other is decimal.
pub open spec fn repeat_construct(chars: Seq<char>) -> Result<Operand, ParseFailure> {
    let text = chars.subrange(3, chars.len() - 1);
    if text.len() == 0 {
        Ok(Operand::Char(Char { char: chars[1], char_repetition: CharRepetition::AsManyAsNeeded }))
    } else {
        let radix: nat = if text[0] == '0' {
            8
        } else {
            10
        };
        match bounded_value(text, radix, usize::MAX as nat) {
            Some(n) => Ok(
                Operand::Char(
                    Char {
                        char: chars[1],
                        char_repetition: if n == 0 {
                            CharRepetition::AsManyAsNeeded
                        } else {
                            CharRepetition::N(n as usize)
                        },
                    },
                ),
            ),
            None => Err(ParseFailure::InvalidRepeatCount(text)),
        }
    }
}

/// Reads a repeat construct `[c*n]`.
pub fn parse_repeated_char(chars: &[char]) -> (r: Result<Operand, ParseError>)
    requires
        repeat_shaped(chars@),
    ensures
        match r {
            Ok(op) => repeat_construct(chars@) == Ok::<Operand, ParseFailure>(op),
            Err(e) => repeat_construct(chars@) == Err::<Operand, ParseFailure>(e@),
        },
{
    let char = chars[1];
    let repeat_string = slice_subrange(chars, 3, chars.len() - 1);
    if repeat_string.len() == 0 {
        return Ok(
            Operand::Char(Char { char, char_repetition: CharRepetition::AsManyAsNeeded }),
        );
    }
    let radix: u8 = if repeat_string[0] == '0' {
        8
    } else {
        10
    };
    match parse_unsigned(repeat_string, radix, usize::MAX as u64) {
        Some(n) => {
            let char_repetition = if n == 0 {
                CharRepetition::AsManyAsNeeded
            } else {
                CharRepetition::N(n as usize)
            };
            Ok(Operand::Char(Char { char, char_repetition }))
        },
        None => Err(ParseError::InvalidRepeatCount(chars_to_string(repeat_string))),
    }
}

/// Whether `c` is one of the digits `0` to `7`.
pub open spec fn is_octal_digit(c: char) -> bool {
    '0' <= c <= '7'
}

/// The character that a backslash followed by `c` stands for, where `c` is no
/// octal digit: a control character for the letters `a b t n v f r`, else `c`
/// itself.
pub open spec fn escaped_char(c: char) -> char {
    if c == 'a' {
        '\u{7}'
    } else if c == 'b' {
        '\u{8}'
    } else if c == 't' {
        '\u{9}'
    } else if c == 'n' {
        '\u{a}'
    } else if c == 'v' {
        '\u{b}'
    } else if c == 'f' {
        '\u{c}'
    } else if c == 'r' {
        '\u{d}'
    } else {
        c
    }
}

/// How many octal digits, at most three, start at `at`, where one does.
pub open spec fn octal_run_len(s: Seq<char>, at: int) -> int {
    if at + 1 < s.len() && is_octal_digit(s[at + 1]) {
        if at + 2 < s.len() && is_octal_digit(s[at + 2]) {
            3
        } else {
            2
        }
    } else {
        1
    }
}

/// What one step of reading a set gives: the operands of the symbol, or the
/// error in it, and the index at which the next symbol starts.
pub struct Token {
    pub result: Result<Seq<Operand>, ParseFailure>,
    pub next: int,
}

/// The symbol that the backslash at `pos` starts. At the end of `s` the
/// backslash stands for itself.
pub open spec fn escape_token(s: Seq<char>, pos: int) -> Token {
    if pos + 1 >= s.len() {
        Token { result: Ok(seq![Operand::literal('\\')]), next: pos + 1 }
    } else if is_octal_digit(s[pos + 1]) {
        let len = octal_run_len(s, pos + 1);
        let digits = s.subrange(pos + 1, pos + 1 + len);
        Token {
            result: match digits_value(digits, 8) {
                Some(value) => if value <= 255 {
                    Ok(seq![Operand::literal((value as u8) as char)])
                } else {
                    Err(ParseFailure::InvalidOctalSequence(digits))
                },
                None => Err(ParseFailure::InvalidOctalSequence(digits)),
            },
            next: pos + 1 + len,
        }
    } else {
        Token { result: Ok(seq![Operand::literal(escaped_char(s[pos + 1]))]), next: pos + 2 }
    }
}

/// What a bracket run that is closed stands for: a class, an equivalence
/// class, a repeat construct, or else its own characters.
pub open spec fn bracket_construct(run: Seq<char>) -> Result<Seq<Operand>, ParseFailure> {
    if run[1] == ':' && run[run.len() - 2] == ':' {
        match class_members(run.subrange(2, run.len() - 2)) {
            Some(members) => Ok(literals(members)),
            None => Err(ParseFailure::InvalidClassName),
        }
    } else if run[1] == '=' && run[run.len() - 2] == '=' {
        equiv_class(run)
    } else if run[2] == '*' {
        match repeat_construct(run) {
            Ok(op) => Ok(seq![op]),
            Err(e) => Err(e),
        }
    } else {
        Ok(literals(run))
    }
}

/// The symbol that the `[` at `pos` starts. The run ends with the first `]`
/// that stands three or more characters after the `[`; without one, the
/// rest of `s` is taken as plain characters.
pub open spec fn bracket_token(s: Seq<char>, pos: int) -> Token {
    let close = pos + 3 + offset_of(s, pos + 3, ']');
    if close < s.len() {
        Token { result: bracket_construct(s.subrange(pos, close + 1)), next: close + 1 }
    } else {
        Token { result: Ok(literals(s.subrange(pos, s.len() as int))), next: s.len() as int }
    }
}

/// The symbol that starts at `pos`.
pub open spec fn token_at(s: Seq<char>, pos: int) -> Token {
    if s[pos] == '[' {
        bracket_token(s, pos)
    } else if s[pos] == '\\' {
        escape_token(s, pos)
    } else {
        Token { result: Ok(seq![Operand::literal(s[pos])]), next: pos + 1 }
    }
}

/// The operands of the symbols of `s` from `pos` on, or the error of the
/// first symbol that has one.
pub open spec fn symbols_from(s: Seq<char>, pos: int) -> Result<Seq<Operand>, ParseFailure>
    decreases s.len() - pos,
{
    if pos < 0 || pos >= s.len() {
        Ok(Seq::empty())
    } else {
        let token = token_at(s, pos);
        match token.result {
            Err(e) => Err(e),
            Ok(ops) => match symbols_from(s, token.next) {
                Ok(rest) => Ok(ops + rest),
                Err(e) => Err(e),
            },
        }
    }
}

/// The operands that `s` stands for when read symbol by symbol.
pub open spec fn symbols(s: Seq<char>) -> Result<Seq<Operand>, ParseFailure> {
    symbols_from(s, 0)
}

/// Whether reading `s` from `pos` on comes, without an error, to a backslash
/// that is the last character of `s` and escapes nothing.
pub open spec fn lone_backslash_from(s: Seq<char>, pos: int) -> bool
    decreases s.len() - pos,
{
    if pos < 0 || pos >= s.len() {
        false
    } else if s[pos] == '\\' && pos + 1 >= s.len() {
        true
    } else {
        let token = token_at(s, pos);
        token.result is Ok && lone_backslash_from(s, token.next)
    }
}

/// A set that ends with a backslash that escapes nothing can be read.
pub proof fn lemma_lone_backslash_is_read(s: Seq<char>, pos: int)
    requires
        lone_backslash_from(s, pos),
    ensures
        symbols_from(s, pos) is Ok,
    decreases s.len() - pos,
{
    if s[pos] == '\\' && pos + 1 >= s.len() {
        assert(symbols_from(s, pos + 1) is Ok);
    } else {
        lemma_lone_backslash_is_read(s, token_at(s, pos).next);
    }
}

/// `ops` followed by what `rest` holds, or the error of `rest`.
spec fn preceded_by(ops: Seq<Operand>, rest: Result<Seq<Operand>, ParseFailure>) -> Result<
    Seq<Operand>,
    ParseFailure,
> {
    match rest {
        Ok(tail) => Ok(ops + tail),
        Err(e) => Err(e),
    }
}

/// Whether reading one symbol went as `token` says: on success the operands
/// of the symbol were appended to `before` and the index of the next symbol
/// was returned; on an error nothing was appended.
spec fn token_read(
    before: Seq<Operand>,
    token: Token,
    after: Seq<Operand>,
    r: Result<usize, ParseError>,
) -> bool {
    match r {
        Ok(next) => token.result is Ok && after =~= before + token.result->Ok_0 && next
            == token.next,
        Err(e) => token.result == Err::<Seq<Operand>, ParseFailure>(e@) && after =~= before,
    }
}

/// In a closed bracket run the first `]` from the fourth character on is the
/// last character.
proof fn lemma_run_closes_once(s: Seq<char>, pos: int)
    requires
        0 <= pos,
        pos + 3 + offset_of(s, pos + 3, ']') < s.len(),
    ensures
        ({
            let close = pos + 3 + offset_of(s, pos + 3, ']');
            let run = s.subrange(pos, close + 1);
            3 + offset_of(run, 3, ']') == run.len() - 1
        }),
{
    let close = pos + 3 + offset_of(s, pos + 3, ']');
    let run = s.subrange(pos, close + 1);
    lemma_offset_of(s, pos + 3, ']');
    assert(run[run.len() - 1] == s[close]);
    assert forall|j: int| 3 <= j < run.len() - 1 implies run[j] != ']' by {
        assert(run[j] == s[pos + j]);
    }
    lemma_offset_of_unique(run, 3, ']', run.len() - 1);
}

/// Reads the symbol that the backslash at `pos` starts.
fn read_escape(chars: &[char], pos: usize, operand_vec: &mut Vec<Operand>) -> (r: Result<
    usize,
    ParseError,
>)
    requires
        pos < chars.len(),
        chars[pos as int] == '\\',
    ensures
        token_read(old(operand_vec)@, escape_token(chars@, pos as int), final(operand_vec)@, r),
{
    let first = pos + 1;
    if first >= chars.len() {
        operand_vec.push(Operand::single('\\'));
        return Ok(first);
    }
    let cha = chars[first];
    if '0' <= cha && cha <= '7' {
        let mut end = first + 1;
        if end < chars.len() && '0' <= chars[end] && chars[end] <= '7' {
            end += 1;
            if end < chars.len() && '0' <= chars[end] && chars[end] <= '7' {
                end += 1;
            }
        }
        let digits = slice_subrange(chars, first, end);
        match parse_unsigned(digits, 8, 255) {
            Some(value) => {
                operand_vec.push(Operand::single((value as u8) as char));
                Ok(end)
            },
            None => Err(ParseError::InvalidOctalSequence(chars_to_string(digits))),
        }
    } else {
        let char_for_operand = if cha == 'a' {
            '\u{7}'
        } else if cha == 'b' {
            '\u{8}'
        } else if cha == 't' {
            '\u{9}'
        } else if cha == 'n' {
            '\u{a}'
        } else if cha == 'v' {
            '\u{b}'
        } else if cha == 'f' {
            '\u{c}'
        } else if cha == 'r' {
            '\u{d}'
        } else {
            cha
        };
        operand_vec.push(Operand::single(char_for_operand));
        Ok(first + 1)
    }
}

/// Reads the symbol that the `[` at `pos` starts.
fn read_bracket(chars: &[char], pos: usize, operand_vec: &mut Vec<Operand>) -> (r: Result<
    usize,
    ParseError,
>)
    requires
        pos < chars.len(),
        chars[pos as int] == '[',
    ensures
        token_read(old(operand_vec)@, bracket_token(chars@, pos as int), final(operand_vec)@, r),
{
    let len = chars.len();
    if len - pos > 3 {
        let close = find_from(chars, pos + 3, ']');
        if close < len {
            let run = slice_subrange(chars, pos, close + 1);
            let last = run.len() - 1;
            if run[1] == ':' && run[last - 1] == ':' {
                let class = chars_to_string(slice_subrange(run, 2, last - 1));
                return match expand_character_class(class.as_str(), operand_vec) {
                    Ok(_) => Ok(close + 1),
                    Err(e) => Err(e),
                };
            }
            if run[1] == '=' && run[last - 1] == '=' {
                return match parse_equiv(run) {
                    Ok(mut operands) => {
                        operand_vec.append(&mut operands);
                        Ok(close + 1)
                    },
                    Err(e) => Err(e),
                };
            }
            if run[2] == '*' {
                proof {
                    lemma_run_closes_once(chars@, pos as int);
                }
                return match parse_repeated_char(run) {
                    Ok(operand) => {
                        operand_vec.push(operand);
                        Ok(close + 1)
                    },
                    Err(e) => Err(e),
                };
            }
            push_literals(operand_vec, run);
            return Ok(close + 1);
        }
    }
    push_literals(operand_vec, slice_subrange(chars, pos, len));
    Ok(len)
}

/// Reads a set symbol by symbol. Besides the result it says whether the
/// reading ended at a backslash that escapes nothing.
fn read_symbols(chars: &[char]) -> (r: (Result<Vec<Operand>, ParseError>, bool))
    ensures
        result_view(r.0) == symbols(chars@),
        r.1 == lone_backslash_from(chars@, 0),
{
    let mut operand_vec: Vec<Operand> = Vec::new();
    let mut lone_backslash = false;
    let mut pos: usize = 0;
    while pos < chars.len()
        invariant
            pos <= chars.len(),
            symbols(chars@) == preceded_by(operand_vec@, symbols_from(chars@, pos as int)),
            lone_backslash_from(chars@, 0) == (lone_backslash || lone_backslash_from(
                chars@,
                pos as int,
            )),
            lone_backslash ==> pos == chars.len(),
        decreases chars.len() - pos,
    {
        let ch = chars[pos];
        let ghost before = operand_vec@;
        let ghost token = token_at(chars@, pos as int);
        let step = if ch == '[' {
            read_bracket(chars, pos, &mut operand_vec)
        } else if ch == '\\' {
            if pos + 1 >= chars.len() {
                lone_backslash = true;
            }
            read_escape(chars, pos, &mut operand_vec)
        } else {
            operand_vec.push(Operand::single(ch));
            Ok(pos + 1)
        };
        assert(token_read(before, token, operand_vec@, step));
        match step {
            Ok(next) => {
                proof {
                    let ops = token.result->Ok_0;
                    let rest = symbols_from(chars@, next as int);
                    assert(symbols_from(chars@, pos as int) == preceded_by(ops, rest));
                    if rest is Ok {
                        assert((before + ops) + rest->Ok_0 == before + (ops + rest->Ok_0));
                    }
                }
                pos = next;
            },
            Err(e) => {
                return (Err(e), false);
            },
        }
    }
    proof {
        assert(operand_vec@ + Seq::<Operand>::empty() == operand_vec@);
    }
    (Ok(operand_vec), lone_backslash)
}

/// Reads a set specification symbol by symbol, from left to right. A
/// backslash starts an escape, a `[` a bracket run; every other character
/// stands for itself. Ranges are not read here: a `-` is a plain character.
pub fn parse_symbols(string1_or_string2: &str) -> (r: Result<Vec<Operand>, ParseError>)
    ensures
        result_view(r) == symbols(string1_or_string2@),
{
    let chars = str_to_chars(string1_or_string2);
    read_symbols(chars.as_slice()).0
}

/// Whether reading `s` symbol by symbol ends at a backslash that is the last
/// character of `s` and escapes nothing. Such a backslash stands for itself;
/// it is not portable, and a caller may want to say so.
pub open spec fn ends_with_lone_backslash(s: Seq<char>) -> bool {
    lone_backslash_from(s, 0)
}

/// Says whether [`parse_symbols`] takes the last character of
/// `string1_or_string2` as a backslash that escapes nothing.
pub fn has_lone_backslash(string1_or_string2: &str) -> (lone: bool)
    ensures
        lone == ends_with_lone_backslash(string1_or_string2@),
{
    let chars = str_to_chars(string1_or_string2);
    read_symbols(chars.as_slice()).1
}

/// No symbol stands for an operand with a count of zero.
pub proof fn lemma_token_well_counted(s: Seq<char>, pos: int)
    requires
        0 <= pos < s.len(),
    ensures
        token_at(s, pos).result matches Ok(ops) ==> well_counted(ops),
{
    let token = token_at(s, pos);
    if s[pos] == '[' {
        let close = pos + 3 + offset_of(s, pos + 3, ']');
        if close < s.len() {
            let run = s.subrange(pos, close + 1);
            if run[1] == ':' && run[run.len() - 2] == ':' {
                let members = class_members(run.subrange(2, run.len() - 2));
                if members is Some {
                    lemma_literals_well_counted(members->0);
                }
            } else if run[1] == '=' && run[run.len() - 2] == '=' {
                let stop = 2 + offset_of(run, 2, '=') as int;
                lemma_equivalents_well_counted(run.subrange(2, stop));
            } else if run[2] == '*' {
            } else {
                lemma_literals_well_counted(run);
            }
        } else {
            lemma_literals_well_counted(s.subrange(pos, s.len() as int));
        }
    }
}

/// A set that is read symbol by symbol has no operand with a count of zero.
pub proof fn lemma_symbols_well_counted(s: Seq<char>, pos: int)
    ensures
        symbols_from(s, pos) matches Ok(ops) ==> well_counted(ops),
    decreases s.len() - pos,
{
    if 0 <= pos < s.len() {
        let token = token_at(s, pos);
        lemma_token_well_counted(s, pos);
        lemma_symbols_well_counted(s, token.next);
        if token.result is Ok && symbols_from(s, token.next) is Ok {
            lemma_concat_well_counted(token.result->Ok_0, symbols_from(s, token.next)->Ok_0);
        }
    }
}

} // verus!
