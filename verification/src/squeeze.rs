//! Squeezing: of a character that the reference set holds and that occurs
//! more than once in a text, only the first occurrence stays.

use std::collections::{HashMap, HashSet};
use vstd::prelude::*;
use crate::operand::Operand;
use crate::text::{lemma_code_determines_char, push_char, str_to_chars};

verus! {

/// How often `c` occurs in `text`.
pub open spec fn occurrences(text: Seq<char>, c: char) -> nat
    decreases text.len(),
{
    if text.len() == 0 {
        0
    } else {
        occurrences(text.drop_last(), c) + if text.last() == c {
            1nat
        } else {
            0nat
        }
    }
}

/// Whether `c` is squeezed in `text`: it occurs more than once, and the
/// reference set holds it.
pub open spec fn repeatable(text: Seq<char>, set: Seq<Operand>, c: char) -> bool {
    occurrences(text, c) > 1 && Operand::member(set, c)
}

/// Whether the character at index `at` stays: it is not squeezed, or it is
/// the first of its kind.
pub open spec fn kept_at(text: Seq<char>, set: Seq<Operand>, at: int) -> bool {
    !(repeatable(text, set, text[at]) && text.take(at).contains(text[at]))
}

/// What stays of the first `n` characters of `text`.
pub open spec fn squeezed_prefix(text: Seq<char>, set: Seq<Operand>, n: int) -> Seq<char>
    decreases n,
{
    if n <= 0 {
        Seq::empty()
    } else if kept_at(text, set, n - 1) {
        squeezed_prefix(text, set, n - 1).push(text[n - 1])
    } else {
        squeezed_prefix(text, set, n - 1)
    }
}

/// The text squeezed.
pub open spec fn squeezed(text: Seq<char>, set: Seq<Operand>) -> Seq<char> {
    squeezed_prefix(text, set, text.len() as int)
}

/// Whether `counts` is the histogram of `text`: it has an entry for the code
/// of each character that occurs, with the number of its occurrences, and no
/// entry for the code of another character.
pub open spec fn counts_of(counts: Map<u32, usize>, text: Seq<char>) -> bool {
    forall|c: char|
        (counts.contains_key(c as u32) <==> #[trigger] occurrences(text, c) > 0) && (
        counts.contains_key(c as u32) ==> counts[c as u32] == occurrences(text, c))
}

/// A character occurs at most as often as the text is long, and at least
/// once where the text holds it.
pub proof fn lemma_occurrences(text: Seq<char>, c: char)
    ensures
        occurrences(text, c) <= text.len(),
        occurrences(text, c) > 0 <==> text.contains(c),
    decreases text.len(),
{
    if text.len() > 0 {
        let init = text.drop_last();
        lemma_occurrences(init, c);
        if init.contains(c) {
            let i = choose|i: int| 0 <= i < init.len() && init[i] == c;
            assert(text[i] == c);
        }
        if text.last() == c {
            assert(text[text.len() - 1] == c);
        }
        if text.contains(c) {
            let i = choose|i: int| 0 <= i < text.len() && text[i] == c;
            if i < init.len() {
                assert(init[i] == c);
            }
        }
    }
}

/// A beginning one character longer holds what the shorter one holds, and
/// the character added.
proof fn lemma_take_contains(text: Seq<char>, n: int, c: char)
    requires
        0 <= n < text.len(),
    ensures
        text.take(n + 1).contains(c) <==> text.take(n).contains(c) || text[n] == c,
{
    let longer = text.take(n + 1);
    let shorter = text.take(n);
    if longer.contains(c) {
        let i = choose|i: int| 0 <= i < longer.len() && longer[i] == c;
        if i < n {
            assert(shorter[i] == c);
        }
    }
    if shorter.contains(c) {
        let i = choose|i: int| 0 <= i < shorter.len() && shorter[i] == c;
        assert(longer[i] == c);
    }
    if text[n] == c {
        assert(longer[n] == c);
    }
}

/// Of what stays of the first `n` characters, a squeezed character makes up
/// one where it has occurred and none where it has not, and any other
/// character as many as it has occurred.
proof fn lemma_squeezed_prefix_occurrences(text: Seq<char>, set: Seq<Operand>, n: int, c: char)
    requires
        0 <= n <= text.len(),
    ensures
        occurrences(squeezed_prefix(text, set, n), c) == if repeatable(text, set, c) {
            if text.take(n).contains(c) {
                1nat
            } else {
                0nat
            }
        } else {
            occurrences(text.take(n), c)
        },
    decreases n,
{
    if n > 0 {
        lemma_squeezed_prefix_occurrences(text, set, n - 1, c);
        lemma_take_contains(text, n - 1, c);
        let before = squeezed_prefix(text, set, n - 1);
        assert(before.push(text[n - 1]).drop_last() == before);
        assert(text.take(n).drop_last() == text.take(n - 1));
    } else {
        assert(text.take(0).len() == 0);
    }
}

/// Squeezing leaves exactly one occurrence of each character that is
/// squeezed, and every occurrence of each other character.
pub proof fn lemma_squeezed_occurrences(text: Seq<char>, set: Seq<Operand>, c: char)
    ensures
        occurrences(squeezed(text, set), c) == if repeatable(text, set, c) {
            1nat
        } else {
            occurrences(text, c)
        },
{
    lemma_squeezed_prefix_occurrences(text, set, text.len() as int, c);
    assert(text.take(text.len() as int) == text);
    lemma_occurrences(text, c);
}

/// Counts how often each character occurs in `chars`. The entries are keyed
/// by the characters' codes.
pub fn count_chars(chars: &[char]) -> (char_counts: HashMap<u32, usize>)
    ensures
        counts_of(char_counts@, chars@),
{
    let mut char_counts: HashMap<u32, usize> = HashMap::new();
    let mut i: usize = 0;
    while i < chars.len()
        invariant
            i <= chars.len(),
            counts_of(char_counts@, chars@.take(i as int)),
        decreases chars.len() - i,
    {
        let ch = chars[i];
        let key: u32 = ch as u32;
        let ghost before = char_counts@;
        let ghost seen = chars@.take(i as int);
        let ghost longer = chars@.take(i + 1);
        proof {
            assert(longer.drop_last() == seen);
            assert(longer.last() == ch);
            lemma_occurrences(seen, ch);
        }
        let count: usize = match char_counts.get(&key) {
            Some(n) => *n,
            None => 0,
        };
        char_counts.insert(key, count + 1);
        proof {
            assert forall|c: char|
                (char_counts@.contains_key(c as u32) <==> #[trigger] occurrences(longer, c) > 0)
                    && (char_counts@.contains_key(c as u32) ==> char_counts@[c as u32]
                    == occurrences(longer, c)) by {
                lemma_code_determines_char(c, ch);
                assert(before.contains_key(c as u32) <==> occurrences(seen, c) > 0);
            }
        }
        i += 1;
    }
    proof {
        assert(chars@.take(i as int) == chars@);
    }
    char_counts
}

/// Decides whether the character `ch` stays when a text is squeezed, and
/// keeps `seen` up to date. `char_counts` says how often each character
/// occurs in the whole text, and `seen` holds the codes of the squeezed
/// characters that have stayed so far. A character that is not squeezed
/// stays; a squeezed one stays where `seen` does not hold it yet, and is then
/// put there.
pub fn check_repeatable(
    ch: char,
    char_counts: &HashMap<u32, usize>,
    seen: &mut HashSet<u32>,
    set2: &[Operand],
) -> (stays: bool)
    requires
        char_counts@.contains_key(ch as u32),
    ensures
        ({
            let squeezed = char_counts@[ch as u32] > 1 && Operand::member(set2@, ch);
            &&& stays == !(squeezed && old(seen)@.contains(ch as u32))
            &&& final(seen)@ == if squeezed {
                old(seen)@.insert(ch as u32)
            } else {
                old(seen)@
            }
        }),
{
    let key: u32 = ch as u32;
    let count: usize = match char_counts.get(&key) {
        Some(n) => *n,
        None => 0,
    };
    if count > 1 && Operand::contains(set2, &ch) {
        if seen.contains(&key) {
            assert(seen@.insert(key) == seen@);
            false
        } else {
            seen.insert(key);
            true
        }
    } else {
        true
    }
}

/// Squeezes `chars`: a character that `reference_set` holds and that occurs
/// more than once keeps its first occurrence only, wherever the others
/// stand. All other characters stay.
pub fn squeeze_chars(chars: &[char], reference_set: &[Operand]) -> (out: String)
    ensures
        out@ == squeezed(chars@, reference_set@),
{
    let char_counts = count_chars(chars);
    let mut seen: HashSet<u32> = HashSet::new();
    let mut out = String::new();
    let mut i: usize = 0;
    while i < chars.len()
        invariant
            i <= chars.len(),
            counts_of(char_counts@, chars@),
            out@ == squeezed_prefix(chars@, reference_set@, i as int),
            forall|c: char| #[trigger]
                repeatable(chars@, reference_set@, c) ==> (seen@.contains(c as u32)
                    <==> chars@.take(i as int).contains(c)),
        decreases chars.len() - i,
    {
        let ch = chars[i];
        let ghost before = seen@;
        proof {
            assert(chars@.contains(ch)) by {
                assert(chars@[i as int] == ch);
            }
            lemma_occurrences(chars@, ch);
        }
        if check_repeatable(ch, &char_counts, &mut seen, reference_set) {
            push_char(&mut out, ch);
        }
        proof {
            assert forall|c: char| #[trigger]
                repeatable(chars@, reference_set@, c) implies (seen@.contains(c as u32)
                <==> chars@.take(i + 1).contains(c)) by {
                lemma_code_determines_char(c, ch);
                lemma_take_contains(chars@, i as int, c);
            }
        }
        i += 1;
    }
    out
}

/// Squeezes `text` as [`squeeze_chars`] does.
pub fn squeeze(text: &str, reference_set: &[Operand]) -> (out: String)
    ensures
        out@ == squeezed(text@, reference_set@),
{
    let chars = str_to_chars(text);
    squeeze_chars(chars.as_slice(), reference_set)
}

} // verus!
