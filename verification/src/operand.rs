//! The elements of a parsed set, and the test whether a set holds a character.

use vstd::prelude::*;
use crate::text::str_equal;

verus! {

/// How often a literal character of a set is repeated.
#[derive(Clone, Copy, Debug, PartialEq, Eq)]
pub enum CharRepetition {
    /// As often as is needed to make the second set as long as the first.
    AsManyAsNeeded,
    /// A fixed number of times.
    N(usize),
}

/// A character along with its repetition count.
#[derive(Clone, Copy, Debug, PartialEq, Eq)]
pub struct Char {
    /// The character.
    pub char: char,
    /// The number of times the character is repeated.
    pub char_repetition: CharRepetition,
}

/// A character that stands for all characters with the same transliteration.
#[derive(Clone, Copy, Debug, PartialEq, Eq)]
pub struct Equiv {
    /// The representative of the class.
    pub char: char,
}

/// One element of a set.
#[derive(Clone, Copy, Debug, PartialEq, Eq)]
pub enum Operand {
    Char(Char),
    Equiv(Equiv),
}

/// The ASCII transliteration that `deunicode::deunicode_char` gives for `c`,
/// `None` where it has none.
pub uninterp spec fn transliteration(c: char) -> Option<Seq<char>>;

/// The characters of an optional string slice.
pub open spec fn option_str_view(text: Option<&str>) -> Option<Seq<char>> {
    match text {
        Some(s) => Some(s@),
        None => None,
    }
}

/// `deunicode::deunicode_char`: a lookup of `c` in the crate's fixed tables.
/// The result depends on `c` alone and is known here only by its name,
/// [`transliteration`].
#[verifier::external_body]
fn transliterate(c: char) -> (text: Option<&'static str>)
    ensures
        option_str_view(text) == transliteration(c),
{
    deunicode::deunicode_char(c)
}

/// Whether two characters have the same transliteration, or both have none.
pub open spec fn equivalent(a: char, b: char) -> bool {
    transliteration(a) == transliteration(b)
}

/// Whether two transliterations are the same: both absent, or both present
/// with the same characters.
pub fn same_transliteration(a: Option<&str>, b: Option<&str>) -> (same: bool)
    ensures
        same == (option_str_view(a) == option_str_view(b)),
{
    match a {
        Some(x) => match b {
            Some(y) => str_equal(x, y),
            None => false,
        },
        None => b.is_none(),
    }
}

/// Compares two characters by their transliterations.
pub fn compare_deunicoded_chars(char1: char, char2: char) -> (same: bool)
    ensures
        same == equivalent(char1, char2),
{
    let normalized_char1 = transliterate(char1);
    let normalized_char2 = transliterate(char2);
    same_transliteration(normalized_char1, normalized_char2)
}

impl Operand {
    /// The character that the operand stores.
    pub open spec fn stored_char(self) -> char {
        match self {
            Operand::Char(c) => c.char,
            Operand::Equiv(e) => e.char,
        }
    }

    /// Whether this operand alone accepts `target`: a literal accepts its own
    /// character, an equivalence class every character equivalent to its own.
    pub open spec fn accepts(self, target: char) -> bool {
        match self {
            Operand::Char(c) => c.char == target,
            Operand::Equiv(e) => equivalent(e.char, target),
        }
    }

    /// Whether some operand of `operands` accepts `target`.
    pub open spec fn member(operands: Seq<Operand>, target: char) -> bool {
        exists|i: int| 0 <= i < operands.len() && (#[trigger] operands[i]).accepts(target)
    }

    /// Whether the operand is a repeat construct without a count.
    pub open spec fn is_marker(self) -> bool {
        self matches Operand::Char(c) && c.char_repetition is AsManyAsNeeded
    }

    /// Whether the operand is a literal character with a fixed count.
    pub open spec fn is_fixed(self) -> bool {
        self matches Operand::Char(c) && c.char_repetition is N
    }

    /// A literal character that occurs once.
    pub open spec fn literal(c: char) -> Operand {
        Operand::Char(Char { char: c, char_repetition: CharRepetition::N(1) })
    }

    /// The equivalence class of `c`.
    pub open spec fn class_of(c: char) -> Operand {
        Operand::Equiv(Equiv { char: c })
    }

    /// The literal operand for `c`, with a count of one.
    pub fn single(c: char) -> (op: Operand)
        ensures
            op == Operand::literal(c),
    {
        Operand::Char(Char { char: c, char_repetition: CharRepetition::N(1) })
    }

    /// The character that the operand stores.
    pub fn char(&self) -> (c: char)
        ensures
            c == self.stored_char(),
    {
        match self {
            Operand::Char(c) => c.char,
            Operand::Equiv(e) => e.char,
        }
    }

    /// Checks whether `target` belongs to the set `operands`.
    pub fn contains(operands: &[Operand], target: &char) -> (found: bool)
        ensures
            found == Operand::member(operands@, *target),
    {
        let mut i: usize = 0;
        while i < operands.len()
            invariant
                i <= operands.len(),
                forall|j: int| 0 <= j < i ==> !(#[trigger] operands@[j]).accepts(*target),
            decreases operands.len() - i,
        {
            match &operands[i] {
                Operand::Equiv(eq) => {
                    if compare_deunicoded_chars(eq.char, *target) {
                        return true;
                    }
                },
                Operand::Char(ch) => {
                    if ch.char == *target {
                        return true;
                    }
                },
            }
            i += 1;
        }
        false
    }
}

/// How many replacements an operand of the second set gives before the
/// next operand takes over: its count where it is a literal with one;
/// `None`, for no end, where it is a repeat construct without a count or an
/// equivalence class.
pub open spec fn supply(op: Operand) -> Option<nat> {
    match op {
        Operand::Char(c) => match c.char_repetition {
            CharRepetition::N(n) => Some(n as nat),
            CharRepetition::AsManyAsNeeded => None,
        },
        Operand::Equiv(_) => None,
    }
}

/// Whether every count in the set is at least one.
pub open spec fn well_counted(ops: Seq<Operand>) -> bool {
    forall|i: int| 0 <= i < ops.len() ==> supply(#[trigger] ops[i]) != Some(0nat)
}

/// Literal operands with a count of one have positive counts.
pub proof fn lemma_literals_well_counted(chars: Seq<char>)
    ensures
        well_counted(literals(chars)),
{
}

/// Equivalence classes have no count that could be zero.
pub proof fn lemma_equivalents_well_counted(chars: Seq<char>)
    ensures
        well_counted(equivalents(chars)),
{
}

/// Two sets with positive counts, one after the other, have positive counts.
pub proof fn lemma_concat_well_counted(first: Seq<Operand>, second: Seq<Operand>)
    requires
        well_counted(first),
        well_counted(second),
    ensures
        well_counted(first + second),
{
    assert forall|i: int| 0 <= i < (first + second).len() implies supply(
        #[trigger] (first + second)[i],
    ) != Some(0nat) by {
        if i < first.len() {
            assert((first + second)[i] == first[i]);
        } else {
            assert((first + second)[i] == second[i - first.len()]);
        }
    }
}

/// The literal operands, each with a count of one, for the characters `chars`.
pub open spec fn literals(chars: Seq<char>) -> Seq<Operand> {
    chars.map_values(|c: char| Operand::literal(c))
}

/// The equivalence-class operands for the characters `chars`.
pub open spec fn equivalents(chars: Seq<char>) -> Seq<Operand> {
    chars.map_values(|c: char| Operand::class_of(c))
}

/// Appends to `operand_vec` one literal operand for each character of `chars`.
pub fn push_literals(operand_vec: &mut Vec<Operand>, chars: &[char])
    ensures
        final(operand_vec)@ == old(operand_vec)@ + literals(chars@),
{
    let mut i: usize = 0;
    while i < chars.len()
        invariant
            i <= chars.len(),
            operand_vec@ == old(operand_vec)@ + literals(chars@.take(i as int)),
        decreases chars.len() - i,
    {
        operand_vec.push(Operand::single(chars[i]));
        proof {
            assert(chars@.take(i + 1) == chars@.take(i as int).push(chars@[i as int]));
            assert(literals(chars@.take(i + 1)) == literals(chars@.take(i as int)).push(
                Operand::literal(chars@[i as int]),
            ));
        }
        i += 1;
    }
    proof {
        assert(chars@.take(chars.len() as int) == chars@);
    }
}

} // verus!
