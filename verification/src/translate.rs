//! Building the map from the characters of a first set to those of a second,
//! and sending a text through it.

use std::collections::HashMap;
use vstd::prelude::*;
use crate::error::SemanticError;
use crate::operand::{Char, CharRepetition, Operand};
use crate::text::{lemma_code_determines_char, push_char};

verus! {

/// The characters that one operand contributes to a flattened set: a literal
/// with a fixed count gives that many copies of its character, anything else
/// gives nothing.
pub open spec fn expansion(op: Operand) -> Seq<char> {
    match op {
        Operand::Char(c) => match c.char_repetition {
            CharRepetition::N(n) => Seq::new(n as nat, |i: int| c.char),
            CharRepetition::AsManyAsNeeded => Seq::empty(),
        },
        Operand::Equiv(_) => Seq::empty(),
    }
}

/// The set written out character by character, in operand order.
pub open spec fn flatten(ops: Seq<Operand>) -> Seq<char>
    decreases ops.len(),
{
    if ops.len() == 0 {
        Seq::empty()
    } else {
        flatten(ops.drop_last()) + expansion(ops.last())
    }
}

/// The length of a first set when flattened, or the error of its first
/// operand that a first set may not hold.
pub open spec fn string1_length(ops: Seq<Operand>) -> Result<nat, SemanticError>
    decreases ops.len(),
{
    if ops.len() == 0 {
        Ok(0)
    } else {
        match string1_length(ops.drop_last()) {
            Err(e) => Err(e),
            Ok(total) => match ops.last() {
                Operand::Char(c) => match c.char_repetition {
                    CharRepetition::AsManyAsNeeded => Err(SemanticError::RepeatInString1),
                    CharRepetition::N(n) => if total + n > usize::MAX {
                        Err(SemanticError::ArithmeticOverflow)
                    } else {
                        Ok((total + n) as nat)
                    },
                },
                Operand::Equiv(_) => Err(SemanticError::ExpectationViolated),
            },
        }
    }
}

/// What building a map needs to know of a second set.
pub struct String2Shape {
    /// The index of the repeat construct without a count, if there is one.
    pub marker: Option<int>,
    /// The sum of the fixed counts.
    pub fixed: nat,
}

/// The shape of a second set, or the error of its first operand that a second
/// set may not hold.
pub open spec fn string2_shape(ops: Seq<Operand>) -> Result<String2Shape, SemanticError>
    decreases ops.len(),
{
    if ops.len() == 0 {
        Ok(String2Shape { marker: None, fixed: 0 })
    } else {
        match string2_shape(ops.drop_last()) {
            Err(e) => Err(e),
            Ok(shape) => match ops.last() {
                Operand::Char(c) => match c.char_repetition {
                    CharRepetition::AsManyAsNeeded => if shape.marker is Some {
                        Err(SemanticError::MultipleRepeatsInString2)
                    } else {
                        Ok(String2Shape { marker: Some(ops.len() - 1), fixed: shape.fixed })
                    },
                    CharRepetition::N(n) => if shape.fixed + n > usize::MAX {
                        Err(SemanticError::ArithmeticOverflow)
                    } else {
                        Ok(String2Shape { marker: shape.marker, fixed: (shape.fixed + n) as nat })
                    },
                },
                Operand::Equiv(_) => Err(SemanticError::ExpectationViolated),
            },
        }
    }
}

/// The second set made longer by `shortfall` characters: the repeat construct
/// without a count gets `shortfall` as its count; where there is none, the
/// count of the last operand grows by `shortfall`.
pub open spec fn extended_string2(
    ops: Seq<Operand>,
    marker: Option<int>,
    shortfall: nat,
) -> Seq<Operand> {
    match marker {
        Some(at) => ops.update(
            at,
            Operand::Char(
                Char {
                    char: ops[at].stored_char(),
                    char_repetition: CharRepetition::N(shortfall as usize),
                },
            ),
        ),
        None => ops.update(
            ops.len() - 1,
            Operand::Char(
                Char {
                    char: ops.last().stored_char(),
                    char_repetition: CharRepetition::N(
                        (expansion(ops.last()).len() + shortfall) as usize,
                    ),
                },
            ),
        ),
    }
}

/// The map that sends the character at each position of `from` to the
/// character at the same position of `to`; of two positions with the same
/// character in `from`, the later one decides.
pub open spec fn positional_map(from: Seq<char>, to: Seq<char>) -> Map<char, char>
    decreases from.len(),
{
    if from.len() == 0 {
        Map::empty()
    } else {
        positional_map(from.drop_last(), to).insert(from.last(), to[from.len() - 1])
    }
}

/// The translation map for two sets, or the reason why there is none.
pub open spec fn translation(set1: Seq<Operand>, set2: Seq<Operand>) -> Result<
    Map<char, char>,
    SemanticError,
> {
    match string1_length(set1) {
        Err(e) => Err(e),
        Ok(len1) => match string2_shape(set2) {
            Err(e) => Err(e),
            Ok(shape) => if shape.fixed < len1 {
                if shape.marker is None && set2.len() == 0 {
                    Err(SemanticError::EmptyCollection)
                } else {
                    Ok(
                        positional_map(
                            flatten(set1),
                            flatten(
                                extended_string2(
                                    set2,
                                    shape.marker,
                                    (len1 - shape.fixed) as nat,
                                ),
                            ),
                        ),
                    )
                }
            } else {
                Ok(positional_map(flatten(set1), flatten(set2)))
            },
        },
    }
}

/// What `c` becomes under `map`: its image, or itself where it has none.
pub open spec fn translate_char(map: Map<char, char>, c: char) -> char {
    if map.contains_key(c) {
        map[c]
    } else {
        c
    }
}

/// A text with each character sent through `map`.
pub open spec fn translate_text(map: Map<char, char>, input: Seq<char>) -> Seq<char> {
    input.map_values(|c: char| translate_char(map, c))
}

/// One element more of a sequence's beginning: what `take` gives then.
pub proof fn lemma_take_step<T>(s: Seq<T>, i: int)
    requires
        0 <= i < s.len(),
    ensures
        s.take(i + 1).drop_last() == s.take(i),
        s.take(i + 1).last() == s[i],
        s.take(s.len() as int) == s,
{
}

/// The error of a beginning of a first set is the error of the set.
proof fn lemma_string1_prefix_error(ops: Seq<Operand>, k: int)
    requires
        0 <= k <= ops.len(),
        string1_length(ops.take(k)) is Err,
    ensures
        string1_length(ops) == string1_length(ops.take(k)),
    decreases ops.len(),
{
    if k == ops.len() {
        assert(ops.take(k) == ops);
    } else {
        assert(ops.drop_last().take(k) == ops.take(k));
        lemma_string1_prefix_error(ops.drop_last(), k);
    }
}

/// The error of a beginning of a second set is the error of the set.
proof fn lemma_string2_prefix_error(ops: Seq<Operand>, k: int)
    requires
        0 <= k <= ops.len(),
        string2_shape(ops.take(k)) is Err,
    ensures
        string2_shape(ops) == string2_shape(ops.take(k)),
    decreases ops.len(),
{
    if k == ops.len() {
        assert(ops.take(k) == ops);
    } else {
        assert(ops.drop_last().take(k) == ops.take(k));
        lemma_string2_prefix_error(ops.drop_last(), k);
    }
}

/// A first set that is accepted flattens to as many characters as its counts
/// add up to.
pub proof fn lemma_string1_flatten_len(ops: Seq<Operand>)
    requires
        string1_length(ops) is Ok,
    ensures
        flatten(ops).len() == string1_length(ops)->Ok_0,
    decreases ops.len(),
{
    if ops.len() > 0 {
        lemma_string1_flatten_len(ops.drop_last());
    }
}

/// A second set that is accepted flattens to as many characters as its fixed
/// counts add up to, and its marker, if any, is the index of a repeat construct
/// without a count.
pub proof fn lemma_string2_flatten_len(ops: Seq<Operand>)
    requires
        string2_shape(ops) is Ok,
    ensures
        flatten(ops).len() == string2_shape(ops)->Ok_0.fixed,
        match string2_shape(ops)->Ok_0.marker {
            Some(at) => 0 <= at < ops.len() && ops[at].is_marker(),
            None => forall|i: int| 0 <= i < ops.len() ==> (#[trigger] ops[i]).is_fixed(),
        },
    decreases ops.len(),
{
    if ops.len() > 0 {
        let init = ops.drop_last();
        lemma_string2_flatten_len(init);
        match string2_shape(ops)->Ok_0.marker {
            Some(at) => {
                if at < init.len() {
                    assert(ops[at] == init[at]);
                }
            },
            None => {
                assert forall|i: int| 0 <= i < ops.len() implies (#[trigger] ops[i]).is_fixed() by {
                    if i < init.len() {
                        assert(init[i].is_fixed());
                    }
                }
            },
        }
    }
}

/// The characters of one operand stand together in the flattened set, after
/// those of the operands before it.
pub proof fn lemma_flatten_index(ops: Seq<Operand>, at: int, k: int)
    requires
        0 <= at < ops.len(),
        0 <= k < expansion(ops[at]).len(),
    ensures
        flatten(ops.take(at)).len() + expansion(ops[at]).len() <= flatten(ops).len(),
        flatten(ops)[flatten(ops.take(at)).len() + k] == expansion(ops[at])[k],
    decreases ops.len(),
{
    if at == ops.len() - 1 {
        assert(ops.take(at) == ops.drop_last());
    } else {
        assert(ops.drop_last().take(at) == ops.take(at));
        lemma_flatten_index(ops.drop_last(), at, k);
    }
}

/// Replacing one operand changes the flattened length by the difference of
/// the two expansions.
proof fn lemma_flatten_update_len(ops: Seq<Operand>, at: int, op: Operand)
    requires
        0 <= at < ops.len(),
    ensures
        flatten(ops.update(at, op)).len() == flatten(ops).len() - expansion(ops[at]).len()
            + expansion(op).len(),
    decreases ops.len(),
{
    let changed = ops.update(at, op);
    if at == ops.len() - 1 {
        assert(changed.drop_last() == ops.drop_last());
    } else {
        assert(changed.drop_last() == ops.drop_last().update(at, op));
        lemma_flatten_update_len(ops.drop_last(), at, op);
    }
}

/// The keys of a positional map are the characters of `from`.
pub proof fn lemma_positional_map_keys(from: Seq<char>, to: Seq<char>, c: char)
    ensures
        positional_map(from, to).contains_key(c) <==> from.contains(c),
    decreases from.len(),
{
    if from.len() > 0 {
        let init = from.drop_last();
        lemma_positional_map_keys(init, to, c);
        if from.contains(c) {
            let i = choose|i: int| 0 <= i < from.len() && from[i] == c;
            if i < from.len() - 1 {
                assert(init[i] == c);
            }
        }
        if init.contains(c) {
            let i = choose|i: int| 0 <= i < init.len() && init[i] == c;
            assert(from[i] == c);
        }
        if c == from.last() {
            assert(from[from.len() - 1] == c);
        }
    }
}

/// A key's image under a positional map is what stands in `to` at the key's
/// last position in `from`.
pub proof fn lemma_positional_map_image(from: Seq<char>, to: Seq<char>, i: int)
    requires
        0 <= i < from.len(),
        forall|j: int| i < j < from.len() ==> from[j] != from[i],
    ensures
        positional_map(from, to).contains_key(from[i]),
        positional_map(from, to)[from[i]] == to[i],
    decreases from.len(),
{
    if i < from.len() - 1 {
        let init = from.drop_last();
        assert(init[i] == from[i]);
        assert(from[from.len() - 1] != from[i]);
        assert forall|j: int| i < j < init.len() implies init[j] != init[i] by {
            assert(init[j] == from[j]);
        }
        lemma_positional_map_image(init, to, i);
    }
}

/// A map from characters to characters, consulted while a text is translated.
pub struct TranslationMap {
    table: HashMap<u32, char>,
}

impl View for TranslationMap {
    type V = Map<char, char>;

    closed spec fn view(&self) -> Map<char, char> {
        Map::new(
            |c: char| self.table@.contains_key(c as u32),
            |c: char| self.table@[c as u32],
        )
    }
}

impl TranslationMap {
    /// A map without entries.
    fn new() -> (map: TranslationMap)
        ensures
            map@ == Map::<char, char>::empty(),
    {
        let map = TranslationMap { table: HashMap::new() };
        assert(map@ =~= Map::<char, char>::empty());
        map
    }

    /// Sends `from` to `to` from now on.
    fn insert(&mut self, from: char, to: char)
        ensures
            final(self)@ == old(self)@.insert(from, to),
    {
        self.table.insert(from as u32, to);
        proof {
            let before = old(self)@.insert(from, to);
            assert forall|c: char| #[trigger] self@.contains_key(c) == before.contains_key(c) by {
                lemma_code_determines_char(c, from);
            }
            assert forall|c: char| #[trigger] self@.contains_key(c) implies self@[c] == before[c] by {
                lemma_code_determines_char(c, from);
            }
            assert(self@ =~= before);
        }
    }

    /// The image of `c`, if the map has one.
    pub fn get(&self, c: char) -> (image: Option<char>)
        ensures
            image == if self@.contains_key(c) {
                Some(self@[c])
            } else {
                None::<char>
            },
    {
        let key: u32 = c as u32;
        match self.table.get(&key) {
            Some(image) => Some(*image),
            None => None,
        }
    }

    /// What `c` becomes: its image, or itself where the map has none.
    pub fn translate(&self, c: char) -> (out: char)
        ensures
            out == translate_char(self@, c),
    {
        match self.get(c) {
            Some(image) => image,
            None => c,
        }
    }

    /// The text `input` with each character sent through the map.
    pub fn translate_chars(&self, input: &[char]) -> (out: String)
        ensures
            out@ == translate_text(self@, input@),
    {
        let mut out = String::new();
        let mut i: usize = 0;
        while i < input.len()
            invariant
                i <= input.len(),
                out@ == translate_text(self@, input@.take(i as int)),
            decreases input.len() - i,
        {
            push_char(&mut out, self.translate(input[i]));
            proof {
                assert(input@.take(i + 1) == input@.take(i as int).push(input@[i as int]));
                assert(translate_text(self@, input@.take(i + 1)) == translate_text(
                    self@,
                    input@.take(i as int),
                ).push(translate_char(self@, input@[i as int])));
            }
            i += 1;
        }
        proof {
            assert(input@.take(input.len() as int) == input@);
        }
        out
    }
}

/// The flattened length of a first set, or the error that rejects it.
fn measure_string1(ops: &[Operand]) -> (r: Result<usize, SemanticError>)
    ensures
        match r {
            Ok(total) => string1_length(ops@) == Ok::<nat, SemanticError>(total as nat),
            Err(e) => string1_length(ops@) == Err::<nat, SemanticError>(e),
        },
{
    let mut total: usize = 0;
    let mut i: usize = 0;
    while i < ops.len()
        invariant
            i <= ops.len(),
            string1_length(ops@.take(i as int)) == Ok::<nat, SemanticError>(total as nat),
        decreases ops.len() - i,
    {
        proof {
            lemma_take_step(ops@, i as int);
        }
        match &ops[i] {
            Operand::Char(ch) => match ch.char_repetition {
                CharRepetition::AsManyAsNeeded => {
                    proof {
                        lemma_string1_prefix_error(ops@, i + 1);
                    }
                    return Err(SemanticError::RepeatInString1);
                },
                CharRepetition::N(n) => {
                    match total.checked_add(n) {
                        Some(sum) => {
                            total = sum;
                        },
                        None => {
                            proof {
                                lemma_string1_prefix_error(ops@, i + 1);
                            }
                            return Err(SemanticError::ArithmeticOverflow);
                        },
                    }
                },
            },
            Operand::Equiv(_) => {
                proof {
                    lemma_string1_prefix_error(ops@, i + 1);
                }
                return Err(SemanticError::ExpectationViolated);
            },
        }
        i += 1;
    }
    proof {
        assert(ops@.take(i as int) == ops@);
    }
    Ok(total)
}

/// An index of a slice as a position in its view.
spec fn index_view(at: Option<usize>) -> Option<int> {
    match at {
        Some(i) => Some(i as int),
        None => None,
    }
}

/// The shape of a second set, or the error that rejects it.
fn measure_string2(ops: &[Operand]) -> (r: Result<(Option<usize>, usize), SemanticError>)
    ensures
        match r {
            Ok((marker, fixed)) => string2_shape(ops@) == Ok::<String2Shape, SemanticError>(
                String2Shape { marker: index_view(marker), fixed: fixed as nat },
            ),
            Err(e) => string2_shape(ops@) == Err::<String2Shape, SemanticError>(e),
        },
{
    let mut as_many_as_needed_index: Option<usize> = None;
    let mut total: usize = 0;
    let mut i: usize = 0;
    while i < ops.len()
        invariant
            i <= ops.len(),
            string2_shape(ops@.take(i as int)) == Ok::<String2Shape, SemanticError>(
                String2Shape { marker: index_view(as_many_as_needed_index), fixed: total as nat },
            ),
        decreases ops.len() - i,
    {
        proof {
            lemma_take_step(ops@, i as int);
        }
        match &ops[i] {
            Operand::Char(ch) => match ch.char_repetition {
                CharRepetition::AsManyAsNeeded => {
                    if as_many_as_needed_index.is_some() {
                        proof {
                            lemma_string2_prefix_error(ops@, i + 1);
                        }
                        return Err(SemanticError::MultipleRepeatsInString2);
                    }
                    as_many_as_needed_index = Some(i);
                },
                CharRepetition::N(n) => {
                    match total.checked_add(n) {
                        Some(sum) => {
                            total = sum;
                        },
                        None => {
                            proof {
                                lemma_string2_prefix_error(ops@, i + 1);
                            }
                            return Err(SemanticError::ArithmeticOverflow);
                        },
                    }
                },
            },
            Operand::Equiv(_) => {
                proof {
                    lemma_string2_prefix_error(ops@, i + 1);
                }
                return Err(SemanticError::ExpectationViolated);
            },
        }
        i += 1;
    }
    proof {
        assert(ops@.take(i as int) == ops@);
    }
    Ok((as_many_as_needed_index, total))
}

/// Writes a set out character by character.
pub fn flatten_operands(ops: &[Operand]) -> (flat: Vec<char>)
    ensures
        flat@ == flatten(ops@),
{
    let mut flat: Vec<char> = Vec::new();
    let mut i: usize = 0;
    while i < ops.len()
        invariant
            i <= ops.len(),
            flat@ == flatten(ops@.take(i as int)),
        decreases ops.len() - i,
    {
        proof {
            lemma_take_step(ops@, i as int);
        }
        match &ops[i] {
            Operand::Char(ch) => match ch.char_repetition {
                CharRepetition::N(n) => {
                    let ghost before = flat@;
                    let mut copies: usize = 0;
                    while copies < n
                        invariant
                            copies <= n,
                            flat@ == before + Seq::new(copies as nat, |k: int| ch.char),
                        decreases n - copies,
                    {
                        flat.push(ch.char);
                        copies += 1;
                    }
                },
                CharRepetition::AsManyAsNeeded => {},
            },
            Operand::Equiv(_) => {},
        }
        i += 1;
    }
    proof {
        assert(ops@.take(i as int) == ops@);
    }
    flat
}

/// The second set made longer by `shortfall` characters.
fn extend_string2(ops: &[Operand], marker: Option<usize>, shortfall: usize) -> (extended: Vec<
    Operand,
>)
    requires
        match marker {
            Some(at) => at < ops.len(),
            None => ops.len() > 0 && expansion(ops@.last()).len() + shortfall <= usize::MAX,
        },
    ensures
        extended@ == extended_string2(ops@, index_view(marker), shortfall as nat),
{
    let mut extended: Vec<Operand> = Vec::new();
    let mut i: usize = 0;
    while i < ops.len()
        invariant
            i <= ops.len(),
            extended@ == ops@.take(i as int),
        decreases ops.len() - i,
    {
        extended.push(ops[i]);
        i += 1;
    }
    assert(extended@ == ops@);
    match marker {
        Some(at) => {
            let c = ops[at].char();
            extended.set(
                at,
                Operand::Char(Char { char: c, char_repetition: CharRepetition::N(shortfall) }),
            );
        },
        None => {
            let last = ops.len() - 1;
            let c = ops[last].char();
            let current_n: usize = match &ops[last] {
                Operand::Char(ch) => match ch.char_repetition {
                    CharRepetition::N(n) => n,
                    CharRepetition::AsManyAsNeeded => 0,
                },
                Operand::Equiv(_) => 0,
            };
            extended.set(
                last,
                Operand::Char(
                    Char { char: c, char_repetition: CharRepetition::N(current_n + shortfall) },
                ),
            );
        },
    }
    extended
}

/// Builds the map that translation uses: the character at each position of
/// the flattened first set is sent to the character at the same position of
/// the second set, which is first made as long as the first where it is
/// shorter.
pub fn generate_transformation_hash_map(
    string1_operands: &[Operand],
    string2_operands: &[Operand],
) -> (r: Result<TranslationMap, SemanticError>)
    ensures
        match r {
            Ok(map) => translation(string1_operands@, string2_operands@) == Ok::<
                Map<char, char>,
                SemanticError,
            >(map@),
            Err(e) => translation(string1_operands@, string2_operands@) == Err::<
                Map<char, char>,
                SemanticError,
            >(e),
        },
{
    let char_repeating_total = match measure_string1(string1_operands) {
        Ok(total) => total,
        Err(e) => {
            return Err(e);
        },
    };
    let (as_many_as_needed_index, replacement_char_repeating_total) = match measure_string2(
        string2_operands,
    ) {
        Ok(shape) => shape,
        Err(e) => {
            return Err(e);
        },
    };
    proof {
        lemma_string1_flatten_len(string1_operands@);
        lemma_string2_flatten_len(string2_operands@);
    }
    let string1_operands_flattened = flatten_operands(string1_operands);
    let string2_operands_to_use_flattened = if replacement_char_repeating_total
        < char_repeating_total {
        let leftover = char_repeating_total - replacement_char_repeating_total;
        if as_many_as_needed_index.is_none() && string2_operands.len() == 0 {
            return Err(SemanticError::EmptyCollection);
        }
        let string2_operands_with_leftover = extend_string2(
            string2_operands,
            as_many_as_needed_index,
            leftover,
        );
        proof {
            lemma_extension_covers(
                string2_operands@,
                index_view(as_many_as_needed_index),
                leftover as nat,
            );
        }
        flatten_operands(string2_operands_with_leftover.as_slice())
    } else {
        flatten_operands(string2_operands)
    };
    let mut translation_hash_map = TranslationMap::new();
    let mut us: usize = 0;
    while us < string1_operands_flattened.len()
        invariant
            us <= string1_operands_flattened.len(),
            string1_operands_flattened.len() <= string2_operands_to_use_flattened.len(),
            translation_hash_map@ == positional_map(
                string1_operands_flattened@.take(us as int),
                string2_operands_to_use_flattened@,
            ),
        decreases string1_operands_flattened.len() - us,
    {
        proof {
            lemma_take_step(string1_operands_flattened@, us as int);
        }
        translation_hash_map.insert(
            string1_operands_flattened[us],
            string2_operands_to_use_flattened[us],
        );
        us += 1;
    }
    proof {
        assert(string1_operands_flattened@.take(us as int) == string1_operands_flattened@);
    }
    Ok(translation_hash_map)
}

/// A second set that is accepted and then extended by `shortfall` flattens
/// to `shortfall` characters more than before.
pub proof fn lemma_extension_covers(ops: Seq<Operand>, marker: Option<int>, shortfall: nat)
    requires
        string2_shape(ops) is Ok,
        string2_shape(ops)->Ok_0.marker == marker,
        marker is Some || ops.len() > 0,
        string2_shape(ops)->Ok_0.fixed + shortfall <= usize::MAX,
    ensures
        flatten(extended_string2(ops, marker, shortfall)).len() == flatten(ops).len() + shortfall,
        marker is None ==> expansion(ops.last()).len() + shortfall <= usize::MAX,
{
    lemma_string2_flatten_len(ops);
    match marker {
        Some(at) => {
            lemma_flatten_update_len(ops, at, extended_string2(ops, marker, shortfall)[at]);
        },
        None => {
            assert(ops.last().is_fixed());
            lemma_flatten_update_len(
                ops,
                ops.len() - 1,
                extended_string2(ops, marker, shortfall)[ops.len() - 1],
            );
        },
    }
}

/// Translation leaves alone every character that the first set, written
/// out, does not hold.
pub proof fn lemma_outside_string1_unchanged(set1: Seq<Operand>, set2: Seq<Operand>, c: char)
    requires
        translation(set1, set2) is Ok,
        !flatten(set1).contains(c),
    ensures
        !translation(set1, set2)->Ok_0.contains_key(c),
        translate_char(translation(set1, set2)->Ok_0, c) == c,
{
    let len1 = string1_length(set1)->Ok_0;
    let shape = string2_shape(set2)->Ok_0;
    if shape.fixed < len1 {
        lemma_positional_map_keys(
            flatten(set1),
            flatten(extended_string2(set2, shape.marker, (len1 - shape.fixed) as nat)),
            c,
        );
    } else {
        lemma_positional_map_keys(flatten(set1), flatten(set2), c);
    }
}

/// In a translated text, every position whose character the first set,
/// written out, does not hold has the character of the input.
pub proof fn lemma_translated_text_keeps_outside(
    set1: Seq<Operand>,
    set2: Seq<Operand>,
    input: Seq<char>,
    at: int,
)
    requires
        translation(set1, set2) is Ok,
        0 <= at < input.len(),
        !flatten(set1).contains(input[at]),
    ensures
        translate_text(translation(set1, set2)->Ok_0, input).len() == input.len(),
        translate_text(translation(set1, set2)->Ok_0, input)[at] == input[at],
{
    lemma_outside_string1_unchanged(set1, set2, input[at]);
}

/// A second set with two repeat constructs without a count is rejected, and
/// so is every pair of sets with such a second set. The error is
/// `MultipleRepeatsInString2` where nothing before the second construct is
/// itself rejected.
pub proof fn lemma_two_markers_rejected(
    set1: Seq<Operand>,
    set2: Seq<Operand>,
    first: int,
    second: int,
)
    requires
        0 <= first < second < set2.len(),
        set2[first].is_marker(),
        set2[second].is_marker(),
    ensures
        string2_shape(set2) is Err,
        translation(set1, set2) is Err,
        string2_shape(set2.take(second)) is Ok ==> string2_shape(set2) == Err::<
            String2Shape,
            SemanticError,
        >(SemanticError::MultipleRepeatsInString2),
        string1_length(set1) is Ok && string2_shape(set2.take(second)) is Ok ==> translation(
            set1,
            set2,
        ) == Err::<Map<char, char>, SemanticError>(SemanticError::MultipleRepeatsInString2),
{
    let before = set2.take(second);
    lemma_take_step(set2, second);
    if string2_shape(before) is Ok {
        lemma_string2_flatten_len(before);
        if string2_shape(before)->Ok_0.marker is None {
            assert(before[first].is_fixed());
        }
    } else {
        assert(set2.take(second + 1).take(second) == before);
        lemma_string2_prefix_error(set2.take(second + 1), second);
    }
    lemma_string2_prefix_error(set2, second + 1);
}

/// Where the first set is longer than the second and the second has no repeat
/// construct without a count, the count of the second set's last operand
/// grows by exactly what is missing, the other operands stay, and the second
/// set then flattens to the length of the first: every position of the first
/// set has its partner, and the map is built.
pub proof fn lemma_padding_covers_shortfall(set1: Seq<Operand>, set2: Seq<Operand>)
    requires
        string1_length(set1) is Ok,
        string2_shape(set2) is Ok,
        string2_shape(set2)->Ok_0.marker is None,
        set2.len() > 0,
        string2_shape(set2)->Ok_0.fixed < string1_length(set1)->Ok_0,
    ensures
        ({
            let shortfall = (string1_length(set1)->Ok_0 - string2_shape(set2)->Ok_0.fixed) as nat;
            let padded = extended_string2(set2, None, shortfall);
            &&& set2.last() matches Operand::Char(last)
            &&& last.char_repetition matches CharRepetition::N(n)
            &&& n + shortfall <= usize::MAX
            &&& padded.len() == set2.len()
            &&& padded.last() == Operand::Char(
                Char { char: last.char, char_repetition: CharRepetition::N((n + shortfall) as usize) },
            )
            &&& forall|i: int| 0 <= i < set2.len() - 1 ==> padded[i] == set2[i]
            &&& flatten(padded).len() == flatten(set1).len()
            &&& translation(set1, set2) == Ok::<Map<char, char>, SemanticError>(
                positional_map(flatten(set1), flatten(padded)),
            )
        }),
{
    let shortfall = (string1_length(set1)->Ok_0 - string2_shape(set2)->Ok_0.fixed) as nat;
    lemma_string1_flatten_len(set1);
    lemma_string2_flatten_len(set2);
    lemma_extension_covers(set2, None, shortfall);
    assert(set2.last().is_fixed());
}

} // verus!
