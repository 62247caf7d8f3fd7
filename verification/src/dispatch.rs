//! One run: which of deleting, squeezing, complementing and translating is
//! done to the input, by the options and operands.

use vstd::prelude::*;
use crate::args::Args;
use crate::complement::{complement, complement_result, replacements};
use crate::error::{result_view, SemanticError, TrError, TrFailure};
use crate::operand::{well_counted, Operand};
use crate::parse::{ends_with_lone_backslash, has_lone_backslash};
use crate::range::{
    contains_single_range, is_single_range, lemma_set_operands_well_counted,
    parse_string1_or_string2, set_operands,
};
use crate::squeeze::{squeeze, squeezed};
use crate::text::{push_char, str_to_chars};
use crate::translate::{generate_transformation_hash_map, translate_text, translation};

verus! {

/// What is left of `input` when the characters that the first set holds are
/// deleted or, with `keep_members`, when all others are.
pub open spec fn filtered(input: Seq<char>, set1: Seq<Operand>, keep_members: bool) -> Seq<char>
    decreases input.len(),
{
    if input.len() == 0 {
        Seq::empty()
    } else if Operand::member(set1, input.last()) == keep_members {
        filtered(input.drop_last(), set1, keep_members).push(input.last())
    } else {
        filtered(input.drop_last(), set1, keep_members)
    }
}

/// What is left after deleting holds no character that the first set holds
/// or, with `keep_members`, holds no other.
pub proof fn lemma_filtered_members(
    input: Seq<char>,
    set1: Seq<Operand>,
    keep_members: bool,
    at: int,
)
    requires
        0 <= at < filtered(input, set1, keep_members).len(),
    ensures
        Operand::member(set1, filtered(input, set1, keep_members)[at]) == keep_members,
    decreases input.len(),
{
    if input.len() > 0 {
        let before = filtered(input.drop_last(), set1, keep_members);
        if at < before.len() {
            lemma_filtered_members(input.drop_last(), set1, keep_members, at);
        }
    }
}

/// The input with each character sent through the map of the two sets, or the
/// reason why there is no such map.
pub open spec fn translated(input: Seq<char>, set1: Seq<Operand>, set2: Option<Seq<Operand>>) -> Result<
    Seq<char>,
    SemanticError,
> {
    match set2 {
        None => Err(SemanticError::MissingOperand),
        Some(ops) => if ops.len() == 0 {
            Err(SemanticError::EmptyString2)
        } else {
            match translation(set1, ops) {
                Ok(map) => Ok(translate_text(map, input)),
                Err(e) => Err(e),
            }
        },
    }
}

/// The output of a run with sets that have been read. Deleting comes first:
/// it keeps or drops each character by the first set, and squeezes what is
/// left by the second set where squeezing is asked for and there is one.
/// Squeezing alone, without a second set, squeezes the input by the first
/// set. Everything else translates: with a complement option by replacing
/// what the first set does not hold, the second set sorted where the
/// complement is by value; without one through the map of the two sets. What
/// was translated is then squeezed by the second set where squeezing is asked
/// for.
pub open spec fn transformed(
    args: Args,
    set1: Seq<Operand>,
    set2: Option<Seq<Operand>>,
    input: Seq<char>,
) -> Result<Seq<char>, SemanticError> {
    if args.delete {
        let kept = filtered(input, set1, args.complement_char || args.complement_val);
        if args.squeeze_repeats && set2 is Some {
            Ok(squeezed(kept, set2->0))
        } else {
            Ok(kept)
        }
    } else if args.squeeze_repeats && set2 is None {
        Ok(squeezed(input, set1))
    } else {
        let result = if args.complement_char || args.complement_val {
            complement_result(input, set1, replacements(set2->0, args.complement_val))
        } else {
            translated(input, set1, set2)
        };
        match result {
            Ok(text) => if args.squeeze_repeats {
                Ok(squeezed(text, set2->0))
            } else {
                Ok(text)
            },
            Err(e) => Err(e),
        }
    }
}

/// Whether the sets are what the options need: where a complement is to be
/// translated there is a second set, and none of its counts is zero.
pub open spec fn sets_fit(args: Args, set2: Option<Seq<Operand>>) -> bool {
    !args.delete && !(args.squeeze_repeats && set2 is None) && (args.complement_char
        || args.complement_val) ==> set2 is Some && well_counted(set2->0)
}

/// Deletes from `input` the characters that the first set holds or, with
/// `keep_members`, all others.
pub fn filter_chars(input: &str, set1: &[Operand], keep_members: bool) -> (out: String)
    ensures
        out@ == filtered(input@, set1@, keep_members),
{
    let chars = str_to_chars(input);
    let mut out = String::new();
    let mut i: usize = 0;
    while i < chars.len()
        invariant
            i <= chars.len(),
            chars@ == input@,
            out@ == filtered(input@.take(i as int), set1@, keep_members),
        decreases chars.len() - i,
    {
        let ch = chars[i];
        proof {
            assert(input@.take(i + 1).drop_last() == input@.take(i as int));
        }
        if Operand::contains(set1, &ch) == keep_members {
            push_char(&mut out, ch);
        }
        i += 1;
    }
    proof {
        assert(input@.take(i as int) == input@);
    }
    out
}

/// Translates `input` through the map of the two sets.
pub fn translate(input: &str, set1: &[Operand], set2: Option<&[Operand]>) -> (r: Result<
    String,
    SemanticError,
>)
    ensures
        match r {
            Ok(text) => translated(input@, set1@, slice_view(set2)) == Ok::<
                Seq<char>,
                SemanticError,
            >(text@),
            Err(e) => translated(input@, set1@, slice_view(set2)) == Err::<
                Seq<char>,
                SemanticError,
            >(e),
        },
{
    let string2_operands = match set2 {
        Some(op) => op,
        None => {
            return Err(SemanticError::MissingOperand);
        },
    };
    if string2_operands.len() == 0 {
        return Err(SemanticError::EmptyString2);
    }
    let transformation_map = match generate_transformation_hash_map(set1, string2_operands) {
        Ok(map) => map,
        Err(e) => {
            return Err(e);
        },
    };
    let chars = str_to_chars(input);
    Ok(transformation_map.translate_chars(chars.as_slice()))
}

/// The operands of an optional set.
pub open spec fn slice_view(set: Option<&[Operand]>) -> Option<Seq<Operand>> {
    match set {
        Some(ops) => Some(ops@),
        None => None,
    }
}

/// Does to `input` what the options ask for, with sets that have been read.
pub fn transform(args: &Args, set1: &[Operand], set2: Option<&[Operand]>, input: &str) -> (r: Result<
    String,
    SemanticError,
>)
    requires
        sets_fit(*args, slice_view(set2)),
    ensures
        match r {
            Ok(text) => transformed(*args, set1@, slice_view(set2), input@) == Ok::<
                Seq<char>,
                SemanticError,
            >(text@),
            Err(e) => transformed(*args, set1@, slice_view(set2), input@) == Err::<
                Seq<char>,
                SemanticError,
            >(e),
        },
{
    if args.delete {
        let filtered_string = filter_chars(input, set1, args.complement_char || args.complement_val);
        if args.squeeze_repeats {
            match set2 {
                Some(reference) => {
                    return Ok(squeeze(filtered_string.as_str(), reference));
                },
                None => {},
            }
        }
        Ok(filtered_string)
    } else if args.squeeze_repeats && set2.is_none() {
        Ok(squeeze(input, set1))
    } else {
        let result = if args.complement_char || args.complement_val {
            match set2 {
                Some(string2_operands) => complement(
                    input,
                    set1,
                    string2_operands,
                    args.complement_val,
                ),
                None => Err(SemanticError::MissingOperand),
            }
        } else {
            translate(input, set1, set2)
        };
        let result_string = match result {
            Ok(text) => text,
            Err(e) => {
                return Err(e);
            },
        };
        if args.squeeze_repeats {
            match set2 {
                Some(reference) => {
                    return Ok(squeeze(result_string.as_str(), reference));
                },
                None => {},
            }
        }
        Ok(result_string)
    }
}

/// The output of a run whose first set was read as `set1`: the error of the
/// second string where it cannot be read, else what the options ask for.
pub open spec fn output_with(args: Args, set1: Seq<Operand>, input: Seq<char>) -> Result<
    Seq<char>,
    TrFailure,
> {
    match args.string2 {
        Some(string2) => match set_operands(string2@, is_single_range(string2@)) {
            Ok(set2) => semantic(transformed(args, set1, Some(set2), input)),
            Err(e) => Err(TrFailure::Parse(e)),
        },
        None => semantic(transformed(args, set1, None, input)),
    }
}

/// The output of a run: the error of the first string that cannot be read,
/// else what the options ask for.
pub open spec fn output(args: Args, input: Seq<char>) -> Result<Seq<char>, TrFailure> {
    match set_operands(args.string1@, is_single_range(args.string1@)) {
        Ok(set1) => output_with(args, set1, input),
        Err(e) => Err(TrFailure::Parse(e)),
    }
}

/// A result whose error, if any, is one of the sets' meaning.
pub open spec fn semantic(r: Result<Seq<char>, SemanticError>) -> Result<Seq<char>, TrFailure> {
    match r {
        Ok(text) => Ok(text),
        Err(e) => Err(TrFailure::Semantic(e)),
    }
}

/// Translates, deletes or squeezes the characters of `input`, as the
/// options and the two strings of `args` say.
pub fn tr(args: &Args, input: &str) -> (r: Result<String, TrError>)
    requires
        args.valid(),
    ensures
        result_view(r) == output(*args, input@),
{
    let string1_operands = match parse_string1_or_string2(args.string1.as_str()) {
        Ok(ops) => ops,
        Err(e) => {
            return Err(TrError::Parse(e));
        },
    };
    let string2_operands_option = match &args.string2 {
        Some(st) => {
            proof {
                lemma_set_operands_well_counted(st@, is_single_range(st@));
            }
            match parse_string1_or_string2(st.as_str()) {
                Ok(ops) => Some(ops),
                Err(e) => {
                    return Err(TrError::Parse(e));
                },
            }
        },
        None => None,
    };
    let r = match &string2_operands_option {
        Some(ops) => transform(args, string1_operands.as_slice(), Some(ops.as_slice()), input),
        None => transform(args, string1_operands.as_slice(), None, input),
    };
    match r {
        Ok(text) => Ok(text),
        Err(e) => Err(TrError::Semantic(e)),
    }
}

/// Whether reading the set `s` takes its last character as a backslash that
/// escapes nothing, which is not portable.
pub open spec fn warns_of_backslash(s: Seq<char>) -> bool {
    !is_single_range(s) && ends_with_lone_backslash(s)
}

/// Says which of the two strings give cause for a warning about a backslash
/// at the end: the first string where it has one, and the second where it
/// has one and the first string could be read.
pub fn backslash_warnings(args: &Args) -> (warn: (bool, bool))
    ensures
        warn.0 == warns_of_backslash(args.string1@),
        warn.1 == (set_operands(args.string1@, is_single_range(args.string1@)) is Ok
            && args.string2 is Some && warns_of_backslash(args.string2->0@)),
{
    let string1 = args.string1.as_str();
    let first = !contains_single_range(string1) && has_lone_backslash(string1);
    let second = match &args.string2 {
        Some(st) => match parse_string1_or_string2(string1) {
            Ok(_) => !contains_single_range(st.as_str()) && has_lone_backslash(st.as_str()),
            Err(_) => false,
        },
        None => false,
    };
    (first, second)
}

/// The outcome of a run from unchecked options: what is wrong with them, or
/// else the output.
pub open spec fn outcome(args: Args, input: Seq<char>) -> Result<Seq<char>, TrFailure> {
    match args.validation() {
        Err(e) => Err(TrFailure::Argument(e)),
        Ok(_) => output(args, input),
    }
}

/// Checks the options and operands, and then does to `input` what they ask
/// for.
pub fn run(args: &Args, input: &str) -> (r: Result<String, TrError>)
    ensures
        result_view(r) == outcome(*args, input@),
{
    match args.validate_args() {
        Ok(_) => tr(args, input),
        Err(e) => Err(TrError::Argument(e)),
    }
}

} // verus!
