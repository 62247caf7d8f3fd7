//! The errors of the library, one type for each stage at which a run can fail.

use vstd::prelude::*;
use vstd::string::StringExecFns;

verus! {

/// A combination of options and operands that is rejected before any set is parsed.
#[derive(Clone, Copy, Debug, PartialEq, Eq)]
pub enum ArgumentError {
    /// Both complement options were given.
    ConflictingComplements,
    /// Squeezing the complement without deleting was asked for with one string only.
    ComplementNeedsTwoStrings,
    /// Plain translation was asked for with one string only.
    NeedTwoStrings,
    /// The first string is empty.
    EmptyString1,
}

/// A set that joins operands which the chosen operation cannot use.
#[derive(Clone, Copy, Debug, PartialEq, Eq)]
pub enum SemanticError {
    /// The first set holds a repeat construct without a count.
    RepeatInString1,
    /// The second set holds more than one repeat construct without a count.
    MultipleRepeatsInString2,
    /// A set that must consist of literal characters holds an equivalence class.
    ExpectationViolated,
    /// The repeat counts of a set add up to more than a `usize` holds.
    ArithmeticOverflow,
    /// The second set has no operand that could be extended.
    EmptyCollection,
    /// A replacement was needed and the second set has no operand.
    IndexingFailed,
    /// Translation was asked for without a second string.
    MissingOperand,
    /// Translation was asked for with a second string that has no operand.
    EmptyString2,
}

/// A set specification that is not well formed.
#[derive(Clone, Debug, PartialEq, Eq)]
pub enum ParseError {
    /// `[=` is directly followed by `=`.
    MissingEquivSymbol,
    /// The characters after `[=` are not followed by `=`.
    MissingEquivEquals,
    /// The second `=` of an equivalence class is not followed by `]`.
    MissingEquivBracket,
    /// The name between `[:` and `:]` is not one of the twelve classes.
    InvalidClassName,
    /// The text after `*` in `[c*n]` is not a number; it is carried along.
    InvalidRepeatCount(String),
    /// The octal digits after a backslash, carried along, exceed a byte.
    InvalidOctalSequence(String),
    /// A range without the `-` that separates its bounds.
    IterationFailed,
}

/// What a [`ParseError`] stands for in contracts: the same variants, with the
/// offending text as a sequence of characters.
pub enum ParseFailure {
    MissingEquivSymbol,
    MissingEquivEquals,
    MissingEquivBracket,
    InvalidClassName,
    InvalidRepeatCount(Seq<char>),
    InvalidOctalSequence(Seq<char>),
    IterationFailed,
}

impl View for ParseError {
    type V = ParseFailure;

    open spec fn view(&self) -> ParseFailure {
        match *self {
            ParseError::MissingEquivSymbol => ParseFailure::MissingEquivSymbol,
            ParseError::MissingEquivEquals => ParseFailure::MissingEquivEquals,
            ParseError::MissingEquivBracket => ParseFailure::MissingEquivBracket,
            ParseError::InvalidClassName => ParseFailure::InvalidClassName,
            ParseError::InvalidRepeatCount(text) => ParseFailure::InvalidRepeatCount(text@),
            ParseError::InvalidOctalSequence(text) => ParseFailure::InvalidOctalSequence(text@),
            ParseError::IterationFailed => ParseFailure::IterationFailed,
        }
    }
}

/// Any error of a run.
#[derive(Clone, Debug, PartialEq, Eq)]
pub enum TrError {
    Argument(ArgumentError),
    Parse(ParseError),
    Semantic(SemanticError),
}

/// What a [`TrError`] stands for in contracts.
pub enum TrFailure {
    Argument(ArgumentError),
    Parse(ParseFailure),
    Semantic(SemanticError),
}

impl View for TrError {
    type V = TrFailure;

    open spec fn view(&self) -> TrFailure {
        match *self {
            TrError::Argument(e) => TrFailure::Argument(e),
            TrError::Parse(e) => TrFailure::Parse(e@),
            TrError::Semantic(e) => TrFailure::Semantic(e),
        }
    }
}

/// The view of a result whose both sides have one.
pub open spec fn result_view<T: View, E: View>(r: Result<T, E>) -> Result<T::V, E::V> {
    match r {
        Ok(t) => Ok(t@),
        Err(e) => Err(e@),
    }
}

impl ArgumentError {
    /// The text of the message for this error.
    pub open spec fn message_spec(self) -> Seq<char> {
        match self {
            ArgumentError::ConflictingComplements =>
                "Options '-c' and '-C' cannot be used together"@,
            ArgumentError::ComplementNeedsTwoStrings =>
                "Option '-c' or '-C' may only be used with 2 strings"@,
            ArgumentError::NeedTwoStrings => "Need two strings operand"@,
            ArgumentError::EmptyString1 => "At least 1 string operand is required"@,
        }
    }

    /// The message to show for this error.
    pub fn message(&self) -> (text: String)
        ensures
            text@ == self.message_spec(),
    {
        match self {
            ArgumentError::ConflictingComplements =>
                "Options '-c' and '-C' cannot be used together".to_owned(),
            ArgumentError::ComplementNeedsTwoStrings =>
                "Option '-c' or '-C' may only be used with 2 strings".to_owned(),
            ArgumentError::NeedTwoStrings => "Need two strings operand".to_owned(),
            ArgumentError::EmptyString1 => "At least 1 string operand is required".to_owned(),
        }
    }
}

impl SemanticError {
    /// The text of the message for this error.
    pub open spec fn message_spec(self) -> Seq<char> {
        match self {
            SemanticError::RepeatInString1 =>
                "tr: the [c*] repeat construct may not appear in string1"@,
            SemanticError::MultipleRepeatsInString2 =>
                "tr: only one [c*] repeat construct may appear in string2"@,
            SemanticError::ExpectationViolated => "Expectation violated"@,
            SemanticError::ArithmeticOverflow => "Arithmetic overflow"@,
            SemanticError::EmptyCollection => "Unexpected empty collection"@,
            SemanticError::IndexingFailed => "Indexing failed"@,
            SemanticError::MissingOperand => "tr: missing operand"@,
            SemanticError::EmptyString2 =>
                "tr: when not truncating set1, string2 must be non-empty"@,
        }
    }

    /// The message to show for this error.
    pub fn message(&self) -> (text: String)
        ensures
            text@ == self.message_spec(),
    {
        match self {
            SemanticError::RepeatInString1 =>
                "tr: the [c*] repeat construct may not appear in string1".to_owned(),
            SemanticError::MultipleRepeatsInString2 =>
                "tr: only one [c*] repeat construct may appear in string2".to_owned(),
            SemanticError::ExpectationViolated => "Expectation violated".to_owned(),
            SemanticError::ArithmeticOverflow => "Arithmetic overflow".to_owned(),
            SemanticError::EmptyCollection => "Unexpected empty collection".to_owned(),
            SemanticError::IndexingFailed => "Indexing failed".to_owned(),
            SemanticError::MissingOperand => "tr: missing operand".to_owned(),
            SemanticError::EmptyString2 =>
                "tr: when not truncating set1, string2 must be non-empty".to_owned(),
        }
    }
}

impl ParseFailure {
    /// The text of the message for this failure.
    pub open spec fn message_spec(self) -> Seq<char> {
        match self {
            ParseFailure::MissingEquivSymbol => "Error: Missing equiv symbol after '[='"@,
            ParseFailure::MissingEquivEquals =>
                "Error: Missing '=' before ']' for '[=equiv=]'"@,
            ParseFailure::MissingEquivBracket => "Error: Missing closing ']' for '[=equiv=]'"@,
            ParseFailure::InvalidClassName => "Error: Invalid class name "@,
            ParseFailure::InvalidRepeatCount(text) =>
                "tr: invalid repeat count \u{2018}"@ + text + "\u{2019} in [c*n] construct"@,
            ParseFailure::InvalidOctalSequence(text) =>
                "tr: invalid octal sequence '"@ + text
                    + "' (out of range integral type conversion attempted)"@,
            ParseFailure::IterationFailed => "Iteration failed"@,
        }
    }
}

impl ParseError {
    /// The message to show for this error.
    pub fn message(&self) -> (text: String)
        ensures
            text@ == self@.message_spec(),
    {
        match self {
            ParseError::MissingEquivSymbol => "Error: Missing equiv symbol after '[='".to_owned(),
            ParseError::MissingEquivEquals =>
                "Error: Missing '=' before ']' for '[=equiv=]'".to_owned(),
            ParseError::MissingEquivBracket =>
                "Error: Missing closing ']' for '[=equiv=]'".to_owned(),
            ParseError::InvalidClassName => "Error: Invalid class name ".to_owned(),
            ParseError::InvalidRepeatCount(count) => {
                let mut text = String::from_str("tr: invalid repeat count \u{2018}");
                text.append(count.as_str());
                text.append("\u{2019} in [c*n] construct");
                text
            },
            ParseError::InvalidOctalSequence(digits) => {
                let mut text = String::from_str("tr: invalid octal sequence '");
                text.append(digits.as_str());
                text.append("' (out of range integral type conversion attempted)");
                text
            },
            ParseError::IterationFailed => "Iteration failed".to_owned(),
        }
    }
}

impl TrError {
    /// The message to show for this error.
    pub fn message(&self) -> (text: String)
        ensures
            text@ == match self@ {
                TrFailure::Argument(e) => e.message_spec(),
                TrFailure::Parse(e) => e.message_spec(),
                TrFailure::Semantic(e) => e.message_spec(),
            },
    {
        match self {
            TrError::Argument(e) => e.message(),
            TrError::Parse(e) => e.message(),
            TrError::Semantic(e) => e.message(),
        }
    }
}

} // verus!
