//! The options and operands of a run, and the test that they fit together.

use vstd::prelude::*;
use crate::error::ArgumentError;

verus! {

/// The options and operands of a run.
#[derive(Clone, Debug)]
pub struct Args {
    /// Delete the characters of the first string from the input.
    pub delete: bool,
    /// Squeeze the repeated characters that the last given set holds.
    pub squeeze_repeats: bool,
    /// Use the complement of the first string's values.
    pub complement_val: bool,
    /// Use the complement of the first string's characters.
    pub complement_char: bool,
    /// The first string.
    pub string1: String,
    /// The second string, which deleting does not need.
    pub string2: Option<String>,
}

impl Args {
    /// What is wrong with the options and operands, if anything: the first
    /// that applies of conflicting complements, a complement that is only
    /// squeezed with one string, a translation with one string, and an empty
    /// first string.
    pub open spec fn validation(&self) -> Result<(), ArgumentError> {
        if self.complement_char && self.complement_val {
            Err(ArgumentError::ConflictingComplements)
        } else if self.squeeze_repeats && self.string2 is None && (self.complement_char
            || self.complement_val) && !self.delete {
            Err(ArgumentError::ComplementNeedsTwoStrings)
        } else if !self.squeeze_repeats && !self.delete && self.string2 is None {
            Err(ArgumentError::NeedTwoStrings)
        } else if self.string1@.len() == 0 {
            Err(ArgumentError::EmptyString1)
        } else {
            Ok(())
        }
    }

    /// Whether the options and operands fit together.
    pub open spec fn valid(&self) -> bool {
        self.validation() is Ok
    }

    /// Checks that the options and operands fit together.
    pub fn validate_args(&self) -> (r: Result<(), ArgumentError>)
        ensures
            r == self.validation(),
    {
        if self.complement_char && self.complement_val {
            return Err(ArgumentError::ConflictingComplements);
        }
        if self.squeeze_repeats && self.string2.is_none() && (self.complement_char
            || self.complement_val) && !self.delete {
            return Err(ArgumentError::ComplementNeedsTwoStrings);
        }
        if !self.squeeze_repeats && !self.delete && self.string2.is_none() {
            return Err(ArgumentError::NeedTwoStrings);
        }
        if self.string1.as_str().is_empty() {
            return Err(ArgumentError::EmptyString1);
        }
        Ok(())
    }
}

} // verus!
