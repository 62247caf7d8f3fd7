//! Sets of characters as `tr` reads them, and the operations that use them:
//! translating, deleting, complementing and squeezing the characters of a text.

pub mod error;
pub mod operand;
pub mod text;
pub mod translate;
pub mod number;
pub mod class;
pub mod parse;
pub mod range;
pub mod complement;
pub mod squeeze;
pub mod args;
pub mod dispatch;

pub use args::Args;
pub use dispatch::{run, tr};
pub use error::{ArgumentError, ParseError, SemanticError, TrError};
pub use operand::{Char, CharRepetition, Equiv, Operand};
pub use range::parse_string1_or_string2;
pub use translate::TranslationMap;
