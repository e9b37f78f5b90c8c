//! Dice notation such as `2d6+3`: reading it, rolling the dice it names, and
//! counting exactly how often each total comes up.

pub mod dice;
pub mod distribution;
pub mod error;
pub mod leniency;
pub mod number;
pub mod outcomes;
pub mod roll;
pub mod text;
pub mod writing;

pub use crate::dice::Dice;
pub use crate::distribution::Distribution;
pub use crate::error::{ParseError, ParseErrorKind};
