//! What is wrong with a dice notation that cannot be read.

use vstd::prelude::*;

verus! {

/// The field of a dice notation that could not be read.
#[derive(Clone, Copy, Debug, PartialEq, Eq, Structural)]
pub enum ParseErrorKind {
    /// The notation is not two non-empty parts around a single `d`.
    MalformedSpec,
    /// The number of dice is not an unsigned number.
    InvalidCount,
    /// The number of dice is zero.
    ZeroCount,
    /// The number of sides is not an unsigned number.
    InvalidSides,
    /// The number of sides is zero.
    ZeroSides,
    /// The modifier is not a signed number.
    InvalidModifier,
}

/// A notation that could not be read: which field failed, the notation as it
/// was given, and the piece of it that is at fault.
#[derive(Debug, PartialEq, Eq)]
pub struct ParseError {
    pub kind: ParseErrorKind,
    pub input: String,
    pub part: String,
}

/// The mathematical value of a [`ParseError`].
pub ghost struct Fault {
    pub kind: ParseErrorKind,
    pub input: Seq<char>,
    pub part: Seq<char>,
}

impl View for ParseError {
    type V = Fault;

    open spec fn view(&self) -> Fault {
        Fault { kind: self.kind, input: self.input@, part: self.part@ }
    }
}

impl Fault {
    /// The sentence that tells a user of this fault.
    pub open spec fn message(self) -> Seq<char> {
        match self.kind {
            ParseErrorKind::MalformedSpec => "Invalid dice specification '"@ + self.input
                + "': must be in format 'NdS' (e.g., '2d6')"@,
            ParseErrorKind::InvalidCount => "Invalid count in '"@ + self.input + "': '"@ + self.part
                + "' is not a valid number"@,
            ParseErrorKind::ZeroCount => "Invalid count in '"@ + self.input
                + "': cannot use 0 dice"@,
            ParseErrorKind::InvalidSides => "Invalid sides in '"@ + self.input + "': '"@ + self.part
                + "' is not a valid number"@,
            ParseErrorKind::ZeroSides => "Invalid sides in '"@ + self.input
                + "': cannot use 0 sides"@,
            ParseErrorKind::InvalidModifier => "Invalid modifier in '"@ + self.input + "': '"@
                + self.part + "' is not a valid number"@,
        }
    }
}

impl ParseError {
    /// The sentence that tells a user of this error: it names the field, the
    /// notation and, where a number could not be read, the text in its place.
    pub fn message(&self) -> (text: String)
        ensures
            text@ == self@.message(),
    {
        match self.kind {
            ParseErrorKind::MalformedSpec => {
                let mut text = String::from_str("Invalid dice specification '");
                text.append(self.input.as_str());
                text.append("': must be in format 'NdS' (e.g., '2d6')");
                text
            },
            ParseErrorKind::InvalidCount => not_a_number("Invalid count in '", self),
            ParseErrorKind::ZeroCount => {
                let mut text = String::from_str("Invalid count in '");
                text.append(self.input.as_str());
                text.append("': cannot use 0 dice");
                text
            },
            ParseErrorKind::InvalidSides => not_a_number("Invalid sides in '", self),
            ParseErrorKind::ZeroSides => {
                let mut text = String::from_str("Invalid sides in '");
                text.append(self.input.as_str());
                text.append("': cannot use 0 sides");
                text
            },
            ParseErrorKind::InvalidModifier => not_a_number("Invalid modifier in '", self),
        }
    }
}

/// The sentence for a field whose text is no number, after the opening words
/// `head`.
fn not_a_number(head: &str, error: &ParseError) -> (text: String)
    ensures
        text@ == head@ + error.input@ + "': '"@ + error.part@ + "' is not a valid number"@,
{
    let mut text = String::from_str(head);
    text.append(error.input.as_str());
    text.append("': '");
    text.append(error.part.as_str());
    text.append("' is not a valid number");
    text
}

} // verus!
