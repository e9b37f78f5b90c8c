//! Dice and the notation that names them: `NdS`, `NdS+M` or `NdS-M`.

use vstd::prelude::*;
use crate::error::{Fault, ParseError, ParseErrorKind};
use crate::number::{read_i32, read_u8, signed_value, unsigned_value};
use crate::text::{characters, find_either, first_of, trim_bounds, trimmed};

verus! {

/// Some dice of one kind that are rolled together, and a number that is
/// added once to their sum.
#[derive(Clone, Copy, Debug, PartialEq, Eq, Structural)]
pub struct Dice {
    /// Faces of each die, numbered from 1.
    pub sides: u8,
    /// How many dice are rolled.
    pub count: u8,
    /// What is added to the sum of the faces.
    pub modifier: i32,
}

/// Where the one separator of `t` stands, a `d` in either case with text on
/// both sides of it; `None` where `t` has no separator, several, or nothing
/// on one side.
pub open spec fn separator(t: Seq<char>) -> Option<int> {
    let k = first_of(t, 'd', 'D');
    if 0 < k < t.len() - 1 && first_of(t.skip(k + 1), 'd', 'D') == t.len() - (k + 1) {
        Some(k)
    } else {
        None
    }
}

/// Where the sign stands in `rest`, the text after the separator: at the
/// first `+`, or without any `+` at the first `-`; `rest.len()` where it
/// has neither.
pub open spec fn sign_at(rest: Seq<char>) -> int {
    let plus = first_of(rest, '+', '+');
    if plus < rest.len() {
        plus
    } else {
        first_of(rest, '-', '-')
    }
}

/// The text of the number of sides: `rest` up to its sign.
pub open spec fn sides_part(rest: Seq<char>) -> Seq<char> {
    rest.take(sign_at(rest))
}

/// The text of the modifier: what follows the sign of `rest`, empty where
/// `rest` has no sign.
pub open spec fn modifier_part(rest: Seq<char>) -> Seq<char> {
    if sign_at(rest) < rest.len() {
        rest.skip(sign_at(rest) + 1)
    } else {
        Seq::empty()
    }
}

/// Whether the modifier of `rest` is subtracted: its sign is a `-`.
pub open spec fn subtracts(rest: Seq<char>) -> bool {
    sign_at(rest) < rest.len() && rest[sign_at(rest)] == '-'
}

/// The modifier that `rest` asks for: `0` where the text of the modifier is
/// empty, else the signed 32-bit number that it writes, taken negative
/// after a `-`; `None` where the text writes no such number or the
/// modifier does not fit in 32 bits.
pub open spec fn modifier_value(rest: Seq<char>) -> Option<int> {
    let part = modifier_part(rest);
    if part.len() == 0 {
        Some(0)
    } else {
        match signed_value(part, i32::MIN as int, i32::MAX as int) {
            None => None,
            Some(v) => {
                let m = if subtracts(rest) {
                    -v
                } else {
                    v
                };
                if m <= i32::MAX {
                    Some(m)
                } else {
                    None
                }
            },
        }
    }
}

/// What the trimmed notation `t` means, where `input` is the notation as it
/// was given. The fields are read in the order count, sides, modifier, and
/// the first that fails decides the fault.
pub open spec fn parsed_trimmed(t: Seq<char>, input: Seq<char>) -> Result<Dice, Fault> {
    match separator(t) {
        None => Err(Fault { kind: ParseErrorKind::MalformedSpec, input, part: t }),
        Some(k) => {
            let head = t.take(k);
            let rest = t.skip(k + 1);
            let count = unsigned_value(head, 255);
            let sides = unsigned_value(sides_part(rest), 255);
            let modifier = modifier_value(rest);
            if count.is_none() {
                Err(Fault { kind: ParseErrorKind::InvalidCount, input, part: head })
            } else if count.unwrap() == 0 {
                Err(Fault { kind: ParseErrorKind::ZeroCount, input, part: head })
            } else if sides.is_none() {
                Err(Fault { kind: ParseErrorKind::InvalidSides, input, part: sides_part(rest) })
            } else if sides.unwrap() == 0 {
                Err(Fault { kind: ParseErrorKind::ZeroSides, input, part: sides_part(rest) })
            } else if modifier.is_none() {
                Err(
                    Fault {
                        kind: ParseErrorKind::InvalidModifier,
                        input,
                        part: modifier_part(rest),
                    },
                )
            } else {
                Ok(
                    Dice {
                        sides: sides.unwrap() as u8,
                        count: count.unwrap() as u8,
                        modifier: modifier.unwrap() as i32,
                    },
                )
            }
        },
    }
}

/// What the notation `input` means: the white space around it does not
/// count.
pub open spec fn parsed(input: Seq<char>) -> Result<Dice, Fault> {
    parsed_trimmed(trimmed(input), input)
}

/// Finds the separator of `chars[a..b]`.
fn find_separator(chars: &Vec<char>, a: usize, b: usize) -> (at: Option<usize>)
    requires
        a <= b <= chars.len(),
    ensures
        match at {
            Some(k) => a < k < b - 1 && separator(chars@.subrange(a as int, b as int)) == Some(
                k - a,
            ),
            None => separator(chars@.subrange(a as int, b as int)).is_none(),
        },
{
    let k: usize = find_either(chars, a, b, 'd', 'D');
    if k == a || k >= b - 1 {
        return None;
    }
    assert(chars@.subrange(a as int, b as int).skip(k - a + 1) == chars@.subrange(
        k + 1,
        b as int,
    ));
    let next: usize = find_either(chars, k + 1, b, 'd', 'D');
    if next < b {
        None
    } else {
        Some(k)
    }
}

/// Finds the sign of `chars[from..to]`.
fn find_sign(chars: &Vec<char>, from: usize, to: usize) -> (at: usize)
    requires
        from <= to <= chars.len(),
    ensures
        from <= at <= to,
        at - from == sign_at(chars@.subrange(from as int, to as int)),
{
    let plus: usize = find_either(chars, from, to, '+', '+');
    if plus < to {
        plus
    } else {
        find_either(chars, from, to, '-', '-')
    }
}

/// Reads the modifier of `chars[from..to]`, whose sign stands at `sign`.
fn read_modifier(chars: &Vec<char>, from: usize, to: usize, sign: usize) -> (value: Option<i32>)
    requires
        from <= sign <= to <= chars.len(),
        sign - from == sign_at(chars@.subrange(from as int, to as int)),
    ensures
        match value {
            Some(m) => modifier_value(chars@.subrange(from as int, to as int)) == Some(m as int),
            None => modifier_value(chars@.subrange(from as int, to as int)).is_none(),
        },
{
    let ghost rest = chars@.subrange(from as int, to as int);
    if sign >= to || sign + 1 == to {
        assert(modifier_part(rest).len() == 0);
        return Some(0);
    }
    assert(modifier_part(rest) == chars@.subrange(sign + 1, to as int));
    assert(rest[sign - from] == chars[sign as int]);
    match read_i32(chars, sign + 1, to) {
        None => None,
        Some(v) => {
            if chars[sign] == '-' {
                if v == i32::MIN {
                    None
                } else {
                    Some(-v)
                }
            } else {
                Some(v)
            }
        },
    }
}

/// The piece `text[from..to]`, counted in characters, as a string.
fn piece(text: &str, from: usize, to: usize) -> (s: String)
    requires
        from <= to <= text@.len(),
    ensures
        s@ == text@.subrange(from as int, to as int),
{
    String::from_str(text.substring_char(from, to))
}

impl Dice {
    /// Whether the dice can be rolled: there is at least one die, and it has
    /// at least one side.
    pub open spec fn wf(&self) -> bool {
        self.sides >= 1 && self.count >= 1
    }

    /// Reads a dice notation: a number of dice, a `d` in either case, a
    /// number of sides and, if wanted, `+` or `-` and a modifier, with any
    /// white space around the whole.
    pub fn parse(notation: &str) -> (r: Result<Dice, ParseError>)
        ensures
            match r {
                Ok(dice) => parsed(notation@) == Ok::<Dice, Fault>(dice) && dice.wf(),
                Err(error) => parsed(notation@) == Err::<Dice, Fault>(error@),
            },
    {
        let chars: Vec<char> = characters(notation);
        let (a, b) = trim_bounds(&chars);
        let ghost t = chars@.subrange(a as int, b as int);
        let k: usize = match find_separator(&chars, a, b) {
            Some(k) => k,
            None => {
                return Err(
                    ParseError {
                        kind: ParseErrorKind::MalformedSpec,
                        input: String::from_str(notation),
                        part: piece(notation, a, b),
                    },
                );
            },
        };
        let ghost rest = t.skip(k - a + 1);
        assert(t.take(k - a) == chars@.subrange(a as int, k as int));
        assert(rest == chars@.subrange(k + 1, b as int));
        let count: u8 = match read_u8(&chars, a, k) {
            Some(count) => count,
            None => {
                return Err(
                    ParseError {
                        kind: ParseErrorKind::InvalidCount,
                        input: String::from_str(notation),
                        part: piece(notation, a, k),
                    },
                );
            },
        };
        if count == 0 {
            return Err(
                ParseError {
                    kind: ParseErrorKind::ZeroCount,
                    input: String::from_str(notation),
                    part: piece(notation, a, k),
                },
            );
        }
        let sign: usize = find_sign(&chars, k + 1, b);
        assert(sides_part(rest) == chars@.subrange(k + 1, sign as int));
        let sides: u8 = match read_u8(&chars, k + 1, sign) {
            Some(sides) => sides,
            None => {
                return Err(
                    ParseError {
                        kind: ParseErrorKind::InvalidSides,
                        input: String::from_str(notation),
                        part: piece(notation, k + 1, sign),
                    },
                );
            },
        };
        if sides == 0 {
            return Err(
                ParseError {
                    kind: ParseErrorKind::ZeroSides,
                    input: String::from_str(notation),
                    part: piece(notation, k + 1, sign),
                },
            );
        }
        match read_modifier(&chars, k + 1, b, sign) {
            Some(modifier) => Ok(Dice { sides, count, modifier }),
            None => {
                assert(modifier_part(rest) == chars@.subrange(sign + 1, b as int));
                Err(
                    ParseError {
                        kind: ParseErrorKind::InvalidModifier,
                        input: String::from_str(notation),
                        part: piece(notation, sign + 1, b),
                    },
                )
            },
        }
    }
}

/// Whether the notation at `at` is the first among `notations` that cannot
/// be read.
pub open spec fn first_fault_at(notations: Seq<String>, at: int) -> bool {
    &&& 0 <= at < notations.len()
    &&& parsed(notations[at]@).is_err()
    &&& forall|j: int| 0 <= j < at ==> parsed(#[trigger] notations[j]@).is_ok()
}

impl Dice {
    /// Reads some notations in their order and stops at the first that
    /// cannot be read: the dice of them all, or the error of that one.
    pub fn parse_all(notations: &Vec<String>) -> (r: Result<Vec<Dice>, ParseError>)
        ensures
            match r {
                Ok(dice) => {
                    &&& dice.len() == notations.len()
                    &&& forall|i: int|
                        0 <= i < dice.len() ==> parsed(#[trigger] notations[i]@) == Ok::<
                            Dice,
                            Fault,
                        >(dice[i])
                    &&& forall|i: int| 0 <= i < dice.len() ==> (#[trigger] dice[i]).wf()
                },
                Err(error) => exists|at: int|
                    first_fault_at(notations@, at) && parsed(#[trigger] notations[at]@) == Err::<
                        Dice,
                        Fault,
                    >(error@),
            },
    {
        let mut dice: Vec<Dice> = Vec::new();
        let mut i: usize = 0;
        while i < notations.len()
            invariant
                i <= notations.len(),
                dice.len() == i,
                forall|j: int|
                    0 <= j < i ==> parsed(#[trigger] notations[j]@) == Ok::<Dice, Fault>(dice[j]),
                forall|j: int| 0 <= j < i ==> (#[trigger] dice[j]).wf(),
            decreases notations.len() - i,
        {
            match Dice::parse(notations[i].as_str()) {
                Ok(one) => {
                    dice.push(one);
                },
                Err(error) => {
                    assert(first_fault_at(notations@, i as int));
                    return Err(error);
                },
            }
            i = i + 1;
        }
        Ok(dice)
    }
}

} // verus!
