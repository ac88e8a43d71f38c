use vstd::prelude::*;

use crate::text::{nat_text, push_nat};

verus! {

/// The ways in which parsing, building dice or evaluating can fail.
#[derive(Debug, Clone, Copy, PartialEq, Eq, Structural)]
pub enum DiroError {
    /// The text does not follow the notation; the field is the position
    /// (in characters) at which reading stopped.
    SyntaxError(usize),
    /// A number in the text does not fit the field it stands for.
    IntParseError,
    /// A division or remainder by zero.
    ZeroDivision,
    /// A keep/drop count larger than the number of dice.
    KQTooBig,
    /// A dice term that asks for no dice at all.
    NoDice,
    /// A dice term was read before it was rolled.
    DiceNotRolled,
    /// An intermediate value left the range of `i32`.
    Overflow,
}

pub type DiroResult<T> = Result<T, DiroError>;

impl DiroError {
    /// The text that describes the failure.
    pub open spec fn message_text(&self) -> Seq<char> {
        match self {
            DiroError::SyntaxError(pos) => "syntax error at position "@ + nat_text(*pos as nat),
            DiroError::IntParseError => "number too large for its field"@,
            DiroError::ZeroDivision => "division by zero"@,
            DiroError::KQTooBig => "KQ number can't be bigger than the amount of dices"@,
            DiroError::NoDice => "At least one dice must be present"@,
            DiroError::DiceNotRolled => "Dice should roll before calculate"@,
            DiroError::Overflow => "integer overflow"@,
        }
    }

    /// A human-readable description of the failure.
    pub fn message(&self) -> (r: String)
        ensures
            r@ == self.message_text(),
    {
        match self {
            DiroError::SyntaxError(pos) => {
                let mut s = String::from_str("syntax error at position ");
                push_nat(&mut s, *pos as u128);
                s
            },
            DiroError::IntParseError => String::from_str("number too large for its field"),
            DiroError::ZeroDivision => String::from_str("division by zero"),
            DiroError::KQTooBig => String::from_str(
                "KQ number can't be bigger than the amount of dices",
            ),
            DiroError::NoDice => String::from_str("At least one dice must be present"),
            DiroError::DiceNotRolled => String::from_str("Dice should roll before calculate"),
            DiroError::Overflow => String::from_str("integer overflow"),
        }
    }
}

} // verus!
