//! Dice notation: parse an expression such as `3d6+1`, roll the dice it
//! describes, compute its value and render how that value came about.

mod ast;
mod dice;
mod error;
mod parse;
mod random;
mod text;

pub use ast::{DiroAst, Verb};
pub use dice::{Dice, PercentileRoll, RollResult};
pub use error::{DiroError, DiroResult};
pub use parse::parse;
