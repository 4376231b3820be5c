//! Evaluation of short infix statements under interchangeable algebras
//! (integers, booleans, sets of integers and decimal strings), and the check
//! that the sides of each statement between `=` signs agree.
//!
//! Text is tokenized, reordered into postfix by operator precedence, and
//! evaluated on a stack under the operators of the active domain.

pub mod arith;
pub mod domain;
pub mod error;
pub mod eval;
pub mod intset;
pub mod postfix;
pub mod statement;
pub mod token;
