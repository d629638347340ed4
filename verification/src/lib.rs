//! Arithmetic expressions over an ordered sequence of integers: every tree
//! that keeps the integers in order as its leaves and joins them with `+`,
//! `-`, `*` and `/`, the value of such a tree and its rendering as text.
//!
//! `allExpression` enumerates the trees, `Expression::total` evaluates one,
//! `Expression::show` renders one, and `matching` picks those that reach a
//! target. What each returns is stated over the spec functions
//! beside it; the other modules prove what follows from these statements:
//! how many trees there are (`count`), where each stands (`order`), that
//! the enumeration holds each tree over the leaves exactly once
//! (`coverage`), that a rendering determines its tree (`rendering`), and
//! which leaves keep every evaluation within `i64` (`bounds`).

#![allow(non_snake_case)]

pub mod bounds;
pub mod count;
pub mod coverage;
pub mod decimal;
pub mod enumerate;
pub mod expression;
pub mod op;
pub mod order;
pub mod rendering;
pub mod search;

pub use enumerate::{allExpression, combine, split};
pub use expression::Expression;
pub use op::{Op, OpError};
pub use search::matching;
