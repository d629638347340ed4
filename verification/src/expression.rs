//! Arithmetic expression trees: evaluation and rendering.

use vstd::prelude::*;
use vstd::string::*;
use crate::decimal::{decimal, decimal_string};
use crate::op::{widen, Op, OpError};

verus! {

/// A binary tree with integers at its leaves and an operator at every
/// inner node.
#[derive(Debug, PartialEq, Eq)]
pub enum Expression {
    Const { value: i64 },
    Expression { left: Box<Expression>, op: Op, right: Box<Expression> },
}

impl Clone for Expression {
    fn clone(&self) -> (copy: Self)
        ensures
            copy == *self,
        decreases *self,
    {
        match self {
            Expression::Const { value } => Expression::Const { value: *value },
            Expression::Expression { left, op, right } => Expression::Expression {
                left: Box::new((**left).clone()),
                op: *op,
                right: Box::new((**right).clone()),
            },
        }
    }
}

impl Expression {
    /// The tree that applies `op` to `left` and `right`.
    pub open spec fn node(left: Expression, op: Op, right: Expression) -> Expression {
        Expression::Expression { left: Box::new(left), op, right: Box::new(right) }
    }

    /// The leaves of the tree from left to right.
    pub open spec fn leaves(self) -> Seq<i64>
        decreases self,
    {
        match self {
            Expression::Const { value } => seq![value],
            Expression::Expression { left, op, right } => left.leaves() + right.leaves(),
        }
    }

    /// The number of operations in the tree.
    pub open spec fn operations(self) -> nat
        decreases self,
    {
        match self {
            Expression::Const { value } => 0,
            Expression::Expression { left, op, right } => left.operations() + right.operations()
                + 1,
        }
    }

    /// The value of the tree over unbounded integers: a division by zero
    /// anywhere in it makes the whole tree fail.
    pub open spec fn value(self) -> Result<int, OpError>
        decreases self,
    {
        match self {
            Expression::Const { value } => Ok(value as int),
            Expression::Expression { left, op, right } => match left.value() {
                Err(e) => Err(e),
                Ok(a) => match right.value() {
                    Err(e) => Err(e),
                    Ok(b) => op.eval(a, b),
                },
            },
        }
    }

    /// Every operation that an evaluation from left to right performs
    /// before it stops yields a value that an `i64` can hold.
    pub open spec fn evaluable(self) -> bool
        decreases self,
    {
        match self {
            Expression::Const { value } => true,
            Expression::Expression { left, op, right } => {
                &&& left.evaluable()
                &&& left.value() matches Ok(a) ==> {
                    &&& right.evaluable()
                    &&& right.value() matches Ok(b) ==> op.fits(a, b)
                }
            },
        }
    }

    /// The tree in fully parenthesized infix notation.
    pub open spec fn render(self) -> Seq<char>
        decreases self,
    {
        match self {
            Expression::Const { value } => decimal(value as int),
            Expression::Expression { left, op, right } => seq!['(', ' '] + left.render()
                + seq![' '] + op.symbol() + seq![' '] + right.render() + seq![' ', ')'],
        }
    }

    /// A leaf that holds `value`.
    pub fn fromConst(value: i64) -> (e: Expression)
        ensures
            e == (Expression::Const { value }),
    {
        Expression::Const { value }
    }

    /// An inner node over copies of `left` and `right`, which stay usable.
    pub fn new(left: &Expression, op: Op, right: &Expression) -> (e: Expression)
        ensures
            e == Expression::node(*left, op, *right),
    {
        Expression::Expression { left: Box::new(left.clone()), op, right: Box::new(right.clone()) }
    }

    /// Evaluates the tree bottom-up, left before right, and stops at the
    /// first division by zero.
    pub fn total(&self) -> (r: Result<i64, OpError>)
        requires
            self.evaluable(),
        ensures
            widen(r) == self.value(),
        decreases *self,
    {
        match self {
            Expression::Const { value } => Ok(*value),
            Expression::Expression { left, op, right } => {
                let leftValue = left.total()?;
                let rightValue = right.total()?;
                op.apply(leftValue, rightValue)
            },
        }
    }

    /// Evaluates the tree as `total` does, with every operation checked:
    /// `None` where `total` may not be called, else what `total` returns.
    pub fn checked_total(&self) -> (r: Option<Result<i64, OpError>>)
        ensures
            r is Some <==> self.evaluable(),
            r matches Some(v) ==> widen(v) == self.value(),
        decreases *self,
    {
        match self {
            Expression::Const { value } => Some(Ok(*value)),
            Expression::Expression { left, op, right } => {
                let leftValue = match left.checked_total() {
                    None => return None,
                    Some(Err(e)) => return Some(Err(e)),
                    Some(Ok(v)) => v,
                };
                let rightValue = match right.checked_total() {
                    None => return None,
                    Some(Err(e)) => return Some(Err(e)),
                    Some(Ok(v)) => v,
                };
                op.checked_apply(leftValue, rightValue)
            },
        }
    }

    /// Whether `total` may be called on the tree.
    pub fn is_evaluable(&self) -> (b: bool)
        ensures
            b == self.evaluable(),
    {
        self.checked_total().is_some()
    }

    /// Renders the tree as text: a constant as its decimal notation, an
    /// operation as `( left symbol right )`.
    pub fn show(&self) -> (s: String)
        ensures
            s@ == self.render(),
        decreases *self,
    {
        match self {
            Expression::Const { value } => decimal_string(*value),
            Expression::Expression { left, op, right } => {
                proof {
                    reveal_strlit("( ");
                    reveal_strlit(" ");
                    reveal_strlit(" )");
                }
                let mut s = String::from_str("( ");
                s.append(left.show().as_str());
                s.append(" ");
                s.append(op.show());
                s.append(" ");
                s.append(right.show().as_str());
                s.append(" )");
                s
            },
        }
    }
}

/// A tree has at least one leaf, and an operation at least two.
pub proof fn lemma_leaves_len(t: Expression)
    ensures
        t.leaves().len() >= 1,
        t is Expression ==> t.leaves().len() >= 2,
    decreases t,
{
    match t {
        Expression::Const { value } => {},
        Expression::Expression { left, op, right } => {
            lemma_leaves_len(*left);
            lemma_leaves_len(*right);
        },
    }
}

/// A tree has one operation less than it has leaves.
pub proof fn lemma_operations(t: Expression)
    ensures
        t.operations() + 1 == t.leaves().len(),
    decreases t,
{
    match t {
        Expression::Const { value } => {},
        Expression::Expression { left, op, right } => {
            lemma_operations(*left);
            lemma_operations(*right);
        },
    }
}

} // verus!
