//! The four binary operators and their arithmetic on integers.

use vstd::prelude::*;

verus! {

/// The one way an evaluation can fail.
#[derive(Debug, Clone, Copy, PartialEq, Eq)]
pub enum OpError {
    DivByZero,
}

/// A binary arithmetic operator.
#[derive(Debug, Clone, Copy, PartialEq, Eq)]
pub enum Op {
    Add,
    Sub,
    Mul,
    Div,
}

/// The quotient of `a` by `b` rounded toward zero, for `b != 0`.
///
/// Division on `int` rounds so that the remainder is never negative; this
/// is the quotient of the magnitudes with the sign put back.
pub open spec fn truncating_div(a: int, b: int) -> int {
    if a >= 0 {
        a / b
    } else {
        -((-a) / b)
    }
}

/// A machine result read as a mathematical one.
pub open spec fn widen(r: Result<i64, OpError>) -> Result<int, OpError> {
    match r {
        Ok(v) => Ok(v as int),
        Err(e) => Err(e),
    }
}

impl Op {
    /// Every operator, in the order in which enumerations go through them.
    pub open spec fn all_spec() -> Seq<Op> {
        seq![Op::Add, Op::Sub, Op::Mul, Op::Div]
    }

    /// What the operator yields on unbounded integers.
    pub open spec fn eval(self, left: int, right: int) -> Result<int, OpError> {
        match self {
            Op::Add => Ok(left + right),
            Op::Sub => Ok(left - right),
            Op::Mul => Ok(left * right),
            Op::Div => if right == 0 {
                Err(OpError::DivByZero)
            } else {
                Ok(truncating_div(left, right))
            },
        }
    }

    /// The operation either fails or yields a value that an `i64` can hold.
    pub open spec fn fits(self, left: int, right: int) -> bool {
        match self.eval(left, right) {
            Ok(v) => i64::MIN <= v <= i64::MAX,
            Err(_) => true,
        }
    }

    /// The operator's symbol as text.
    pub open spec fn symbol(self) -> Seq<char> {
        match self {
            Op::Add => seq!['+'],
            Op::Sub => seq!['-'],
            Op::Mul => seq!['*'],
            Op::Div => seq!['/'],
        }
    }

    /// The four operators in their fixed order.
    pub fn all() -> (ops: Vec<Op>)
        ensures
            ops@ == Op::all_spec(),
    {
        vec![Op::Add, Op::Sub, Op::Mul, Op::Div]
    }

    /// Applies the operator to two machine integers.
    ///
    /// Dividing by zero is the only failure. The caller keeps the result
    /// within `i64`, which also rules out dividing `i64::MIN` by `-1`.
    pub fn apply(&self, left: i64, right: i64) -> (r: Result<i64, OpError>)
        requires
            self.fits(left as int, right as int),
        ensures
            widen(r) == self.eval(left as int, right as int),
    {
        match self {
            Op::Add => Ok(left + right),
            Op::Sub => Ok(left - right),
            Op::Mul => Ok(left * right),
            Op::Div => {
                if right == 0 {
                    Err(OpError::DivByZero)
                } else {
                    proof {
                        lemma_min_over_minus_one(left as int, right as int);
                    }
                    Ok(left / right)
                }
            },
        }
    }

    /// Applies the operator if the result can be held: `None` where
    /// `apply` may not be called, else what `apply` returns.
    pub fn checked_apply(&self, left: i64, right: i64) -> (r: Option<Result<i64, OpError>>)
        ensures
            r is Some <==> self.fits(left as int, right as int),
            r matches Some(v) ==> widen(v) == self.eval(left as int, right as int),
    {
        let held = match self {
            Op::Add => left.checked_add(right).is_some(),
            Op::Sub => left.checked_sub(right).is_some(),
            Op::Mul => left.checked_mul(right).is_some(),
            Op::Div => {
                proof {
                    if right != 0 {
                        lemma_min_over_minus_one(left as int, right as int);
                    }
                }
                !(left == i64::MIN && right == -1)
            },
        };
        if held {
            Some(self.apply(left, right))
        } else {
            None
        }
    }

    /// The symbol that stands for the operator in rendered expressions.
    pub fn show(&self) -> (s: &'static str)
        ensures
            s@ == self.symbol(),
    {
        proof {
            reveal_strlit("+");
            reveal_strlit("-");
            reveal_strlit("*");
            reveal_strlit("/");
        }
        match self {
            Op::Add => "+",
            Op::Sub => "-",
            Op::Mul => "*",
            Op::Div => "/",
        }
    }
}

/// Among quotients of two `i64` values only `i64::MIN / -1` leaves the range.
pub proof fn lemma_min_over_minus_one(a: int, b: int)
    requires
        i64::MIN <= a <= i64::MAX,
        i64::MIN <= b <= i64::MAX,
        b != 0,
    ensures
        (i64::MIN <= truncating_div(a, b) <= i64::MAX) <==> !(a == i64::MIN && b == -1),
{
    lemma_truncating_div_rounds_toward_zero(a, b);
    let q = truncating_div(a, b);
    if a == i64::MIN && b == -1 {
        assert(q == -a) by (nonlinear_arith)
            requires
                b == -1,
                -1 < a - q * b < 1,
        ;
    } else {
        assert(i64::MIN <= q <= i64::MAX) by (nonlinear_arith)
            requires
                i64::MIN <= a <= i64::MAX,
                b != 0,
                !(a == i64::MIN && b == -1),
                a >= 0 ==> 0 <= q * b <= a,
                a <= 0 ==> a <= q * b <= 0,
                a - q * b < b || a - q * b < -b,
                q * b - a < b || q * b - a < -b,
        ;
    }
}

/// `truncating_div` is division rounded toward zero: the quotient times the
/// divisor lies between zero and the dividend, less than one divisor away
/// from the dividend.
pub proof fn lemma_truncating_div_rounds_toward_zero(a: int, b: int)
    requires
        b != 0,
    ensures
        a >= 0 ==> 0 <= truncating_div(a, b) * b <= a,
        a <= 0 ==> a <= truncating_div(a, b) * b <= 0,
        -vstd::math::abs(b) < a - truncating_div(a, b) * b < vstd::math::abs(b),
{
    let m = if a >= 0 { a } else { -a };
    let q = m / b;
    let r = m % b;
    assert(m == b * q + r && 0 <= r && (r < b || r < -b)) by (nonlinear_arith)
        requires
            b != 0,
            q == m / b,
            r == m % b,
    ;
    assert(q * b == b * q) by (nonlinear_arith);
    assert((-q) * b == -(b * q)) by (nonlinear_arith);
    if b > 0 {
        assert(q >= 0) by (nonlinear_arith)
            requires
                b > 0,
                m >= 0,
                m == b * q + r,
                0 <= r < b,
        ;
        assert(b * q >= 0) by (nonlinear_arith)
            requires
                b > 0,
                q >= 0,
        ;
    } else {
        assert(q <= 0) by (nonlinear_arith)
            requires
                b < 0,
                m >= 0,
                m == b * q + r,
                0 <= r < -b,
        ;
        assert(b * q >= 0) by (nonlinear_arith)
            requires
                b < 0,
                q <= 0,
        ;
    }
}

} // verus!
