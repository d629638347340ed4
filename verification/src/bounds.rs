//! Leaves small enough that no tree over them leaves the range of `i64`.

use vstd::prelude::*;
use vstd::math::abs;
use crate::coverage::lemma_all_trees_contains;
use crate::enumerate::all_trees;
use crate::expression::{lemma_leaves_len, Expression};
use crate::op::{lemma_truncating_div_rounds_toward_zero, truncating_div, Op};

verus! {

/// The magnitude of `v`, counted as two where it is less.
pub open spec fn weight(v: int) -> nat {
    if abs(v) < 2 {
        2
    } else {
        abs(v)
    }
}

/// The product of the weights of `data`.
pub open spec fn weight_product(data: Seq<i64>) -> nat
    decreases data.len(),
{
    if data.len() == 0 {
        1
    } else {
        weight_product(data.drop_last()) * weight(data.last() as int)
    }
}

/// A product of weights is never zero.
pub proof fn lemma_weight_product_positive(data: Seq<i64>)
    ensures
        weight_product(data) >= 1,
        data.len() >= 1 ==> weight_product(data) >= 2,
    decreases data.len(),
{
    if data.len() > 0 {
        lemma_weight_product_positive(data.drop_last());
        assert(weight_product(data.drop_last()) * weight(data.last() as int) >= 2)
            by (nonlinear_arith)
            requires
                weight_product(data.drop_last()) >= 1,
                weight(data.last() as int) >= 2,
        ;
    }
}

/// The weight product of two sequences in a row is the product of theirs.
pub proof fn lemma_weight_product_concat(a: Seq<i64>, b: Seq<i64>)
    ensures
        weight_product(a + b) == weight_product(a) * weight_product(b),
    decreases b.len(),
{
    if b.len() == 0 {
        assert(a + b =~= a);
        assert(weight_product(a) * 1 == weight_product(a)) by (nonlinear_arith);
    } else {
        lemma_weight_product_concat(a, b.drop_last());
        assert((a + b).drop_last() =~= a + b.drop_last());
        let w = weight(b.last() as int);
        assert((weight_product(a) * weight_product(b.drop_last())) * w == weight_product(a) * (
        weight_product(b.drop_last()) * w)) by (nonlinear_arith);
    }
}

/// Whatever operator joins two values, the result is no larger in
/// magnitude than the product of two bounds on them that are at least two.
pub proof fn lemma_eval_bounded(op: Op, a: int, b: int, p: nat, q: nat)
    requires
        -p <= a <= p,
        -q <= b <= q,
        p >= 2,
        q >= 2,
    ensures
        op.eval(a, b) matches Ok(v) ==> -(p * q) <= v <= p * q,
{
    assert(p <= p * q && p + q <= p * q) by (nonlinear_arith)
        requires
            p >= 2,
            q >= 2,
    ;
    match op {
        Op::Add => {},
        Op::Sub => {},
        Op::Mul => {
            assert(-(p * q) <= a * b <= p * q) by (nonlinear_arith)
                requires
                    -p <= a <= p,
                    -q <= b <= q,
            ;
        },
        Op::Div => {
            if b != 0 {
                lemma_truncating_div_rounds_toward_zero(a, b);
                let d = truncating_div(a, b);
                assert(-p <= d <= p) by (nonlinear_arith)
                    requires
                        -p <= a <= p,
                        b != 0,
                        a >= 0 ==> 0 <= d * b <= a,
                        a <= 0 ==> a <= d * b <= 0,
                ;
            }
        },
    }
}

/// The value of a tree is no larger in magnitude than the weight product
/// of its leaves.
pub proof fn lemma_value_bounded(t: Expression)
    ensures
        t.value() matches Ok(v) ==> -weight_product(t.leaves()) <= v <= weight_product(
            t.leaves(),
        ),
    decreases t,
{
    match t {
        Expression::Const { value } => {
            assert(t.leaves().drop_last() =~= Seq::<i64>::empty());
            assert(weight_product(Seq::<i64>::empty()) == 1);
            assert(weight_product(t.leaves()) == 1 * weight(value as int));
        },
        Expression::Expression { left, op, right } => {
            lemma_value_bounded(*left);
            lemma_value_bounded(*right);
            lemma_weight_product_concat(left.leaves(), right.leaves());
            lemma_leaves_len(*left);
            lemma_leaves_len(*right);
            lemma_weight_product_positive(left.leaves());
            lemma_weight_product_positive(right.leaves());
            if left.value() matches Ok(a) && right.value() matches Ok(b) {
                lemma_eval_bounded(
                    op,
                    left.value()->Ok_0,
                    right.value()->Ok_0,
                    weight_product(left.leaves()),
                    weight_product(right.leaves()),
                );
            }
        },
    }
}

/// A tree may be evaluated if the weight product of its leaves is within
/// the range of `i64`.
pub proof fn lemma_bounded_tree_evaluable(t: Expression)
    requires
        weight_product(t.leaves()) <= i64::MAX,
    ensures
        t.evaluable(),
    decreases t,
{
    match t {
        Expression::Const { value } => {},
        Expression::Expression { left, op, right } => {
            let p = weight_product(left.leaves());
            let q = weight_product(right.leaves());
            lemma_weight_product_concat(left.leaves(), right.leaves());
            lemma_weight_product_positive(left.leaves());
            lemma_weight_product_positive(right.leaves());
            assert(p <= p * q && q <= p * q) by (nonlinear_arith)
                requires
                    p >= 1,
                    q >= 1,
            ;
            lemma_bounded_tree_evaluable(*left);
            lemma_bounded_tree_evaluable(*right);
            lemma_value_bounded(t);
        },
    }
}

/// Every tree of the enumeration of `data` may be evaluated if the weight
/// product of `data` is within the range of `i64`.
pub proof fn lemma_bounded_data_evaluable(data: Seq<i64>, t: Expression)
    requires
        weight_product(data) <= i64::MAX,
        all_trees(data).contains(t),
    ensures
        t.evaluable(),
{
    lemma_all_trees_contains(data, t);
    lemma_bounded_tree_evaluable(t);
}

} // verus!
