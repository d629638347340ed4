//! How many expression trees a sequence of a given length has.

use vstd::prelude::*;
use vstd::arithmetic::power::{lemma_pow0, lemma_pow1, lemma_pow_adds, pow};
use crate::enumerate::{all_trees, combined, joined_with_each, trees_split_upto};
use crate::expression::Expression;

verus! {

/// The number of trees over `n` elements whose root leaves `1`, `2`, ...
/// `upto` elements to its left: each such split contributes the product of
/// the counts of its two sides, once per operator.
pub open spec fn split_count_upto(n: nat, upto: nat) -> nat
    decreases n, upto,
{
    if upto == 0 || upto >= n {
        0
    } else {
        split_count_upto(n, (upto - 1) as nat) + tree_count(upto) * tree_count((n - upto) as nat)
            * 4
    }
}

/// The number of expression trees over `n` elements: one for a single
/// element, else the sum over the `n - 1` splits.
pub open spec fn tree_count(n: nat) -> nat
    decreases n, n,
{
    if n == 0 {
        0
    } else if n == 1 {
        1
    } else {
        split_count_upto(n, (n - 1) as nat)
    }
}

/// One left tree joined with each of `rights` gives four trees per right
/// tree.
pub proof fn lemma_joined_with_each_len(left: Expression, rights: Seq<Expression>)
    ensures
        joined_with_each(left, rights).len() == rights.len() * 4,
    decreases rights.len(),
{
    if rights.len() > 0 {
        lemma_joined_with_each_len(left, rights.drop_last());
    }
}

/// Combining two lists gives four trees per pair.
pub proof fn lemma_combined_len(lefts: Seq<Expression>, rights: Seq<Expression>)
    ensures
        combined(lefts, rights).len() == lefts.len() * rights.len() * 4,
    decreases lefts.len(),
{
    if lefts.len() > 0 {
        lemma_combined_len(lefts.drop_last(), rights);
        lemma_joined_with_each_len(lefts.last(), rights);
        assert((lefts.len() - 1) * rights.len() * 4 + rights.len() * 4 == lefts.len()
            * rights.len() * 4) by (nonlinear_arith);
    }
}

/// The trees of the first `upto` splits are as many as the recurrence says.
pub proof fn lemma_trees_split_upto_len(data: Seq<i64>, upto: nat)
    ensures
        trees_split_upto(data, upto).len() == split_count_upto(data.len(), upto),
    decreases data.len(), upto,
{
    if !(upto == 0 || upto >= data.len()) {
        let lefts = all_trees(data.take(upto as int));
        let rights = all_trees(data.skip(upto as int));
        lemma_trees_split_upto_len(data, (upto - 1) as nat);
        lemma_all_trees_len(data.take(upto as int));
        lemma_all_trees_len(data.skip(upto as int));
        lemma_combined_len(lefts, rights);
    }
}

/// The enumeration of a sequence of `n` elements has `tree_count(n)` trees.
pub proof fn lemma_all_trees_len(data: Seq<i64>)
    ensures
        all_trees(data).len() == tree_count(data.len()),
    decreases data.len(), data.len(),
{
    if data.len() >= 2 {
        lemma_trees_split_upto_len(data, (data.len() - 1) as nat);
    }
}

/// Every non-empty sequence has at least one tree.
pub proof fn lemma_tree_count_positive(n: nat)
    requires
        n >= 1,
    ensures
        tree_count(n) >= 1,
    decreases n,
{
    if n >= 2 {
        lemma_tree_count_positive((n - 1) as nat);
        let rest = tree_count((n - 1) as nat);
        assert(split_count_upto(n, 1) == split_count_upto(n, 0) + tree_count(1) * rest * 4);
        assert(1 * rest * 4 == rest * 4) by (nonlinear_arith);
        lemma_split_count_upto_monotone(n, 1, (n - 1) as nat);
    }
}

/// Counting more splits never counts fewer trees.
proof fn lemma_split_count_upto_monotone(n: nat, low: nat, high: nat)
    requires
        low <= high < n,
    ensures
        split_count_upto(n, low) <= split_count_upto(n, high),
    decreases high,
{
    if low < high {
        lemma_split_count_upto_monotone(n, low, (high - 1) as nat);
    }
}

/// The number of shapes of binary trees with `n` leaves whose root leaves
/// `1`, `2`, ... `upto` leaves to its left.
pub open spec fn shape_split_upto(n: nat, upto: nat) -> nat
    decreases n, upto,
{
    if upto == 0 || upto >= n {
        0
    } else {
        shape_split_upto(n, (upto - 1) as nat) + shape_count(upto) * shape_count((n - upto) as nat)
    }
}

/// The number of shapes of binary trees with `n` leaves.
pub open spec fn shape_count(n: nat) -> nat
    decreases n, n,
{
    if n == 0 {
        0
    } else if n == 1 {
        1
    } else {
        shape_split_upto(n, (n - 1) as nat)
    }
}

/// The trees of the first `upto` splits are the shapes of these splits,
/// each with every choice of an operator at each of its `n - 1` inner
/// nodes.
pub proof fn lemma_split_count_by_shape(n: nat, upto: nat)
    requires
        upto < n,
    ensures
        split_count_upto(n, upto) == shape_split_upto(n, upto) * pow(4, (n - 1) as nat),
    decreases n, upto, 0nat,
{
    let all = pow(4, (n - 1) as nat);
    if upto == 0 {
        assert(0 * all == 0) by (nonlinear_arith);
    } else {
        let left = upto;
        let right = (n - upto) as nat;
        lemma_split_count_by_shape(n, (upto - 1) as nat);
        lemma_tree_count_by_shape(left);
        lemma_tree_count_by_shape(right);
        let a = shape_count(left) as int;
        let b = shape_count(right) as int;
        let p = pow(4, (left - 1) as nat);
        let q = pow(4, (right - 1) as nat);
        lemma_pow_adds(4, (left - 1) as nat, (right - 1) as nat);
        lemma_pow_adds(4, (n - 2) as nat, 1);
        lemma_pow1(4);
        assert((a * p) * (b * q) * 4 == (a * b) * ((p * q) * 4)) by (nonlinear_arith);
        let before = shape_split_upto(n, (upto - 1) as nat) as int;
        assert((before + a * b) * all == before * all + (a * b) * all) by (nonlinear_arith);
    }
}

/// The trees over `n` elements are the shapes of binary trees with `n`
/// leaves, each with every choice of an operator at each of its `n - 1`
/// inner nodes.
pub proof fn lemma_tree_count_by_shape(n: nat)
    requires
        n >= 1,
    ensures
        tree_count(n) == shape_count(n) * pow(4, (n - 1) as nat),
    decreases n, n, 1nat,
{
    if n == 1 {
        lemma_pow0(4);
    } else {
        lemma_split_count_by_shape(n, (n - 1) as nat);
    }
}

} // verus!
