//! Where each tree stands in a combination.

use vstd::prelude::*;
use crate::count::{lemma_combined_len, lemma_joined_with_each_len};
use crate::enumerate::{combined, joined, joined_with_each};
use crate::expression::Expression;
use crate::op::Op;

verus! {

/// In `left` joined with each of `rights`, the right operand varies
/// slower than the operator: the tree of the `j`-th right operand and the
/// `k`-th operator stands at `j * 4 + k`.
pub proof fn lemma_joined_with_each_index(
    left: Expression,
    rights: Seq<Expression>,
    j: int,
    k: int,
)
    requires
        0 <= j < rights.len(),
        0 <= k < 4,
    ensures
        j * 4 + k < joined_with_each(left, rights).len(),
        joined_with_each(left, rights)[j * 4 + k] == Expression::node(
            left,
            Op::all_spec()[k],
            rights[j],
        ),
    decreases rights.len(),
{
    let front = rights.drop_last();
    lemma_joined_with_each_len(left, rights);
    lemma_joined_with_each_len(left, front);
    if j < rights.len() - 1 {
        lemma_joined_with_each_index(left, front, j, k);
    } else {
        assert(joined(left, rights.last())[k] == Expression::node(
            left,
            Op::all_spec()[k],
            rights[j],
        ));
    }
}

/// In a combination the left operand varies slowest, then the right
/// operand, then the operator: the tree of the `i`-th left operand, the
/// `j`-th right operand and the `k`-th operator stands at
/// `(i * rights.len() + j) * 4 + k`.
pub proof fn lemma_combined_index(
    lefts: Seq<Expression>,
    rights: Seq<Expression>,
    i: int,
    j: int,
    k: int,
)
    requires
        0 <= i < lefts.len(),
        0 <= j < rights.len(),
        0 <= k < 4,
    ensures
        0 <= (i * rights.len() + j) * 4 + k < combined(lefts, rights).len(),
        combined(lefts, rights)[(i * rights.len() + j) * 4 + k] == Expression::node(
            lefts[i],
            Op::all_spec()[k],
            rights[j],
        ),
    decreases lefts.len(),
{
    let front = lefts.drop_last();
    let n = rights.len() as int;
    let at = (i * n + j) * 4 + k;
    lemma_combined_len(lefts, rights);
    lemma_combined_len(front, rights);
    lemma_joined_with_each_len(lefts.last(), rights);
    assert(0 <= i * n && at == i * n * 4 + (j * 4 + k) && (i + 1) * n * 4 == i * n * 4 + n * 4)
        by (nonlinear_arith)
        requires
            0 <= i,
            0 <= n,
            at == (i * n + j) * 4 + k,
    ;
    if i < lefts.len() - 1 {
        lemma_combined_index(front, rights, i, j, k);
    } else {
        lemma_joined_with_each_index(lefts.last(), rights, j, k);
        assert(combined(lefts, rights)[at] == joined_with_each(lefts.last(), rights)[j * 4 + k]);
    }
}

} // verus!
