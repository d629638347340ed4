//! Exhaustive enumeration of the expression trees over a sequence of
//! integers.

use vstd::prelude::*;
use crate::count::{
    lemma_all_trees_len, lemma_combined_len, lemma_tree_count_positive, tree_count,
};
use crate::coverage::{lemma_all_trees_contains, lemma_all_trees_no_duplicates};
use crate::expression::Expression;
use crate::op::Op;

verus! {

/// The four trees that join `left` and `right`, one per operator, in the
/// operators' fixed order.
pub open spec fn joined(left: Expression, right: Expression) -> Seq<Expression> {
    Op::all_spec().map_values(|op: Op| Expression::node(left, op, right))
}

/// `left` joined with each tree of `rights` in turn.
pub open spec fn joined_with_each(left: Expression, rights: Seq<Expression>) -> Seq<Expression>
    decreases rights.len(),
{
    if rights.len() == 0 {
        Seq::empty()
    } else {
        joined_with_each(left, rights.drop_last()) + joined(left, rights.last())
    }
}

/// Every tree of `lefts` joined with every tree of `rights` under every
/// operator: the left tree varies slowest, the operator fastest.
pub open spec fn combined(lefts: Seq<Expression>, rights: Seq<Expression>) -> Seq<Expression>
    decreases lefts.len(),
{
    if lefts.len() == 0 {
        Seq::empty()
    } else {
        combined(lefts.drop_last(), rights) + joined_with_each(lefts.last(), rights)
    }
}

/// The trees over `data` whose root splits it after its first `1`, `2`,
/// ... `upto` elements, in that order.
pub open spec fn trees_split_upto(data: Seq<i64>, upto: nat) -> Seq<Expression>
    decreases data.len(), upto,
{
    if upto == 0 || upto >= data.len() {
        Seq::empty()
    } else {
        trees_split_upto(data, (upto - 1) as nat) + combined(
            all_trees(data.take(upto as int)),
            all_trees(data.skip(upto as int)),
        )
    }
}

/// Every expression tree whose leaves are `data`, in enumeration order: a
/// single constant for one element, else the trees of each split of
/// `data` into a left and a right part, shortest left part first.
pub open spec fn all_trees(data: Seq<i64>) -> Seq<Expression>
    decreases data.len(), data.len(),
{
    if data.len() == 0 {
        Seq::empty()
    } else if data.len() == 1 {
        seq![Expression::Const { value: data[0] }]
    } else {
        trees_split_upto(data, (data.len() - 1) as nat)
    }
}

/// Joins every tree of `leftExpression` with every tree of
/// `rightExpression` under every operator.
pub fn combine(leftExpression: Vec<Expression>, rightExpression: Vec<Expression>) -> (out: Vec<
    Expression,
>)
    ensures
        out@ == combined(leftExpression@, rightExpression@),
        out@.len() == leftExpression@.len() * rightExpression@.len() * 4,
{
    proof {
        lemma_combined_len(leftExpression@, rightExpression@);
    }
    let ops = Op::all();
    let mut out: Vec<Expression> = Vec::new();
    let mut i: usize = 0;
    while i < leftExpression.len()
        invariant
            i <= leftExpression.len(),
            ops@ == Op::all_spec(),
            out@ == combined(leftExpression@.take(i as int), rightExpression@),
        decreases leftExpression.len() - i,
    {
        let left = &leftExpression[i];
        let ghost before = out@;
        let mut j: usize = 0;
        while j < rightExpression.len()
            invariant
                i < leftExpression.len(),
                j <= rightExpression.len(),
                ops@ == Op::all_spec(),
                *left == leftExpression@[i as int],
                out@ == before + joined_with_each(*left, rightExpression@.take(j as int)),
            decreases rightExpression.len() - j,
        {
            let right = &rightExpression[j];
            let ghost row = out@;
            let mut k: usize = 0;
            while k < ops.len()
                invariant
                    k <= ops.len(),
                    ops@ == Op::all_spec(),
                    out@ == row + joined(*left, *right).take(k as int),
                decreases ops.len() - k,
            {
                out.push(Expression::new(left, ops[k], right));
                k += 1;
            }
            proof {
                let rights = rightExpression@.take(j as int + 1);
                assert(rights.drop_last() == rightExpression@.take(j as int));
            }
            j += 1;
        }
        proof {
            let lefts = leftExpression@.take(i as int + 1);
            assert(lefts.drop_last() == leftExpression@.take(i as int));
            assert(rightExpression@.take(rightExpression@.len() as int) == rightExpression@);
        }
        i += 1;
    }
    assert(leftExpression@.take(leftExpression@.len() as int) == leftExpression@);
    out
}

/// Every way to cut `dataIn` into a non-empty left and a non-empty right
/// part, shortest left part first.
pub fn split<'a>(dataIn: &'a [i64]) -> (parts: Vec<(&'a [i64], &'a [i64])>)
    ensures
        parts@.len() == if dataIn@.len() == 0 {
            0
        } else {
            dataIn@.len() - 1
        },
        forall|i: int|
            0 <= i < parts@.len() ==> (#[trigger] parts@[i]).0@ == dataIn@.take(i + 1)
                && parts@[i].1@ == dataIn@.skip(i + 1),
{
    let mut parts: Vec<(&'a [i64], &'a [i64])> = Vec::new();
    let mut index: usize = 1;
    while index < dataIn.len()
        invariant
            1 <= index,
            index <= dataIn@.len() || index == 1,
            parts@.len() == index - 1,
            forall|i: int|
                0 <= i < parts@.len() ==> (#[trigger] parts@[i]).0@ == dataIn@.take(i + 1)
                    && parts@[i].1@ == dataIn@.skip(i + 1),
        decreases dataIn.len() - index,
    {
        parts.push(dataIn.split_at(index));
        index += 1;
    }
    parts
}

/// Enumerates every expression tree whose leaves are, in order, the
/// elements of `dataIn`.
pub fn allExpression(dataIn: &[i64]) -> (out: Vec<Expression>)
    ensures
        out@ == all_trees(dataIn@),
        out@.len() == tree_count(dataIn@.len()),
        dataIn@.len() >= 1 ==> out@.len() >= 1,
        forall|t: Expression| #[trigger] out@.contains(t) <==> t.leaves() == dataIn@,
        out@.no_duplicates(),
    decreases dataIn@.len(),
{
    proof {
        lemma_all_trees_len(dataIn@);
        if dataIn@.len() >= 1 {
            lemma_tree_count_positive(dataIn@.len());
        }
        lemma_all_trees_no_duplicates(dataIn@);
        assert forall|t: Expression| #[trigger]
            all_trees(dataIn@).contains(t) <==> t.leaves() == dataIn@ by {
            lemma_all_trees_contains(dataIn@, t);
        }
    }
    if dataIn.len() == 1 {
        let first = dataIn[0];
        let out = vec![Expression::fromConst(first)];
        return out;
    }
    let mut out = Vec::<Expression>::new();
    let parts = split(dataIn);
    let mut index: usize = 0;
    while index < parts.len()
        invariant
            index <= parts@.len(),
            dataIn@.len() != 1,
            parts@.len() == if dataIn@.len() == 0 {
                0
            } else {
                dataIn@.len() - 1
            },
            forall|i: int|
                0 <= i < parts@.len() ==> (#[trigger] parts@[i]).0@ == dataIn@.take(i + 1)
                    && parts@[i].1@ == dataIn@.skip(i + 1),
            out@ == trees_split_upto(dataIn@, index as nat),
        decreases parts.len() - index,
    {
        let (left, right) = parts[index];
        let leftExpression = allExpression(left);
        let rightExpression = allExpression(right);
        let mut combination = combine(leftExpression, rightExpression);
        out.append(&mut combination);
        index += 1;
    }
    out
}

} // verus!
