//! What the enumeration holds: exactly the trees over the given leaves,
//! each once.

use vstd::prelude::*;
use vstd::seq_lib::{
    lemma_no_dup_in_concat, lemma_seq_concat_contains_all_elements, lemma_seq_contains_after_push,
};
use crate::enumerate::{all_trees, combined, joined, joined_with_each, trees_split_upto};
use crate::decimal::{decimal, lemma_decimal_chars};
use crate::expression::{lemma_leaves_len, Expression};
use crate::op::{Op, OpError};

verus! {

/// The joins of `left` and `right` are the operations on exactly these two
/// operands.
pub proof fn lemma_joined_contains(left: Expression, right: Expression, t: Expression)
    ensures
        joined(left, right).contains(t) <==> (t matches Expression::Expression {
            left: l,
            op,
            right: r,
        } && *l == left && *r == right),
{
    let four = joined(left, right);
    match t {
        Expression::Const { value } => {},
        Expression::Expression { left: l, op, right: r } => {
            if *l == left && *r == right {
                let k: int = match op {
                    Op::Add => 0,
                    Op::Sub => 1,
                    Op::Mul => 2,
                    Op::Div => 3,
                };
                assert(four[k] == t);
            }
        },
    }
}

/// `left` joined with each of `rights` gives the operations with `left` as
/// left operand and one of `rights` as right operand.
pub proof fn lemma_joined_with_each_contains(
    left: Expression,
    rights: Seq<Expression>,
    t: Expression,
)
    ensures
        joined_with_each(left, rights).contains(t) <==> (t matches Expression::Expression {
            left: l,
            op,
            right: r,
        } && *l == left && rights.contains(*r)),
    decreases rights.len(),
{
    if rights.len() > 0 {
        let front = rights.drop_last();
        lemma_joined_with_each_contains(left, front, t);
        lemma_joined_contains(left, rights.last(), t);
        lemma_seq_concat_contains_all_elements(
            joined_with_each(left, front),
            joined(left, rights.last()),
            t,
        );
        assert(rights =~= front.push(rights.last()));
        match t {
            Expression::Const { value } => {},
            Expression::Expression { left: l, op, right: r } => {
                lemma_seq_contains_after_push(front, rights.last(), *r);
            },
        }
    }
}

/// Combining two lists gives the operations whose left operand is in the
/// first and whose right operand is in the second.
pub proof fn lemma_combined_contains(
    lefts: Seq<Expression>,
    rights: Seq<Expression>,
    t: Expression,
)
    ensures
        combined(lefts, rights).contains(t) <==> (t matches Expression::Expression {
            left: l,
            op,
            right: r,
        } && lefts.contains(*l) && rights.contains(*r)),
    decreases lefts.len(),
{
    if lefts.len() > 0 {
        let front = lefts.drop_last();
        lemma_combined_contains(front, rights, t);
        lemma_joined_with_each_contains(lefts.last(), rights, t);
        lemma_seq_concat_contains_all_elements(
            combined(front, rights),
            joined_with_each(lefts.last(), rights),
            t,
        );
        assert(lefts =~= front.push(lefts.last()));
        match t {
            Expression::Const { value } => {},
            Expression::Expression { left: l, op, right: r } => {
                lemma_seq_contains_after_push(front, lefts.last(), *l);
            },
        }
    }
}

/// The trees of the first `upto` splits are the operations over `data`
/// whose left operand takes at most `upto` of its elements.
pub proof fn lemma_trees_split_upto_contains(data: Seq<i64>, upto: nat, t: Expression)
    requires
        upto < data.len(),
    ensures
        trees_split_upto(data, upto).contains(t) <==> (t matches Expression::Expression {
            left: l,
            op,
            right: r,
        } && l.leaves() + r.leaves() == data && l.leaves().len() <= upto),
    decreases data.len(), upto, 0nat,
{
    if upto > 0 {
        let lefts = all_trees(data.take(upto as int));
        let rights = all_trees(data.skip(upto as int));
        lemma_trees_split_upto_contains(data, (upto - 1) as nat, t);
        lemma_combined_contains(lefts, rights, t);
        lemma_seq_concat_contains_all_elements(
            trees_split_upto(data, (upto - 1) as nat),
            combined(lefts, rights),
            t,
        );
        match t {
            Expression::Const { value } => {},
            Expression::Expression { left: l, op, right: r } => {
                lemma_all_trees_contains(data.take(upto as int), *l);
                lemma_all_trees_contains(data.skip(upto as int), *r);
                if l.leaves() == data.take(upto as int) && r.leaves() == data.skip(upto as int) {
                    assert(l.leaves() + r.leaves() =~= data);
                }
                if l.leaves() + r.leaves() == data && l.leaves().len() == upto {
                    assert(data.take(upto as int) =~= l.leaves());
                    assert(data.skip(upto as int) =~= r.leaves());
                }
            },
        }
    } else {
        match t {
            Expression::Const { value } => {},
            Expression::Expression { left: l, op, right: r } => {
                lemma_leaves_len(*l);
            },
        }
    }
}

/// The enumeration of `data` holds exactly the trees whose leaves, read
/// from left to right, are `data`.
pub proof fn lemma_all_trees_contains(data: Seq<i64>, t: Expression)
    ensures
        all_trees(data).contains(t) <==> t.leaves() == data,
    decreases data.len(), data.len(), 1nat,
{
    lemma_leaves_len(t);
    if data.len() == 1 {
        let only = Expression::Const { value: data[0] };
        assert(all_trees(data)[0] == only);
        if t.leaves() == data {
            assert(t.leaves()[0] == data[0]);
        }
        if all_trees(data).contains(t) {
            assert(t.leaves() =~= data);
        }
    } else if data.len() >= 2 {
        lemma_trees_split_upto_contains(data, (data.len() - 1) as nat, t);
        match t {
            Expression::Const { value } => {},
            Expression::Expression { left: l, op, right: r } => {
                lemma_leaves_len(*l);
                lemma_leaves_len(*r);
            },
        }
    }
}

/// A list without repetitions stays so when its last element is dropped,
/// and that element occurs nowhere before.
proof fn lemma_drop_last_no_duplicates(s: Seq<Expression>)
    requires
        s.len() > 0,
        s.no_duplicates(),
    ensures
        s.drop_last().no_duplicates(),
        !s.drop_last().contains(s.last()),
{
    let front = s.drop_last();
    assert forall|i: int, j: int| 0 <= i < front.len() && 0 <= j < front.len() && i != j implies front[i]
        != front[j] by {
        assert(front[i] == s[i] && front[j] == s[j]);
    }
    if front.contains(s.last()) {
        let i = choose|i: int| 0 <= i < front.len() && front[i] == s.last();
        assert(s[i] == s[s.len() - 1]);
    }
}

/// `left` joined with each of a list without repetitions gives no tree
/// twice.
pub proof fn lemma_joined_with_each_no_duplicates(left: Expression, rights: Seq<Expression>)
    requires
        rights.no_duplicates(),
    ensures
        joined_with_each(left, rights).no_duplicates(),
    decreases rights.len(),
{
    if rights.len() > 0 {
        let front = rights.drop_last();
        let a = joined_with_each(left, front);
        let b = joined(left, rights.last());
        lemma_drop_last_no_duplicates(rights);
        lemma_joined_with_each_no_duplicates(left, front);
        assert forall|i: int, j: int| 0 <= i < a.len() && 0 <= j < b.len() implies a[i]
            != b[j] by {
            assert(a.contains(a[i]));
            assert(b.contains(b[j]));
            lemma_joined_with_each_contains(left, front, a[i]);
            lemma_joined_contains(left, rights.last(), b[j]);
        }
        lemma_no_dup_in_concat(a, b);
    }
}

/// Combining two lists without repetitions gives no tree twice.
pub proof fn lemma_combined_no_duplicates(lefts: Seq<Expression>, rights: Seq<Expression>)
    requires
        lefts.no_duplicates(),
        rights.no_duplicates(),
    ensures
        combined(lefts, rights).no_duplicates(),
    decreases lefts.len(),
{
    if lefts.len() > 0 {
        let front = lefts.drop_last();
        let a = combined(front, rights);
        let b = joined_with_each(lefts.last(), rights);
        lemma_drop_last_no_duplicates(lefts);
        lemma_combined_no_duplicates(front, rights);
        lemma_joined_with_each_no_duplicates(lefts.last(), rights);
        assert forall|i: int, j: int| 0 <= i < a.len() && 0 <= j < b.len() implies a[i]
            != b[j] by {
            assert(a.contains(a[i]));
            assert(b.contains(b[j]));
            lemma_combined_contains(front, rights, a[i]);
            lemma_joined_with_each_contains(lefts.last(), rights, b[j]);
        }
        lemma_no_dup_in_concat(a, b);
    }
}

/// The trees of the first `upto` splits are pairwise different.
pub proof fn lemma_trees_split_upto_no_duplicates(data: Seq<i64>, upto: nat)
    ensures
        trees_split_upto(data, upto).no_duplicates(),
    decreases data.len(), upto, 0nat,
{
    if !(upto == 0 || upto >= data.len()) {
        let lefts = all_trees(data.take(upto as int));
        let rights = all_trees(data.skip(upto as int));
        let a = trees_split_upto(data, (upto - 1) as nat);
        let b = combined(lefts, rights);
        lemma_trees_split_upto_no_duplicates(data, (upto - 1) as nat);
        lemma_all_trees_no_duplicates(data.take(upto as int));
        lemma_all_trees_no_duplicates(data.skip(upto as int));
        lemma_combined_no_duplicates(lefts, rights);
        assert forall|i: int, j: int| 0 <= i < a.len() && 0 <= j < b.len() implies a[i]
            != b[j] by {
            assert(a.contains(a[i]));
            assert(b.contains(b[j]));
            lemma_trees_split_upto_contains(data, (upto - 1) as nat, a[i]);
            lemma_combined_contains(lefts, rights, b[j]);
            match b[j] {
                Expression::Const { value } => {},
                Expression::Expression { left: l, op, right: r } => {
                    lemma_all_trees_contains(data.take(upto as int), *l);
                },
            }
        }
        lemma_no_dup_in_concat(a, b);
    }
}

/// The enumeration holds no tree twice.
pub proof fn lemma_all_trees_no_duplicates(data: Seq<i64>)
    ensures
        all_trees(data).no_duplicates(),
    decreases data.len(), data.len(), 1nat,
{
    if data.len() >= 2 {
        lemma_trees_split_upto_no_duplicates(data, (data.len() - 1) as nat);
    }
}

/// A sequence of one element has one tree, the constant that holds the
/// element: it evaluates to the element and renders as the element's
/// decimal notation, without a parenthesis.
pub proof fn lemma_single_element(data: Seq<i64>)
    requires
        data.len() == 1,
    ensures
        all_trees(data) == seq![Expression::Const { value: data[0] }],
        all_trees(data)[0].evaluable(),
        all_trees(data)[0].value() == Ok::<int, OpError>(data[0] as int),
        all_trees(data)[0].render() == decimal(data[0] as int),
        !all_trees(data)[0].render().contains('('),
        !all_trees(data)[0].render().contains(')'),
{
    lemma_decimal_chars(data[0] as int);
}

} // verus!
