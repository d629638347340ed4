//! The rendering of a tree determines the tree.

use vstd::prelude::*;
use crate::decimal::{decimal, lemma_decimal_chars, lemma_decimal_injective};
use crate::expression::Expression;
use crate::op::Op;

verus! {

/// Text that may follow a rendering inside a larger one: nothing, or
/// something that begins with a space.
pub open spec fn begins_apart(rest: Seq<char>) -> bool {
    rest.len() == 0 || rest[0] == ' '
}

/// What follows the left operand in the rendering of an operation that is
/// itself followed by `rest`.
spec fn after_left(op: Op, right: Expression, rest: Seq<char>) -> Seq<char> {
    seq![' '] + op.symbol() + seq![' '] + (right.render() + after_right(rest))
}

/// What follows the right operand in the rendering of an operation that
/// is itself followed by `rest`.
spec fn after_right(rest: Seq<char>) -> Seq<char> {
    seq![' ', ')'] + rest
}

/// The rendering of an operation, followed by `rest`, taken apart at its
/// left operand.
proof fn lemma_render_operation(left: Expression, op: Op, right: Expression, rest: Seq<char>)
    ensures
        Expression::node(left, op, right).render() + rest == seq!['(', ' '] + (left.render()
            + after_left(op, right, rest)),
{
    assert(Expression::node(left, op, right).render() + rest =~= seq!['(', ' '] + (left.render()
        + after_left(op, right, rest)));
}

/// A rendering can be read back in one way only: if two renderings, each
/// followed by nothing or by text that begins with a space, give the same
/// text, then the trees are the same and so is what follows.
pub proof fn lemma_render_unique_prefix(
    a: Expression,
    b: Expression,
    x: Seq<char>,
    y: Seq<char>,
)
    requires
        a.render() + x == b.render() + y,
        begins_apart(x),
        begins_apart(y),
    ensures
        a == b,
        x == y,
    decreases a,
{
    let whole = a.render() + x;
    match (a, b) {
        (Expression::Const { value: v }, Expression::Const { value: w }) => {
            let d = decimal(v as int);
            let e = decimal(w as int);
            lemma_decimal_chars(v as int);
            lemma_decimal_chars(w as int);
            assert((d + x).len() == (e + y).len());
            if d.len() < e.len() {
                assert((d + x)[d.len() as int] == x[0]);
                assert((e + y)[d.len() as int] == e[d.len() as int]);
                assert(false);
            }
            if e.len() < d.len() {
                assert((e + y)[e.len() as int] == y[0]);
                assert((d + x)[e.len() as int] == d[e.len() as int]);
                assert(false);
            }
            assert(d =~= (d + x).take(d.len() as int));
            assert(e =~= (e + y).take(d.len() as int));
            assert(x =~= (d + x).skip(d.len() as int));
            assert(y =~= (e + y).skip(d.len() as int));
            lemma_decimal_injective(v as int, w as int);
        },
        (Expression::Const { value: v }, Expression::Expression { left, op, right }) => {
            lemma_decimal_chars(v as int);
            lemma_render_operation(*left, op, *right, y);
            assert((decimal(v as int) + x)[0] == decimal(v as int)[0]);
            assert((b.render() + y)[0] == '(');
            assert(false);
        },
        (Expression::Expression { left, op, right }, Expression::Const { value: w }) => {
            lemma_decimal_chars(w as int);
            lemma_render_operation(*left, op, *right, x);
            assert((decimal(w as int) + y)[0] == decimal(w as int)[0]);
            assert((a.render() + x)[0] == '(');
            assert(false);
        },
        (
            Expression::Expression { left: l1, op: o1, right: r1 },
            Expression::Expression { left: l2, op: o2, right: r2 },
        ) => {
            lemma_render_operation(*l1, o1, *r1, x);
            lemma_render_operation(*l2, o2, *r2, y);
            let x1 = after_left(o1, *r1, x);
            let y1 = after_left(o2, *r2, y);
            assert(l1.render() + x1 =~= whole.skip(2));
            assert(l2.render() + y1 =~= whole.skip(2));
            assert(x1[0] == ' ');
            assert(y1[0] == ' ');
            lemma_render_unique_prefix(*l1, *l2, x1, y1);
            assert(x1[1] == o1.symbol()[0]);
            assert(y1[1] == o2.symbol()[0]);
            assert(o1 == o2);
            let x2 = after_right(x);
            let y2 = after_right(y);
            assert(r1.render() + x2 =~= x1.skip(3));
            assert(r2.render() + y2 =~= y1.skip(3));
            assert(x2[0] == ' ');
            assert(y2[0] == ' ');
            lemma_render_unique_prefix(*r1, *r2, x2, y2);
            assert(x =~= x2.skip(2));
            assert(y =~= y2.skip(2));
        },
    }
}

/// How often `c` occurs in `s`.
pub open spec fn occurrences(s: Seq<char>, c: char) -> nat
    decreases s.len(),
{
    if s.len() == 0 {
        0
    } else {
        occurrences(s.drop_last(), c) + if s.last() == c {
            1nat
        } else {
            0nat
        }
    }
}

/// A character occurs in two texts in a row as often as in both together.
pub proof fn lemma_occurrences_concat(a: Seq<char>, b: Seq<char>, c: char)
    ensures
        occurrences(a + b, c) == occurrences(a, c) + occurrences(b, c),
    decreases b.len(),
{
    if b.len() == 0 {
        assert(a + b =~= a);
    } else {
        lemma_occurrences_concat(a, b.drop_last(), c);
        assert((a + b).drop_last() =~= a + b.drop_last());
    }
}

/// A character that is nowhere in a text occurs in it zero times.
pub proof fn lemma_occurrences_absent(s: Seq<char>, c: char)
    requires
        forall|i: int| 0 <= i < s.len() ==> s[i] != c,
    ensures
        occurrences(s, c) == 0,
    decreases s.len(),
{
    if s.len() > 0 {
        lemma_occurrences_absent(s.drop_last(), c);
    }
}

/// A rendering has one pair of parentheses for each operation of the
/// tree: a constant stands bare, and every operation is wrapped once.
pub proof fn lemma_render_parentheses(t: Expression)
    ensures
        occurrences(t.render(), '(') == t.operations(),
        occurrences(t.render(), ')') == t.operations(),
    decreases t,
{
    match t {
        Expression::Const { value } => {
            lemma_decimal_chars(value as int);
            lemma_occurrences_absent(t.render(), '(');
            lemma_occurrences_absent(t.render(), ')');
        },
        Expression::Expression { left, op, right } => {
            lemma_render_parentheses(*left);
            lemma_render_parentheses(*right);
            let opened = seq!['(', ' '];
            let with_left = opened + left.render();
            let before_symbol = with_left + seq![' '];
            let with_symbol = before_symbol + op.symbol();
            let before_right = with_symbol + seq![' '];
            let with_right = before_right + right.render();
            assert(t.render() == with_right + seq![' ', ')']);
            lemma_occurrences_absent(seq![' '], '(');
            lemma_occurrences_absent(seq![' '], ')');
            lemma_occurrences_absent(op.symbol(), '(');
            lemma_occurrences_absent(op.symbol(), ')');
            lemma_occurrences_absent(seq!['(', ' '], ')');
            lemma_occurrences_absent(seq![' ', ')'], '(');
            assert(occurrences(seq!['(', ' '], '(') == 1) by {
                reveal_with_fuel(occurrences, 3);
                assert(seq!['(', ' '].drop_last() =~= seq!['(']);
                assert(seq!['('].drop_last() =~= Seq::<char>::empty());
            }
            assert(occurrences(seq![' ', ')'], ')') == 1) by {
                reveal_with_fuel(occurrences, 3);
                assert(seq![' ', ')'].drop_last() =~= seq![' ']);
                assert(seq![' '].drop_last() =~= Seq::<char>::empty());
            }
            lemma_occurrences_concat(opened, left.render(), '(');
            lemma_occurrences_concat(with_left, seq![' '], '(');
            lemma_occurrences_concat(before_symbol, op.symbol(), '(');
            lemma_occurrences_concat(with_symbol, seq![' '], '(');
            lemma_occurrences_concat(before_right, right.render(), '(');
            lemma_occurrences_concat(with_right, seq![' ', ')'], '(');
            lemma_occurrences_concat(opened, left.render(), ')');
            lemma_occurrences_concat(with_left, seq![' '], ')');
            lemma_occurrences_concat(before_symbol, op.symbol(), ')');
            lemma_occurrences_concat(with_symbol, seq![' '], ')');
            lemma_occurrences_concat(before_right, right.render(), ')');
            lemma_occurrences_concat(with_right, seq![' ', ')'], ')');
        },
    }
}

/// Different trees render differently.
pub proof fn lemma_render_injective(a: Expression, b: Expression)
    requires
        a.render() == b.render(),
    ensures
        a == b,
{
    assert(a.render() + Seq::<char>::empty() =~= a.render());
    assert(b.render() + Seq::<char>::empty() =~= b.render());
    lemma_render_unique_prefix(a, b, Seq::empty(), Seq::empty());
}

} // verus!
