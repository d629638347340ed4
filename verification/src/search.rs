//! Picking the trees that reach a target.

use vstd::prelude::*;
use crate::expression::Expression;
use crate::op::OpError;

verus! {

/// `t` evaluates without failure, and to `expected`.
pub open spec fn hits(t: Expression, expected: int) -> bool {
    t.value() == Ok::<int, OpError>(expected)
}

/// The trees of `all` that evaluate to `expected`, in their order; a tree
/// whose evaluation fails is left out.
pub fn matching(all: &Vec<Expression>, expected: i64) -> (found: Vec<Expression>)
    requires
        forall|i: int| 0 <= i < all@.len() ==> (#[trigger] all@[i]).evaluable(),
    ensures
        found@ == all@.filter(|t: Expression| hits(t, expected as int)),
        forall|t: Expression| #[trigger]
            found@.contains(t) <==> all@.contains(t) && hits(t, expected as int),
{
    let ghost wanted = |t: Expression| hits(t, expected as int);
    proof {
        assert forall|t: Expression| #[trigger]
            all@.filter(wanted).contains(t) <==> all@.contains(t) && hits(
                t,
                expected as int,
            ) by {
            if all@.filter(wanted).contains(t) {
                let i = choose|i: int|
                    0 <= i < all@.filter(wanted).len() && all@.filter(wanted)[i] == t;
                all@.lemma_filter_pred(wanted, i);
                all@.lemma_filter_contains_rev(wanted, t);
            }
            if all@.contains(t) && hits(t, expected as int) {
                let i = choose|i: int| 0 <= i < all@.len() && all@[i] == t;
                all@.lemma_filter_contains(wanted, i);
            }
        }
    }
    let mut found: Vec<Expression> = Vec::new();
    let mut i: usize = 0;
    while i < all.len()
        invariant
            i <= all.len(),
            wanted == |t: Expression| hits(t, expected as int),
            forall|i: int| 0 <= i < all@.len() ==> (#[trigger] all@[i]).evaluable(),
            found@ == all@.take(i as int).filter(wanted),
        decreases all.len() - i,
    {
        let item = &all[i];
        proof {
            assert(all@.take(i as int + 1) =~= all@.take(i as int).push(*item));
            all@.take(i as int).lemma_filter_push(*item, wanted);
        }
        match item.total() {
            Ok(total) => {
                if total == expected {
                    found.push(item.clone());
                }
            },
            Err(_) => {},
        }
        i += 1;
    }
    assert(all@.take(all@.len() as int) =~= all@);
    found
}

} // verus!
