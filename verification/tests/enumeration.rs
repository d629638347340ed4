use countdown::{allExpression, combine, split, Expression, Op};

fn leaf(value: i64) -> Expression {
    Expression::fromConst(value)
}

fn node(left: &Expression, op: Op, right: &Expression) -> Expression {
    Expression::new(left, op, right)
}

fn leaves_of(tree: &Expression, into: &mut Vec<i64>) {
    match tree {
        Expression::Const { value } => into.push(*value),
        Expression::Expression { left, right, .. } => {
            leaves_of(left, into);
            leaves_of(right, into);
        }
    }
}

fn count_by_recurrence(n: usize) -> usize {
    if n == 0 {
        return 0;
    }
    if n == 1 {
        return 1;
    }
    let mut sum = 0;
    for i in 1..n {
        sum += count_by_recurrence(i) * count_by_recurrence(n - i) * 4;
    }
    sum
}

#[test]
fn one_element_gives_one_constant() {
    for &v in [0i64, 1, 7, -5, 765, i64::MIN, i64::MAX].iter() {
        let all = allExpression(&[v]);
        assert_eq!(all.len(), 1);
        assert_eq!(all[0], Expression::Const { value: v });
        assert_eq!(all[0].total(), Ok(v));
        assert_eq!(all[0].show(), format!("{}", v));
        assert!(!all[0].show().contains('('));
        assert!(!all[0].show().contains(')'));
    }
}

#[test]
fn no_element_gives_no_tree() {
    let all = allExpression(&[]);
    assert!(all.is_empty());
}

#[test]
fn the_count_follows_the_recurrence() {
    let data: [i64; 6] = [1, 3, 7, 10, 15, 50];
    for n in 0..=6 {
        let all = allExpression(&data[..n]);
        assert_eq!(all.len(), count_by_recurrence(n));
    }
}

#[test]
fn the_count_has_the_expected_values() {
    assert_eq!(allExpression(&[5]).len(), 1);
    assert_eq!(allExpression(&[5, 6]).len(), 4);
    assert_eq!(allExpression(&[5, 6, 7]).len(), 32);
    assert_eq!(allExpression(&[5, 6, 7, 8]).len(), 320);
    assert_eq!(allExpression(&[5, 6, 7, 8, 9]).len(), 3584);
    assert_eq!(allExpression(&[5, 6, 7, 8, 9, 10]).len(), 43008);
}

#[test]
fn the_count_does_not_depend_on_the_values() {
    assert_eq!(allExpression(&[0, 0, 0]).len(), 32);
    assert_eq!(allExpression(&[-1, -1, -1, -1]).len(), 320);
}

#[test]
fn two_elements_give_one_tree_per_operator() {
    let all = allExpression(&[1, 3]);
    let expected = vec![
        node(&leaf(1), Op::Add, &leaf(3)),
        node(&leaf(1), Op::Sub, &leaf(3)),
        node(&leaf(1), Op::Mul, &leaf(3)),
        node(&leaf(1), Op::Div, &leaf(3)),
    ];
    assert_eq!(all, expected);
}

#[test]
fn three_elements_in_enumeration_order() {
    let all = allExpression(&[1, 2, 3]);
    let shown: Vec<String> = all.iter().map(|e| e.show()).collect();
    let mut expected: Vec<String> = Vec::new();
    let symbols = ["+", "-", "*", "/"];
    for inner in symbols.iter() {
        for outer in symbols.iter() {
            expected.push(format!("( 1 {} ( 2 {} 3 ) )", outer, inner));
        }
    }
    for inner in symbols.iter() {
        for outer in symbols.iter() {
            expected.push(format!("( ( 1 {} 2 ) {} 3 )", inner, outer));
        }
    }
    assert_eq!(shown, expected);
}

#[test]
fn every_tree_keeps_the_leaves_in_order() {
    let data: [i64; 5] = [4, -2, 0, 9, 4];
    let all = allExpression(&data);
    assert_eq!(all.len(), 3584);
    for tree in all.iter() {
        let mut leaves = Vec::new();
        leaves_of(tree, &mut leaves);
        assert_eq!(leaves, data.to_vec());
    }
}

#[test]
fn no_tree_comes_twice() {
    let all = allExpression(&[2, 2, 2, 2]);
    let mut shown: Vec<String> = all.iter().map(|e| e.show()).collect();
    shown.sort();
    let before = shown.len();
    shown.dedup();
    assert_eq!(shown.len(), before);
    assert_eq!(before, 320);
}

#[test]
fn every_shape_over_three_leaves_is_there() {
    let all = allExpression(&[1, 2, 3]);
    for outer in Op::all() {
        for inner in Op::all() {
            let left_deep = node(&node(&leaf(1), inner, &leaf(2)), outer, &leaf(3));
            let right_deep = node(&leaf(1), outer, &node(&leaf(2), inner, &leaf(3)));
            assert!(all.contains(&left_deep));
            assert!(all.contains(&right_deep));
        }
    }
    assert!(!all.contains(&node(&node(&leaf(2), Op::Add, &leaf(1)), Op::Add, &leaf(3))));
    assert!(!all.contains(&node(&leaf(1), Op::Add, &leaf(2))));
}

#[test]
fn trees_that_cannot_be_evaluated_are_enumerated_too() {
    let all = allExpression(&[1, 0]);
    assert_eq!(all.len(), 4);
    assert_eq!(all[3], node(&leaf(1), Op::Div, &leaf(0)));
}

#[test]
fn combine_goes_left_then_right_then_operator() {
    let lefts = vec![leaf(1), leaf(2), leaf(3)];
    let rights = vec![leaf(10), leaf(20)];
    let ops = Op::all();
    let out = combine(lefts.clone(), rights.clone());
    assert_eq!(out.len(), 3 * 2 * 4);
    for i in 0..lefts.len() {
        for j in 0..rights.len() {
            for k in 0..ops.len() {
                let at = (i * rights.len() + j) * 4 + k;
                assert_eq!(out[at], node(&lefts[i], ops[k], &rights[j]));
            }
        }
    }
}

#[test]
fn combine_with_an_empty_side_gives_nothing() {
    assert!(combine(Vec::new(), vec![leaf(1)]).is_empty());
    assert!(combine(vec![leaf(1)], Vec::new()).is_empty());
    assert!(combine(Vec::new(), Vec::new()).is_empty());
}

#[test]
fn combine_keeps_repeated_operands() {
    let out = combine(vec![leaf(1), leaf(1)], vec![leaf(2)]);
    assert_eq!(out.len(), 8);
    assert_eq!(out[0], out[4]);
    assert_eq!(out[3], node(&leaf(1), Op::Div, &leaf(2)));
}

#[test]
fn split_cuts_at_every_boundary() {
    let data: [i64; 4] = [1, 2, 3, 4];
    let parts = split(&data);
    assert_eq!(parts.len(), 3);
    assert_eq!(parts[0], (&data[..1], &data[1..]));
    assert_eq!(parts[1], (&data[..2], &data[2..]));
    assert_eq!(parts[2], (&data[..3], &data[3..]));
    assert_eq!(parts[1].0, &[1, 2]);
    assert_eq!(parts[1].1, &[3, 4]);
}

#[test]
fn split_of_a_short_sequence() {
    assert!(split(&[]).is_empty());
    assert!(split(&[7]).is_empty());
    let data: [i64; 2] = [7, 8];
    let parts = split(&data);
    assert_eq!(parts.len(), 1);
    assert_eq!(parts[0].0, &[7]);
    assert_eq!(parts[0].1, &[8]);
}
