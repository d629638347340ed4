use countdown::{allExpression, matching, Expression, Op, OpError};

fn leaf(value: i64) -> Expression {
    Expression::fromConst(value)
}

fn node(left: &Expression, op: Op, right: &Expression) -> Expression {
    Expression::new(left, op, right)
}

/// Reads one rendered tree from the front of `tokens`.
fn read_tree(tokens: &[&str], at: &mut usize) -> Expression {
    let token = tokens[*at];
    *at += 1;
    if token != "(" {
        return leaf(token.parse::<i64>().unwrap());
    }
    let left = read_tree(tokens, at);
    let op = match tokens[*at] {
        "+" => Op::Add,
        "-" => Op::Sub,
        "*" => Op::Mul,
        "/" => Op::Div,
        other => panic!("no operator: {}", other),
    };
    *at += 1;
    let right = read_tree(tokens, at);
    assert_eq!(tokens[*at], ")");
    *at += 1;
    node(&left, op, &right)
}

fn read_back(text: &str) -> Expression {
    let tokens: Vec<&str> = text.split(' ').collect();
    let mut at = 0;
    let tree = read_tree(&tokens, &mut at);
    assert_eq!(at, tokens.len());
    tree
}

#[test]
fn pair_one_three_has_one_match_for_four() {
    let all = allExpression(&[1, 3]);
    assert_eq!(all.len(), 4);
    let totals: Vec<Result<i64, OpError>> = all.iter().map(|e| e.total()).collect();
    assert_eq!(totals, vec![Ok(4), Ok(-2), Ok(3), Ok(0)]);
    let found = matching(&all, 4);
    assert_eq!(found.len(), 1);
    assert_eq!(found[0], node(&leaf(1), Op::Add, &leaf(3)));
    assert_eq!(found[0].show(), "( 1 + 3 )");
}

#[test]
fn division_by_zero_is_never_a_match() {
    let all = allExpression(&[1, 0]);
    assert_eq!(all.len(), 4);
    let totals: Vec<Result<i64, OpError>> = all.iter().map(|e| e.total()).collect();
    assert_eq!(totals, vec![Ok(1), Ok(1), Ok(0), Err(OpError::DivByZero)]);
    let broken = node(&leaf(1), Op::Div, &leaf(0));
    for target in [-1i64, 0, 1, 2, 765, i64::MIN, i64::MAX].iter() {
        let found = matching(&all, *target);
        assert!(!found.contains(&broken));
        for tree in found.iter() {
            assert_eq!(tree.total(), Ok(*target));
        }
    }
    assert_eq!(matching(&all, 1).len(), 2);
    assert_eq!(matching(&all, 0).len(), 1);
    assert_eq!(matching(&all, 2).len(), 0);
}

#[test]
fn reference_numbers_reach_765() {
    let data: [i64; 6] = [1, 3, 7, 10, 15, 50];
    let all = allExpression(&data);
    assert_eq!(all.len(), 43008);
    for tree in all.iter() {
        assert!(tree.is_evaluable());
    }
    let found = matching(&all, 765);
    assert!(!found.is_empty());
    for tree in found.iter() {
        assert_eq!(tree.total(), Ok(765));
    }
    let by_hand = all.iter().filter(|t| t.total() == Ok(765)).count();
    assert_eq!(found.len(), by_hand);
    assert_eq!(found.len(), 14);
    assert_eq!(found[0].show(), "( 1 - ( 3 - ( 7 + ( 10 + ( 15 * 50 ) ) ) ) )");
    assert_eq!(found[13].show(), "( ( ( ( 1 - 3 ) + 7 ) + 10 ) + ( 15 * 50 ) )");
    let failing = all.iter().filter(|t| t.total() == Err(OpError::DivByZero)).count();
    assert_eq!(failing, 5214);
}

#[test]
fn matching_keeps_the_enumeration_order() {
    let all = allExpression(&[2, 2, 1]);
    let found = matching(&all, 4);
    let by_hand: Vec<Expression> = all.iter().filter(|t| t.total() == Ok(4)).cloned().collect();
    assert_eq!(found, by_hand);
    let shown: Vec<String> = found.iter().map(|e| e.show()).collect();
    assert_eq!(
        shown,
        vec![
            "( 2 + ( 2 * 1 ) )".to_string(),
            "( 2 * ( 2 * 1 ) )".to_string(),
            "( 2 + ( 2 / 1 ) )".to_string(),
            "( 2 * ( 2 / 1 ) )".to_string(),
            "( ( 2 + 2 ) * 1 )".to_string(),
            "( ( 2 + 2 ) / 1 )".to_string(),
            "( ( 2 * 2 ) * 1 )".to_string(),
            "( ( 2 * 2 ) / 1 )".to_string(),
        ]
    );
}

#[test]
fn matching_nothing() {
    assert!(matching(&Vec::new(), 0).is_empty());
    assert!(matching(&allExpression(&[1, 3]), 100).is_empty());
    let single = allExpression(&[9]);
    assert_eq!(matching(&single, 9), vec![leaf(9)]);
    assert!(matching(&single, 8).is_empty());
}

#[test]
fn a_rendering_reads_back_as_the_tree() {
    let all = allExpression(&[12, -3, 0, 7]);
    assert_eq!(all.len(), 320);
    for tree in all.iter() {
        assert_eq!(&read_back(&tree.show()), tree);
    }
}

#[test]
fn renderings_of_different_trees_differ() {
    let all = allExpression(&[1, 11, 1, 11]);
    let mut shown: Vec<String> = all.iter().map(|e| e.show()).collect();
    shown.sort();
    shown.dedup();
    assert_eq!(shown.len(), all.len());
    assert_ne!(
        node(&node(&leaf(1), Op::Add, &leaf(2)), Op::Add, &leaf(3)).show(),
        node(&leaf(1), Op::Add, &node(&leaf(2), Op::Add, &leaf(3))).show()
    );
}

#[test]
fn parentheses_come_in_pairs_one_per_operation() {
    let all = allExpression(&[5, 6, 7, 8]);
    for tree in all.iter() {
        let text = tree.show();
        assert_eq!(text.matches('(').count(), 3);
        assert_eq!(text.matches(')').count(), 3);
    }
}
