use countdown::{Op, OpError};

#[test]
fn all_lists_the_four_operators_in_order() {
    assert_eq!(Op::all(), vec![Op::Add, Op::Sub, Op::Mul, Op::Div]);
}

#[test]
fn show_gives_the_symbols() {
    assert_eq!(Op::Add.show(), "+");
    assert_eq!(Op::Sub.show(), "-");
    assert_eq!(Op::Mul.show(), "*");
    assert_eq!(Op::Div.show(), "/");
}

#[test]
fn add_sub_mul_match_native_arithmetic() {
    let values: [i64; 9] = [-1000000007, -50, -3, -1, 0, 1, 2, 765, 1000000007];
    for &a in values.iter() {
        for &b in values.iter() {
            assert_eq!(Op::Add.apply(a, b), Ok(a + b));
            assert_eq!(Op::Sub.apply(a, b), Ok(a - b));
            assert_eq!(Op::Mul.apply(a, b), Ok(a * b));
        }
    }
}

#[test]
fn add_sub_mul_at_the_edges_of_the_range() {
    assert_eq!(Op::Add.apply(i64::MAX, 0), Ok(i64::MAX));
    assert_eq!(Op::Add.apply(i64::MAX - 1, 1), Ok(i64::MAX));
    assert_eq!(Op::Add.apply(i64::MIN, i64::MAX), Ok(-1));
    assert_eq!(Op::Sub.apply(i64::MIN + 1, 1), Ok(i64::MIN));
    assert_eq!(Op::Sub.apply(-1, i64::MAX), Ok(i64::MIN));
    assert_eq!(Op::Mul.apply(i64::MIN, 1), Ok(i64::MIN));
    assert_eq!(Op::Mul.apply(i64::MAX, -1), Ok(-i64::MAX));
    assert_eq!(Op::Mul.apply(3037000499, 3037000499), Ok(9223372030926249001));
}

#[test]
fn division_by_zero_fails_for_every_dividend() {
    for &a in [i64::MIN, -765, -1, 0, 1, 3, 50, i64::MAX].iter() {
        assert_eq!(Op::Div.apply(a, 0), Err(OpError::DivByZero));
        assert_eq!(Op::Div.checked_apply(a, 0), Some(Err(OpError::DivByZero)));
    }
}

#[test]
fn only_division_fails_on_a_zero_right_operand() {
    assert_eq!(Op::Add.apply(5, 0), Ok(5));
    assert_eq!(Op::Sub.apply(5, 0), Ok(5));
    assert_eq!(Op::Mul.apply(5, 0), Ok(0));
}

#[test]
fn division_truncates_toward_zero() {
    assert_eq!(Op::Div.apply(7, 2), Ok(3));
    assert_eq!(Op::Div.apply(-7, 2), Ok(-3));
    assert_eq!(Op::Div.apply(7, -2), Ok(-3));
    assert_eq!(Op::Div.apply(-7, -2), Ok(3));
    assert_eq!(Op::Div.apply(1, 3), Ok(0));
    assert_eq!(Op::Div.apply(-1, 3), Ok(0));
    assert_eq!(Op::Div.apply(0, -5), Ok(0));
    assert_eq!(Op::Div.apply(6, 3), Ok(2));
    assert_eq!(Op::Div.apply(-6, 3), Ok(-2));
    assert_eq!(Op::Div.apply(i64::MIN, 1), Ok(i64::MIN));
    assert_eq!(Op::Div.apply(i64::MIN, 2), Ok(-4611686018427387904));
    assert_eq!(Op::Div.apply(i64::MAX, -1), Ok(-i64::MAX));
    assert_eq!(Op::Div.apply(i64::MIN, i64::MAX), Ok(-1));
    assert_eq!(Op::Div.apply(i64::MAX, i64::MIN), Ok(0));
}

#[test]
fn division_matches_native_division() {
    let values: [i64; 10] = [-1000, -50, -7, -3, -1, 1, 2, 7, 765, 1000];
    for &a in values.iter() {
        for &b in values.iter() {
            assert_eq!(Op::Div.apply(a, b), Ok(a / b));
        }
        assert_eq!(Op::Div.apply(0, a), Ok(0));
    }
}

#[test]
fn checked_apply_agrees_with_apply_in_range() {
    let values: [i64; 7] = [-50, -3, -1, 0, 1, 7, 765];
    for op in Op::all() {
        for &a in values.iter() {
            for &b in values.iter() {
                assert_eq!(op.checked_apply(a, b), Some(op.apply(a, b)));
            }
        }
    }
}

#[test]
fn checked_apply_refuses_what_leaves_the_range() {
    assert_eq!(Op::Add.checked_apply(i64::MAX, 1), None);
    assert_eq!(Op::Add.checked_apply(i64::MIN, -1), None);
    assert_eq!(Op::Sub.checked_apply(i64::MIN, 1), None);
    assert_eq!(Op::Sub.checked_apply(0, i64::MIN), None);
    assert_eq!(Op::Mul.checked_apply(i64::MAX, 2), None);
    assert_eq!(Op::Mul.checked_apply(i64::MIN, -1), None);
    assert_eq!(Op::Mul.checked_apply(3037000500, 3037000500), None);
    assert_eq!(Op::Div.checked_apply(i64::MIN, -1), None);
}

#[test]
fn checked_apply_accepts_the_edges_of_the_range() {
    assert_eq!(Op::Add.checked_apply(i64::MAX, 0), Some(Ok(i64::MAX)));
    assert_eq!(Op::Sub.checked_apply(-1, i64::MAX), Some(Ok(i64::MIN)));
    assert_eq!(Op::Mul.checked_apply(i64::MIN, 1), Some(Ok(i64::MIN)));
    assert_eq!(Op::Div.checked_apply(i64::MIN, 1), Some(Ok(i64::MIN)));
    assert_eq!(Op::Div.checked_apply(i64::MAX, -1), Some(Ok(-i64::MAX)));
}
