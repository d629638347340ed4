//! Decimal notation for integers.

use vstd::prelude::*;
use vstd::string::*;

verus! {

/// The character for a single decimal digit `d`, `0 <= d <= 9`.
pub open spec fn digit_char(d: nat) -> char {
    if d == 0 {
        '0'
    } else if d == 1 {
        '1'
    } else if d == 2 {
        '2'
    } else if d == 3 {
        '3'
    } else if d == 4 {
        '4'
    } else if d == 5 {
        '5'
    } else if d == 6 {
        '6'
    } else if d == 7 {
        '7'
    } else if d == 8 {
        '8'
    } else {
        '9'
    }
}

/// The digits of `n`, most significant first, without leading zeros.
pub open spec fn digits(n: nat) -> Seq<char>
    decreases n,
{
    if n < 10 {
        seq![digit_char(n)]
    } else {
        digits(n / 10).push(digit_char(n % 10))
    }
}

/// The decimal notation of `v`: its digits, after a minus sign if `v` is
/// negative.
pub open spec fn decimal(v: int) -> Seq<char> {
    if v < 0 {
        seq!['-'] + digits((-v) as nat)
    } else {
        digits(v as nat)
    }
}

/// `c` is one of the ten digit characters.
pub open spec fn is_digit(c: char) -> bool {
    c == '0' || c == '1' || c == '2' || c == '3' || c == '4' || c == '5' || c == '6' || c == '7'
        || c == '8' || c == '9'
}

/// The number that the digit character `c` stands for.
pub open spec fn digit_value(c: char) -> nat {
    if c == '0' {
        0
    } else if c == '1' {
        1
    } else if c == '2' {
        2
    } else if c == '3' {
        3
    } else if c == '4' {
        4
    } else if c == '5' {
        5
    } else if c == '6' {
        6
    } else if c == '7' {
        7
    } else if c == '8' {
        8
    } else {
        9
    }
}

/// The number that a row of digits denotes, most significant digit first.
pub open spec fn numeral_value(s: Seq<char>) -> nat
    decreases s.len(),
{
    if s.len() == 0 {
        0
    } else {
        numeral_value(s.drop_last()) * 10 + digit_value(s.last())
    }
}

/// The integer that a decimal notation denotes.
pub open spec fn decimal_value(s: Seq<char>) -> int {
    if s.len() > 0 && s[0] == '-' {
        -(numeral_value(s.skip(1)) as int)
    } else {
        numeral_value(s) as int
    }
}

/// The digits of a number are digit characters, at least one of them.
pub proof fn lemma_digits_are_digits(n: nat)
    ensures
        digits(n).len() >= 1,
        forall|i: int| 0 <= i < digits(n).len() ==> is_digit(#[trigger] digits(n)[i]),
    decreases n,
{
    if n >= 10 {
        lemma_digits_are_digits(n / 10);
    }
}

/// Reading the digits of a number gives the number back.
pub proof fn lemma_numeral_value_of_digits(n: nat)
    ensures
        numeral_value(digits(n)) == n,
    decreases n,
{
    if n < 10 {
        assert(numeral_value(digits(n).drop_last()) == 0);
    } else {
        lemma_numeral_value_of_digits(n / 10);
        assert(digits(n).drop_last() =~= digits(n / 10));
    }
}

/// A decimal notation is not empty and holds only digits and the minus
/// sign: no space and no parenthesis.
pub proof fn lemma_decimal_chars(v: int)
    ensures
        decimal(v).len() >= 1,
        forall|i: int|
            0 <= i < decimal(v).len() ==> is_digit(#[trigger] decimal(v)[i]) || decimal(v)[i]
                == '-',
{
    if v < 0 {
        lemma_digits_are_digits((-v) as nat);
    } else {
        lemma_digits_are_digits(v as nat);
    }
}

/// Reading the decimal notation of an integer gives the integer back.
pub proof fn lemma_decimal_value_of_decimal(v: int)
    ensures
        decimal_value(decimal(v)) == v,
{
    if v < 0 {
        lemma_numeral_value_of_digits((-v) as nat);
        assert(decimal(v).skip(1) =~= digits((-v) as nat));
    } else {
        lemma_numeral_value_of_digits(v as nat);
        lemma_digits_are_digits(v as nat);
    }
}

/// Different integers have different decimal notations.
pub proof fn lemma_decimal_injective(a: int, b: int)
    requires
        decimal(a) == decimal(b),
    ensures
        a == b,
{
    lemma_decimal_value_of_decimal(a);
    lemma_decimal_value_of_decimal(b);
}

fn digit_str(d: u64) -> (s: &'static str)
    requires
        d < 10,
    ensures
        s@ == seq![digit_char(d as nat)],
{
    proof {
        reveal_strlit("0");
        reveal_strlit("1");
        reveal_strlit("2");
        reveal_strlit("3");
        reveal_strlit("4");
        reveal_strlit("5");
        reveal_strlit("6");
        reveal_strlit("7");
        reveal_strlit("8");
        reveal_strlit("9");
    }
    if d == 0 {
        "0"
    } else if d == 1 {
        "1"
    } else if d == 2 {
        "2"
    } else if d == 3 {
        "3"
    } else if d == 4 {
        "4"
    } else if d == 5 {
        "5"
    } else if d == 6 {
        "6"
    } else if d == 7 {
        "7"
    } else if d == 8 {
        "8"
    } else {
        "9"
    }
}

fn append_digits(out: &mut String, n: u64)
    ensures
        final(out)@ == old(out)@ + digits(n as nat),
    decreases n,
{
    if n >= 10 {
        append_digits(out, n / 10);
    }
    out.append(digit_str(n % 10));
}

/// Writes `value` in decimal notation.
pub fn decimal_string(value: i64) -> (s: String)
    ensures
        s@ == decimal(value as int),
{
    let mut s = String::new();
    if value < 0 {
        proof {
            reveal_strlit("-");
        }
        s.append("-");
        let magnitude: u64 = (-(value + 1)) as u64 + 1;
        append_digits(&mut s, magnitude);
    } else {
        append_digits(&mut s, value as u64);
    }
    s
}

} // verus!
