//! Decimal text of coordinates, as used in entity tags.
use vstd::prelude::*;

verus! {

/// The decimal digit character of `d` (0..=9).
pub open spec fn digit_char(d: nat) -> char {
    if d == 0 { '0' }
    else if d == 1 { '1' }
    else if d == 2 { '2' }
    else if d == 3 { '3' }
    else if d == 4 { '4' }
    else if d == 5 { '5' }
    else if d == 6 { '6' }
    else if d == 7 { '7' }
    else if d == 8 { '8' }
    else { '9' }
}

/// The decimal digits of `n`, without leading zeros.
pub open spec fn decimal_digits(n: nat) -> Seq<char>
    decreases n,
{
    if n < 10 {
        seq![digit_char(n)]
    } else {
        decimal_digits(n / 10).push(digit_char(n % 10))
    }
}

/// How a floating-point number that is a multiple of one half, `x2 / 2`, is
/// displayed: an integer without a fraction, or with `.5`, and a minus sign
/// when negative.
pub open spec fn half_display(x2: int) -> Seq<char> {
    let sign = if x2 < 0 { seq!['-'] } else { Seq::<char>::empty() };
    let mag = if x2 < 0 { -x2 } else { x2 };
    if mag % 2 == 0 {
        sign + decimal_digits((mag / 2) as nat)
    } else {
        sign + decimal_digits((mag / 2) as nat) + seq!['.', '5']
    }
}

fn digit_str(d: u64) -> (s: &'static str)
    requires
        d < 10,
    ensures
        s@ == seq![digit_char(d as nat)],
{
    proof {
        reveal_strlit("0");
        reveal_strlit("1");
        reveal_strlit("2");
        reveal_strlit("3");
        reveal_strlit("4");
        reveal_strlit("5");
        reveal_strlit("6");
        reveal_strlit("7");
        reveal_strlit("8");
        reveal_strlit("9");
    }
    if d == 0 { "0" }
    else if d == 1 { "1" }
    else if d == 2 { "2" }
    else if d == 3 { "3" }
    else if d == 4 { "4" }
    else if d == 5 { "5" }
    else if d == 6 { "6" }
    else if d == 7 { "7" }
    else if d == 8 { "8" }
    else { "9" }
}

/// The decimal text of `n`.
pub fn decimal_string(n: u64) -> (s: String)
    ensures
        s@ == decimal_digits(n as nat),
    decreases n,
{
    if n < 10 {
        digit_str(n).to_owned()
    } else {
        let mut s = decimal_string(n / 10);
        s.append(digit_str(n % 10));
        s
    }
}

/// The displayed text of the coordinate `x2 / 2`.
pub fn half_string(x2: i64) -> (s: String)
    requires
        x2 > i64::MIN,
    ensures
        s@ == half_display(x2 as int),
{
    proof {
        reveal_strlit("-");
        reveal_strlit("");
        reveal_strlit(".5");
    }
    let mut s = if x2 < 0 { "-".to_owned() } else { "".to_owned() };
    let mag: u64 = if x2 < 0 { (-x2) as u64 } else { x2 as u64 };
    s.append(decimal_string(mag / 2).as_str());
    if mag % 2 == 1 {
        s.append(".5");
    }
    s
}

} // verus!
