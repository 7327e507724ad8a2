//! Decimal rendering of integers, used when positions and counts are
//! shown inside diagnostic text.

use vstd::prelude::*;
use vstd::string::*;

verus! {

/// The character for one decimal digit value.
pub open spec fn digit_char(d: int) -> char {
    if d == 0 {
        '0'
    } else if d == 1 {
        '1'
    } else if d == 2 {
        '2'
    } else if d == 3 {
        '3'
    } else if d == 4 {
        '4'
    } else if d == 5 {
        '5'
    } else if d == 6 {
        '6'
    } else if d == 7 {
        '7'
    } else if d == 8 {
        '8'
    } else {
        '9'
    }
}

/// The decimal digit string of a non-negative integer, most significant
/// digit first.
pub open spec fn dec_str(n: int) -> Seq<char>
    recommends
        n >= 0,
    decreases n,
{
    if n < 10 {
        seq![digit_char(n)]
    } else {
        dec_str(n / 10).push(digit_char(n % 10))
    }
}

/// The decimal string of an integer, with a leading minus sign when it is
/// negative.
pub open spec fn dec_str_signed(n: int) -> Seq<char> {
    if n < 0 {
        seq!['-'] + dec_str(-n)
    } else {
        dec_str(n)
    }
}

/// Digit characters of a digit list taken from last to first; the list
/// holds the digits of a number least significant first, so this renders
/// them most significant first.
spec fn rev_digits(ds: Seq<u64>) -> Seq<char>
    decreases ds.len(),
{
    if ds.len() == 0 {
        seq![]
    } else {
        seq![digit_char(ds.last() as int)] + rev_digits(ds.drop_last())
    }
}

/// The literal for one decimal digit.
fn digit_str(d: u64) -> (r: &'static str)
    requires
        d < 10,
    ensures
        r@ == seq![digit_char(d as int)],
{
    proof {
        reveal_strlit("0");
        reveal_strlit("1");
        reveal_strlit("2");
        reveal_strlit("3");
        reveal_strlit("4");
        reveal_strlit("5");
        reveal_strlit("6");
        reveal_strlit("7");
        reveal_strlit("8");
        reveal_strlit("9");
    }
    let r = if d == 0 {
        "0"
    } else if d == 1 {
        "1"
    } else if d == 2 {
        "2"
    } else if d == 3 {
        "3"
    } else if d == 4 {
        "4"
    } else if d == 5 {
        "5"
    } else if d == 6 {
        "6"
    } else if d == 7 {
        "7"
    } else if d == 8 {
        "8"
    } else {
        "9"
    };
    proof {
        assert(r@ =~= seq![digit_char(d as int)]);
    }
    r
}

/// Renders a number in decimal.
pub fn u64_to_string(n: u64) -> (r: String)
    ensures
        r@ == dec_str(n as int),
{
    let mut digits: Vec<u64> = Vec::new();
    let mut m: u64 = n;
    while m >= 10
        invariant
            dec_str(n as int) == dec_str(m as int) + rev_digits(digits@),
            forall|k: int| 0 <= k < digits@.len() ==> digits@[k] < 10,
        decreases m,
    {
        let ghost m0 = m as int;
        let ghost ds0 = digits@;
        let d = m % 10;
        m = m / 10;
        digits.push(d);
        proof {
            assert(digits@.last() == d);
            assert(digits@.drop_last() =~= ds0);
            assert(dec_str(m0) == dec_str(m0 / 10).push(digit_char(m0 % 10)));
            assert(dec_str(m0 / 10).push(digit_char(m0 % 10)) =~= dec_str(m0 / 10) + seq![
                digit_char(m0 % 10),
            ]);
            assert(dec_str(n as int) =~= dec_str(m as int) + rev_digits(digits@));
        }
    }
    let mut r = String::from_str(digit_str(m));
    let mut j: usize = digits.len();
    proof {
        assert(digits@.take(j as int) =~= digits@);
    }
    while j > 0
        invariant
            j <= digits@.len(),
            dec_str(n as int) == r@ + rev_digits(digits@.take(j as int)),
            forall|k: int| 0 <= k < digits@.len() ==> digits@[k] < 10,
        decreases j,
    {
        j = j - 1;
        let ghost pre = digits@.take(j as int + 1);
        r.append(digit_str(digits[j]));
        proof {
            assert(pre.last() == digits@[j as int]);
            assert(pre.drop_last() =~= digits@.take(j as int));
        }
    }
    proof {
        assert(dec_str(n as int) =~= r@);
    }
    r
}

/// Renders a signed number in decimal.
pub fn i32_to_string(n: i32) -> (r: String)
    ensures
        r@ == dec_str_signed(n as int),
{
    if n < 0 {
        let m: u64 = (-(n as i64)) as u64;
        let mut r = String::from_str("-");
        proof {
            reveal_strlit("-");
            assert(r@ =~= seq!['-']);
        }
        r.append(u64_to_string(m).as_str());
        r
    } else {
        u64_to_string(n as u64)
    }
}

} // verus!
