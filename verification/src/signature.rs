//! The signature stamped on an exported drawing: the artist tag followed
//! by the drawing's counter, zero-padded to three digits.

use vstd::prelude::*;
use vstd::string::*;

verus! {

/// The decimal digit character for `d`.
pub open spec fn digit_char(d: int) -> char {
    if d == 0 {
        '0'
    } else if d == 1 {
        '1'
    } else if d == 2 {
        '2'
    } else if d == 3 {
        '3'
    } else if d == 4 {
        '4'
    } else if d == 5 {
        '5'
    } else if d == 6 {
        '6'
    } else if d == 7 {
        '7'
    } else if d == 8 {
        '8'
    } else {
        '9'
    }
}

/// The decimal digits of a non-negative number, most significant first.
pub open spec fn decimal_digits(n: int) -> Seq<char>
    decreases n,
{
    if n < 10 {
        seq![digit_char(n)]
    } else {
        decimal_digits(n / 10).push(digit_char(n % 10))
    }
}

/// The counter zero-padded on the left to at least three digits.
pub open spec fn padded_counter(n: int) -> Seq<char> {
    if n < 10 {
        seq!['0', '0'] + decimal_digits(n)
    } else if n < 100 {
        seq!['0'] + decimal_digits(n)
    } else {
        decimal_digits(n)
    }
}

/// The full signature text for a counter value.
pub open spec fn signature_text(n: int) -> Seq<char> {
    ("AntonMakesGames ")@ + padded_counter(n)
}

/// The string for one decimal digit.
fn digit_str(d: u32) -> (r: &'static str)
    requires
        d < 10,
    ensures
        r@ == seq![digit_char(d as int)],
{
    proof {
        reveal_strlit("0");
        reveal_strlit("1");
        reveal_strlit("2");
        reveal_strlit("3");
        reveal_strlit("4");
        reveal_strlit("5");
        reveal_strlit("6");
        reveal_strlit("7");
        reveal_strlit("8");
        reveal_strlit("9");
    }
    match d {
        0 => "0",
        1 => "1",
        2 => "2",
        3 => "3",
        4 => "4",
        5 => "5",
        6 => "6",
        7 => "7",
        8 => "8",
        _ => "9",
    }
}

/// The decimal digits of `n`, most significant first.
fn decimal_string(n: u32) -> (r: String)
    ensures
        r@ == decimal_digits(n as int),
    decreases n,
{
    if n < 10 {
        String::from_str(digit_str(n))
    } else {
        let mut s = decimal_string(n / 10);
        s.append(digit_str(n % 10));
        s
    }
}

/// The signature placed on a drawing: the artist tag and the export
/// counter, the counter zero-padded to at least three digits.
pub fn get_signature(counter: i32) -> (r: String)
    requires
        0 <= counter,
    ensures
        r@ == signature_text(counter as int),
{
    let mut s = String::from_str("AntonMakesGames ");
    if counter < 10 {
        s.append("00");
        proof {
            reveal_strlit("00");
        }
    } else if counter < 100 {
        s.append("0");
        proof {
            reveal_strlit("0");
        }
    }
    let digits = decimal_string(counter as u32);
    s.append(digits.as_str());
    proof {
        assert(s@ =~= signature_text(counter as int));
    }
    s
}

} // verus!
