use vstd::prelude::*;
use vstd::string::StringExecFns;

verus! {

/// The single error of this library: a value-level problem with the caller's
/// input, carrying a human-readable message. A mismatch between the lengths
/// of two compared vectors is reported through `ValueError` with the message
/// built by `length_error`.
#[derive(Debug, PartialEq, Eq)]
pub enum NNSearchError {
    ValueError(String),
}

/// The decimal digit character for a value below ten.
pub open spec fn digit_char(d: nat) -> char {
    if d == 0 {
        '0'
    } else if d == 1 {
        '1'
    } else if d == 2 {
        '2'
    } else if d == 3 {
        '3'
    } else if d == 4 {
        '4'
    } else if d == 5 {
        '5'
    } else if d == 6 {
        '6'
    } else if d == 7 {
        '7'
    } else if d == 8 {
        '8'
    } else {
        '9'
    }
}

/// The decimal rendering of a natural number, most significant digit first.
pub open spec fn dec_seq(n: nat) -> Seq<char>
    decreases n,
{
    if n < 10 {
        seq![digit_char(n)]
    } else {
        dec_seq(n / 10).push(digit_char(n % 10))
    }
}

/// The message reported when two vectors of lengths `a` and `b` are compared.
pub open spec fn length_error_seq(a: nat, b: nat) -> Seq<char> {
    "Inconsistent length: "@ + dec_seq(a) + " != "@ + dec_seq(b)
}

fn digit_str(d: usize) -> (r: &'static str)
    requires
        d < 10,
    ensures
        r@ == seq![digit_char(d as nat)],
{
    if d == 0 {
        proof {
            reveal_strlit("0");
        }
        assert("0"@ =~= seq![digit_char(0)]);
        "0"
    } else if d == 1 {
        proof {
            reveal_strlit("1");
        }
        assert("1"@ =~= seq![digit_char(1)]);
        "1"
    } else if d == 2 {
        proof {
            reveal_strlit("2");
        }
        assert("2"@ =~= seq![digit_char(2)]);
        "2"
    } else if d == 3 {
        proof {
            reveal_strlit("3");
        }
        assert("3"@ =~= seq![digit_char(3)]);
        "3"
    } else if d == 4 {
        proof {
            reveal_strlit("4");
        }
        assert("4"@ =~= seq![digit_char(4)]);
        "4"
    } else if d == 5 {
        proof {
            reveal_strlit("5");
        }
        assert("5"@ =~= seq![digit_char(5)]);
        "5"
    } else if d == 6 {
        proof {
            reveal_strlit("6");
        }
        assert("6"@ =~= seq![digit_char(6)]);
        "6"
    } else if d == 7 {
        proof {
            reveal_strlit("7");
        }
        assert("7"@ =~= seq![digit_char(7)]);
        "7"
    } else if d == 8 {
        proof {
            reveal_strlit("8");
        }
        assert("8"@ =~= seq![digit_char(8)]);
        "8"
    } else {
        proof {
            reveal_strlit("9");
        }
        assert("9"@ =~= seq![digit_char(9)]);
        "9"
    }
}

/// The decimal rendering of `n` as an owned string.
pub fn dec_string(n: usize) -> (s: String)
    ensures
        s@ == dec_seq(n as nat),
    decreases n,
{
    if n < 10 {
        String::from_str(digit_str(n))
    } else {
        let mut s = dec_string(n / 10);
        s.append(digit_str(n % 10));
        s
    }
}

/// The error value for a comparison of two vectors whose lengths differ.
pub fn length_error(a: usize, b: usize) -> (e: NNSearchError)
    ensures
        e matches NNSearchError::ValueError(m) && m@ == length_error_seq(
            a as nat,
            b as nat,
        ),
{
    let mut s = String::from_str("Inconsistent length: ");
    let sa = dec_string(a);
    s.append(sa.as_str());
    s.append(" != ");
    let sb = dec_string(b);
    s.append(sb.as_str());
    NNSearchError::ValueError(s)
}

} // verus!
