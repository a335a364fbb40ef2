//! Verified text building: character runs and decimal numerals, used by the
//! board renderer and by the error messages.

use vstd::prelude::*;

verus! {

/// A run of `count` copies of the character `c`.
pub open spec fn char_run(c: char, count: nat) -> Seq<char> {
    Seq::new(count, |i: int| c)
}

/// The character for the decimal digit `d` (`d < 10`).
pub open spec fn digit_char(d: nat) -> char {
    if d == 0 {
        '0'
    } else if d == 1 {
        '1'
    } else if d == 2 {
        '2'
    } else if d == 3 {
        '3'
    } else if d == 4 {
        '4'
    } else if d == 5 {
        '5'
    } else if d == 6 {
        '6'
    } else if d == 7 {
        '7'
    } else if d == 8 {
        '8'
    } else {
        '9'
    }
}

/// The decimal numeral of `value`, most significant digit first, without
/// leading zeros (the numeral of zero is `"0"`).
pub open spec fn decimal_digits(value: nat) -> Seq<char>
    decreases value,
{
    if value < 10 {
        seq![digit_char(value)]
    } else {
        decimal_digits(value / 10).push(digit_char(value % 10))
    }
}

/// A one-character string slice holding the decimal digit `d`.
fn digit_str(d: u64) -> (s: &'static str)
    requires
        d < 10,
    ensures
        s@ == seq![digit_char(d as nat)],
{
    if d == 0 {
        proof {
            reveal_strlit("0");
            assert("0"@ =~= seq![digit_char(0)]);
        }
        "0"
    } else if d == 1 {
        proof {
            reveal_strlit("1");
            assert("1"@ =~= seq![digit_char(1)]);
        }
        "1"
    } else if d == 2 {
        proof {
            reveal_strlit("2");
            assert("2"@ =~= seq![digit_char(2)]);
        }
        "2"
    } else if d == 3 {
        proof {
            reveal_strlit("3");
            assert("3"@ =~= seq![digit_char(3)]);
        }
        "3"
    } else if d == 4 {
        proof {
            reveal_strlit("4");
            assert("4"@ =~= seq![digit_char(4)]);
        }
        "4"
    } else if d == 5 {
        proof {
            reveal_strlit("5");
            assert("5"@ =~= seq![digit_char(5)]);
        }
        "5"
    } else if d == 6 {
        proof {
            reveal_strlit("6");
            assert("6"@ =~= seq![digit_char(6)]);
        }
        "6"
    } else if d == 7 {
        proof {
            reveal_strlit("7");
            assert("7"@ =~= seq![digit_char(7)]);
        }
        "7"
    } else if d == 8 {
        proof {
            reveal_strlit("8");
            assert("8"@ =~= seq![digit_char(8)]);
        }
        "8"
    } else {
        proof {
            reveal_strlit("9");
            assert("9"@ =~= seq![digit_char(9)]);
        }
        "9"
    }
}

/// Renders `value` as its decimal numeral.
pub fn u64_to_decimal(value: u64) -> (s: String)
    ensures
        s@ == decimal_digits(value as nat),
    decreases value,
{
    if value < 10 {
        String::from_str(digit_str(value))
    } else {
        let mut s = u64_to_decimal(value / 10);
        let digit = digit_str(value % 10);
        s.append(digit);
        proof {
            assert(s@ =~= decimal_digits(value as nat));
        }
        s
    }
}

/// Appends `count` copies of the single character of `unit` to `out`.
pub fn append_run(out: &mut String, unit: &str, count: u64)
    requires
        unit@.len() == 1,
    ensures
        final(out)@ == old(out)@ + char_run(unit@[0], count as nat),
{
    let mut i: u64 = 0;
    while i < count
        invariant
            i <= count,
            unit@.len() == 1,
            out@ == old(out)@ + char_run(unit@[0], i as nat),
        decreases count - i,
    {
        out.append(unit);
        i = i + 1;
        proof {
            assert(char_run(unit@[0], i as nat) =~= char_run(unit@[0], (i - 1) as nat) + unit@);
            assert(out@ =~= old(out)@ + char_run(unit@[0], i as nat));
        }
    }
    proof {
        assert(out@ =~= old(out)@ + char_run(unit@[0], count as nat));
    }
}

} // verus!
