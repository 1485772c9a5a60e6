//! Escape notation for codepoint boundaries.
//!
//! Every boundary of an emitted range is written in the universal `\u{..}`
//! notation: lowercase hexadecimal digits with no leading zeros. The text is
//! a function of the codepoint alone, so regenerating a table from the same
//! input reproduces it byte for byte.

use vstd::prelude::*;
use vstd::string::StringExecFns;

verus! {

/// The lowercase hexadecimal digit character for `d` (meaningful for `0 <= d < 16`).
pub open spec fn hex_digit(d: int) -> char {
    if d == 0 {
        '0'
    } else if d == 1 {
        '1'
    } else if d == 2 {
        '2'
    } else if d == 3 {
        '3'
    } else if d == 4 {
        '4'
    } else if d == 5 {
        '5'
    } else if d == 6 {
        '6'
    } else if d == 7 {
        '7'
    } else if d == 8 {
        '8'
    } else if d == 9 {
        '9'
    } else if d == 10 {
        'a'
    } else if d == 11 {
        'b'
    } else if d == 12 {
        'c'
    } else if d == 13 {
        'd'
    } else if d == 14 {
        'e'
    } else {
        'f'
    }
}

/// The lowercase hexadecimal digits of `n`, most significant first, with no
/// leading zeros (a lone `0` digit for `n == 0`).
pub open spec fn hex_digits(n: nat) -> Seq<char>
    decreases n,
{
    if n < 16 {
        seq![hex_digit(n as int)]
    } else {
        hex_digits(n / 16).push(hex_digit((n % 16) as int))
    }
}

/// The `\u{..}` escape text for codepoint `c`.
pub open spec fn escape_unicode_seq(c: char) -> Seq<char> {
    "\\u{"@ + hex_digits(c as nat) + "}"@
}

/// The digit characters of `s` read back to front (`s` holds digit values,
/// least significant first).
pub open spec fn rev_digit_chars(s: Seq<u32>) -> Seq<char> {
    Seq::new(s.len(), |i: int| hex_digit(s[s.len() - 1 - i] as int))
}

/// One lowercase hexadecimal digit as text.
fn hex_digit_str(d: u32) -> (r: &'static str)
    requires
        d < 16,
    ensures
        r@ == seq![hex_digit(d as int)],
{
    if d == 0 {
        proof {
            reveal_strlit("0");
            assert(("0")@ =~= seq![hex_digit(d as int)]);
        }
        "0"
    } else if d == 1 {
        proof {
            reveal_strlit("1");
            assert(("1")@ =~= seq![hex_digit(d as int)]);
        }
        "1"
    } else if d == 2 {
        proof {
            reveal_strlit("2");
            assert(("2")@ =~= seq![hex_digit(d as int)]);
        }
        "2"
    } else if d == 3 {
        proof {
            reveal_strlit("3");
            assert(("3")@ =~= seq![hex_digit(d as int)]);
        }
        "3"
    } else if d == 4 {
        proof {
            reveal_strlit("4");
            assert(("4")@ =~= seq![hex_digit(d as int)]);
        }
        "4"
    } else if d == 5 {
        proof {
            reveal_strlit("5");
            assert(("5")@ =~= seq![hex_digit(d as int)]);
        }
        "5"
    } else if d == 6 {
        proof {
            reveal_strlit("6");
            assert(("6")@ =~= seq![hex_digit(d as int)]);
        }
        "6"
    } else if d == 7 {
        proof {
            reveal_strlit("7");
            assert(("7")@ =~= seq![hex_digit(d as int)]);
        }
        "7"
    } else if d == 8 {
        proof {
            reveal_strlit("8");
            assert(("8")@ =~= seq![hex_digit(d as int)]);
        }
        "8"
    } else if d == 9 {
        proof {
            reveal_strlit("9");
            assert(("9")@ =~= seq![hex_digit(d as int)]);
        }
        "9"
    } else if d == 10 {
        proof {
            reveal_strlit("a");
            assert(("a")@ =~= seq![hex_digit(d as int)]);
        }
        "a"
    } else if d == 11 {
        proof {
            reveal_strlit("b");
            assert(("b")@ =~= seq![hex_digit(d as int)]);
        }
        "b"
    } else if d == 12 {
        proof {
            reveal_strlit("c");
            assert(("c")@ =~= seq![hex_digit(d as int)]);
        }
        "c"
    } else if d == 13 {
        proof {
            reveal_strlit("d");
            assert(("d")@ =~= seq![hex_digit(d as int)]);
        }
        "d"
    } else if d == 14 {
        proof {
            reveal_strlit("e");
            assert(("e")@ =~= seq![hex_digit(d as int)]);
        }
        "e"
    } else {
        proof {
            reveal_strlit("f");
            assert(("f")@ =~= seq![hex_digit(d as int)]);
        }
        "f"
    }
}

/// Renders `c` in `\u{..}` notation: lowercase hexadecimal digits with no
/// leading zeros, reproducible byte for byte for a given codepoint.
pub fn escape_unicode(c: char) -> (r: String)
    ensures
        r@ == escape_unicode_seq(c),
{
    let mut digits: Vec<u32> = Vec::new();
    let mut n: u32 = c as u32;
    proof {
        assert(rev_digit_chars(digits@) =~= Seq::<char>::empty());
        assert(hex_digits(c as nat) =~= hex_digits(n as nat) + rev_digit_chars(digits@));
    }
    while n >= 16
        invariant
            hex_digits(c as nat) == hex_digits(n as nat) + rev_digit_chars(digits@),
            forall|k: int| 0 <= k < digits@.len() ==> digits@[k] < 16,
        decreases n,
    {
        let d = n % 16;
        digits.push(d);
        proof {
            let prev = digits@.drop_last();
            assert(rev_digit_chars(digits@) =~= seq![hex_digit(d as int)] + rev_digit_chars(prev));
            assert(hex_digits((n / 16) as nat).push(hex_digit(d as int)) =~= hex_digits(
                (n / 16) as nat,
            ) + seq![hex_digit(d as int)]);
            assert(hex_digits(n as nat) + rev_digit_chars(prev) =~= hex_digits((n / 16) as nat)
                + rev_digit_chars(digits@));
        }
        n = n / 16;
    }
    digits.push(n);
    proof {
        let prev = digits@.drop_last();
        assert(rev_digit_chars(digits@) =~= seq![hex_digit(n as int)] + rev_digit_chars(prev));
        assert(hex_digits(n as nat) == seq![hex_digit(n as int)]);
        assert(hex_digits(c as nat) =~= rev_digit_chars(digits@));
    }
    let mut out = String::new();
    out.append("\\u{");
    let ghost hd = rev_digit_chars(digits@);
    let mut i: usize = digits.len();
    proof {
        assert(out@ =~= "\\u{"@ + hd.take(digits@.len() - i));
    }
    while i > 0
        invariant
            i <= digits@.len(),
            forall|k: int| 0 <= k < digits@.len() ==> digits@[k] < 16,
            hd == rev_digit_chars(digits@),
            out@ == "\\u{"@ + hd.take(digits@.len() - i),
        decreases i,
    {
        i = i - 1;
        let ds = hex_digit_str(digits[i]);
        out.append(ds);
        proof {
            assert(hd.take(digits@.len() - i) =~= hd.take(digits@.len() - i - 1).push(
                hex_digit(digits@[i as int] as int),
            ));
            assert(("\\u{"@ + hd.take(digits@.len() - i - 1)) + ds@ =~= "\\u{"@ + hd.take(
                digits@.len() - i,
            ));
        }
    }
    proof {
        assert(hd.take(digits@.len() - 0) =~= hd);
    }
    out.append("}");
    out
}

} // verus!
