//! Verified text rendering: decimal and fixed-width hexadecimal numbers
//! as strings, for the cache's human-readable listing.

use vstd::prelude::*;
use vstd::string::StringExecFns;

verus! {

/// The character of one decimal or hexadecimal digit value.
pub open spec fn digit_char(d: int) -> char {
    if d == 0 {
        '0'
    } else if d == 1 {
        '1'
    } else if d == 2 {
        '2'
    } else if d == 3 {
        '3'
    } else if d == 4 {
        '4'
    } else if d == 5 {
        '5'
    } else if d == 6 {
        '6'
    } else if d == 7 {
        '7'
    } else if d == 8 {
        '8'
    } else if d == 9 {
        '9'
    } else if d == 10 {
        'a'
    } else if d == 11 {
        'b'
    } else if d == 12 {
        'c'
    } else if d == 13 {
        'd'
    } else if d == 14 {
        'e'
    } else {
        'f'
    }
}

/// The decimal rendering of a non-negative number.
pub open spec fn spec_dec_chars(n: int) -> Seq<char>
    decreases n when n >= 0
{
    if n < 10 {
        seq![digit_char(n)]
    } else {
        spec_dec_chars(n / 10).push(digit_char(n % 10))
    }
}

/// The 16-digit hexadecimal rendering of a 64-bit value.
pub open spec fn spec_hex16_chars(n: u64) -> Seq<char> {
    Seq::new(16, |i: int| digit_char(((n >> ((15 - i) * 4)) & 0xf) as int))
}

/// The digit characters of a digit list, read back to front.
pub open spec fn rev_digit_chars(ds: Seq<u8>) -> Seq<char> {
    Seq::new(ds.len(), |i: int| digit_char(ds[ds.len() - 1 - i] as int))
}

/// Append one digit character.
fn push_digit(s: &mut String, d: u8)
    requires
        d < 16,
    ensures
        final(s)@ == old(s)@ + seq![digit_char(d as int)],
{
    proof {
        reveal_strlit("0");
        reveal_strlit("1");
        reveal_strlit("2");
        reveal_strlit("3");
        reveal_strlit("4");
        reveal_strlit("5");
        reveal_strlit("6");
        reveal_strlit("7");
        reveal_strlit("8");
        reveal_strlit("9");
        reveal_strlit("a");
        reveal_strlit("b");
        reveal_strlit("c");
        reveal_strlit("d");
        reveal_strlit("e");
        reveal_strlit("f");
    }
    if d == 0 {
        s.append("0");
    } else if d == 1 {
        s.append("1");
    } else if d == 2 {
        s.append("2");
    } else if d == 3 {
        s.append("3");
    } else if d == 4 {
        s.append("4");
    } else if d == 5 {
        s.append("5");
    } else if d == 6 {
        s.append("6");
    } else if d == 7 {
        s.append("7");
    } else if d == 8 {
        s.append("8");
    } else if d == 9 {
        s.append("9");
    } else if d == 10 {
        s.append("a");
    } else if d == 11 {
        s.append("b");
    } else if d == 12 {
        s.append("c");
    } else if d == 13 {
        s.append("d");
    } else if d == 14 {
        s.append("e");
    } else {
        s.append("f");
    }
}

/// Render a number in decimal.
pub fn dec_string(n: usize) -> (r: String)
    ensures
        r@ == spec_dec_chars(n as int),
{
    let mut digits: Vec<u8> = Vec::new();
    let mut m: usize = n;
    loop
        invariant_except_break
            m >= 0,
            spec_dec_chars(n as int) == (if digits@.len() == 0 {
                spec_dec_chars(m as int)
            } else {
                spec_dec_chars(m as int) + rev_digit_chars(digits@)
            }),
            forall|t: int| 0 <= t < digits@.len() ==> (#[trigger] digits@[t]) < 10,
        ensures
            spec_dec_chars(n as int) == rev_digit_chars(digits@),
            forall|t: int| 0 <= t < digits@.len() ==> (#[trigger] digits@[t]) < 10,
            digits@.len() >= 1,
        decreases m,
    {
        let ghost old_digits = digits@;
        let ghost old_m = m as int;
        digits.push((m % 10) as u8);
        m = m / 10;
        proof {
            assert(rev_digit_chars(digits@) =~= seq![digit_char(old_m % 10)] + rev_digit_chars(
                old_digits,
            ));
            if old_m < 10 {
                assert(spec_dec_chars(old_m) =~= seq![digit_char(old_m % 10)]);
                if old_digits.len() == 0 {
                    assert(spec_dec_chars(n as int) =~= rev_digit_chars(digits@));
                } else {
                    assert(spec_dec_chars(n as int) =~= spec_dec_chars(old_m) + rev_digit_chars(
                        old_digits,
                    ));
                    assert(spec_dec_chars(n as int) =~= rev_digit_chars(digits@));
                }
            } else {
                assert(spec_dec_chars(old_m) == spec_dec_chars(old_m / 10).push(
                    digit_char(old_m % 10),
                ));
                if old_digits.len() == 0 {
                    assert(spec_dec_chars(n as int) =~= spec_dec_chars(m as int)
                        + rev_digit_chars(digits@));
                } else {
                    assert(spec_dec_chars(old_m) + rev_digit_chars(old_digits)
                        =~= spec_dec_chars(m as int) + rev_digit_chars(digits@));
                }
            }
        }
        if m == 0 {
            break;
        }
    }
    let mut s = String::new();
    let mut i: usize = digits.len();
    while i > 0
        invariant
            0 <= i <= digits@.len(),
            forall|t: int| 0 <= t < digits@.len() ==> (#[trigger] digits@[t]) < 10,
            s@ == rev_digit_chars(digits@).take(digits@.len() - i),
        decreases i,
    {
        let ghost before = s@;
        push_digit(&mut s, digits[i - 1]);
        proof {
            assert(rev_digit_chars(digits@)[digits@.len() - i] == digit_char(
                digits@[i - 1] as int,
            ));
            assert(s@ =~= rev_digit_chars(digits@).take(digits@.len() - i + 1));
        }
        i = i - 1;
    }
    proof {
        assert(rev_digit_chars(digits@).take(digits@.len() as int) =~= rev_digit_chars(digits@));
    }
    s
}

/// Render a 64-bit value as 16 hexadecimal digits.
pub fn hex16_string(n: u64) -> (r: String)
    ensures
        r@ == spec_hex16_chars(n),
{
    let mut s = String::new();
    let mut i: usize = 0;
    while i < 16
        invariant
            0 <= i <= 16,
            s@ == spec_hex16_chars(n).take(i as int),
        decreases 16 - i,
    {
        let shift: u64 = ((15 - i) * 4) as u64;
        let d = ((n >> shift) & 0xf) as u8;
        proof {
            assert((n >> shift) & 0xf < 16) by (bit_vector);
        }
        let ghost before = s@;
        push_digit(&mut s, d);
        proof {
            assert(spec_hex16_chars(n)[i as int] == digit_char(d as int));
            assert(s@ =~= spec_hex16_chars(n).take(i + 1));
        }
        i = i + 1;
    }
    proof {
        assert(spec_hex16_chars(n).take(16) =~= spec_hex16_chars(n));
    }
    s
}

} // verus!
