//! Decimal rendering of integers, as `Display` writes them.
use vstd::prelude::*;
use vstd::string::StringExecFns;

verus! {

/// The character of the decimal digit `d` (`0 <= d < 10`).
pub open spec fn digit_char(d: int) -> char {
    (48 + d) as char
}

/// The decimal digits of `n >= 0`, most significant first, without
/// leading zeros (`0` is written `0`).
pub open spec fn digits(n: nat) -> Seq<char>
    decreases n,
{
    if n < 10 {
        seq![digit_char(n as int)]
    } else {
        digits(n / 10).push(digit_char((n % 10) as int))
    }
}

/// `v` in decimal, with a leading `-` when negative.
pub open spec fn decimal(v: int) -> Seq<char> {
    if v < 0 {
        seq!['-'] + digits((-v) as nat)
    } else {
        digits(v as nat)
    }
}

/// The text of one term of a polynomial: `{coef}x^{power} `.
pub open spec fn term_text(coef: int, power: int) -> Seq<char> {
    decimal(coef) + seq!['x', '^'] + decimal(power) + seq![' ']
}

/// The text of the digit `d` (`0 <= d < 10`).
fn digit_str(d: u64) -> (s: &'static str)
    requires
        d < 10,
    ensures
        s@ == seq![digit_char(d as int)],
{
    proof {
        reveal_strlit("0");
        reveal_strlit("1");
        reveal_strlit("2");
        reveal_strlit("3");
        reveal_strlit("4");
        reveal_strlit("5");
        reveal_strlit("6");
        reveal_strlit("7");
        reveal_strlit("8");
        reveal_strlit("9");
    }
    if d == 0 {
        "0"
    } else if d == 1 {
        "1"
    } else if d == 2 {
        "2"
    } else if d == 3 {
        "3"
    } else if d == 4 {
        "4"
    } else if d == 5 {
        "5"
    } else if d == 6 {
        "6"
    } else if d == 7 {
        "7"
    } else if d == 8 {
        "8"
    } else {
        "9"
    }
}

/// Appends the decimal digits of `n` to `s`.
pub fn append_digits(s: &mut String, n: u64)
    ensures
        final(s)@ == old(s)@ + digits(n as nat),
    decreases n,
{
    if n >= 10 {
        append_digits(s, n / 10);
    }
    let ghost before = s@;
    s.append(digit_str(n % 10));
    proof {
        if n >= 10 {
            assert(s@ =~= old(s)@ + digits(n as nat));
        } else {
            assert(s@ =~= old(s)@ + digits(n as nat));
        }
    }
}

/// Appends `v` in decimal to `s`, with a leading `-` when it is negative.
pub fn append_decimal(s: &mut String, v: i64)
    ensures
        final(s)@ == old(s)@ + decimal(v as int),
{
    if v < 0 {
        s.append("-");
        proof {
            reveal_strlit("-");
        }
        let w: i64 = v + 1;
        let below: i64 = 0 - w;
        let magnitude: u64 = below as u64 + 1;
        append_digits(s, magnitude);
        assert(s@ =~= old(s)@ + decimal(v as int));
    } else {
        append_digits(s, v as u64);
    }
}

/// The character of a decimal digit is the ASCII digit of that value.
pub proof fn lemma_digit_char(d: int)
    requires
        0 <= d < 10,
    ensures
        digit_char(d) as int == '0' as int + d,
        '0' <= digit_char(d) <= '9',
{
}

/// The digits of `n` are one or more ASCII digits, and the first is `0`
/// only when `n` is zero: no leading zeros.
pub proof fn lemma_digits_are_digits(n: nat)
    ensures
        digits(n).len() > 0,
        forall|i: int| 0 <= i < digits(n).len() ==> '0' <= #[trigger] digits(n)[i] <= '9',
        digits(n)[0] == '0' <==> n == 0,
    decreases n,
{
    if n < 10 {
        lemma_digit_char(n as int);
    } else {
        lemma_digits_are_digits(n / 10);
        lemma_digit_char((n % 10) as int);
        let prev = digits(n / 10);
        assert forall|i: int| 0 <= i < digits(n).len() implies '0' <= #[trigger] digits(n)[i] <= '9' by {
            if i < prev.len() {
                assert(digits(n)[i] == prev[i]);
            }
        }
        assert(digits(n)[0] == prev[0]);
    }
}

/// A negative number is written as a minus sign followed by the text of
/// its magnitude, and a number that is not negative carries no sign.
pub proof fn lemma_decimal_sign(v: int)
    ensures
        v > 0 ==> decimal(-v) == seq!['-'] + decimal(v),
        v >= 0 ==> '0' <= decimal(v)[0] <= '9',
        decimal(v)[0] == '-' <==> v < 0,
{
    if v >= 0 {
        lemma_digits_are_digits(v as nat);
    } else {
        assert((seq!['-'] + digits((-v) as nat))[0] == '-');
    }
}

} // verus!
