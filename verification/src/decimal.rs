//! Numbers in decimal ASCII digits: what the digits of a number are, what
//! number a run of digits stands for, and the functions that write the one
//! and read the other.

use vstd::prelude::*;
use vstd::string::StringExecFns;

verus! {

/// `true` for the ASCII decimal digits `0` to `9`.
pub open spec fn is_digit(byte: u8) -> bool {
    48 <= byte <= 57
}

/// `true` where every byte is a decimal digit.
pub open spec fn all_digits(bytes: Seq<u8>) -> bool {
    forall|i: int| 0 <= i < bytes.len() ==> is_digit(#[trigger] bytes[i])
}

/// The ASCII digit that stands for `d`, for `d` below ten.
pub open spec fn digit_byte(d: nat) -> u8 {
    (48 + d) as u8
}

/// `n` in decimal ASCII digits, most significant first, with no leading zero
/// (zero itself is the single digit `0`).
pub open spec fn decimal(n: nat) -> Seq<u8>
    decreases n,
{
    if n < 10 {
        seq![digit_byte(n)]
    } else {
        decimal(n / 10).push(digit_byte(n % 10))
    }
}

/// `n` in decimal digits, as text.
pub open spec fn decimal_text(n: nat) -> Seq<char> {
    decimal(n).map_values(|d: u8| d as char)
}

/// The number that a run of decimal digits stands for; zero for no digits.
pub open spec fn decimal_value(digits: Seq<u8>) -> nat
    decreases digits.len(),
{
    if digits.len() == 0 {
        0
    } else {
        decimal_value(digits.drop_last()) * 10 + (digits.last() - 48) as nat
    }
}

/// The decimal form of a number below ten is its digit; that of any other
/// number is the form of its tenth and then its last digit.
pub proof fn lemma_decimal_digits(n: nat)
    ensures
        n < 10 ==> decimal(n) == seq![digit_byte(n)],
        n >= 10 ==> decimal(n) == decimal(n / 10).push(digit_byte(n % 10)),
{
}

/// The decimal form of a number has at least one byte, has digits only, and
/// stands for that number.
pub proof fn lemma_decimal(n: nat)
    ensures
        decimal(n).len() >= 1,
        all_digits(decimal(n)),
        decimal_value(decimal(n)) == n,
    decreases n,
{
    if n < 10 {
        let d = seq![digit_byte(n)];
        assert(decimal(n) == d);
        assert(d.drop_last() =~= Seq::<u8>::empty());
        assert(decimal_value(d.drop_last()) == 0);
        assert(decimal_value(d) == decimal_value(d.drop_last()) * 10 + (d.last() - 48) as nat);
    } else {
        lemma_decimal(n / 10);
        let d = decimal(n / 10).push(digit_byte(n % 10));
        assert(decimal(n) == d);
        assert(d.drop_last() =~= decimal(n / 10));
        assert(decimal_value(d) == decimal_value(d.drop_last()) * 10 + (d.last() - 48) as nat);
        assert forall|i: int| 0 <= i < d.len() implies is_digit(#[trigger] d[i]) by {
            if i < d.len() - 1 {
                assert(d[i] == decimal(n / 10)[i]);
            }
        }
    }
}

/// The number that the first digits of a run stand for is no larger than the
/// number that all of them stand for.
pub proof fn lemma_decimal_value_grows(digits: Seq<u8>, n: int)
    requires
        0 <= n <= digits.len(),
        all_digits(digits),
    ensures
        decimal_value(digits.take(n)) <= decimal_value(digits),
    decreases digits.len() - n,
{
    if n == digits.len() {
        assert(digits.take(n) =~= digits);
    } else {
        lemma_decimal_value_grows(digits, n + 1);
        assert(digits.take(n + 1).drop_last() =~= digits.take(n));
        assert(is_digit(digits[n]));
        assert(digits.take(n + 1).last() == digits[n]);
        assert(decimal_value(digits.take(n + 1)) == decimal_value(digits.take(n)) * 10 + (
        digits[n] - 48) as nat);
    }
}

/// Appends the decimal digits of `n` to `out`.
pub fn push_decimal(n: usize, out: &mut Vec<u8>)
    ensures
        final(out)@ == old(out)@ + decimal(n as nat),
    decreases n,
{
    if n >= 10 {
        push_decimal(n / 10, out);
    }
    let d: u8 = (n % 10) as u8;
    out.push(48 + d);
    proof {
        lemma_decimal_digits(n as nat);
        assert(final(out)@ =~= old(out)@ + decimal(n as nat));
    }
}

/// The decimal digits of `n`.
pub fn decimal_bytes(n: usize) -> (digits: Vec<u8>)
    ensures
        digits@ == decimal(n as nat),
{
    let mut digits: Vec<u8> = Vec::new();
    push_decimal(n, &mut digits);
    assert(digits@ =~= decimal(n as nat));
    digits
}

/// How many decimal digits `n` has.
pub fn decimal_len(n: usize) -> (len: usize)
    ensures
        len == decimal(n as nat).len(),
{
    let mut len: usize = 1;
    let mut rest: usize = n;
    while rest >= 10
        invariant
            1 <= len,
            len + rest <= n + 1,
            decimal(n as nat).len() == decimal(rest as nat).len() + len - 1,
        decreases rest,
    {
        proof {
            lemma_decimal_digits(rest as nat);
        }
        rest = rest / 10;
        len = len + 1;
    }
    proof {
        lemma_decimal_digits(rest as nat);
    }
    len
}

/// The text of one decimal digit.
fn digit_str(d: u8) -> (text: &'static str)
    requires
        d < 10,
    ensures
        text@ == seq![digit_byte(d as nat) as char],
{
    proof {
        reveal_strlit("0");
        reveal_strlit("1");
        reveal_strlit("2");
        reveal_strlit("3");
        reveal_strlit("4");
        reveal_strlit("5");
        reveal_strlit("6");
        reveal_strlit("7");
        reveal_strlit("8");
        reveal_strlit("9");
    }
    let text = if d == 0 {
        "0"
    } else if d == 1 {
        "1"
    } else if d == 2 {
        "2"
    } else if d == 3 {
        "3"
    } else if d == 4 {
        "4"
    } else if d == 5 {
        "5"
    } else if d == 6 {
        "6"
    } else if d == 7 {
        "7"
    } else if d == 8 {
        "8"
    } else {
        "9"
    };
    assert(text@ =~= seq![digit_byte(d as nat) as char]);
    text
}

/// Appends the decimal digits of `n` to `out`.
pub fn push_decimal_text(n: usize, out: &mut String)
    ensures
        final(out)@ == old(out)@ + decimal_text(n as nat),
    decreases n,
{
    if n >= 10 {
        push_decimal_text(n / 10, out);
    }
    let d: u8 = (n % 10) as u8;
    out.append(digit_str(d));
    proof {
        lemma_decimal_digits(n as nat);
        assert(final(out)@ =~= old(out)@ + decimal_text(n as nat));
    }
}

/// `n` in decimal digits, as text.
pub fn decimal_string(n: usize) -> (text: String)
    ensures
        text@ == decimal_text(n as nat),
{
    let mut text = String::new();
    push_decimal_text(n, &mut text);
    assert(text@ =~= decimal_text(n as nat));
    text
}

/// The number that the decimal digits `digits` stand for.
///
/// There is none where `digits` is empty, holds a byte that is no digit, or
/// stands for a number above `usize::MAX`.
pub fn parse_decimal(digits: &[u8]) -> (value: Option<usize>)
    ensures
        value is Some <==> digits@.len() > 0 && all_digits(digits@) && decimal_value(digits@)
            <= usize::MAX,
        value matches Some(n) ==> n == decimal_value(digits@),
{
    if digits.len() == 0 {
        return None;
    }
    let mut value: usize = 0;
    let mut i: usize = 0;
    while i < digits.len()
        invariant
            i <= digits.len(),
            all_digits(digits@.take(i as int)),
            value == decimal_value(digits@.take(i as int)),
        decreases digits.len() - i,
    {
        let byte: u8 = digits[i];
        proof {
            assert(digits@.take(i + 1).drop_last() =~= digits@.take(i as int));
            assert(digits@.take(i + 1).last() == byte);
            if all_digits(digits@) {
                lemma_decimal_value_grows(digits@, i + 1);
            }
        }
        if byte < 48 || byte > 57 {
            assert(!is_digit(digits@[i as int]));
            return None;
        }
        let shifted: usize = match value.checked_mul(10) {
            Some(s) => s,
            None => {
                return None;
            },
        };
        value =
        match shifted.checked_add((byte - 48) as usize) {
            Some(v) => v,
            None => {
                return None;
            },
        };
        i += 1;
        assert forall|k: int| 0 <= k < i implies is_digit(#[trigger] digits@.take(i as int)[k]) by {
            if k < i - 1 {
                assert(digits@.take(i - 1)[k] == digits@[k]);
            }
        }
    }
    assert(digits@.take(i as int) =~= digits@);
    Some(value)
}

} // verus!
