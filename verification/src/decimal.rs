//! Decimal numerals: the number a run of digits stands for, and the digits of a number.

use vstd::prelude::*;
use vstd::utf8::encode_utf8;

use crate::ascii::{NINE, ZERO};
use crate::bytes::push_byte;

verus! {

/// An ASCII digit.
pub open spec fn is_digit(x: u8) -> bool {
    ZERO <= x <= NINE
}

/// Every byte of `b` is a digit.
pub open spec fn all_digits(b: Seq<u8>) -> bool {
    forall|i: int| 0 <= i < b.len() ==> is_digit(#[trigger] b[i])
}

/// How many digits `b` starts with.
pub open spec fn digit_run(b: Seq<u8>) -> int
    decreases b.len(),
{
    if b.len() == 0 || !is_digit(b[0]) {
        0
    } else {
        1 + digit_run(b.drop_first())
    }
}

/// The number that a run of digits stands for.
pub open spec fn digits_value(b: Seq<u8>) -> nat
    decreases b.len(),
{
    if b.len() == 0 {
        0
    } else {
        10 * digits_value(b.drop_last()) + (b.last() - ZERO) as nat
    }
}

/// The digits of a number, without leading zeros.
pub open spec fn decimal(n: nat) -> Seq<u8>
    decreases n,
{
    if n < 10 {
        seq![(ZERO + n) as u8]
    } else {
        decimal(n / 10).push((ZERO + n % 10) as u8)
    }
}

/// A leading run of digits is made of digits and ends where they end.
pub proof fn lemma_digit_run(b: Seq<u8>)
    ensures
        0 <= digit_run(b) <= b.len(),
        all_digits(b.subrange(0, digit_run(b))),
        forall|i: int| 0 <= i < digit_run(b) ==> is_digit(#[trigger] b[i]),
        digit_run(b) < b.len() ==> !is_digit(b[digit_run(b)]),
    decreases b.len(),
{
    if b.len() > 0 && is_digit(b[0]) {
        let rest = b.drop_first();
        lemma_digit_run(rest);
        assert forall|i: int| 0 <= i < digit_run(b) implies is_digit(#[trigger] b[i]) by {
            if i > 0 {
                assert(rest[i - 1] == b[i]);
            }
        }
        if digit_run(b) < b.len() {
            assert(rest[digit_run(rest)] == b[digit_run(b)]);
        }
    }
}

/// A text that starts with `d` digits and then holds another byte has a leading run of `d`.
pub proof fn lemma_digit_run_is(b: Seq<u8>, d: int)
    requires
        0 <= d <= b.len(),
        forall|i: int| 0 <= i < d ==> is_digit(#[trigger] b[i]),
        d < b.len() ==> !is_digit(b[d]),
    ensures
        digit_run(b) == d,
{
    lemma_digit_run(b);
    let r = digit_run(b);
    if r < d {
        assert(is_digit(b[r]));
    } else if r > d {
        assert(is_digit(b[d]));
    }
}

/// Reading the digits of a number gives the number back.
pub proof fn law_decimal_reads_back(n: nat)
    ensures
        all_digits(decimal(n)),
        decimal(n).len() >= 1,
        digits_value(decimal(n)) == n,
    decreases n,
{
    if n >= 10 {
        law_decimal_reads_back(n / 10);
        assert(decimal(n).drop_last() =~= decimal(n / 10));
    } else {
        assert(decimal(n).drop_last() =~= Seq::<u8>::empty());
        reveal_with_fuel(digits_value, 2);
    }
}

/// A number below ten to the power of nine has at most nine digits.
pub proof fn lemma_decimal_len(n: nat)
    ensures
        n < 10 ==> decimal(n).len() == 1,
        n < 1_000_000_000 ==> decimal(n).len() <= 9,
{
    reveal_with_fuel(decimal, 10);
}

/// The value of at most nine digits stays below ten to the power of nine.
pub proof fn lemma_nine_digits(b: Seq<u8>)
    requires
        all_digits(b),
    ensures
        b.len() <= 9 ==> digits_value(b) < 1_000_000_000,
{
    lemma_digits_bound(b);
    if b.len() <= 9 {
        lemma_pow10_monotonic(b.len(), 9);
        assert(pow10(9) == 1_000_000_000) by {
            reveal_with_fuel(pow10, 10);
        }
    }
}

/// Ten to the power of `k`.
pub open spec fn pow10(k: nat) -> nat
    decreases k,
{
    if k == 0 {
        1
    } else {
        10 * pow10((k - 1) as nat)
    }
}

proof fn lemma_pow10_monotonic(i: nat, j: nat)
    requires
        i <= j,
    ensures
        pow10(i) <= pow10(j),
        pow10(i) > 0,
    decreases j,
{
    if j > 0 {
        if i < j {
            lemma_pow10_monotonic(i, (j - 1) as nat);
        } else {
            lemma_pow10_monotonic((i - 1) as nat, (j - 1) as nat);
        }
    }
}

/// `k` digits stand for a number below ten to the power of `k`.
pub proof fn lemma_digits_bound(b: Seq<u8>)
    requires
        all_digits(b),
    ensures
        digits_value(b) < pow10(b.len()),
    decreases b.len(),
{
    if b.len() > 0 {
        assert(is_digit(b[b.len() - 1]));
        assert forall|i: int| 0 <= i < b.drop_last().len() implies is_digit(
            #[trigger] b.drop_last()[i],
        ) by {
            assert(is_digit(b[i]));
        }
        lemma_digits_bound(b.drop_last());
    }
}

/// Appends the decimal digits of `n` to a string.
pub fn push_decimal(s: &mut String, n: u128)
    ensures
        encode_utf8(final(s)@) == encode_utf8(old(s)@) + decimal(n as nat),
    decreases n,
{
    let ghost before = encode_utf8(s@);
    if n >= 10 {
        push_decimal(s, n / 10);
    }
    let x: u8 = ZERO + (n % 10) as u8;
    push_byte(s, x);
    proof {
        assert(encode_utf8(s@) =~= before + decimal(n as nat));
    }
}

} // verus!
