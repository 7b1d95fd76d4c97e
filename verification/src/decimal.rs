//! ASCII decimal numerals: the minimal rendering of a number and the value
//! of a run of digits.

use vstd::prelude::*;

verus! {

/// `b` is one of the ASCII digits `0` to `9`.
pub open spec fn is_digit(b: u8) -> bool {
    48 <= b <= 57
}

/// The ASCII digit that stands for `d`, for `d` below 10.
pub open spec fn digit_byte(d: int) -> u8 {
    (48 + d) as u8
}

/// The minimal decimal numeral of `n`: no leading zero, but for `0` itself.
pub open spec fn decimal(n: nat) -> Seq<u8>
    decreases n,
{
    if n < 10 {
        seq![digit_byte(n as int)]
    } else {
        decimal(n / 10).push(digit_byte((n % 10) as int))
    }
}

/// The number that a run of ASCII digits stands for.
pub open spec fn decimal_value(digits: Seq<u8>) -> nat
    decreases digits.len(),
{
    if digits.len() == 0 {
        0
    } else {
        decimal_value(digits.drop_last()) * 10 + (digits.last() - 48) as nat
    }
}

/// The decimal numeral of a signed integer: a minus sign before the numeral
/// of the magnitude where the integer is negative.
pub open spec fn integer_text(n: int) -> Seq<u8> {
    if n < 0 {
        seq![45u8] + decimal((-n) as nat)
    } else {
        decimal(n as nat)
    }
}

/// The first index from `from` on that holds no digit, or the length where
/// the digits run to the end.
pub open spec fn digits_end(s: Seq<u8>, from: int) -> int
    decreases s.len() - from,
{
    if 0 <= from < s.len() && is_digit(s[from]) {
        digits_end(s, from + 1)
    } else {
        from
    }
}

/// Where `digits_end` stops: digits before, no digit there.
pub proof fn lemma_digits_end(s: Seq<u8>, from: int)
    requires
        0 <= from <= s.len(),
    ensures
        from <= digits_end(s, from) <= s.len(),
        forall|j: int| from <= j < digits_end(s, from) ==> is_digit(#[trigger] s[j]),
        digits_end(s, from) < s.len() ==> !is_digit(s[digits_end(s, from)]),
    decreases s.len() - from,
{
    if from < s.len() && is_digit(s[from]) {
        lemma_digits_end(s, from + 1);
    }
}

/// An index that ends a run of digits is the one that `digits_end` finds.
pub proof fn lemma_digits_end_is(s: Seq<u8>, from: int, end: int)
    requires
        0 <= from <= end <= s.len(),
        forall|j: int| from <= j < end ==> is_digit(#[trigger] s[j]),
        end < s.len() ==> !is_digit(s[end]),
    ensures
        digits_end(s, from) == end,
    decreases end - from,
{
    if from < end {
        assert(is_digit(s[from]));
        lemma_digits_end_is(s, from + 1, end);
    }
}

/// A minimal numeral is a non-empty run of digits that starts with `0` only
/// for the number 0, and its value is the number.
pub proof fn lemma_decimal(n: nat)
    ensures
        decimal(n).len() >= 1,
        forall|j: int| 0 <= j < decimal(n).len() ==> is_digit(#[trigger] decimal(n)[j]),
        decimal(n)[0] == 48 <==> n == 0,
        n == 0 ==> decimal(n).len() == 1,
        decimal_value(decimal(n)) == n,
    decreases n,
{
    if n < 10 {
        assert(decimal(n).drop_last() =~= Seq::<u8>::empty());
        assert(decimal_value(decimal(n).drop_last()) == 0);
    } else {
        lemma_decimal(n / 10);
        let shorter = decimal(n / 10);
        assert(decimal(n).drop_last() =~= shorter);
        assert(decimal(n)[0] == shorter[0]);
    }
}

/// The value of a run of digits grows with every digit that is appended.
pub proof fn lemma_value_push(digits: Seq<u8>, d: u8)
    ensures
        decimal_value(digits.push(d)) == decimal_value(digits) * 10 + (d - 48) as nat,
{
    assert(digits.push(d).drop_last() =~= digits);
}

/// Appends the minimal decimal numeral of `n` to `out`.
pub fn push_decimal(out: &mut Vec<u8>, n: u64)
    ensures
        final(out)@ == old(out)@ + decimal(n as nat),
{
    let mut reversed: Vec<u8> = Vec::new();
    let mut rest: u64 = n;
    let ghost mut tail: Seq<u8> = Seq::empty();
    while rest >= 10
        invariant
            decimal(n as nat) == decimal(rest as nat) + tail,
            reversed@.len() == tail.len(),
            forall|j: int|
                0 <= j < tail.len() ==> #[trigger] reversed@[j] == tail[tail.len() - 1 - j],
        decreases rest,
    {
        let d: u8 = (48 + rest % 10) as u8;
        proof {
            assert(decimal(rest as nat) == decimal((rest / 10) as nat).push(d));
            assert(decimal((rest / 10) as nat).push(d) + tail =~= decimal((rest / 10) as nat) + (
            seq![d] + tail));
            tail = seq![d] + tail;
        }
        reversed.push(d);
        rest = rest / 10;
    }
    let first: u8 = (48 + rest) as u8;
    assert(decimal(rest as nat) =~= seq![first]);
    out.push(first);
    let ghost start = old(out)@.push(first);
    let mut i: usize = reversed.len();
    while i > 0
        invariant
            i <= reversed@.len(),
            reversed@.len() == tail.len(),
            forall|j: int|
                0 <= j < tail.len() ==> #[trigger] reversed@[j] == tail[tail.len() - 1 - j],
            out@ == start + tail.take(tail.len() - i),
        decreases i,
    {
        i -= 1;
        out.push(reversed[i]);
        assert(tail.take(tail.len() - i) =~= tail.take(tail.len() - i - 1).push(
            tail[tail.len() - i - 1],
        ));
    }
    assert(tail.take(tail.len() as int) =~= tail);
    assert(start + tail =~= old(out)@ + (seq![first] + tail));
}

/// The magnitude of a signed integer.
pub fn magnitude(n: i64) -> (m: u64)
    ensures
        m == if n < 0 {
            -n
        } else {
            n as int
        },
{
    if n >= 0 {
        n as u64
    } else {
        (-(n + 1)) as u64 + 1
    }
}

/// Appends the decimal numeral of the signed integer `n` to `out`.
pub fn push_integer_text(out: &mut Vec<u8>, n: i64)
    ensures
        final(out)@ == old(out)@ + integer_text(n as int),
{
    if n < 0 {
        out.push(45u8);
        let ghost signed = out@;
        push_decimal(out, magnitude(n));
        assert(signed + decimal((-n) as nat) =~= old(out)@ + (seq![45u8] + decimal((-n) as nat)));
    } else {
        push_decimal(out, magnitude(n));
    }
}

} // verus!
