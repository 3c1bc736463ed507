//! Numbers in decimal notation.

use vstd::prelude::*;

verus! {

/// The character code of the digit zero.
pub const DIGIT_ZERO: u8 = 48;

/// The character code of the plus sign.
pub const PLUS_SIGN: u8 = 43;

/// A number in decimal notation.
pub open spec fn decimal(n: nat) -> Seq<u8>
    decreases n,
{
    if n < 10 {
        seq![(DIGIT_ZERO + n) as u8]
    } else {
        decimal(n / 10).push((DIGIT_ZERO + n % 10) as u8)
    }
}

/// Whether a character is a decimal digit.
pub open spec fn is_digit(c: u8) -> bool {
    DIGIT_ZERO <= c < DIGIT_ZERO + 10
}

/// Whether every character is a decimal digit.
pub open spec fn all_digits(text: Seq<u8>) -> bool {
    forall|i: int| 0 <= i < text.len() ==> is_digit(#[trigger] text[i])
}

/// The number that a row of digits writes down.
pub open spec fn digits_value(text: Seq<u8>) -> nat
    decreases text.len(),
{
    if text.len() == 0 {
        0
    } else {
        digits_value(text.drop_last()) * 10 + (text.last() - DIGIT_ZERO) as nat
    }
}

/// The 64-bit number that a text writes down: digits, at least one, behind at
/// most one plus sign.
pub open spec fn parsed(text: Seq<u8>) -> Option<nat> {
    let digits = if text.len() > 0 && text[0] == PLUS_SIGN {
        text.drop_first()
    } else {
        text
    };
    if digits.len() > 0 && all_digits(digits) && digits_value(digits) <= u64::MAX {
        Some(digits_value(digits))
    } else {
        None
    }
}

/// Appends a number in decimal notation.
pub fn put_decimal(out: &mut Vec<u8>, n: u64)
    ensures
        final(out)@ == old(out)@ + decimal(n as nat),
    decreases n,
{
    if n >= 10 {
        put_decimal(out, n / 10);
    }
    let digit: u8 = DIGIT_ZERO + (n % 10) as u8;
    out.push(digit);
    assert(out@ =~= old(out)@ + decimal(n as nat));
}

proof fn lemma_prefix_is_less(text: Seq<u8>, i: int)
    requires
        0 <= i <= text.len(),
        all_digits(text),
    ensures
        digits_value(text.take(i)) <= digits_value(text),
    decreases text.len() - i,
{
    if i < text.len() {
        lemma_prefix_is_less(text, i + 1);
        assert(text.take(i + 1).drop_last() =~= text.take(i));
        assert(is_digit(text[i]));
    } else {
        assert(text.take(i) =~= text);
    }
}

/// Reads a number in decimal notation.
pub fn parse_u64(text: &[u8]) -> (number: Option<u64>)
    ensures
        match parsed(text@) {
            Some(n) => number matches Some(m) && m == n,
            None => number is None,
        },
{
    let start: usize = if text.len() > 0 && text[0] == PLUS_SIGN {
        1
    } else {
        0
    };
    let ghost digits = if start == 1 {
        text@.drop_first()
    } else {
        text@
    };
    assert(digits =~= text@.skip(start as int));
    if start == text.len() {
        return None;
    }
    let mut value: u64 = 0;
    let mut i: usize = start;
    while i < text.len()
        invariant
            start <= i <= text@.len(),
            digits == text@.skip(start as int),
            digits.len() > 0,
            all_digits(digits.take(i - start)),
            value == digits_value(digits.take(i - start)),
            parsed(text@) == (if all_digits(digits) && digits_value(digits) <= u64::MAX {
                Some(digits_value(digits))
            } else {
                None
            }),
        decreases text@.len() - i,
    {
        let c: u8 = text[i];
        let ghost k: int = i - start;
        assert(digits[k] == c);
        if c < DIGIT_ZERO || c >= DIGIT_ZERO + 10 {
            assert(!is_digit(digits[k]));
            return None;
        }
        assert(digits.take(k + 1).drop_last() =~= digits.take(k));
        let d: u64 = (c - DIGIT_ZERO) as u64;
        assert(digits_value(digits.take(k + 1)) == value * 10 + d);
        if value > u64::MAX / 10 || value * 10 > u64::MAX - d {
            proof {
                if all_digits(digits) {
                    lemma_prefix_is_less(digits, k + 1);
                }
            }
            return None;
        }
        value = value * 10 + d;
        assert forall|j: int| 0 <= j < k + 1 implies is_digit(
            #[trigger] digits.take(k + 1)[j],
        ) by {
            if j < k {
                assert(digits.take(k + 1)[j] == digits.take(k)[j]);
            }
        }
        i = i + 1;
    }
    assert(digits.take(i - start) =~= digits);
    Some(value)
}

proof fn lemma_decimal(n: nat)
    ensures
        decimal(n).len() > 0,
        all_digits(decimal(n)),
        digits_value(decimal(n)) == n,
    decreases n,
{
    if n >= 10 {
        lemma_decimal(n / 10);
        assert(decimal(n).drop_last() =~= decimal(n / 10));
        assert forall|i: int| 0 <= i < decimal(n).len() implies is_digit(
            #[trigger] decimal(n)[i],
        ) by {
            if i < decimal(n / 10).len() {
                assert(decimal(n)[i] == decimal(n / 10)[i]);
            }
        }
    } else {
        assert(decimal(n).drop_last() =~= Seq::<u8>::empty());
        assert(digits_value(decimal(n).drop_last()) == 0);
    }
}

/// Reading gives back the number that was written.
pub proof fn law_decimal_round_trip(n: u64)
    ensures
        parsed(decimal(n as nat)) == Some(n as nat),
        all_digits(decimal(n as nat)),
        decimal(n as nat).len() > 0,
{
    lemma_decimal(n as nat);
    assert(is_digit(decimal(n as nat)[0]));
}

/// A digit behind a number makes it ten times as large and adds its value, as
/// long as that has 64 bits.
pub proof fn law_digits_shift(text: Seq<u8>, digit: u8)
    requires
        parsed(text) is Some,
        48 <= digit <= 57,
    ensures
        ({
            let n = (parsed(text)->0) * 10 + (digit - 48);
            parsed(text.push(digit)) == if n <= 0xffff_ffff_ffff_ffff {
                Some(n as nat)
            } else {
                None
            }
        }),
{
    let signed = text.len() > 0 && text[0] == PLUS_SIGN;
    let digits = if signed {
        text.drop_first()
    } else {
        text
    };
    let longer = digits.push(digit);
    assert(text.push(digit)[0] == text[0]);
    assert(signed ==> text.push(digit).drop_first() =~= longer);
    assert(longer.drop_last() =~= digits);
    assert forall|i: int| 0 <= i < longer.len() implies is_digit(#[trigger] longer[i]) by {
        if i < digits.len() {
            assert(longer[i] == digits[i]);
        }
    }
}

/// What holds anything but digits, behind at most one plus sign, is no number,
/// and neither is what holds none.
pub proof fn law_only_digits_are_numbers(text: Seq<u8>, i: int)
    ensures
        text.len() == 0 ==> parsed(text) is None,
        text.len() == 1 && text[0] == 43 ==> parsed(text) is None,
        0 < i < text.len() && !(48 <= text[i] <= 57) ==> parsed(text) is None,
        text.len() > 0 && text[0] != 43 && !(48 <= text[0] <= 57) ==> parsed(text) is None,
        text.len() == 1 && 48 <= text[0] <= 57 ==> parsed(text) == Some((text[0] - 48) as nat),
        text.len() > 1 && text[0] == 43 && text[1] != 43 ==> parsed(text) == parsed(
            text.drop_first(),
        ),
{
    if 0 < i < text.len() && !(48 <= text[i] <= 57) {
        if text[0] == 43 {
            assert(!is_digit(text.drop_first()[i - 1]));
        } else {
            assert(!is_digit(text[i]));
        }
    }
    if text.len() > 0 && text[0] != 43 && !(48 <= text[0] <= 57) {
        assert(!is_digit(text[0]));
    }
    if text.len() == 1 && 48 <= text[0] <= 57 {
        assert(text.drop_last() =~= Seq::<u8>::empty());
        assert(digits_value(text.drop_last()) == 0);
        assert(all_digits(text));
    }
}

/// A number is written without leading zeros.
pub proof fn law_no_leading_zeros(n: nat)
    ensures
        decimal(n)[0] == 48 <==> n == 0,
        n < 10 <==> decimal(n).len() == 1,
    decreases n,
{
    if n >= 10 {
        law_no_leading_zeros(n / 10);
        lemma_decimal(n / 10);
        assert(decimal(n)[0] == decimal(n / 10)[0]);
    }
}

} // verus!
