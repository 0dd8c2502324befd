//! What holds of decimal and Roman numerals as they are read.
use crate::numerals;
use vstd::prelude::*;

verus! {

/// A number that fits 32 bits is kept, and 2^32 more makes no difference.
pub proof fn wrapping_keeps_what_fits(n: int)
    ensures
        0 <= n <= u32::MAX ==> numerals::wrap32(n) == n,
        numerals::wrap32(n + 0x1_0000_0000) == numerals::wrap32(n),
{
}

/// What a single decimal digit is read as, and that nothing else of one
/// character is a number. No text and a lone plus sign are no numbers.
pub proof fn one_digit_is_its_own_number(c: char)
    ensures
        numerals::number(seq![]) is None,
        numerals::number(seq![c]) == if '0' <= c <= '9' {
            Some((c as int - '0' as int) as u32)
        } else {
            None
        },
{
    let s = seq![c];
    lemma_digit_range(c);
    assert(numerals::unsigned_digits(seq![]) =~= seq![]);
    assert(s.drop_last() =~= seq![]);
    assert(numerals::decimal_value(s.drop_last()) == 0);
    if c == '+' {
        assert(numerals::unsigned_digits(s) =~= seq![]);
    } else {
        assert(numerals::unsigned_digits(s) == s);
        if !('0' <= c <= '9') {
            assert(!numerals::is_digit(s[0]));
        }
    }
}

proof fn lemma_digit_range(c: char)
    ensures
        '0' <= c <= '9' ==> 0 <= c as int - '0' as int <= 9,
{
}

/// A further digit behind a number makes ten times as much and the digit, if
/// that fits 32 bits.
pub proof fn a_digit_behind_makes_ten_times_as_much(s: Seq<char>, c: char)
    requires
        numerals::number(s) is Some,
        '0' <= c <= '9',
    ensures
        ({
            let more = 10 * (numerals::number(s)->0) + (c as int - '0' as int);
            numerals::number(s.push(c)) == if more <= u32::MAX {
                Some(more as u32)
            } else {
                None
            }
        }),
{
    let digits = numerals::unsigned_digits(s);
    lemma_digit_range(c);
    lemma_push_digits(s, c);
    lemma_value_not_negative(digits);
    assert(digits.push(c).drop_last() =~= digits);
    let all = digits.push(c);
    assert forall|i: int| 0 <= i < all.len() implies numerals::is_digit(#[trigger] all[i]) by {
        if i < digits.len() {
            assert(numerals::is_digit(digits[i]));
        }
    }
}

proof fn lemma_push_digits(s: Seq<char>, c: char)
    requires
        s.len() > 0,
    ensures
        numerals::unsigned_digits(s.push(c)) == numerals::unsigned_digits(s).push(c),
{
    if s[0] == '+' {
        assert(s.push(c).skip(1) =~= s.skip(1).push(c));
    }
}

proof fn lemma_value_not_negative(s: Seq<char>)
    requires
        forall|i: int| 0 <= i < s.len() ==> numerals::is_digit(#[trigger] s[i]),
    ensures
        numerals::decimal_value(s) >= 0,
    decreases s.len(),
{
    if s.len() > 0 {
        assert(numerals::is_digit(s[s.len() - 1]));
        lemma_value_not_negative(s.drop_last());
    }
}

/// A character that is no digit makes no number, nor does anything behind
/// what is no number, but for the sign.
pub proof fn only_digits_make_numbers(s: Seq<char>, c: char)
    ensures
        !('0' <= c <= '9') ==> numerals::number(s.push(c)) is None,
        s.len() > 0 && s != seq!['+'] && numerals::number(s) is None ==> numerals::number(s.push(c))
            is None,
{
    let whole = numerals::unsigned_digits(s.push(c));
    if s.len() > 0 {
        lemma_push_digits(s, c);
        let digits = numerals::unsigned_digits(s);
        assert(whole.drop_last() =~= digits);
        if !('0' <= c <= '9') {
            assert(!numerals::is_digit(whole[whole.len() - 1]));
        }
        if s != seq!['+'] && numerals::number(s) is None {
            if digits.len() == 0 {
                assert(s =~= seq!['+']);
            }
            if forall|i: int| 0 <= i < whole.len() ==> numerals::is_digit(#[trigger] whole[i]) {
                assert forall|i: int| 0 <= i < digits.len() implies numerals::is_digit(
                    #[trigger] digits[i],
                ) by {
                    assert(numerals::is_digit(whole[i]));
                }
                assert(numerals::is_digit(whole[whole.len() - 1]));
                lemma_value_not_negative(digits);
            }
        }
    } else {
        assert(s.push(c) =~= seq![c]);
        one_digit_is_its_own_number(c);
    }
}

/// A plus sign before a number makes no difference.
pub proof fn a_plus_sign_makes_no_difference(s: Seq<char>)
    requires
        s.len() > 0,
        s[0] != '+',
    ensures
        numerals::number(seq!['+'] + s) == numerals::number(s),
{
    assert((seq!['+'] + s).skip(1) =~= s);
}

/// A number is written without leading zeros.
pub proof fn numbers_have_no_leading_zeros(n: nat)
    ensures
        numerals::decimal_digits(n).len() > 0,
        numerals::decimal_digits(n)[0] == '0' ==> n == 0,
        n == 0 ==> numerals::decimal_digits(n) == seq!['0'],
    decreases n,
{
    if n >= 10 {
        numbers_have_no_leading_zeros(n / 10);
        assert(numerals::decimal_digits(n)[0] == numerals::decimal_digits(n / 10)[0]);
    }
}

/// Whether a character is one of the seven Roman digits, in either case.
spec fn is_roman_letter(c: char) -> bool {
    "IVXLCDMivxlcdm"@.contains(c)
}

proof fn lemma_roman_letters(c: char)
    ensures
        is_roman_letter(c) <==> numerals::roman_digit(c) > 0,
{
    reveal_strlit("IVXLCDMivxlcdm");
    let s = "IVXLCDMivxlcdm"@;
    assert(s =~= seq!['I', 'V', 'X', 'L', 'C', 'D', 'M', 'i', 'v', 'x', 'l', 'c', 'd', 'm']);
    assert(s[0] == 'I' && s[1] == 'V' && s[2] == 'X' && s[3] == 'L' && s[4] == 'C' && s[5] == 'D'
        && s[6] == 'M' && s[7] == 'i' && s[8] == 'v' && s[9] == 'x' && s[10] == 'l' && s[11] == 'c'
        && s[12] == 'd' && s[13] == 'm');
}

/// A text is read as a Roman numeral exactly when it is not empty and all of
/// its characters are Roman digits, in either case.
pub proof fn roman_numerals_are_made_of_roman_digits(s: Seq<char>)
    ensures
        numerals::roman(s) is Some <==> s.len() > 0 && forall|i: int|
            0 <= i < s.len() ==> "IVXLCDMivxlcdm"@.contains(#[trigger] s[i]),
{
    assert forall|i: int| 0 <= i < s.len() implies "IVXLCDMivxlcdm"@.contains(#[trigger] s[i]) <==> (
    numerals::roman_digit(s[i]) > 0) by {
        lemma_roman_letters(s[i]);
    }
}

/// What a single Roman digit is worth, in either case.
pub proof fn roman_digits_have_their_worth(c: char)
    ensures
        numerals::roman(seq![c]) == if c == 'I' || c == 'i' {
            Some(1u32)
        } else if c == 'V' || c == 'v' {
            Some(5u32)
        } else if c == 'X' || c == 'x' {
            Some(10u32)
        } else if c == 'L' || c == 'l' {
            Some(50u32)
        } else if c == 'C' || c == 'c' {
            Some(100u32)
        } else if c == 'D' || c == 'd' {
            Some(500u32)
        } else if c == 'M' || c == 'm' {
            Some(1000u32)
        } else {
            None
        },
{
    let s = seq![c];
    assert(s.skip(1) =~= seq![]);
    assert(numerals::roman_value(s.skip(1)) == 0);
    assert(numerals::roman_digit(s[0]) == numerals::roman_digit(c));
    if numerals::roman_digit(c) > 0 {
        assert(numerals::is_roman(s));
    }
}

/// A Roman digit before a numeral is taken off if the numeral starts with a
/// larger one, and is put on otherwise.
pub proof fn a_roman_digit_before_is_put_on_or_taken_off(c: char, s: Seq<char>)
    requires
        numerals::roman(seq![c]) is Some,
        numerals::roman(s) is Some,
        s.len() < 4_000_000,
    ensures
        numerals::roman(seq![c] + s) is Some,
        ({
            let own = numerals::roman(seq![c])->0;
            let next = numerals::roman(seq![s[0]])->0;
            let rest = numerals::roman(s)->0;
            numerals::roman(seq![c] + s)->0 == if own < next {
                rest - own
            } else {
                rest + own
            }
        }),
{
    let whole = seq![c] + s;
    assert(whole.skip(1) =~= s);
    assert(numerals::roman_digit(seq![c][0]) > 0);
    assert(numerals::roman_digit(s[0]) > 0);
    assert forall|i: int| 0 <= i < whole.len() implies numerals::roman_digit(#[trigger] whole[i])
        > 0 by {
        if i > 0 {
            assert(numerals::roman_digit(s[i - 1]) > 0);
        }
    }
    roman_digits_have_their_worth(c);
    roman_digits_have_their_worth(s[0]);
    numerals::roman_is_exact(s);
    numerals::roman_is_exact(whole);
    assert(whole[1] == s[0]);
}

} // verus!
