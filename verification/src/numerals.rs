//! Decimal and Roman numerals.
use crate::std_text;
use crate::text::to_chars;
use vstd::prelude::*;
use vstd::slice::slice_subrange;

verus! {

/// An integer reduced to 32 bits, as unsigned arithmetic that wraps leaves it.
pub open spec fn wrap32(n: int) -> u32 {
    (n % 0x1_0000_0000) as u32
}

/// An integer reduced to the size of a `usize`, as counting that wraps leaves
/// it.
pub open spec fn wrap_size(n: int) -> usize {
    (n % (usize::MAX + 1)) as usize
}

/// Counting two parts apart and adding the counts gives the count of both.
pub proof fn lemma_wrap_size_sum(a: nat, b: nat)
    ensures
        wrap_size((a + b) as int) == wrap_size(a as int).wrapping_add(wrap_size(b as int)),
{
    let m = usize::MAX + 1;
    vstd::arithmetic::div_mod::lemma_add_mod_noop(a as int, b as int, m);
    vstd::arithmetic::div_mod::lemma_mod_bound(a as int, m);
    vstd::arithmetic::div_mod::lemma_mod_bound(b as int, m);
    let sum = a as int % m + b as int % m;
    if sum < m {
        vstd::arithmetic::div_mod::lemma_small_mod(sum as nat, m as nat);
    } else {
        vstd::arithmetic::div_mod::lemma_mod_sub_multiples_vanish(sum, m);
        vstd::arithmetic::div_mod::lemma_small_mod((sum - m) as nat, m as nat);
    }
}

/// A count that fits is exact.
pub proof fn wrap_size_is_exact(n: nat)
    requires
        n <= usize::MAX,
    ensures
        wrap_size(n as int) == n,
{
    vstd::arithmetic::div_mod::lemma_small_mod(n, (usize::MAX + 1) as nat);
}

/// Whether the character is one of the digits 0 to 9.
pub open spec fn is_digit(c: char) -> bool {
    '0' <= c <= '9'
}

/// The number that a row of decimal digits writes.
pub open spec fn decimal_value(s: Seq<char>) -> int
    decreases s.len(),
{
    if s.len() == 0 {
        0
    } else {
        10 * decimal_value(s.drop_last()) + (s.last() as int - '0' as int)
    }
}

/// The digits of a numeral that may start with a plus sign.
pub open spec fn unsigned_digits(s: Seq<char>) -> Seq<char> {
    if s.len() > 0 && s[0] == '+' {
        s.skip(1)
    } else {
        s
    }
}

/// The number that a text writes: an optional plus sign and then decimal
/// digits, at least one, for a number of at most 32 bits.
pub open spec fn number(s: Seq<char>) -> Option<u32> {
    let digits = unsigned_digits(s);
    if digits.len() > 0 && (forall|i: int| 0 <= i < digits.len() ==> is_digit(#[trigger] digits[i]))
        && decimal_value(digits) <= u32::MAX {
        Some(decimal_value(digits) as u32)
    } else {
        None
    }
}

/// The decimal digits of a number, without leading zeros.
pub open spec fn decimal_digits(n: nat) -> Seq<char>
    decreases n,
{
    if n < 10 {
        seq![('0' as u32 + n) as char]
    } else {
        decimal_digits(n / 10).push(('0' as u32 + n % 10) as char)
    }
}

/// What a Roman digit is worth, in either case; 0 for any other character.
pub open spec fn roman_digit(c: char) -> int {
    match c {
        'i' | 'I' => 1,
        'v' | 'V' => 5,
        'x' | 'X' => 10,
        'l' | 'L' => 50,
        'c' | 'C' => 100,
        'd' | 'D' => 500,
        'm' | 'M' => 1000,
        _ => 0,
    }
}

/// Whether a text is a Roman numeral: one Roman digit or more and nothing else.
pub open spec fn is_roman(s: Seq<char>) -> bool {
    s.len() > 0 && forall|i: int| 0 <= i < s.len() ==> roman_digit(#[trigger] s[i]) > 0
}

/// The value of a Roman numeral: a digit counts negative when a larger one
/// follows it directly, and positive otherwise.
pub open spec fn roman_value(s: Seq<char>) -> int
    decreases s.len(),
{
    if s.len() == 0 {
        0
    } else if s.len() > 1 && roman_digit(s[0]) < roman_digit(s[1]) {
        roman_value(s.skip(1)) - roman_digit(s[0])
    } else {
        roman_value(s.skip(1)) + roman_digit(s[0])
    }
}

/// The value of a Roman numeral in 32 bits, and nothing for any other text.
pub open spec fn roman(s: Seq<char>) -> Option<u32> {
    if is_roman(s) {
        Some(wrap32(roman_value(s)))
    } else {
        None
    }
}

proof fn lemma_decimal_value_monotonic(s: Seq<char>, n: int)
    requires
        0 <= n <= s.len(),
        forall|i: int| 0 <= i < s.len() ==> is_digit(#[trigger] s[i]),
    ensures
        0 <= decimal_value(s.take(n)) <= decimal_value(s),
    decreases s.len(),
{
    if n < s.len() {
        assert(is_digit(s[s.len() - 1]));
        lemma_decimal_value_monotonic(s.drop_last(), n);
        assert(s.drop_last().take(n) =~= s.take(n));
    } else {
        assert(s.take(n) =~= s);
        if s.len() > 0 {
            assert(is_digit(s[s.len() - 1]));
            lemma_decimal_value_monotonic(s.drop_last(), s.len() - 1);
            assert(s.drop_last().take(s.len() - 1) =~= s.drop_last());
        }
    }
}

/// A Roman numeral is worth at least its first digit, so its value is
/// positive, and at most a thousand for each digit.
pub proof fn roman_value_is_positive(s: Seq<char>)
    requires
        is_roman(s),
    ensures
        0 < roman_digit(s[0]) <= roman_value(s) <= 1000 * s.len(),
    decreases s.len(),
{
    let rest = s.skip(1);
    assert(roman_digit(s[0]) > 0);
    if rest.len() > 0 {
        assert(rest[0] == s[1]);
        assert forall|i: int| 0 <= i < rest.len() implies roman_digit(#[trigger] rest[i]) > 0 by {
            assert(roman_digit(s[i + 1]) > 0);
        }
        roman_value_is_positive(rest);
    } else {
        assert(roman_value(rest) == 0);
    }
}

/// A Roman numeral of at most four million digits is read exactly.
pub proof fn roman_is_exact(s: Seq<char>)
    requires
        is_roman(s),
        s.len() <= 4_000_000,
    ensures
        roman(s) == Some(roman_value(s) as u32),
        roman(s)->0 == roman_value(s),
{
    roman_value_is_positive(s);
}

/// The case of the letters of a Roman numeral does not matter.
pub proof fn roman_ignores_case(s: Seq<char>, t: Seq<char>)
    requires
        s.len() == t.len(),
        forall|i: int|
            0 <= i < s.len() ==> #[trigger] std_text::ascii_lower(s[i])
                == std_text::ascii_lower(t[i]),
    ensures
        roman(s) == roman(t),
{
    assert forall|i: int| 0 <= i < s.len() implies roman_digit(#[trigger] s[i]) == roman_digit(
        t[i],
    ) by {
        assert(std_text::ascii_lower(s[i]) == std_text::ascii_lower(t[i]));
        lemma_roman_digit_case(s[i]);
        lemma_roman_digit_case(t[i]);
    }
    assert forall|i: int| 0 <= i < t.len() implies roman_digit(#[trigger] t[i]) == roman_digit(
        s[i],
    ) by {
        assert(roman_digit(s[i]) == roman_digit(t[i]));
    }
    lemma_roman_value_by_digits(s, t);
}

proof fn lemma_roman_digit_case(c: char)
    ensures
        roman_digit(c) == roman_digit(std_text::ascii_lower(c)),
{
}

proof fn lemma_roman_value_by_digits(s: Seq<char>, t: Seq<char>)
    requires
        s.len() == t.len(),
        forall|i: int| 0 <= i < s.len() ==> roman_digit(#[trigger] s[i]) == roman_digit(t[i]),
    ensures
        roman_value(s) == roman_value(t),
    decreases s.len(),
{
    if s.len() > 0 {
        assert(roman_digit(s[0]) == roman_digit(t[0]));
        if s.len() > 1 {
            assert(roman_digit(s[1]) == roman_digit(t[1]));
        }
        assert forall|i: int| 0 <= i < s.skip(1).len() implies roman_digit(#[trigger] s.skip(1)[i])
            == roman_digit(t.skip(1)[i]) by {
            assert(roman_digit(s[i + 1]) == roman_digit(t[i + 1]));
        }
        lemma_roman_value_by_digits(s.skip(1), t.skip(1));
    }
}

/// The Roman digits of one decimal place: `one` is worth one unit of the
/// place, `five` five units and `ten` ten units.
pub open spec fn roman_place(d: int, one: char, five: char, ten: char) -> Seq<char> {
    if d == 1 {
        seq![one]
    } else if d == 2 {
        seq![one, one]
    } else if d == 3 {
        seq![one, one, one]
    } else if d == 4 {
        seq![one, five]
    } else if d == 5 {
        seq![five]
    } else if d == 6 {
        seq![five, one]
    } else if d == 7 {
        seq![five, one, one]
    } else if d == 8 {
        seq![five, one, one, one]
    } else if d == 9 {
        seq![one, ten]
    } else {
        seq![]
    }
}

/// The standard Roman numeral of a number below 4000, in upper case.
pub open spec fn standard_numeral(n: int) -> Seq<char> {
    roman_place(n / 1000, 'M', 'M', 'M') + (roman_place(n / 100 % 10, 'C', 'D', 'M') + (roman_place(
        n / 10 % 10,
        'X',
        'L',
        'C',
    ) + roman_place(n % 10, 'I', 'V', 'X')))
}

/// The values of two numerals add up when they are put side by side, unless
/// the end of the first is to be subtracted from the start of the second.
proof fn lemma_roman_value_concat(a: Seq<char>, b: Seq<char>)
    requires
        a.len() > 0 && b.len() > 0 ==> roman_digit(a.last()) >= roman_digit(b[0]),
    ensures
        roman_value(a + b) == roman_value(a) + roman_value(b),
    decreases a.len(),
{
    if a.len() == 0 {
        assert(a + b =~= b);
    } else {
        let whole = a + b;
        let rest = a.skip(1);
        assert(whole.skip(1) =~= rest + b);
        if rest.len() > 0 {
            assert(rest.last() == a.last());
            assert(whole[1] == a[1]);
        } else if b.len() > 0 {
            assert(whole[1] == b[0]);
        }
        lemma_roman_value_concat(rest, b);
        assert(roman_value(seq![]) == 0);
    }
}

/// What the digits of one place are worth, and how they begin and end.
proof fn lemma_roman_place(d: int, one: char, five: char, ten: char, unit: int)
    requires
        0 <= d <= 9,
        unit > 0,
        roman_digit(one) == unit,
        d >= 4 ==> roman_digit(five) == 5 * unit && roman_digit(ten) == 10 * unit,
    ensures
        ({
            let s = roman_place(d, one, five, ten);
            &&& roman_value(s) == d * unit
            &&& s.len() == 0 <==> d == 0
            &&& forall|i: int| 0 <= i < s.len() ==> roman_digit(#[trigger] s[i]) > 0
            &&& d > 0 ==> roman_digit(s[0]) <= 5 * unit && roman_digit(s.last()) >= unit
        }),
{
    let s = roman_place(d, one, five, ten);
    reveal_with_fuel(roman_value, 5);
    if d > 0 {
        let t = s.skip(1);
        let u = t.skip(1);
        let v = u.skip(1);
        if t.len() > 0 {
            assert(t[0] == s[1]);
            if u.len() > 0 {
                assert(u[0] == s[2] && t[1] == s[2]);
                if v.len() > 0 {
                    assert(v[0] == s[3] && u[1] == s[3]);
                }
            }
        }
    }
}

/// Puts the digits of a place before those of the lower places.
proof fn lemma_roman_step(d: int, one: char, five: char, ten: char, unit: int, low: Seq<char>)
    requires
        0 <= d <= 9,
        unit > 0,
        roman_digit(one) == unit,
        d >= 4 ==> roman_digit(five) == 5 * unit && roman_digit(ten) == 10 * unit,
        forall|i: int| 0 <= i < low.len() ==> roman_digit(#[trigger] low[i]) > 0,
        low.len() > 0 ==> roman_digit(low[0]) <= unit,
    ensures
        ({
            let s = roman_place(d, one, five, ten) + low;
            &&& roman_value(s) == d * unit + roman_value(low)
            &&& s.len() == 0 <==> d == 0 && low.len() == 0
            &&& forall|i: int| 0 <= i < s.len() ==> roman_digit(#[trigger] s[i]) > 0
            &&& s.len() > 0 ==> roman_digit(s[0]) <= 5 * unit
        }),
{
    let place = roman_place(d, one, five, ten);
    let s = place + low;
    lemma_roman_place(d, one, five, ten, unit);
    lemma_roman_value_concat(place, low);
    assert forall|i: int| 0 <= i < s.len() implies roman_digit(#[trigger] s[i]) > 0 by {
        if i < place.len() {
            assert(s[i] == place[i]);
        } else {
            assert(s[i] == low[i - place.len()]);
        }
    }
    if place.len() > 0 {
        assert(s[0] == place[0]);
    } else if low.len() > 0 {
        assert(s[0] == low[0]);
    }
}

/// A number below 4000 is made up of its decimal places.
proof fn lemma_places(n: int)
    requires
        0 <= n <= 3999,
    ensures
        0 <= n / 1000 <= 3,
        0 <= n / 100 % 10 <= 9,
        0 <= n / 10 % 10 <= 9,
        0 <= n % 10 <= 9,
        n == n / 1000 * 1000 + (n / 100 % 10 * 100 + (n / 10 % 10 * 10 + n % 10)),
{
    vstd::arithmetic::div_mod::lemma_div_denominator(n, 10, 10);
    vstd::arithmetic::div_mod::lemma_div_denominator(n, 100, 10);
    let a = n / 10;
    let b = a / 10;
    let c = b / 10;
    assert(n / 100 == b && n / 1000 == c);
    assert(n == 10 * a + n % 10);
    assert(a == 10 * b + a % 10);
    assert(b == 10 * c + b % 10);
}

proof fn lemma_standard_numeral(n: int)
    requires
        1 <= n <= 3999,
    ensures
        is_roman(standard_numeral(n)),
        roman_value(standard_numeral(n)) == n,
{
    let ones = roman_place(n % 10, 'I', 'V', 'X');
    let tens = roman_place(n / 10 % 10, 'X', 'L', 'C') + ones;
    let hundreds = roman_place(n / 100 % 10, 'C', 'D', 'M') + tens;
    lemma_places(n);
    lemma_roman_place(n % 10, 'I', 'V', 'X', 1);
    lemma_roman_step(n / 10 % 10, 'X', 'L', 'C', 10, ones);
    lemma_roman_step(n / 100 % 10, 'C', 'D', 'M', 100, tens);
    lemma_roman_step(n / 1000, 'M', 'M', 'M', 1000, hundreds);
}

/// The standard Roman numeral of each number from 1 to 3999, in upper and in
/// lower case, is read back as that number.
pub proof fn standard_numeral_is_read_back(n: int)
    requires
        1 <= n <= 3999,
    ensures
        roman(standard_numeral(n)) == Some(n as u32),
        roman(standard_numeral(n).map_values(|c: char| std_text::ascii_lower(c))) == Some(n as u32),
{
    lemma_standard_numeral(n);
    lemma_roman_lower(standard_numeral(n));
}

proof fn lemma_roman_lower(s: Seq<char>)
    ensures
        roman(s.map_values(|c: char| std_text::ascii_lower(c))) == roman(s),
{
    let lower = s.map_values(|c: char| std_text::ascii_lower(c));
    assert forall|i: int| 0 <= i < s.len() implies #[trigger] std_text::ascii_lower(s[i])
        == std_text::ascii_lower(lower[i]) by {
        lemma_lower_twice(s[i]);
    }
    roman_ignores_case(s, lower);
}

proof fn lemma_lower_twice(c: char)
    ensures
        std_text::ascii_lower(std_text::ascii_lower(c)) == std_text::ascii_lower(c),
{
}

/// Writing a number in decimal and reading it back gives the number.
pub proof fn decimal_round_trip(n: nat)
    ensures
        decimal_value(decimal_digits(n)) == n,
        decimal_digits(n).len() > 0,
        forall|i: int|
            0 <= i < decimal_digits(n).len() ==> is_digit(#[trigger] decimal_digits(n)[i]),
        n <= u32::MAX ==> number(decimal_digits(n)) == Some(n as u32),
    decreases n,
{
    let s = decimal_digits(n);
    if n < 10 {
        assert(s.drop_last() =~= seq![]);
        assert(decimal_value(s.drop_last()) == 0);
    } else {
        decimal_round_trip(n / 10);
        assert(s.drop_last() =~= decimal_digits(n / 10));
        assert forall|i: int| 0 <= i < s.len() implies is_digit(#[trigger] s[i]) by {
            if i < s.len() - 1 {
                assert(s[i] == decimal_digits(n / 10)[i]);
            }
        }
    }
    assert(is_digit(s[0]));
    assert(unsigned_digits(s) == s);
}

/// Reads a decimal numeral of at most 32 bits.
pub fn parse_u32(s: &[char]) -> (r: Option<u32>)
    ensures
        r == number(s@),
{
    let digits = if s.len() > 0 && s[0] == '+' {
        slice_subrange(s, 1, s.len())
    } else {
        s
    };
    proof {
        assert(digits@ =~= unsigned_digits(s@));
    }
    if digits.len() == 0 {
        return None;
    }
    let mut total: u64 = 0;
    let mut i: usize = 0;
    while i < digits.len()
        invariant
            i <= digits@.len(),
            digits@ == unsigned_digits(s@),
            forall|j: int| 0 <= j < i ==> is_digit(#[trigger] digits@[j]),
            total == decimal_value(digits@.take(i as int)),
            total <= u32::MAX,
        decreases digits@.len() - i,
    {
        let c = digits[i];
        if c < '0' || c > '9' {
            proof {
                assert(!is_digit(digits@[i as int]));
            }
            return None;
        }
        proof {
            assert(digits@.take(i + 1).drop_last() =~= digits@.take(i as int));
        }
        total = total * 10 + (c as u64 - '0' as u64);
        i += 1;
        if total > u32::MAX as u64 {
            proof {
                if forall|j: int| 0 <= j < digits@.len() ==> is_digit(#[trigger] digits@[j]) {
                    lemma_decimal_value_monotonic(digits@, i as int);
                }
            }
            return None;
        }
    }
    proof {
        assert(digits@.take(i as int) =~= digits@);
    }
    Some(total as u32)
}

/// The decimal digits of a number, as text.
pub fn decimal(n: usize) -> (r: String)
    ensures
        r@ == decimal_digits(n as nat),
    decreases n,
{
    let digit = DIGITS[n % 10];
    let mut text = if n < 10 {
        String::new()
    } else {
        decimal(n / 10)
    };
    text.push(digit);
    proof {
        if n < 10 {
            assert(text@ =~= decimal_digits(n as nat));
        }
    }
    text
}

/// The value of a Roman digit, in either case; 0 for any other character.
fn roman_digit_value(c: char) -> (r: u32)
    ensures
        r == roman_digit(c),
{
    match c {
        'i' | 'I' => 1,
        'v' | 'V' => 5,
        'x' | 'X' => 10,
        'l' | 'L' => 50,
        'c' | 'C' => 100,
        'd' | 'D' => 500,
        'm' | 'M' => 1000,
        _ => 0,
    }
}

/// Reads a Roman numeral given as characters.
pub fn parse_roman(s: &[char]) -> (r: Option<u32>)
    ensures
        r == roman(s@),
{
    if s.len() == 0 {
        return None;
    }
    let mut k: usize = 0;
    while k < s.len()
        invariant
            k <= s@.len(),
            forall|j: int| 0 <= j < k ==> roman_digit(#[trigger] s@[j]) > 0,
        decreases s@.len() - k,
    {
        if roman_digit_value(s[k]) == 0 {
            return None;
        }
        k += 1;
    }
    let mut total: u32 = 0;
    let mut prev: u32 = 0;
    let mut i: usize = s.len();
    while i > 0
        invariant
            i <= s@.len(),
            is_roman(s@),
            prev == if i < s@.len() {
                roman_digit(s@[i as int])
            } else {
                0
            },
            total == wrap32(roman_value(s@.skip(i as int))),
        decreases i,
    {
        i -= 1;
        let cur: u32 = roman_digit_value(s[i]);
        proof {
            let rest = s@.skip(i as int);
            assert(rest.skip(1) =~= s@.skip(i + 1));
            assert(rest[0] == s@[i as int]);
            if rest.len() > 1 {
                assert(rest[1] == s@[i + 1]);
            }
        }
        if cur >= prev {
            total = total.wrapping_add(cur);
        } else {
            total = total.wrapping_sub(cur);
        }
        prev = cur;
    }
    proof {
        assert(s@.skip(0) =~= s@);
    }
    Some(total)
}

/// Reads a Roman numeral.
pub fn roman_to_int(s: &str) -> (r: Option<u32>)
    ensures
        r == roman(s@),
{
    let chars = to_chars(s);
    parse_roman(chars.as_slice())
}

/// The decimal digits in order.
const DIGITS: [char; 10] = ['0', '1', '2', '3', '4', '5', '6', '7', '8', '9'];

} // verus!
