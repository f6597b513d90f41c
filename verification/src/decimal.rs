//! Decimal text to numbers and back.
//!
//! A value is written as an optional sign, digits, and at most one decimal
//! point, with at least one digit somewhere. It is held exactly, as a signed
//! 64-bit count of billionths: every digit up to the ninth decimal place is
//! kept. Statistics are written out rounded to one decimal place.

use vstd::prelude::*;
use crate::error::ParseError;
use crate::scan::{find_byte, lemma_find_byte, lemma_find_byte_is};

verus! {

pub const PLUS: u8 = 43;

pub const MINUS: u8 = 45;

pub const POINT: u8 = 46;

pub const ZERO: u8 = 48;

pub const NINE: u8 = 57;

/// Decimal places that a value keeps.
pub const PLACES: usize = 9;

/// The unit in which values are counted is the billionth: so many make one.
pub const UNITS_PER_ONE: u64 = 1_000_000_000;

/// So many units make a tenth, the unit in which statistics are written out.
pub const UNITS_PER_TENTH: u64 = 100_000_000;

/// Largest whole part of a value that can still be within range.
const WHOLE_LIMIT: u64 = 9223372036;

/// Magnitude of the smallest value, `i64::MIN`.
const NEGATIVE_LIMIT: u64 = 9223372036854775808;

pub open spec fn is_digit(byte: u8) -> bool {
    ZERO <= byte <= NINE
}

pub open spec fn all_digits(s: Seq<u8>) -> bool {
    forall|i: int| 0 <= i < s.len() ==> is_digit(#[trigger] s[i])
}

/// The number that a run of digits writes in base ten; zero for the empty run.
pub open spec fn digits_value(s: Seq<u8>) -> nat
    decreases s.len(),
{
    if s.len() == 0 {
        0
    } else {
        digits_value(s.drop_last()) * 10 + (s.last() - ZERO) as nat
    }
}

/// Length of the sign in front of the text: one or zero.
pub open spec fn sign_len(text: Seq<u8>) -> int {
    if text.len() > 0 && (text[0] == PLUS || text[0] == MINUS) {
        1
    } else {
        0
    }
}

pub open spec fn is_negative(text: Seq<u8>) -> bool {
    text.len() > 0 && text[0] == MINUS
}

/// Index of the first decimal point behind the sign, or the length of the text.
pub open spec fn point_index(text: Seq<u8>) -> int {
    find_byte(text, sign_len(text), POINT)
}

/// What stands between the sign and the decimal point.
pub open spec fn whole_part(text: Seq<u8>) -> Seq<u8> {
    text.subrange(sign_len(text), point_index(text))
}

/// What stands behind the decimal point.
pub open spec fn fraction_part(text: Seq<u8>) -> Seq<u8> {
    if point_index(text) < text.len() {
        text.subrange(point_index(text) + 1, text.len() as int)
    } else {
        Seq::empty()
    }
}

/// The text is a decimal number.
pub open spec fn well_formed(text: Seq<u8>) -> bool {
    &&& all_digits(whole_part(text))
    &&& all_digits(fraction_part(text))
    &&& whole_part(text).len() + fraction_part(text).len() >= 1
}

/// The digit at decimal place `i` of a fraction, counting from 0; a place that
/// is not written holds zero.
pub open spec fn digit_at(fraction: Seq<u8>, i: int) -> nat {
    if 0 <= i < fraction.len() {
        (fraction[i] - ZERO) as nat
    } else {
        0
    }
}

/// The first `places` decimal places of a fraction, read as one number.
pub open spec fn fraction_units(fraction: Seq<u8>, places: nat) -> nat
    decreases places,
{
    if places == 0 {
        0
    } else {
        fraction_units(fraction, (places - 1) as nat) * 10 + digit_at(fraction, places - 1)
    }
}

/// Nothing but zeros follows the last decimal place that a value keeps.
pub open spec fn fits_places(text: Seq<u8>) -> bool {
    forall|i: int|
        PLACES <= i < fraction_part(text).len() ==> #[trigger] fraction_part(text)[i] == ZERO
}

/// The number of units that the text writes, without its sign.
pub open spec fn magnitude(text: Seq<u8>) -> nat {
    digits_value(whole_part(text)) * (UNITS_PER_ONE as nat) + fraction_units(
        fraction_part(text),
        PLACES as nat,
    )
}

/// The number of units that the text writes.
pub open spec fn signed_units(text: Seq<u8>) -> int {
    if is_negative(text) {
        -(magnitude(text) as int)
    } else {
        magnitude(text) as int
    }
}

/// What reading `text` as a value gives: the number it writes, in units, where
/// it is a decimal number that a signed 64-bit count of units can hold.
pub open spec fn value_of(text: Seq<u8>) -> Result<int, ParseError> {
    if !well_formed(text) {
        Err(ParseError::MalformedValue)
    } else if !fits_places(text) || !(i64::MIN <= signed_units(text) <= i64::MAX) {
        Err(ParseError::UnsupportedValue)
    } else {
        Ok(signed_units(text))
    }
}

/// Ten to the power `n`.
pub open spec fn pow10(n: nat) -> nat
    decreases n,
{
    if n == 0 {
        1
    } else {
        10 * pow10((n - 1) as nat)
    }
}

proof fn lemma_pow10_bound(n: nat)
    requires
        n <= 9,
    ensures
        1 <= pow10(n) <= 1_000_000_000,
        n == 9 ==> pow10(n) == 1_000_000_000,
        n <= 8 ==> pow10(n) <= 100_000_000,
{
    reveal_with_fuel(pow10, 10);
}

proof fn lemma_fraction_units_bound(fraction: Seq<u8>, places: nat)
    requires
        all_digits(fraction),
    ensures
        fraction_units(fraction, places) < pow10(places),
    decreases places,
{
    if places > 0 {
        lemma_fraction_units_bound(fraction, (places - 1) as nat);
        if places - 1 < fraction.len() {
            assert(is_digit(fraction[places - 1]));
        }
    }
}

proof fn lemma_digits_value_push(s: Seq<u8>, byte: u8)
    ensures
        digits_value(s.push(byte)) == digits_value(s) * 10 + (byte - ZERO) as nat,
{
    assert(s.push(byte).drop_last() =~= s);
}

/// Reads a value: the number that `text` writes, in units.
pub fn parse_value(text: &[u8]) -> (result: Result<i64, ParseError>)
    ensures
        match value_of(text@) {
            Ok(value) => result == Ok::<i64, ParseError>(value as i64) && i64::MIN <= value
                <= i64::MAX,
            Err(error) => result == Err::<i64, ParseError>(error),
        },
{
    let n: usize = text.len();
    let negative: bool = n > 0 && text[0] == MINUS;
    let start: usize = if n > 0 && (text[0] == PLUS || text[0] == MINUS) {
        1
    } else {
        0
    };
    let mut i: usize = start;
    let mut whole: u64 = 0;
    let mut too_large: bool = false;
    while i < n && text[i] != POINT
        invariant
            n == text.len(),
            start == sign_len(text@),
            start <= i <= n,
            forall|k: int| start <= k < i ==> text@[k] != POINT && is_digit(#[trigger] text@[k]),
            !too_large ==> whole == digits_value(text@.subrange(start as int, i as int)) && whole
                <= WHOLE_LIMIT,
            too_large ==> digits_value(text@.subrange(start as int, i as int)) > WHOLE_LIMIT,
        decreases n - i,
    {
        let byte: u8 = text[i];
        if byte < ZERO || byte > NINE {
            proof {
                lemma_find_byte(text@, start as int, POINT);
                let p = point_index(text@);
                assert(p > i) by {
                    if p <= i {
                        if p < i {
                            assert(text@[p] != POINT);
                        }
                    }
                }
                assert(whole_part(text@)[i - start] == text@[i as int]);
                assert(!is_digit(whole_part(text@)[i - start]));
            }
            return Err(ParseError::MalformedValue);
        }
        proof {
            lemma_digits_value_push(text@.subrange(start as int, i as int), byte);
            assert(text@.subrange(start as int, i as int).push(byte) =~= text@.subrange(
                start as int,
                i + 1,
            ));
        }
        if !too_large {
            whole = whole * 10 + (byte - ZERO) as u64;
            if whole > WHOLE_LIMIT {
                too_large = true;
            }
        }
        i = i + 1;
    }
    let point: usize = i;
    proof {
        lemma_find_byte_is(text@, start as int, POINT, point as int);
        assert(whole_part(text@) =~= text@.subrange(start as int, point as int));
        assert(all_digits(whole_part(text@)));
    }
    let mut inexact: bool = false;
    if point < n {
        let mut j: usize = point + 1;
        while j < n
            invariant
                n == text.len(),
                point < n,
                point + 1 <= j <= n,
                point == point_index(text@),
                forall|k: int| point < k < j ==> is_digit(#[trigger] text@[k]),
                inexact <==> exists|k: int| point + PLACES < k < j && text@[k] != ZERO,
            decreases n - j,
        {
            let byte: u8 = text[j];
            if byte < ZERO || byte > NINE {
                proof {
                    assert(fraction_part(text@)[j - point - 1] == text@[j as int]);
                    assert(!is_digit(fraction_part(text@)[j - point - 1]));
                }
                return Err(ParseError::MalformedValue);
            }
            if j - point - 1 >= PLACES && byte != ZERO {
                inexact = true;
            }
            j = j + 1;
        }
        proof {
            assert(all_digits(fraction_part(text@))) by {
                assert forall|k: int| 0 <= k < fraction_part(text@).len() implies is_digit(
                    #[trigger] fraction_part(text@)[k],
                ) by {
                    assert(fraction_part(text@)[k] == text@[point + 1 + k]);
                }
            }
            if inexact {
                let k = choose|k: int| point + PLACES < k < n && text@[k] != ZERO;
                assert(fraction_part(text@)[k - point - 1] == text@[k]);
                assert(!fits_places(text@));
            } else {
                assert forall|k: int| PLACES <= k < fraction_part(text@).len() implies (
                #[trigger] fraction_part(text@)[k]) == ZERO by {
                    assert(fraction_part(text@)[k] == text@[point + 1 + k]);
                }
            }
        }
    } else {
        proof {
            assert(all_digits(fraction_part(text@)));
            assert(fits_places(text@));
        }
    }
    let fraction_len: usize = if point < n {
        n - point - 1
    } else {
        0
    };
    if point - start == 0 && fraction_len == 0 {
        return Err(ParseError::MalformedValue);
    }
    assert(well_formed(text@));
    let ghost fraction = fraction_part(text@);
    let mut units: u64 = 0;
    let mut place: usize = 0;
    while place < PLACES
        invariant
            n == text.len(),
            point <= n,
            point == point_index(text@),
            fraction == fraction_part(text@),
            fraction_len == fraction.len(),
            all_digits(fraction),
            place <= PLACES,
            units == fraction_units(fraction, place as nat),
        decreases PLACES - place,
    {
        proof {
            lemma_fraction_units_bound(fraction, place as nat);
            lemma_pow10_bound(place as nat);
        }
        let digit: u64 = if place < fraction_len {
            proof {
                assert(fraction[place as int] == text@[point + 1 + place]);
                assert(is_digit(fraction[place as int]));
            }
            (text[point + 1 + place] - ZERO) as u64
        } else {
            0
        };
        units = units * 10 + digit;
        place = place + 1;
    }
    proof {
        lemma_fraction_units_bound(fraction, PLACES as nat);
        lemma_pow10_bound(PLACES as nat);
    }
    if inexact || too_large {
        proof {
            if too_large {
                assert(magnitude(text@) > NEGATIVE_LIMIT);
            }
        }
        return Err(ParseError::UnsupportedValue);
    }
    let total: u64 = whole * UNITS_PER_ONE + units;
    assert(total == magnitude(text@));
    if negative {
        if total > NEGATIVE_LIMIT {
            Err(ParseError::UnsupportedValue)
        } else if total == NEGATIVE_LIMIT {
            Ok(i64::MIN)
        } else {
            Ok(-(total as i64))
        }
    } else {
        if total >= NEGATIVE_LIMIT {
            Err(ParseError::UnsupportedValue)
        } else {
            Ok(total as i64)
        }
    }
}

/// The digits of `n` in base ten, without leading zeros; `0` for zero.
pub open spec fn decimal_digits(n: nat) -> Seq<u8>
    decreases n,
{
    if n < 10 {
        seq![(ZERO + n) as u8]
    } else {
        decimal_digits(n / 10).push((ZERO + n % 10) as u8)
    }
}

/// A count of tenths, written with one decimal place.
pub open spec fn render_tenths(value: int) -> Seq<u8> {
    let m: nat = if value < 0 {
        (-value) as nat
    } else {
        value as nat
    };
    let sign: Seq<u8> = if value < 0 {
        seq![MINUS]
    } else {
        Seq::empty()
    };
    sign + decimal_digits(m / 10) + seq![POINT, (ZERO + m % 10) as u8]
}

/// Appends the digits of `n`.
pub fn write_digits(n: u64, out: &mut Vec<u8>)
    ensures
        final(out)@ == old(out)@ + decimal_digits(n as nat),
    decreases n,
{
    if n >= 10 {
        write_digits(n / 10, out);
    }
    out.push(ZERO + (n % 10) as u8);
}

/// Appends a count of tenths, written with one decimal place.
pub fn write_tenths(value: i64, out: &mut Vec<u8>)
    ensures
        final(out)@ == old(out)@ + render_tenths(value as int),
{
    let m: u64 = if value == i64::MIN {
        NEGATIVE_LIMIT
    } else if value < 0 {
        (-value) as u64
    } else {
        value as u64
    };
    if value < 0 {
        out.push(MINUS);
    }
    write_digits(m / 10, out);
    out.push(POINT);
    out.push(ZERO + (m % 10) as u8);
    proof {
        let sign: Seq<u8> = if value < 0 {
            seq![MINUS]
        } else {
            Seq::empty()
        };
        assert(out@ =~= old(out)@ + (sign + decimal_digits((m / 10) as nat) + seq![
            POINT,
            (ZERO + m % 10) as u8,
        ]));
    }
}

/// The digits written for `n` are digits, at least one, and read back as `n`.
pub proof fn lemma_decimal_digits(n: nat)
    ensures
        decimal_digits(n).len() >= 1,
        all_digits(decimal_digits(n)),
        digits_value(decimal_digits(n)) == n,
    decreases n,
{
    let byte = (ZERO + n % 10) as u8;
    if n >= 10 {
        let front = decimal_digits(n / 10);
        lemma_decimal_digits(n / 10);
        lemma_digits_value_push(front, byte);
        assert forall|i: int| 0 <= i < front.push(byte).len() implies is_digit(
            #[trigger] front.push(byte)[i],
        ) by {
            if i < front.len() {
                assert(front.push(byte)[i] == front[i]);
            }
        }
    } else {
        lemma_digits_value_push(Seq::empty(), byte);
        assert(Seq::<u8>::empty().push(byte) =~= seq![byte]);
    }
}

/// A count of tenths that is written out is read back as the same number.
pub proof fn lemma_value_of_rendered(tenths: int)
    requires
        i64::MIN <= tenths * UNITS_PER_TENTH <= i64::MAX,
    ensures
        value_of(render_tenths(tenths)) == Ok::<int, ParseError>(tenths * UNITS_PER_TENTH),
{
    let v = tenths;
    let m: nat = if v < 0 {
        (-v) as nat
    } else {
        v as nat
    };
    let digits = decimal_digits(m / 10);
    let tenth = (ZERO + m % 10) as u8;
    let sign: Seq<u8> = if v < 0 {
        seq![MINUS]
    } else {
        Seq::empty()
    };
    let text = render_tenths(v);
    assert(text == sign + digits + seq![POINT, tenth]);
    lemma_decimal_digits(m / 10);
    let start = sign.len() as int;
    let point = start + digits.len();
    assert(text.len() == point + 2);
    assert forall|k: int| start <= k < point implies text[k] == digits[k - start] by {}
    assert(text[point] == POINT);
    assert(text[point + 1] == tenth);
    if v < 0 {
        assert(text[0] == MINUS);
    } else {
        assert(text[0] == digits[0]);
        assert(is_digit(digits[0]));
    }
    assert(sign_len(text) == start);
    assert forall|k: int| start <= k < point implies text[k] != POINT by {
        assert(is_digit(digits[k - start]));
    }
    lemma_find_byte_is(text, start, POINT, point);
    assert(whole_part(text) =~= digits);
    assert(fraction_part(text) =~= seq![tenth]);
    assert(is_digit(tenth));
    assert(m == (m / 10) * 10 + m % 10);
    assert(fraction_units(seq![tenth], PLACES as nat) == (m % 10) * UNITS_PER_TENTH) by {
        reveal_with_fuel(fraction_units, 10);
    }
    assert(magnitude(text) == m * UNITS_PER_TENTH);
}

} // verus!
