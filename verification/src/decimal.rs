//! Numbers written as text.

use vstd::prelude::*;
use vstd::arithmetic::div_mod::lemma_fundamental_div_mod_converse;
use crate::arith::{
    lemma_pow10_largest, lemma_pow10_monotone, lemma_round_div_bounded,
    lemma_round_div_from_remainder, pow10, power_of_ten, round_div, MAX_POWER_OF_TEN,
};
use crate::rate::Rate;

verus! {

/// The most digits behind the point that a number is read to.
pub const MAX_FRACTION_DIGITS: u32 = 18;

/// The number of digits behind the point that an amount keeps.
pub const AMOUNT_FRACTION_DIGITS: u32 = 9;

/// Whether a byte is one of the digits `0` to `9`.
pub open spec fn is_digit(byte: u8) -> bool {
    0x30 <= byte <= 0x39
}

/// Whether a text holds digits alone.
pub open spec fn all_digits(text: Seq<u8>) -> bool {
    forall|i: int| 0 <= i < text.len() ==> is_digit(#[trigger] text[i])
}

/// The index at which the run of digits that starts at `from` ends: that of
/// the first byte from there on that is no digit, or the length of the text.
pub open spec fn digits_end(text: Seq<u8>, from: int) -> int
    decreases text.len() - from,
{
    if 0 <= from < text.len() && is_digit(text[from]) {
        digits_end(text, from + 1)
    } else {
        from
    }
}

/// The number whose decimal notation is that of `start` followed by `digits`.
pub open spec fn append_digits(start: nat, digits: Seq<u8>) -> nat
    decreases digits.len(),
{
    if digits.len() == 0 {
        start
    } else {
        append_digits(start, digits.drop_last()) * 10 + (digits.last() - 0x30) as nat
    }
}

/// The length of the sign in front of a number: a single `+` may stand there.
pub open spec fn sign_length(text: Seq<u8>) -> int {
    if text.len() > 0 && text[0] == 0x2b {
        1
    } else {
        0
    }
}

/// The index behind the point that follows the whole part, or the index at
/// which the whole part ends where no point follows it.
pub open spec fn fraction_start(text: Seq<u8>) -> int {
    let point = digits_end(text, sign_length(text));
    if point < text.len() && text[point] == 0x2e {
        point + 1
    } else {
        point
    }
}

/// The index at which the digits behind the point end.
pub open spec fn fraction_end(text: Seq<u8>) -> int {
    digits_end(text, fraction_start(text))
}

/// The index of the first digit of the exponent: behind the `e` or `E` that
/// follows the digits of the number, and behind a `+` or `-` after it.
pub open spec fn exponent_start(text: Seq<u8>) -> int {
    let mark = fraction_end(text);
    if mark + 1 < text.len() && (text[mark + 1] == 0x2b || text[mark + 1] == 0x2d) {
        mark + 2
    } else {
        mark + 1
    }
}

/// Whether an exponent follows the digits of the number: `e` or `E`, an
/// optional `+` or `-`, and digits to the end of the text, at least one.
pub open spec fn exponent_is_written(text: Seq<u8>) -> bool {
    let mark = fraction_end(text);
    let start = exponent_start(text);
    &&& 0 <= mark < text.len()
    &&& text[mark] == 0x65 || text[mark] == 0x45
    &&& start < text.len()
    &&& digits_end(text, start) == text.len()
}

/// Whether a text denotes a number: an optional `+`; digits, with a point
/// before, among or behind them, at least one digit in all; then optionally
/// an exponent, which is `e` or `E`, an optional `+` or `-`, and at least one
/// digit.
pub open spec fn is_number(text: Seq<u8>) -> bool {
    let first = sign_length(text);
    let point = digits_end(text, first);
    let after = fraction_start(text);
    let mark = fraction_end(text);
    &&& (point - first) + (mark - after) >= 1
    &&& mark == text.len() || exponent_is_written(text)
}

/// The digits of a number, those before the point and those behind it.
pub open spec fn number_digits(text: Seq<u8>) -> Seq<u8> {
    let first = sign_length(text);
    text.subrange(first, digits_end(text, first)) + text.subrange(
        fraction_start(text),
        fraction_end(text),
    )
}

/// The exponent of a number, zero where it has none.
pub open spec fn number_exponent(text: Seq<u8>) -> int {
    let mark = fraction_end(text);
    if mark >= text.len() {
        0
    } else {
        let magnitude = append_digits(
            0,
            text.subrange(exponent_start(text), text.len() as int),
        );
        if mark + 1 < text.len() && text[mark + 1] == 0x2d {
            -magnitude
        } else {
            magnitude as int
        }
    }
}

/// The power of ten by which the digits of a number, read as one whole
/// number, are multiplied: the exponent less the number of digits behind the
/// point.  The number is `append_digits(0, number_digits) * 10^number_shift`.
pub open spec fn number_shift(text: Seq<u8>) -> int {
    number_exponent(text) - (fraction_end(text) - fraction_start(text))
}

/// The number `digits * 10^shift` in units of `10^-places`, rounded to the
/// nearest unit, a half up.
pub open spec fn scaled_value(digits: Seq<u8>, shift: int, places: nat) -> int {
    let whole = append_digits(0, digits);
    let by = shift + places;
    if by >= 0 {
        (whole * pow10(by as nat)) as int
    } else {
        round_div(whole as int, pow10((-by) as nat) as int)
    }
}

/// What a number comes to in any units is never negative.
pub proof fn lemma_scaled_value_nonnegative(digits: Seq<u8>, shift: int, places: nat)
    ensures
        scaled_value(digits, shift, places) >= 0,
{
    let by = shift + places;
    if by < 0 {
        lemma_pow10_monotone(0, (-by) as nat);
        lemma_round_div_bounded(append_digits(0, digits) as int, pow10((-by) as nat) as int);
    }
}

/// A value where it fits in 128 bits.
pub open spec fn in_128_bits(value: int) -> Option<u128> {
    if value <= u128::MAX {
        Some(value as u128)
    } else {
        None
    }
}

/// What a text denotes in units of `10^-places`, rounded to the nearest
/// unit: `None` where the text denotes no number, or a number too large for
/// 128 bits in these units.
pub open spec fn scaled_of(text: Seq<u8>, places: nat) -> Option<u128> {
    if is_number(text) {
        in_128_bits(scaled_value(number_digits(text), number_shift(text), places))
    } else {
        None
    }
}

/// The number of digits behind the point that a number is written to, its
/// exponent counted in, and at most `MAX_FRACTION_DIGITS`.
pub open spec fn written_places(shift: int) -> nat {
    if shift >= 0 {
        0
    } else if -shift <= MAX_FRACTION_DIGITS {
        (-shift) as nat
    } else {
        MAX_FRACTION_DIGITS as nat
    }
}

/// The largest number of places, up to `places`, at which the number fits in
/// 64 bits: `None` where it does not fit even as a whole number.
pub open spec fn fitting_places(digits: Seq<u8>, shift: int, places: nat) -> Option<nat>
    decreases places,
{
    if scaled_value(digits, shift, places) <= u64::MAX {
        Some(places)
    } else if places == 0 {
        None
    } else {
        fitting_places(digits, shift, (places - 1) as nat)
    }
}

/// The number of digits behind the point that the rate of a text keeps: as
/// many as the number is written to, at most `MAX_FRACTION_DIGITS`, and fewer
/// where the numerator would not fit in 64 bits otherwise.
pub open spec fn rate_places(text: Seq<u8>) -> Option<nat> {
    fitting_places(number_digits(text), number_shift(text), written_places(number_shift(text)))
}

/// The rate that a text denotes: the number as a fraction over a power of
/// ten, `4 / 100` for `0.04` and for `4e-2`.  Digits behind the point that
/// the fraction cannot keep are rounded off, a half up.  `None` where the
/// text denotes no number, or one that exceeds 64 bits even as a whole number.
pub open spec fn rate_of_text(text: Seq<u8>) -> Option<Rate> {
    if is_number(text) {
        match rate_places(text) {
            Some(places) => Some(
                Rate {
                    numerator: scaled_value(number_digits(text), number_shift(text), places)
                        as u64,
                    denominator: pow10(places) as u64,
                },
            ),
            None => None,
        }
    } else {
        None
    }
}

/// The whole number that a text denotes: an optional `+` and at least one
/// digit.  `None` where the text is not of that form or the number does not
/// fit in 32 bits.
pub open spec fn whole_number_of(text: Seq<u8>) -> Option<u32> {
    let first = sign_length(text);
    let digits = text.subrange(first, text.len() as int);
    if digits_end(text, first) == text.len() && digits.len() >= 1 && append_digits(0, digits)
        <= u32::MAX {
        Some(append_digits(0, digits) as u32)
    } else {
        None
    }
}

/// Every byte of a run of digits is a digit.
pub proof fn lemma_digit_run(text: Seq<u8>, from: int, index: int)
    requires
        0 <= from <= index < digits_end(text, from),
    ensures
        index < text.len(),
        is_digit(text[index]),
    decreases text.len() - from,
{
    if 0 <= from < text.len() && is_digit(text[from]) {
        if from < index {
            lemma_digit_run(text, from + 1, index);
        }
    }
}

/// The digits of a run, cut out of the text, are digits alone.
pub proof fn lemma_run_is_digits(text: Seq<u8>, from: int)
    requires
        0 <= from <= text.len(),
    ensures
        from <= digits_end(text, from) <= text.len(),
        all_digits(text.subrange(from, digits_end(text, from))),
{
    lemma_run_bounds(text, from);
    let run = text.subrange(from, digits_end(text, from));
    assert forall|i: int| 0 <= i < run.len() implies is_digit(#[trigger] run[i]) by {
        lemma_digit_run(text, from, from + i);
    }
}

/// A run of digits ends within the text, no earlier than it starts.
pub proof fn lemma_run_bounds(text: Seq<u8>, from: int)
    requires
        0 <= from <= text.len(),
    ensures
        from <= digits_end(text, from) <= text.len(),
    decreases text.len() - from,
{
    if from < text.len() && is_digit(text[from]) {
        lemma_run_bounds(text, from + 1);
    }
}

/// A number of so many digits is less than ten to the power of their count.
pub proof fn lemma_digits_below_power(digits: Seq<u8>)
    requires
        all_digits(digits),
    ensures
        append_digits(0, digits) < pow10(digits.len()),
    decreases digits.len(),
{
    if digits.len() > 0 {
        let shorter = digits.drop_last();
        lemma_digits_below_power(shorter);
        assert(is_digit(digits[digits.len() - 1]));
    }
}

/// The first digits of a number are no more than the number.
pub proof fn lemma_prefix_value_grows(digits: Seq<u8>, shorter: int, longer: int)
    requires
        0 <= shorter <= longer <= digits.len(),
    ensures
        append_digits(0, digits.take(shorter)) <= append_digits(0, digits.take(longer)),
    decreases longer,
{
    if shorter < longer {
        lemma_prefix_value_grows(digits, shorter, longer - 1);
        assert(digits.take(longer).drop_last() =~= digits.take(longer - 1));
    }
}

/// A number is its first digits, moved left by the count of the others, plus
/// the others.
pub proof fn lemma_digits_split(digits: Seq<u8>, cut: int)
    requires
        0 <= cut <= digits.len(),
    ensures
        append_digits(0, digits) == append_digits(0, digits.take(cut)) * pow10(
            (digits.len() - cut) as nat,
        ) + append_digits(0, digits.skip(cut)),
    decreases digits.len(),
{
    if cut == digits.len() {
        assert(digits.take(cut) =~= digits);
        assert(digits.skip(cut).len() == 0);
        assert(append_digits(0, digits) * 1 == append_digits(0, digits));
    } else {
        let shorter = digits.drop_last();
        lemma_digits_split(shorter, cut);
        assert(shorter.take(cut) =~= digits.take(cut));
        assert(digits.skip(cut).drop_last() =~= shorter.skip(cut));
        assert(digits.skip(cut).last() == digits.last());
        let front = append_digits(0, digits.take(cut));
        let power = pow10((shorter.len() - cut) as nat);
        let back = append_digits(0, shorter.skip(cut));
        let digit = (digits.last() - 0x30) as nat;
        assert(pow10((digits.len() - cut) as nat) == 10 * power);
        assert((front * power + back) * 10 + digit == front * (10 * power) + (back * 10 + digit))
            by (nonlinear_arith);
    }
}

/// Rounding a number to its first `cut` digits goes by the first digit that
/// is dropped: up from five on.
pub proof fn lemma_rounding_digit(digits: Seq<u8>, cut: int)
    requires
        all_digits(digits),
        0 <= cut < digits.len(),
    ensures
        round_div(append_digits(0, digits) as int, pow10((digits.len() - cut) as nat) as int)
            == append_digits(0, digits.take(cut)) + (if digits[cut] >= 0x35 {
            1int
        } else {
            0int
        }),
{
    let whole = append_digits(0, digits) as int;
    let kept = append_digits(0, digits.take(cut)) as int;
    let dropped = digits.skip(cut);
    let tail = append_digits(0, dropped) as int;
    let count = (digits.len() - cut) as nat;
    let unit = pow10(count) as int;
    let tenth = pow10((count - 1) as nat) as int;
    let first = (digits[cut] - 0x30) as int;
    let rest = append_digits(0, dropped.skip(1)) as int;
    lemma_digits_split(digits, cut);
    lemma_digits_split(dropped, 1);
    lemma_digits_below_power(dropped.skip(1));
    lemma_pow10_monotone(0, (count - 1) as nat);
    assert(dropped.take(1).drop_last() =~= Seq::<u8>::empty());
    assert(dropped.take(1).last() == digits[cut]);
    assert(append_digits(0, dropped.take(1)) == first) by {
        reveal_with_fuel(append_digits, 2);
    }
    assert(is_digit(digits[cut]));
    assert(unit == 10 * tenth);
    assert(tail == first * tenth + rest);
    assert(0 <= tail < unit) by (nonlinear_arith)
        requires
            tail == first * tenth + rest,
            0 <= rest < tenth,
            0 <= first <= 9,
            unit == 10 * tenth,
    ;
    lemma_fundamental_div_mod_converse(whole, unit, kept, tail);
    lemma_round_div_from_remainder(whole, unit);
    if first >= 5 {
        assert(2 * tail >= unit) by (nonlinear_arith)
            requires
                tail == first * tenth + rest,
                rest >= 0,
                first >= 5,
                tenth > 0,
                unit == 10 * tenth,
        ;
    } else {
        assert(2 * tail < unit) by (nonlinear_arith)
            requires
                tail == first * tenth + rest,
                rest < tenth,
                first <= 4,
                tenth > 0,
                unit == 10 * tenth,
        ;
    }
}

/// A number rounds to zero in units of more than ten times its size.
pub proof fn lemma_small_rounds_to_zero(digits: Seq<u8>, dropped: nat)
    requires
        all_digits(digits),
        dropped > digits.len(),
    ensures
        round_div(append_digits(0, digits) as int, pow10(dropped) as int) == 0,
{
    let whole = append_digits(0, digits) as int;
    let unit = pow10(dropped) as int;
    lemma_digits_below_power(digits);
    lemma_pow10_monotone(digits.len() + 1, dropped);
    assert(pow10(digits.len() + 1) == 10 * pow10(digits.len()));
    lemma_fundamental_div_mod_converse(2 * whole + unit, 2 * unit, 0, 2 * whole + unit);
}

/// Reads the run of digits that starts at `from`, appending them to `start`.
/// Returns where the run ends and the number read, `None` where that number
/// does not fit in 64 bits.
pub fn scan_digits(text: &[u8], from: usize, start: u64) -> (res: (usize, Option<u64>))
    requires
        from <= text@.len(),
    ensures
        res.0 == digits_end(text@, from as int),
        from <= res.0 <= text@.len(),
        match res.1 {
            Some(value) => value == append_digits(
                start as nat,
                text@.subrange(from as int, res.0 as int),
            ),
            None => append_digits(start as nat, text@.subrange(from as int, res.0 as int))
                > u64::MAX,
        },
{
    let mut index: usize = from;
    let mut value: Option<u64> = Some(start);
    assert(text@.subrange(from as int, from as int).len() == 0);
    while index < text.len() && 0x30 <= text[index] && text[index] <= 0x39
        invariant
            from <= index <= text@.len(),
            digits_end(text@, from as int) == digits_end(text@, index as int),
            match value {
                Some(read) => read == append_digits(
                    start as nat,
                    text@.subrange(from as int, index as int),
                ),
                None => append_digits(start as nat, text@.subrange(from as int, index as int))
                    > u64::MAX,
            },
        decreases text@.len() - index,
    {
        let digit: u64 = (text[index] - 0x30) as u64;
        proof {
            let longer = text@.subrange(from as int, index + 1);
            assert(longer.drop_last() =~= text@.subrange(from as int, index as int));
            assert(longer.last() == text@[index as int]);
        }
        value = match value {
            Some(read) => match read.checked_mul(10) {
                Some(shifted) => shifted.checked_add(digit),
                None => None,
            },
            None => None,
        };
        index = index + 1;
    }
    (index, value)
}


/// Whether the shift that is held stands for the shift of the number: it is
/// that shift, or both are so large, or both so small against the count of
/// digits, that the number is out of range or rounds to zero either way.
spec fn stands_for(held: int, shift: int, count: nat) -> bool {
    ||| held == shift
    ||| held >= 39 && shift >= held
    ||| held + MAX_FRACTION_DIGITS + count < 0 && shift <= held
}

/// The largest shift that is held, in size.
const HELD_BOUND: i128 = 0x4_0000_0000_0000_0000i128;

/// The size from which an exponent is so far out that the number is out of
/// range or rounds to zero, whatever its digits: 2^65.
const FAR_EXPONENT: u128 = 0x2_0000_0000_0000_0000u128;

/// A number as it was read: its digits, and the power of ten that they are
/// multiplied by.
struct NumberText {
    digits: Vec<u8>,
    shift: i128,
}

/// Appends the bytes of the text from `from` to `to` to the digits.
fn copy_digits(text: &[u8], from: usize, to: usize, digits: &mut Vec<u8>)
    requires
        from <= to <= text@.len(),
    ensures
        final(digits)@ == old(digits)@ + text@.subrange(from as int, to as int),
{
    let ghost before = digits@;
    let mut index: usize = from;
    assert(digits@ =~= before + text@.subrange(from as int, index as int));
    while index < to
        invariant
            from <= index <= to <= text@.len(),
            digits@ == before + text@.subrange(from as int, index as int),
        decreases to - index,
    {
        digits.push(text[index]);
        index = index + 1;
        assert(digits@ =~= before + text@.subrange(from as int, index as int));
    }
}

/// The number that the first `upto` digits make, `None` where it does not fit
/// in 128 bits.
fn prefix_value(digits: &Vec<u8>, upto: usize) -> (res: Option<u128>)
    requires
        upto <= digits@.len(),
        all_digits(digits@),
    ensures
        res == in_128_bits(append_digits(0, digits@.take(upto as int)) as int),
{
    let mut value: u128 = 0;
    let mut index: usize = 0;
    while index < upto
        invariant
            index <= upto <= digits@.len(),
            all_digits(digits@),
            value == append_digits(0, digits@.take(index as int)),
        decreases upto - index,
    {
        let digit: u128 = (digits[index] - 0x30) as u128;
        proof {
            let longer = digits@.take(index + 1);
            assert(longer.drop_last() =~= digits@.take(index as int));
            assert(longer.last() == digits@[index as int]);
            lemma_prefix_value_grows(digits@, index + 1, upto as int);
        }
        let shifted: u128 = match value.checked_mul(10) {
            Some(product) => product,
            None => {
                return None;
            },
        };
        value = match shifted.checked_add(digit) {
            Some(sum) => sum,
            None => {
                return None;
            },
        };
        index = index + 1;
    }
    Some(value)
}

/// Reads the exponent that starts at `mark` and gives the shift of the
/// number: the exponent less the `behind` digits behind the point.  `None`
/// where no exponent is written there.
fn read_shift(text: &[u8], mark: usize, behind: usize, count: usize) -> (res: Option<i128>)
    requires
        mark < text@.len(),
        mark == fraction_end(text@),
        behind == fraction_end(text@) - fraction_start(text@),
        behind <= count,
    ensures
        match res {
            Some(held) => {
                &&& exponent_is_written(text@)
                &&& stands_for(held as int, number_shift(text@), count as nat)
                &&& -HELD_BOUND <= held <= HELD_BOUND
            },
            None => !exponent_is_written(text@),
        },
{
    if text[mark] != 0x65 && text[mark] != 0x45 {
        return None;
    }
    let negative: bool = mark + 1 < text.len() && text[mark + 1] == 0x2d;
    let start: usize = if mark + 1 < text.len() && (text[mark + 1] == 0x2b || text[mark + 1]
        == 0x2d) {
        mark + 2
    } else {
        mark + 1
    };
    if start >= text.len() {
        return None;
    }
    let (end, _) = scan_digits(text, start, 0);
    if end != text.len() {
        return None;
    }
    let mut exponent: Vec<u8> = Vec::new();
    copy_digits(text, start, end, &mut exponent);
    proof {
        lemma_run_is_digits(text@, start as int);
        assert(exponent@ =~= text@.subrange(start as int, text@.len() as int));
        assert(exponent@.take(exponent@.len() as int) =~= exponent@);
    }
    let length: usize = exponent.len();
    let near: Option<u128> = match prefix_value(&exponent, length) {
        Some(size) => if size < FAR_EXPONENT {
            Some(size)
        } else {
            None
        },
        None => None,
    };
    let held: i128 = match near {
        Some(size) => if negative {
            -(size as i128) - behind as i128
        } else {
            size as i128 - behind as i128
        },
        None => if negative {
            -(count as i128) - 19
        } else {
            39
        },
    };
    Some(held)
}

/// Reads a number: its digits and its shift.
fn read_number(text: &[u8]) -> (res: Option<NumberText>)
    ensures
        match res {
            Some(number) => {
                &&& is_number(text@)
                &&& number.digits@ == number_digits(text@)
                &&& all_digits(number.digits@)
                &&& stands_for(number.shift as int, number_shift(text@), number.digits@.len())
                &&& -HELD_BOUND <= number.shift <= HELD_BOUND
            },
            None => !is_number(text@),
        },
{
    let first: usize = if text.len() > 0 && text[0] == 0x2b {
        1
    } else {
        0
    };
    let (point, _) = scan_digits(text, first, 0);
    let after: usize = if point < text.len() && text[point] == 0x2e {
        point + 1
    } else {
        point
    };
    let (mark, _) = scan_digits(text, after, 0);
    if (point - first) + (mark - after) < 1 {
        return None;
    }
    let mut digits: Vec<u8> = Vec::new();
    copy_digits(text, first, point, &mut digits);
    copy_digits(text, after, mark, &mut digits);
    proof {
        lemma_run_is_digits(text@, first as int);
        lemma_run_is_digits(text@, after as int);
        assert(digits@ =~= number_digits(text@));
    }
    if mark == text.len() {
        return Some(NumberText { digits, shift: -((mark - after) as i128) });
    }
    match read_shift(text, mark, mark - after, digits.len()) {
        Some(shift) => Some(NumberText { digits, shift }),
        None => None,
    }
}

/// The number in units of `10^-places`, rounded to the nearest unit, `None`
/// where that does not fit in 128 bits.
fn scale(number: &NumberText, places: u32, Ghost(shift): Ghost<int>) -> (res: Option<u128>)
    requires
        all_digits(number.digits@),
        places <= MAX_FRACTION_DIGITS,
        -HELD_BOUND <= number.shift <= HELD_BOUND,
        stands_for(number.shift as int, shift, number.digits@.len()),
    ensures
        res == in_128_bits(scaled_value(number.digits@, shift, places as nat)),
{
    let by: i128 = number.shift + places as i128;
    let count: usize = number.digits.len();
    let ghost whole = append_digits(0, number.digits@);
    let ghost exact = shift + places;
    proof {
        assert(number.digits@.take(count as int) =~= number.digits@);
    }
    if by >= 0 {
        let read: u128 = match prefix_value(&number.digits, count) {
            Some(value) => value,
            None => {
                proof {
                    lemma_pow10_monotone(0, exact as nat);
                    assert(whole * pow10(exact as nat) >= whole) by (nonlinear_arith)
                        requires
                            pow10(exact as nat) >= 1,
                            whole >= 0,
                    ;
                }
                return None;
            },
        };
        if read == 0 {
            assert(whole * pow10(exact as nat) == 0) by (nonlinear_arith)
                requires
                    whole == 0,
            ;
            return Some(0);
        }
        if by > MAX_POWER_OF_TEN as i128 {
            proof {
                lemma_pow10_monotone(39, exact as nat);
                lemma_pow10_largest();
                assert(pow10(39) == 10 * pow10(38));
                assert(whole * pow10(exact as nat) > u128::MAX) by (nonlinear_arith)
                    requires
                        pow10(exact as nat) >= 1_000_000_000_000_000_000_000_000_000_000_000_000_000,
                        whole >= 1,
                        u128::MAX == 0xffff_ffff_ffff_ffff_ffff_ffff_ffff_ffff,
                ;
            }
            return None;
        }
        let power: u128 = power_of_ten(by as u32);
        read.checked_mul(power)
    } else {
        if -by > count as i128 {
            proof {
                lemma_small_rounds_to_zero(number.digits@, (-exact) as nat);
            }
            return Some(0);
        }
        let cut: usize = count - ((-by) as usize);
        proof {
            lemma_rounding_digit(number.digits@, cut as int);
        }
        let kept: u128 = match prefix_value(&number.digits, cut) {
            Some(value) => value,
            None => {
                return None;
            },
        };
        if number.digits[cut] >= 0x35 {
            kept.checked_add(1)
        } else {
            Some(kept)
        }
    }
}

/// Reads a number in units of `10^-places`, rounded to the nearest unit.
pub fn parse_scaled(text: &[u8], places: u32) -> (res: Option<u128>)
    requires
        places <= MAX_FRACTION_DIGITS,
    ensures
        res == scaled_of(text@, places as nat),
{
    match read_number(text) {
        Some(number) => scale(&number, places, Ghost(number_shift(text@))),
        None => None,
    }
}

/// Reads a rate.
pub fn parse_rate(text: &[u8]) -> (res: Option<Rate>)
    ensures
        res == rate_of_text(text@),
        res matches Some(rate) ==> rate.divisible_by_year(),
{
    let number = match read_number(text) {
        Some(number) => number,
        None => {
            return None;
        },
    };
    let ghost shift = number_shift(text@);
    let mut places: u32 = if number.shift >= 0 {
        0
    } else if -number.shift <= MAX_FRACTION_DIGITS as i128 {
        (-number.shift) as u32
    } else {
        MAX_FRACTION_DIGITS
    };
    assert(places == written_places(shift));
    loop
        invariant
            places <= MAX_FRACTION_DIGITS,
            all_digits(number.digits@),
            -HELD_BOUND <= number.shift <= HELD_BOUND,
            stands_for(number.shift as int, shift, number.digits@.len()),
            number.digits@ == number_digits(text@),
            shift == number_shift(text@),
            is_number(text@),
            rate_places(text@) == fitting_places(number.digits@, shift, places as nat),
        decreases places,
    {
        let ghost exact = scaled_value(number.digits@, shift, places as nat);
        let fitting: Option<u128> = match scale(&number, places, Ghost(shift)) {
            Some(value) => if value <= u64::MAX as u128 {
                Some(value)
            } else {
                None
            },
            None => None,
        };
        proof {
            lemma_scaled_value_nonnegative(number.digits@, shift, places as nat);
        }
        assert(fitting matches Some(value) ==> value == exact && exact <= u64::MAX);
        assert(fitting is None ==> exact > u64::MAX);
        match fitting {
            Some(numerator) => {
                let denominator: u128 = power_of_ten(places);
                proof {
                    lemma_pow10_largest();
                    lemma_pow10_monotone(places as nat, 18);
                }
                return Some(
                    Rate { numerator: numerator as u64, denominator: denominator as u64 },
                );
            },
            None => {
                if places == 0 {
                    return None;
                }
                places = places - 1;
            },
        }
    }
}

/// Reads a whole number of at most 32 bits.
pub fn parse_whole_number(text: &[u8]) -> (res: Option<u32>)
    ensures
        res == whole_number_of(text@),
{
    let first: usize = if text.len() > 0 && text[0] == 0x2b {
        1
    } else {
        0
    };
    let (end, number) = scan_digits(text, first, 0);
    if end != text.len() || end - first < 1 {
        return None;
    }
    match number {
        Some(value) => if value > u32::MAX as u64 {
            None
        } else {
            Some(value as u32)
        },
        None => None,
    }
}

} // verus!
