//! Laws of the forms in which numbers, sizes, durations and long texts are shown.

use vstd::arithmetic::div_mod::lemma_div_denominator;
use vstd::arithmetic::power::{lemma_pow_positive, pow};
use vstd::prelude::*;
use vstd::string::*;

use crate::double::{nearest_double, round_half_even, MANTISSA_LEAST};
use crate::format::{bytes_text, duration_text, fixed_text, grouped, middle_truncated, ten_to};
use crate::format::{unit_of, ByteUnit};
use crate::laws::arithmetic::{distance, lemma_nearest_is_near, lemma_rounding_is_nearest};
use crate::records::FileView;
use crate::text::{decimal_text, digit, padded};
use crate::view::{elapsed_seconds, suspicious_among};

verus! {

// ------------------------------------------------------------
// Decimal digits
// ------------------------------------------------------------

/// The digit that stands `i` places before the last counts the powers of ten to `i`, and
/// there are as many digits as it takes and no more.
pub proof fn lemma_decimal_digits_count_powers(n: nat, i: nat)
    ensures
        decimal_text(n).len() > 0,
        i < decimal_text(n).len() ==> decimal_text(n)[decimal_text(n).len() - 1 - i] as int
            - '0' as int == n as int / pow(10, i) % 10,
        n < pow(10, decimal_text(n).len()),
        n > 0 ==> n >= pow(10, (decimal_text(n).len() - 1) as nat),
        n == 0 ==> decimal_text(n).len() == 1,
    decreases n,
{
    reveal(pow);
    assert(pow(10, 0) == 1);
    assert(pow(10, 1) == 10 * pow(10, 0));
    let text = decimal_text(n);
    if n < 10 {
        assert(text.len() == 1);
        assert(i == 0 ==> n as int / pow(10, i) == n);
        assert(digit(n) as int - '0' as int == n);
    } else {
        let front = decimal_text(n / 10);
        assert(text.len() == front.len() + 1);
        assert(digit(n % 10) as int - '0' as int == n % 10);
        if i > 0 {
            let less = (i - 1) as nat;
            lemma_decimal_digits_count_powers(n / 10, less);
            lemma_pow_positive(10, less);
            lemma_div_denominator(n as int, 10, pow(10, less));
            assert(pow(10, i) == 10 * pow(10, less));
            if i < text.len() {
                assert(text[text.len() - 1 - i] == front[front.len() - 1 - less]);
            }
        } else {
            lemma_decimal_digits_count_powers(n / 10, 0);
            assert(n as int / pow(10, i) == n);
            assert(text[text.len() - 1 - i] == digit(n % 10));
        }
        assert(pow(10, text.len()) == 10 * pow(10, front.len()));
        assert(pow(10, (text.len() - 1) as nat) == 10 * pow(10, (front.len() - 1) as nat));
    }
}

/// The digit that stands `i` places before the last of a number of fixed width counts the
/// powers of ten to `i`.
pub proof fn lemma_padded_digits_count_powers(n: nat, width: nat, i: nat)
    ensures
        padded(n, width).len() == width,
        i < width ==> padded(n, width)[width - 1 - i] as int - '0' as int == n as int / pow(10, i)
            % 10,
    decreases width,
{
    reveal(pow);
    assert(pow(10, 0) == 1);
    if width > 0 {
        let front = padded(n / 10, (width - 1) as nat);
        assert(digit(n % 10) as int - '0' as int == n % 10);
        if i > 0 {
            let less = (i - 1) as nat;
            lemma_padded_digits_count_powers(n / 10, (width - 1) as nat, less);
            lemma_pow_positive(10, less);
            lemma_div_denominator(n as int, 10, pow(10, less));
            assert(pow(10, i) == 10 * pow(10, less));
            if i < width {
                assert(padded(n, width)[width - 1 - i] == front[width - 1 - 1 - less]);
            }
        } else {
            lemma_padded_digits_count_powers(n / 10, (width - 1) as nat, 0);
            assert(n as int / pow(10, i) == n);
            assert(padded(n, width)[width - 1] == digit(n % 10));
        }
    }
}

/// A number is shown with a comma at every fourth place from the end, and its digits in
/// their order at the others.
pub proof fn lemma_commas_at_every_fourth_place(digits: Seq<char>, i: int)
    requires
        digits.len() > 0,
    ensures
        grouped(digits).len() == digits.len() + (digits.len() - 1) / 3,
        0 <= i < grouped(digits).len() && i % 4 == 3 ==> grouped(digits)[grouped(digits).len() - 1
            - i] == ',',
        0 <= i < grouped(digits).len() && i % 4 != 3 ==> grouped(digits)[grouped(digits).len() - 1
            - i] == digits[digits.len() - 1 - (i - i / 4)],
    decreases digits.len(),
{
    let shown = grouped(digits);
    if digits.len() > 3 {
        let head = digits.take(digits.len() - 3);
        let tail = digits.skip(digits.len() - 3);
        let front = grouped(head);
        lemma_commas_at_every_fourth_place(head, i - 4);
        assert(shown.len() == front.len() + 4);
        if 0 <= i < 3 {
            assert(shown[shown.len() - 1 - i] == tail[2 - i]);
        } else if i == 3 {
            assert(shown[shown.len() - 1 - i] == ',');
        } else if 4 <= i < shown.len() {
            assert(shown[shown.len() - 1 - i] == front[front.len() - 1 - (i - 4)]);
            if i % 4 != 3 {
                assert(head[head.len() - 1 - ((i - 4) - (i - 4) / 4)] == digits[head.len() - 1 - ((i
                    - 4) - (i - 4) / 4)]);
            }
        }
    }
}

// ------------------------------------------------------------
// Sizes
// ------------------------------------------------------------

/// The two digits of a number below a hundred.
pub open spec fn two_digits(n: nat) -> Seq<char> {
    seq![('0' as int + n / 10) as char, ('0' as int + n % 10) as char]
}

proof fn lemma_padded_two(n: nat)
    requires
        n < 100,
    ensures
        padded(n, 2) == two_digits(n),
{
    reveal_with_fuel(padded, 3);
    assert(padded(n, 2) =~= two_digits(n));
}

/// The unit of a size is the largest that the size is not below, and each has 1024 of the
/// one before.
pub proof fn lemma_units(bytes: nat)
    ensures
        unit_of(bytes) == ByteUnit::Byte <==> bytes < 1024,
        unit_of(bytes) == ByteUnit::Kilo <==> 1024 <= bytes < 1024 * 1024,
        unit_of(bytes) == ByteUnit::Mega <==> 1024 * 1024 <= bytes < 1024 * 1024 * 1024,
        unit_of(bytes) == ByteUnit::Giga <==> 1024 * 1024 * 1024 <= bytes < 1024 * 1024 * 1024
            * 1024,
        unit_of(bytes) == ByteUnit::Tera <==> 1024 * 1024 * 1024 * 1024 <= bytes,
{
}

/// Below a kilobyte a size is shown in bytes.
pub proof fn lemma_small_sizes(bytes: nat)
    requires
        bytes < 1024,
    ensures
        bytes_text(bytes) == decimal_text(bytes) + seq![' ', 'B'],
{
    reveal_strlit(" B");
    assert(" B"@ =~= seq![' ', 'B']);
}

/// From a kilobyte on a size is shown in hundredths of a unit, which is the largest that
/// the size is not below. The number of hundredths is right to half of one, and to one
/// part in two to the power of 53 of the size where that is not less than this power.
pub proof fn lemma_large_sizes(bytes: nat) -> (r: (nat, nat, char))
    requires
        bytes >= 1024,
    ensures
        ({
            let (hundredths, unit, letter) = r;
            &&& bytes_text(bytes) == decimal_text(hundredths / 100) + seq!['.'] + two_digits(
                hundredths % 100,
            ) + seq![' ', letter, 'B']
            &&& (unit == 1024 && letter == 'K') || (unit == 1024 * 1024 && letter == 'M') || (unit
                == 1024 * 1024 * 1024 && letter == 'G') || (unit == 1024 * 1024 * 1024 * 1024
                && letter == 'T')
            &&& unit <= bytes
            &&& bytes < 1024 * unit || letter == 'T'
            &&& bytes < 0x20_0000_0000_0000 ==> 2 * distance(hundredths * unit, bytes * 100) <= unit
            &&& (2 * distance(hundredths * unit, bytes * 100)) * 0x20_0000_0000_0000 <= unit
                * 0x20_0000_0000_0000 + 200 * bytes
        }),
{
    reveal_strlit(" KB");
    reveal_strlit(" MB");
    reveal_strlit(" GB");
    reveal_strlit(" TB");
    assert(" KB"@ =~= seq![' ', 'K', 'B']);
    assert(" MB"@ =~= seq![' ', 'M', 'B']);
    assert(" GB"@ =~= seq![' ', 'G', 'B']);
    assert(" TB"@ =~= seq![' ', 'T', 'B']);
    let (unit, letter) = if bytes >= 1099511627776 {
        (1099511627776nat, 'T')
    } else if bytes >= 1073741824 {
        (1073741824nat, 'G')
    } else if bytes >= 1048576 {
        (1048576nat, 'M')
    } else {
        (1024nat, 'K')
    };
    let value = nearest_double(bytes);
    let hundredths = round_half_even(value * 100, unit);
    lemma_rounding_is_nearest(value * 100, unit);
    lemma_nearest_is_near(bytes, MANTISSA_LEAST as nat);
    lemma_padded_two(hundredths % 100);
    assert(decimal_text(hundredths / 100).push('.') =~= decimal_text(hundredths / 100) + seq!['.']);
    let away = distance(hundredths * unit, value * 100);
    let off = distance(value, bytes);
    assert(distance(hundredths * unit, bytes * 100) <= away + 100 * off);
    assert(off * 0x20_0000_0000_0000 <= bytes);
    assert(bytes < 0x20_0000_0000_0000 ==> off == 0);
    assert(2 * away <= unit);
    let all = distance(hundredths * unit, bytes * 100);
    assert((2 * all) * 0x20_0000_0000_0000 <= unit * 0x20_0000_0000_0000 + 200 * bytes)
        by (nonlinear_arith)
        requires
            all <= away + 100 * off,
            2 * away <= unit,
            off * 0x20_0000_0000_0000 <= bytes,
    ;
    assert(bytes_text(bytes) == decimal_text(hundredths / 100) + seq!['.'] + two_digits(
        hundredths % 100,
    ) + seq![' ', letter, 'B']);
    (hundredths, unit, letter)
}

// ------------------------------------------------------------
// Fractions
// ------------------------------------------------------------

/// A fraction is shown with as many digits behind the point as asked for, and is right to
/// half of the last one.
pub proof fn lemma_fixed_is_nearest(value: (nat, nat), places: nat) -> (scaled: nat)
    requires
        value.1 > 0,
    ensures
        fixed_text(value, places) == decimal_text(scaled / pow(10, places) as nat) + seq!['.']
            + padded(scaled % pow(10, places) as nat, places),
        2 * distance(scaled * value.1, value.0 * pow(10, places) as nat) <= value.1,
{
    let scaled = round_half_even(value.0 * ten_to(places), value.1);
    lemma_ten_to(places);
    lemma_rounding_is_nearest(value.0 * ten_to(places), value.1);
    let whole = decimal_text(scaled / ten_to(places));
    assert(whole.push('.') =~= whole + seq!['.']);
    scaled
}

proof fn lemma_ten_to(places: nat)
    ensures
        ten_to(places) == pow(10, places),
        pow(10, places) > 0,
    decreases places,
{
    reveal(pow);
    if places > 0 {
        lemma_ten_to((places - 1) as nat);
    }
}

// ------------------------------------------------------------
// Durations
// ------------------------------------------------------------

/// A duration is shown in seconds below a minute, in minutes and seconds below an hour,
/// and in hours and minutes from there on.
pub proof fn lemma_duration_parts(hours: nat, minutes: nat, seconds: nat)
    requires
        minutes < 60,
        seconds < 60,
    ensures
        hours == 0 && minutes == 0 ==> duration_text(hours * 3600 + minutes * 60 + seconds)
            == decimal_text(seconds) + seq!['s'],
        hours == 0 && minutes > 0 ==> duration_text(hours * 3600 + minutes * 60 + seconds)
            == decimal_text(minutes) + seq!['m', ' '] + two_digits(seconds) + seq!['s'],
        hours > 0 ==> duration_text(hours * 3600 + minutes * 60 + seconds) == decimal_text(hours)
            + seq!['h', ' '] + two_digits(minutes) + seq!['m'],
{
    reveal_strlit("m ");
    reveal_strlit("h ");
    assert("m "@ =~= seq!['m', ' ']);
    assert("h "@ =~= seq!['h', ' ']);
    lemma_padded_two(seconds);
    lemma_padded_two(minutes);
    let all = hours * 3600 + minutes * 60 + seconds;
    assert(all / 3600 == hours);
    assert(all / 60 == hours * 60 + minutes);
    assert(all / 60 % 60 == minutes);
    assert(all % 60 == seconds);
    assert(decimal_text(seconds).push('s') =~= decimal_text(seconds) + seq!['s']);
    let m = decimal_text(minutes) + seq!['m', ' '] + two_digits(seconds);
    assert(m.push('s') =~= m + seq!['s']);
    let h = decimal_text(hours) + seq!['h', ' '] + two_digits(minutes);
    assert(h.push('m') =~= h + seq!['m']);
}

/// The seconds that have passed are the whole ones.
pub proof fn lemma_elapsed_seconds(start: u64, now: u64)
    ensures
        start <= now ==> start + elapsed_seconds(start, now) * 1_000_000_000 <= now < start + (
        elapsed_seconds(start, now) + 1) * 1_000_000_000,
        start > now ==> elapsed_seconds(start, now) == 0,
{
}

// ------------------------------------------------------------
// Long texts
// ------------------------------------------------------------

/// A text that is not longer than asked for is shown whole. Of a longer one the same number
/// of characters is shown from the beginning and from the end, as many as there is room for
/// beside three full stops, which stand between them.
pub proof fn lemma_truncated_is_two_ends(value: Seq<char>, maximum: nat, side: nat)
    requires
        2 * side + 3 == maximum || 2 * side + 4 == maximum || (side == 0 && maximum < 3),
    ensures
        value.len() <= maximum ==> middle_truncated(value, maximum) == value,
        value.len() > maximum ==> {
            &&& middle_truncated(value, maximum).len() == 2 * side + 3
            &&& forall|i: int|
                0 <= i < side ==> #[trigger] middle_truncated(value, maximum)[i] == value[i]
            &&& forall|i: int|
                0 <= i < 3 ==> #[trigger] middle_truncated(value, maximum)[side + i] == '.'
            &&& forall|i: int|
                0 <= i < side ==> #[trigger] middle_truncated(value, maximum)[2 * side + 2 - i]
                    == value[value.len() - 1 - i]
        },
{
    reveal_strlit("...");
}

// ------------------------------------------------------------
// Counts
// ------------------------------------------------------------

/// The number of suspicious files is that of the files that are flagged.
pub proof fn lemma_suspicious_are_counted(files: Seq<FileView>)
    ensures
        suspicious_among(files) == files.filter(|f: FileView| f.suspicious).len(),
    decreases files.len(),
{
    reveal(Seq::filter);
    if files.len() > 0 {
        lemma_suspicious_are_counted(files.drop_last());
    }
}

} // verus!
