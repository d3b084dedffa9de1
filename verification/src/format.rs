//! Numbers, sizes, durations and long texts in the form in which they are shown.

use vstd::prelude::*;
use vstd::string::*;

use crate::double::{nearest, nearest_double, round_half_even, rounded, Fraction, DOUBLE_LIMIT};
use crate::text::{chars_of, decimal, decimal_text, decimal_value, digit, digit_char, padded};
use crate::text::{lemma_decimal_digits, lemma_decimal_reads_back, push_padded, string_of};

verus! {

// ------------------------------------------------------------
// Numbers
// ------------------------------------------------------------

/// `digits` with a comma before each group of three, counted from the end.
pub open spec fn grouped(digits: Seq<char>) -> Seq<char>
    decreases digits.len(),
{
    if digits.len() <= 3 {
        digits
    } else {
        grouped(digits.take(digits.len() - 3)).push(',') + digits.skip(digits.len() - 3)
    }
}

/// `s` without its commas.
pub open spec fn without_commas(s: Seq<char>) -> Seq<char> {
    s.filter(|c: char| c != ',')
}

/// The digits of a number of four digits or more: those of its thousands, then three.
proof fn lemma_last_three_digits(n: nat)
    requires
        n >= 1000,
    ensures
        decimal_text(n) == decimal_text(n / 1000) + seq![
            digit(n / 100 % 10),
            digit(n / 10 % 10),
            digit(n % 10),
        ],
{
    assert(n / 10 / 10 == n / 100);
    assert(n / 100 / 10 == n / 1000);
    assert(decimal_text(n) == decimal_text(n / 10).push(digit(n % 10)));
    assert(decimal_text(n / 10) == decimal_text(n / 100).push(digit(n / 10 % 10)));
    assert(decimal_text(n / 100) == decimal_text(n / 1000).push(digit(n / 100 % 10)));
    assert(decimal_text(n) =~= decimal_text(n / 1000) + seq![
        digit(n / 100 % 10),
        digit(n / 10 % 10),
        digit(n % 10),
    ]);
}

/// A number below a thousand has at most three digits.
proof fn lemma_few_digits(n: nat)
    requires
        n < 1000,
    ensures
        decimal_text(n).len() <= 3,
{
    reveal_with_fuel(decimal_text, 4);
}

/// `number` in decimal digits, with a comma before each group of three.
pub fn format_number(number: u64) -> (r: String)
    ensures
        r@ == grouped(decimal_text(number as nat)),
    decreases number,
{
    if number < 1000 {
        proof {
            lemma_few_digits(number as nat);
        }
        decimal(number)
    } else {
        let mut r = format_number(number / 1000);
        proof {
            lemma_last_three_digits(number as nat);
            lemma_decimal_reads_back(number as nat / 1000);
            let d = decimal_text(number as nat);
            assert(d.take(d.len() - 3) =~= decimal_text(number as nat / 1000));
        }
        r.push(',');
        r.push(digit_char(number / 100 % 10));
        r.push(digit_char(number / 10 % 10));
        r.push(digit_char(number % 10));
        proof {
            let d = decimal_text(number as nat);
            assert(r@ =~= grouped(d.take(d.len() - 3)).push(',') + d.skip(d.len() - 3));
        }
        r
    }
}

proof fn lemma_grouped_without_commas(digits: Seq<char>)
    requires
        !digits.contains(','),
    ensures
        without_commas(grouped(digits)) == digits,
    decreases digits.len(),
{
    let keep = |c: char| c != ',';
    if digits.len() <= 3 {
        lemma_nothing_filtered(digits, keep);
    } else {
        let head = digits.take(digits.len() - 3);
        let tail = digits.skip(digits.len() - 3);
        assert forall|i: int| 0 <= i < head.len() implies head[i] != ',' by {
            assert(digits[i] != ',');
        }
        assert forall|i: int| 0 <= i < tail.len() implies tail[i] != ',' by {
            assert(digits[i + digits.len() - 3] != ',');
        }
        lemma_grouped_without_commas(head);
        lemma_nothing_filtered(tail, keep);
        Seq::filter_distributes_over_add(grouped(head).push(','), tail, keep);
        grouped(head).lemma_filter_push(',', keep);
        assert(head + tail =~= digits);
    }
}

proof fn lemma_nothing_filtered(s: Seq<char>, keep: spec_fn(char) -> bool)
    requires
        forall|i: int| 0 <= i < s.len() ==> keep(#[trigger] s[i]),
    ensures
        s.filter(keep) == s,
    decreases s.len(),
{
    reveal(Seq::filter);
    if s.len() > 0 {
        lemma_nothing_filtered(s.drop_last(), keep);
        assert(s.drop_last().push(s.last()) =~= s);
    } else {
        assert(s.filter(keep) =~= s);
    }
}

/// Grouping adds commas and nothing else: without them the shown number reads back.
pub proof fn lemma_format_number_reads_back(n: nat)
    ensures
        without_commas(grouped(decimal_text(n))) == decimal_text(n),
        decimal_value(without_commas(grouped(decimal_text(n)))) == n,
{
    let d = decimal_text(n);
    assert(!d.contains(',')) by {
        assert forall|i: int| 0 <= i < d.len() implies d[i] != ',' by {
            lemma_decimal_digits(n, i);
        }
    }
    lemma_grouped_without_commas(d);
    lemma_decimal_reads_back(n);
}

// ------------------------------------------------------------
// Sizes
// ------------------------------------------------------------

pub const KB: u64 = 1024;

pub const MB: u64 = 1048576;

pub const GB: u64 = 1073741824;

pub const TB: u64 = 1099511627776;

/// The unit in which a size is shown.
#[derive(Clone, Copy, Debug, PartialEq, Eq, Structural)]
pub enum ByteUnit {
    Byte,
    Kilo,
    Mega,
    Giga,
    Tera,
}

/// The largest unit that `bytes` is at least one of.
pub open spec fn unit_of(bytes: nat) -> ByteUnit {
    if bytes >= TB {
        ByteUnit::Tera
    } else if bytes >= GB {
        ByteUnit::Giga
    } else if bytes >= MB {
        ByteUnit::Mega
    } else if bytes >= KB {
        ByteUnit::Kilo
    } else {
        ByteUnit::Byte
    }
}

/// How many bytes a unit has.
pub open spec fn unit_size(unit: ByteUnit) -> nat {
    match unit {
        ByteUnit::Byte => 1,
        ByteUnit::Kilo => KB as nat,
        ByteUnit::Mega => MB as nat,
        ByteUnit::Giga => GB as nat,
        ByteUnit::Tera => TB as nat,
    }
}

/// What stands behind a size in this unit.
pub open spec fn unit_suffix(unit: ByteUnit) -> Seq<char> {
    match unit {
        ByteUnit::Byte => " B"@,
        ByteUnit::Kilo => " KB"@,
        ByteUnit::Mega => " MB"@,
        ByteUnit::Giga => " GB"@,
        ByteUnit::Tera => " TB"@,
    }
}

/// A size as it is shown: whole bytes below a kilobyte, and hundredths of the largest
/// unit that fits above, of the double-precision value of the size.
pub open spec fn bytes_text(bytes: nat) -> Seq<char> {
    let unit = unit_of(bytes);
    if unit == ByteUnit::Byte {
        decimal_text(bytes) + unit_suffix(unit)
    } else {
        let hundredths = round_half_even(nearest_double(bytes) * 100, unit_size(unit));
        decimal_text(hundredths / 100).push('.') + padded(hundredths % 100, 2) + unit_suffix(unit)
    }
}

/// The largest unit that `bytes` is at least one of.
pub fn byte_unit(bytes: u64) -> (r: ByteUnit)
    ensures
        r == unit_of(bytes as nat),
{
    if bytes >= TB {
        ByteUnit::Tera
    } else if bytes >= GB {
        ByteUnit::Giga
    } else if bytes >= MB {
        ByteUnit::Mega
    } else if bytes >= KB {
        ByteUnit::Kilo
    } else {
        ByteUnit::Byte
    }
}

/// A size as it is shown.
pub fn format_bytes(bytes: u64) -> (r: String)
    ensures
        r@ == bytes_text(bytes as nat),
{
    let unit = byte_unit(bytes);
    let (size, suffix): (u64, &str) = match unit {
        ByteUnit::Byte => (1, " B"),
        ByteUnit::Kilo => (KB, " KB"),
        ByteUnit::Mega => (MB, " MB"),
        ByteUnit::Giga => (GB, " GB"),
        ByteUnit::Tera => (TB, " TB"),
    };
    if unit == ByteUnit::Byte {
        let mut r = decimal(bytes);
        r.append(suffix);
        return r;
    }
    let nearest: u128 = nearest(bytes as u128, DOUBLE_LIMIT);
    let hundredths: u128 = rounded(nearest * 100, size as u128);
    proof {
        assert(nearest * 100 / (size as int) <= nearest * 100 / 1024) by (nonlinear_arith)
            requires
                size >= 1024,
        ;
    }
    let shown: u64 = hundredths as u64;
    let mut r = decimal(shown / 100);
    r.push('.');
    push_padded(&mut r, shown % 100, 2);
    r.append(suffix);
    r
}

// ------------------------------------------------------------
// Fractions
// ------------------------------------------------------------

/// Ten to the power of `places`.
pub open spec fn ten_to(places: nat) -> nat
    decreases places,
{
    if places == 0 {
        1
    } else {
        10 * ten_to((places - 1) as nat)
    }
}

/// A fraction with `places` decimals behind the point, at least one, rounded to the nearest.
pub open spec fn fixed_text(value: (nat, nat), places: nat) -> Seq<char> {
    let scaled = round_half_even(value.0 * ten_to(places), value.1);
    decimal_text(scaled / ten_to(places)).push('.') + padded(scaled % ten_to(places), places)
}

fn ten_power(places: usize) -> (r: u64)
    requires
        places <= 9,
    ensures
        r == ten_to(places as nat),
        1 <= r <= 1_000_000_000,
    decreases places,
{
    proof {
        reveal_with_fuel(ten_to, 10);
    }
    if places == 0 {
        1
    } else {
        10 * ten_power(places - 1)
    }
}

/// `value` with `places` decimals behind the point.
pub fn format_fixed(value: Fraction, places: usize) -> (r: String)
    requires
        1 <= places <= 9,
    ensures
        r@ == fixed_text(value@, places as nat),
{
    let ten: u64 = ten_power(places);
    let n: u64 = value.numerator();
    proof {
        assert(n * ten <= 0x4000_0000_0000_0000 * 1_000_000_000) by (nonlinear_arith)
            requires
                n <= 0x4000_0000_0000_0000,
                ten <= 1_000_000_000,
        ;
    }
    let scaled: u128 = rounded(n as u128 * ten as u128, value.denominator());
    proof {
        assert(scaled / (ten as u128) <= n) by (nonlinear_arith)
            requires
                scaled <= n * ten,
                ten >= 1,
        ;
    }
    let whole: u64 = (scaled / ten as u128) as u64;
    let part: u64 = (scaled % ten as u128) as u64;
    let mut r = decimal(whole);
    r.push('.');
    push_padded(&mut r, part, places);
    r
}

// ------------------------------------------------------------
// Durations
// ------------------------------------------------------------

/// A duration as it is shown: seconds, or minutes and seconds, or hours and minutes.
pub open spec fn duration_text(seconds: nat) -> Seq<char> {
    if seconds < 60 {
        decimal_text(seconds).push('s')
    } else if seconds < 3600 {
        (decimal_text(seconds / 60) + "m "@ + padded(seconds % 60, 2)).push('s')
    } else {
        (decimal_text(seconds / 3600) + "h "@ + padded(seconds / 60 % 60, 2)).push('m')
    }
}

/// A duration of whole seconds as it is shown.
pub fn format_duration(seconds: u64) -> (r: String)
    ensures
        r@ == duration_text(seconds as nat),
{
    if seconds < 60 {
        let mut r = decimal(seconds);
        r.push('s');
        r
    } else if seconds < 3600 {
        let mut r = decimal(seconds / 60);
        r.append("m ");
        push_padded(&mut r, seconds % 60, 2);
        r.push('s');
        r
    } else {
        let mut r = decimal(seconds / 3600);
        r.append("h ");
        push_padded(&mut r, seconds / 60 % 60, 2);
        r.push('m');
        r
    }
}

// ------------------------------------------------------------
// Long texts
// ------------------------------------------------------------

/// How many characters stay at each end of a text that is cut to `maximum`.
pub open spec fn kept_side(maximum: nat) -> nat {
    if maximum < 3 {
        0
    } else {
        (maximum - 3) as nat / 2
    }
}

/// `value`, or its two ends with `...` between them where it is longer than `maximum`.
pub open spec fn middle_truncated(value: Seq<char>, maximum: nat) -> Seq<char> {
    if value.len() <= maximum {
        value
    } else {
        value.take(kept_side(maximum) as int) + "..."@ + value.skip(
            value.len() - kept_side(maximum),
        )
    }
}

/// `value`, or its two ends with `...` between them where it is longer than `maximum`.
pub fn truncate_middle(value: &str, maximum: usize) -> (r: String)
    ensures
        r@ == middle_truncated(value@, maximum as nat),
{
    let chars = chars_of(value);
    if chars.len() <= maximum {
        return value.to_owned();
    }
    let side: usize = if maximum < 3 {
        0
    } else {
        (maximum - 3) / 2
    };
    let mut r = string_of(&chars, 0, side);
    r.append("...");
    let end = string_of(&chars, chars.len() - side, chars.len());
    r.append(end.as_str());
    assert(r@ =~= middle_truncated(value@, maximum as nat));
    r
}

/// A cut text is no longer than asked for, and never longer than three full stops where
/// less than three characters were asked for.
pub proof fn lemma_truncated_length(value: Seq<char>, maximum: nat)
    ensures
        middle_truncated(value, maximum).len() <= if maximum < 3 {
            3
        } else {
            maximum
        },
        value.len() <= maximum ==> middle_truncated(value, maximum) == value,
{
    reveal_strlit("...");
}

/// A cut text begins and ends as the whole text does.
pub proof fn lemma_truncated_keeps_ends(value: Seq<char>, maximum: nat)
    ensures
        value.take(kept_side(maximum) as int).is_prefix_of(middle_truncated(value, maximum))
            || value.len() <= maximum,
        value.len() > maximum ==> value.skip(value.len() - kept_side(maximum)).is_suffix_of(
            middle_truncated(value, maximum),
        ),
{
    if value.len() > maximum {
        let cut = middle_truncated(value, maximum);
        let tail = value.skip(value.len() - kept_side(maximum));
        assert(cut.subrange(0, kept_side(maximum) as int) =~= value.take(
            kept_side(maximum) as int,
        ));
        assert(cut.subrange(cut.len() - tail.len(), cut.len() as int) =~= tail);
    }
}

} // verus!
