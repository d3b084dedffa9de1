//! Laws of the charts.

use vstd::arithmetic::power::pow;
use vstd::prelude::*;
use vstd::string::*;

use crate::chart::{double_total, legend_length, legend_line, rest_count, shown_count, slices_of};
use crate::chart::{sum_of_slices, window_slice, SliceView, COLORS, OTHER_COLOR};
use crate::double::{double_quotient, nearest_double, nearest_single, percentage_of};
use crate::double::{single_percent, single_share, MANTISSA_LEAST};
use crate::format::{fixed_text, grouped};
use crate::laws::arithmetic::{distance, lemma_nearest_is_near, lemma_percentage_is_the_share};
use crate::laws::arithmetic::{lemma_nothing_is_0_percent, lemma_quotient_is_near, ACCURACY};
use crate::laws::showing::{lemma_fixed_is_nearest, two_digits};
use crate::records::StatView;
use crate::statistics::sum_of_counts;
use crate::text::{decimal_text, padded};

verus! {

// ------------------------------------------------------------
// Slices
// ------------------------------------------------------------

/// The counts of lines add up, line by line.
pub proof fn lemma_counts_add_up(a: Seq<StatView>, b: Seq<StatView>, line: StatView)
    ensures
        sum_of_counts(Seq::empty()) == 0,
        sum_of_counts(seq![line]) == line.count,
        sum_of_counts(a + b) == sum_of_counts(a) + sum_of_counts(b),
    decreases b.len(),
{
    reveal_with_fuel(sum_of_counts, 2);
    assert(seq![line].drop_last() =~= Seq::empty());
    if b.len() == 0 {
        assert(a + b =~= a);
    } else {
        lemma_counts_add_up(a, b.drop_last(), line);
        assert((a + b).drop_last() =~= a + b.drop_last());
    }
}

/// A color as one number: red, green and blue in base 256.
pub open spec fn color_code(color: [u8; 3]) -> nat {
    (color@[0] * 65536 + color@[1] * 256 + color@[2]) as nat
}

/// The colors of the first slices.
pub open spec fn palette() -> Seq<nat> {
    seq![
        0x2ecc71nat,
        0x3498dbnat,
        0xe74c3cnat,
        0x9b59b6nat,
        0xf1c40fnat,
        0xe67e22nat,
        0x1abc9cnat,
        0x34495enat,
        0xf39c12nat,
        0xc0392bnat,
        0x2980b9nat,
        0x8e44adnat,
        0x27ae60nat,
        0xd35400nat,
    ]
}

/// Each of the first fourteen extensions has a slice of its own, in their order, with its
/// name, its count and a color that no other slice has.
pub proof fn lemma_first_extensions_have_slices(stats: Seq<StatView>, i: int)
    requires
        0 <= i < stats.len(),
        i < 14,
    ensures
        i < slices_of(stats).len(),
        slices_of(stats)[i].label == stats[i].extension,
        slices_of(stats)[i].count == stats[i].count,
        color_code(slices_of(stats)[i].color) == palette()[i],
        palette()[i] != 0x6e6e78,
        forall|k: int| 0 <= k < i ==> #[trigger] palette()[k] != palette()[i],
{
    let color = slices_of(stats)[i].color;
    assert(i % 20 == i);
    assert(color == COLORS@[i]);
    lemma_palette(i);
}

proof fn lemma_palette(i: int)
    requires
        0 <= i < 14,
    ensures
        color_code(COLORS@[i]) == palette()[i],
{
    let all = COLORS@;
    assert(all[0]@ =~= seq![46u8, 204, 113]);
    assert(all[1]@ =~= seq![52u8, 152, 219]);
    assert(all[2]@ =~= seq![231u8, 76, 60]);
    assert(all[3]@ =~= seq![155u8, 89, 182]);
    assert(all[4]@ =~= seq![241u8, 196, 15]);
    assert(all[5]@ =~= seq![230u8, 126, 34]);
    assert(all[6]@ =~= seq![26u8, 188, 156]);
    assert(all[7]@ =~= seq![52u8, 73, 94]);
    assert(all[8]@ =~= seq![243u8, 156, 18]);
    assert(all[9]@ =~= seq![192u8, 57, 43]);
    assert(all[10]@ =~= seq![41u8, 128, 185]);
    assert(all[11]@ =~= seq![142u8, 68, 173]);
    assert(all[12]@ =~= seq![39u8, 174, 96]);
    assert(all[13]@ =~= seq![211u8, 84, 0]);
}

/// The extensions behind the first fourteen share one slice, which counts all of their
/// files, and is left out where there are none.
pub proof fn lemma_the_others_share_a_slice(stats: Seq<StatView>)
    ensures
        stats.len() <= 14 ==> slices_of(stats).len() == stats.len() && rest_count(stats) == 0,
        stats.len() > 14 ==> rest_count(stats) == sum_of_counts(stats.skip(14)),
        stats.len() > 14 && sum_of_counts(stats.skip(14)) == 0 ==> slices_of(stats).len() == 14,
        stats.len() > 14 && sum_of_counts(stats.skip(14)) > 0 ==> {
            &&& slices_of(stats).len() == 15
            &&& slices_of(stats)[14].label == seq!['O', 't', 'h', 'e', 'r']
            &&& slices_of(stats)[14].count == sum_of_counts(stats.skip(14))
            &&& color_code(slices_of(stats)[14].color) == 0x6e6e78
        },
{
    reveal_strlit("Other");
    assert("Other"@ =~= seq!['O', 't', 'h', 'e', 'r']);
    assert(OTHER_COLOR@ =~= seq![110u8, 110, 120]);
}

// ------------------------------------------------------------
// Shares
// ------------------------------------------------------------

/// A share in percent that is right to one part in `accuracy` is shown right to half of
/// the last digit and that part.
proof fn lemma_shown_share(p: nat, u: nat, n: nat, d: nat, t: nat, shown: nat, accuracy: nat)
    requires
        u > 0,
        distance(p * d, 100 * (n * u)) * accuracy <= 100 * (n * u),
        2 * distance(shown * u, p * t) <= u,
    ensures
        (2 * accuracy) * distance(shown * d, 100 * (t * n)) <= accuracy * d + 200 * (t * n),
{
    let a = shown * d;
    let b = 100 * (t * n);
    let first = distance(shown * u, p * t);
    let second = distance(p * d, 100 * (n * u));
    let x = (shown * u) * d;
    let y = (p * t) * d;
    let z = (100 * (n * u)) * t;
    assert(distance(x, y) == first * d) by (nonlinear_arith)
        requires
            x == (shown * u) * d,
            y == (p * t) * d,
            first == distance(shown * u, p * t),
    ;
    assert(distance(y, z) == second * t) by (nonlinear_arith)
        requires
            y == (p * t) * d,
            z == (100 * (n * u)) * t,
            second == distance(p * d, 100 * (n * u)),
    ;
    assert(distance(x, z) == distance(a, b) * u) by (nonlinear_arith)
        requires
            x == (shown * u) * d,
            z == (100 * (n * u)) * t,
            a == shown * d,
            b == 100 * (t * n),
    ;
    assert(2 * (first * d) <= u * d) by (nonlinear_arith)
        requires
            2 * first <= u,
    ;
    assert((second * t) * accuracy <= b * u) by (nonlinear_arith)
        requires
            second * accuracy <= 100 * (n * u),
            b == 100 * (t * n),
    ;
    assert((2 * accuracy) * (first * d + second * t) <= accuracy * (u * d) + 2 * (b * u))
        by (nonlinear_arith)
        requires
            2 * (first * d) <= u * d,
            (second * t) * accuracy <= b * u,
    ;
    let whole = accuracy * d + 200 * (t * n);
    assert(((2 * accuracy) * distance(a, b)) * u <= whole * u) by (nonlinear_arith)
        requires
            distance(a, b) * u <= first * d + second * t,
            (2 * accuracy) * (first * d + second * t) <= accuracy * (u * d) + 2 * (b * u),
            whole == accuracy * d + 200 * (t * n),
            b == 100 * (t * n),
    {
        assert(accuracy * (u * d) + 2 * (b * u) == whole * u);
        assert((2 * accuracy) * (distance(a, b) * u) <= (2 * accuracy) * (first * d + second * t));
        assert(((2 * accuracy) * distance(a, b)) * u == (2 * accuracy) * (distance(a, b) * u));
    }
    assert((2 * accuracy) * distance(a, b) <= whole) by (nonlinear_arith)
        requires
            ((2 * accuracy) * distance(a, b)) * u <= whole * u,
            u > 0,
    ;
}

/// A line of the legend stands 35 below the line before it, has the color of its slice,
/// and tells its label and its share of all files in percent, right to half of the second
/// decimal.
pub proof fn lemma_legend_tells_the_share(slices: Seq<SliceView>, total: nat, i: int) -> (r: nat)
    requires
        0 <= i < slices.len(),
        0 < slices[i].count <= total,
    ensures
        legend_line(slices, total, i).y == 125 + 35 * i,
        legend_line(slices, total, i).color == slices[i].color,
        legend_line(slices, total, i).text == slices[i].label + seq![' ', ' ', ' '] + (decimal_text(
            r / 100,
        ) + seq!['.'] + two_digits(r % 100)) + seq!['%'],
        (2 * ACCURACY) * distance(r * total, 10000 * slices[i].count) <= ACCURACY * total + 20000
            * slices[i].count,
{
    reveal_strlit("   ");
    reveal_strlit("%");
    assert("   "@ =~= seq![' ', ' ', ' ']);
    assert("%"@ =~= seq!['%']);
    let n = slices[i].count;
    let value = percentage_of(n, total);
    lemma_percentage_is_the_share(n, total);
    let r = lemma_fixed_is_nearest(value, 2);
    lemma_hundred(r);
    lemma_shown_share(value.0, value.1, n, total, 100, r, ACCURACY as nat);
    r
}

proof fn lemma_hundred(n: nat)
    ensures
        pow(10, 2) == 100,
        pow(10, 1) == 10,
        padded(n % 100, 2) == two_digits(n % 100),
        padded(n % 10, 1) == seq![('0' as int + n % 10) as char],
{
    reveal(pow);
    reveal_with_fuel(pow, 3);
    reveal_with_fuel(padded, 3);
    assert(padded(n % 100, 2) =~= two_digits(n % 100));
    assert(padded(n % 10, 1) =~= seq![('0' as int + n % 10) as char]);
}

/// A slice without files has no share in the legends, and no text on it.
pub proof fn lemma_empty_slice(slices: Seq<SliceView>, total: nat, i: int)
    requires
        0 <= i < slices.len(),
        slices[i].count == 0,
    ensures
        legend_line(slices, total, i).text == slices[i].label + seq![' ', ' ', ' '] + seq![
            '0',
            '.',
            '0',
            '0',
            '%',
        ],
        legend_line(slices, total, i).y == 125 + 35 * i,
        legend_line(slices, total, i).color == slices[i].color,
        window_slice(slices, i).color == slices[i].color,
        window_slice(slices, i).share.0 == 0,
        window_slice(slices, i).label is None,
        window_slice(slices, i).legend == slices[i].label + seq![' ', ' '] + seq![
            '0',
            '.',
            '0',
            '0',
            '%',
        ] + seq![' ', ' ', '('] + seq!['0'] + seq![')'],
{
    reveal_strlit("   ");
    reveal_strlit("  ");
    reveal_strlit("  (");
    reveal_strlit(")");
    reveal_strlit("%");
    assert("   "@ =~= seq![' ', ' ', ' ']);
    assert("  "@ =~= seq![' ', ' ']);
    assert("  ("@ =~= seq![' ', ' ', '(']);
    assert(")"@ =~= seq![')']);
    assert("%"@ =~= seq!['%']);
    lemma_nothing_is_0_percent(0, total);
    lemma_nearest_is_near(0, MANTISSA_LEAST as nat);
    lemma_nearest_is_near(0, 8388608);
    let nothing = (0nat, 1nat);
    let r = lemma_fixed_is_nearest(nothing, 2);
    lemma_hundred(r);
    assert(r == 0);
    assert(two_digits(0) =~= seq!['0', '0']);
    assert(decimal_text(0) =~= seq!['0']);
    assert(grouped(decimal_text(0)) =~= seq!['0']);
    let shown = fixed_text(nothing, 2);
    assert(shown =~= seq!['0', '.', '0', '0']);
    assert(shown + seq!['%'] =~= seq!['0', '.', '0', '0', '%']);
    assert(slices[i].label + seq![' ', ' ', ' '] + shown + seq!['%'] =~= slices[i].label + seq![
        ' ',
        ' ',
        ' ',
    ] + seq!['0', '.', '0', '0', '%']);
}

/// The legend has a line for each slice, up to twenty.
pub proof fn lemma_legend_length(slices: nat)
    ensures
        slices <= 20 ==> legend_length(slices) == slices,
        slices > 20 ==> legend_length(slices) == 20,
{
}

/// Below two to the power of 53 the number of files is added up exactly.
pub proof fn lemma_double_total_is_exact(slices: Seq<SliceView>)
    requires
        sum_of_slices(slices) < 0x20_0000_0000_0000,
    ensures
        double_total(slices) == sum_of_slices(slices),
    decreases slices.len(),
{
    if slices.len() > 0 {
        lemma_double_total_is_exact(slices.drop_last());
        lemma_nearest_is_near(slices.last().count, MANTISSA_LEAST as nat);
        lemma_nearest_is_near(sum_of_slices(slices), MANTISSA_LEAST as nat);
    }
}

/// How right the shares in single precision are: to one part in two to the power of 21.
pub const SINGLE_ACCURACY: u64 = 2097152;

proof fn lemma_single_share(n: nat, d: nat)
    requires
        0 < n,
        0 < d,
    ensures
        single_share(n, d).1 > 0,
        distance(single_share(n, d).0 * d, n * single_share(n, d).1) * (2 * SINGLE_ACCURACY) <= n
            * single_share(n, d).1,
        distance(single_percent(single_share(n, d)).0 * d, 100 * (n * single_share(n, d).1))
            * SINGLE_ACCURACY <= 100 * (n * single_share(n, d).1),
{
    let q = double_quotient(n, d);
    let m = q.0;
    let u = q.1;
    let s = nearest_single(m);
    let p = nearest_single(100 * s);
    lemma_quotient_is_near(n, d);
    lemma_nearest_is_near(m, 8388608);
    lemma_nearest_is_near(100 * s, 8388608);
    let z = n * u;
    let y = m * d;
    let x = s * d;
    let w = p * d;
    let one = distance(s, m) * d;
    let two = distance(p, 100 * s) * d;
    assert(distance(x, y) == one) by (nonlinear_arith)
        requires
            x == s * d,
            y == m * d,
            one == distance(s, m) * d,
    ;
    assert(distance(w, 100 * x) == two) by (nonlinear_arith)
        requires
            w == p * d,
            x == s * d,
            two == distance(p, 100 * s) * d,
    ;
    assert(one * 16777216 <= y) by (nonlinear_arith)
        requires
            distance(s, m) * 16777216 <= m,
            one == distance(s, m) * d,
            y == m * d,
    ;
    assert(two * 16777216 <= 100 * x) by (nonlinear_arith)
        requires
            distance(p, 100 * s) * 16777216 <= 100 * s,
            two == distance(p, 100 * s) * d,
            x == s * d,
    ;
    let far = distance(y, z);
    assert(far * 9007199254740992 <= z);
    assert(y <= z + far);
    assert(x <= y + one);
    assert(distance(x, z) <= one + far);
    let off = distance(x, z);
    let all = distance(w, 100 * z);
    assert(all <= two + 100 * off);
    assert(off * (2 * SINGLE_ACCURACY) <= z && all * SINGLE_ACCURACY <= 100 * z)
        by (nonlinear_arith)
        requires
            SINGLE_ACCURACY == 2097152,
            off <= one + far,
            all <= two + 100 * off,
            one * 16777216 <= y,
            two * 16777216 <= 100 * x,
            far * 9007199254740992 <= z,
            y <= z + far,
            x <= y + one,
    ;
}

/// In the chart in the window a slice has the share of its count in all files, up to
/// rounding; its line of the legend tells its label, its share in percent, right to half of
/// the second decimal, and its count.
pub proof fn lemma_window_tells_the_share(slices: Seq<SliceView>, i: int) -> (r: nat)
    requires
        0 <= i < slices.len(),
        0 < slices[i].count,
        slices[i].count <= sum_of_slices(slices) < 0x20_0000_0000_0000,
    ensures
        window_slice(slices, i).color == slices[i].color,
        window_slice(slices, i).share.1 > 0,
        distance(
            window_slice(slices, i).share.0 * sum_of_slices(slices),
            slices[i].count * window_slice(slices, i).share.1,
        ) * SINGLE_ACCURACY <= slices[i].count * window_slice(slices, i).share.1,
        window_slice(slices, i).legend == slices[i].label + seq![' ', ' '] + (decimal_text(r / 100)
            + seq!['.'] + two_digits(r % 100) + seq!['%']) + seq![' ', ' ', '(']
            + grouped(decimal_text(slices[i].count)) + seq![')'],
        (2 * SINGLE_ACCURACY) * distance(r * sum_of_slices(slices), 10000 * slices[i].count)
            <= SINGLE_ACCURACY * sum_of_slices(slices) + 20000 * slices[i].count,
{
    reveal_strlit("  ");
    reveal_strlit("  (");
    reveal_strlit(")");
    reveal_strlit("%");
    assert("  "@ =~= seq![' ', ' ']);
    assert("  ("@ =~= seq![' ', ' ', '(']);
    assert(")"@ =~= seq![')']);
    assert("%"@ =~= seq!['%']);
    let n = slices[i].count;
    let total = sum_of_slices(slices);
    lemma_double_total_is_exact(slices);
    lemma_nearest_is_near(n, MANTISSA_LEAST as nat);
    assert(nearest_double(n) == n);
    assert(shown_count(n) == n);
    lemma_single_share(n, total);
    let share = single_share(n, total);
    let off = distance(share.0 * total, n * share.1);
    assert(off * SINGLE_ACCURACY <= n * share.1) by (nonlinear_arith)
        requires
            off * (2 * SINGLE_ACCURACY) <= n * share.1,
            off >= 0,
    ;
    let value = single_percent(share);
    let r = lemma_fixed_is_nearest(value, 2);
    lemma_hundred(r);
    lemma_shown_share(value.0, value.1, n, total, 100, r, SINGLE_ACCURACY as nat);
    r
}

/// In the chart in the window a slice of more than four percent has a text on it, and one
/// of less has none. The text is its share in percent, right to half of the first decimal.
pub proof fn lemma_window_labels_large_slices(slices: Seq<SliceView>, i: int) -> (r: nat)
    requires
        0 <= i < slices.len(),
        0 < slices[i].count,
        slices[i].count <= sum_of_slices(slices) < 0x20_0000_0000_0000,
    ensures
        slices[i].count * 25 * 1048575 >= sum_of_slices(slices) * 1048576 ==> window_slice(
            slices,
            i,
        ).label is Some,
        slices[i].count * 25 * 1048577 <= sum_of_slices(slices) * 1048576 ==> window_slice(
            slices,
            i,
        ).label is None,
        window_slice(slices, i).label matches Some(text) ==> text == decimal_text(r / 10) + seq![
            '.',
            ('0' as int + r % 10) as char,
            '%',
        ],
        (2 * SINGLE_ACCURACY) * distance(r * sum_of_slices(slices), 1000 * slices[i].count)
            <= SINGLE_ACCURACY * sum_of_slices(slices) + 2000 * slices[i].count,
{
    reveal_strlit("%");
    assert("%"@ =~= seq!['%']);
    let n = slices[i].count;
    let total = sum_of_slices(slices);
    lemma_double_total_is_exact(slices);
    lemma_nearest_is_near(n, MANTISSA_LEAST as nat);
    lemma_single_share(n, total);
    let share = single_share(n, total);
    let value = single_percent(share);
    let r = lemma_fixed_is_nearest(value, 1);
    lemma_hundred(r);
    lemma_shown_share(value.0, value.1, n, total, 10, r, SINGLE_ACCURACY as nat);
    assert(decimal_text(r / 10) + seq!['.'] + seq![('0' as int + r % 10) as char] + seq!['%']
        =~= decimal_text(r / 10) + seq!['.', ('0' as int + r % 10) as char, '%']);
    let s = share.0;
    let u = share.1;
    let x = s * total;
    let z = n * u;
    if n * 25 * 1048575 >= total * 1048576 {
        assert(s * 268435456 >= 10737418 * u) by (nonlinear_arith)
            requires
                x == s * total,
                z == n * u,
                distance(x, z) * 4194304 <= z,
                n * 25 * 1048575 >= total * 1048576,
                u > 0,
                total > 0,
        {
            assert(x * 4194304 >= z * 4194303);
            assert(z * (25 * 1048575) >= (total * u) * 1048576);
            assert(x * 4194304 * (25 * 1048575) >= (total * u) * 1048576 * 4194303);
            assert(s * 268435456 < 10737418 * u ==> x * 268435456 < (total * u) * 10737418);
        }
    }
    if n * 25 * 1048577 <= total * 1048576 {
        assert(s * 268435456 < 10737418 * u) by (nonlinear_arith)
            requires
                x == s * total,
                z == n * u,
                distance(x, z) * 4194304 <= z,
                n * 25 * 1048577 <= total * 1048576,
                u > 0,
                total > 0,
        {
            assert(x * 4194304 <= z * 4194305);
            assert(z * (25 * 1048577) <= (total * u) * 1048576);
            assert(x * 4194304 * (25 * 1048577) <= (total * u) * 1048576 * 4194305);
            assert(total * u > 0);
            assert(s * 268435456 >= 10737418 * u ==> x * 268435456 >= (total * u) * 10737418);
        }
    }
    r
}

} // verus!
