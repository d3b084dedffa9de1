//! The pie chart of the extensions: its slices, and the texts in it.

use vstd::prelude::*;
use vstd::string::*;

use crate::double::{lemma_nearest_positive, nearest, nearest_double, percentage, percentage_of};
use crate::double::{share, share_percent, single_percent, single_share, Fraction, DOUBLE_LIMIT};
use crate::format::{fixed_text, format_fixed, format_number, grouped};
use crate::names::{sanitize_filename, sanitized};
use crate::records::{stat_views, ExtensionStat, ScanSource, StatView};
use crate::statistics::sum_of_counts;
use crate::text::decimal_text;

verus! {

/// How many extensions have a slice of their own.
pub const MAX_PIE_SLICES: usize = 14;

/// The colors of the slices.
pub const COLORS: [[u8; 3]; 20] = [
    [46, 204, 113],
    [52, 152, 219],
    [231, 76, 60],
    [155, 89, 182],
    [241, 196, 15],
    [230, 126, 34],
    [26, 188, 156],
    [52, 73, 94],
    [243, 156, 18],
    [192, 57, 43],
    [41, 128, 185],
    [142, 68, 173],
    [39, 174, 96],
    [211, 84, 0],
    [127, 140, 141],
    [22, 160, 133],
    [44, 62, 80],
    [255, 99, 132],
    [54, 162, 235],
    [255, 206, 86],
];

/// The color of the slice for all the other extensions.
pub const OTHER_COLOR: [u8; 3] = [110, 110, 120];

/// A slice of the pie.
#[derive(Debug)]
pub struct PieSlice {
    pub label: String,
    pub count: u64,
    pub color: [u8; 3],
}

/// A slice of the pie, as mathematical values.
#[verifier::ext_equal]
pub struct SliceView {
    pub label: Seq<char>,
    pub count: nat,
    pub color: [u8; 3],
}

impl View for PieSlice {
    type V = SliceView;

    open spec fn view(&self) -> SliceView {
        SliceView { label: self.label@, count: self.count as nat, color: self.color }
    }
}

/// The slices of a list, as mathematical values.
pub open spec fn slice_views(slices: Seq<PieSlice>) -> Seq<SliceView> {
    slices.map_values(|s: PieSlice| s@)
}

/// The slice of the extension at position `i`.
pub open spec fn own_slice(stats: Seq<StatView>, i: int) -> SliceView {
    SliceView { label: stats[i].extension, count: stats[i].count, color: COLORS@[i % 20] }
}

/// The slices of the first extensions, up to `shown` of them.
pub open spec fn own_slices(stats: Seq<StatView>, shown: nat) -> Seq<SliceView> {
    Seq::new(shown, |i: int| own_slice(stats, i))
}

/// How many files have an extension without a slice of its own.
pub open spec fn rest_count(stats: Seq<StatView>) -> nat {
    if stats.len() <= MAX_PIE_SLICES {
        0
    } else {
        sum_of_counts(stats.skip(MAX_PIE_SLICES as int))
    }
}

/// The slices of the pie: one for each of the most frequent extensions, and one for all
/// the others where there are any files with them.
pub open spec fn slices_of(stats: Seq<StatView>) -> Seq<SliceView> {
    if stats.len() <= MAX_PIE_SLICES {
        own_slices(stats, stats.len())
    } else {
        let first = own_slices(stats, MAX_PIE_SLICES as nat);
        let other = rest_count(stats);
        if other > 0 {
            first.push(SliceView { label: "Other"@, count: other, color: OTHER_COLOR })
        } else {
            first
        }
    }
}

/// The sum of the counts of the slices.
pub open spec fn sum_of_slices(slices: Seq<SliceView>) -> nat
    decreases slices.len(),
{
    if slices.len() == 0 {
        0
    } else {
        sum_of_slices(slices.drop_last()) + slices.last().count
    }
}

proof fn lemma_sum_splits(stats: Seq<StatView>, at: int)
    requires
        0 <= at <= stats.len(),
    ensures
        sum_of_counts(stats) == sum_of_counts(stats.take(at)) + sum_of_counts(stats.skip(at)),
    decreases stats.len() - at,
{
    if at == stats.len() {
        assert(stats.take(at) =~= stats);
        assert(stats.skip(at) =~= Seq::empty());
    } else {
        lemma_sum_splits(stats.drop_last(), at);
        assert(stats.drop_last().take(at) =~= stats.take(at));
        assert(stats.skip(at).drop_last() =~= stats.drop_last().skip(at));
        assert(stats.skip(at).last() == stats.last());
    }
}

proof fn lemma_own_slices_sum(stats: Seq<StatView>, shown: nat)
    requires
        shown <= stats.len(),
    ensures
        sum_of_slices(own_slices(stats, shown)) == sum_of_counts(stats.take(shown as int)),
    decreases shown,
{
    if shown > 0 {
        let fewer = (shown - 1) as nat;
        lemma_own_slices_sum(stats, fewer);
        assert(own_slices(stats, shown).drop_last() =~= own_slices(stats, fewer));
        assert(stats.take(shown as int).drop_last() =~= stats.take(fewer as int));
    }
}

/// The pie accounts for every file: the counts of its slices add up to those of the
/// extensions.
pub proof fn lemma_slices_account_for_all(stats: Seq<StatView>)
    ensures
        sum_of_slices(slices_of(stats)) == sum_of_counts(stats),
        slices_of(stats).len() <= MAX_PIE_SLICES + 1,
{
    if stats.len() <= MAX_PIE_SLICES {
        lemma_own_slices_sum(stats, stats.len());
        assert(stats.take(stats.len() as int) =~= stats);
    } else {
        lemma_own_slices_sum(stats, MAX_PIE_SLICES as nat);
        lemma_sum_splits(stats, MAX_PIE_SLICES as int);
        let first = own_slices(stats, MAX_PIE_SLICES as nat);
        let other = sum_of_counts(stats.skip(MAX_PIE_SLICES as int));
        if other > 0 {
            assert(slices_of(stats).drop_last() =~= first);
        }
    }
}

proof fn lemma_slice_in_sum(slices: Seq<SliceView>, i: int)
    requires
        0 <= i < slices.len(),
    ensures
        slices[i].count <= sum_of_slices(slices),
    decreases slices.len(),
{
    if i < slices.len() - 1 {
        lemma_slice_in_sum(slices.drop_last(), i);
    }
}

/// The number of files that the statistics count, where it fits.
pub fn total_count(stats: &Vec<ExtensionStat>) -> (r: Option<u64>)
    ensures
        match r {
            Some(total) => total == sum_of_counts(stat_views(stats@)),
            None => sum_of_counts(stat_views(stats@)) > u64::MAX,
        },
{
    assert(stat_views(stats@).skip(0) =~= stat_views(stats@));
    sum_from(stats, 0)
}

fn sum_from(stats: &Vec<ExtensionStat>, from: usize) -> (r: Option<u64>)
    requires
        from <= stats@.len(),
    ensures
        match r {
            Some(total) => total == sum_of_counts(stat_views(stats@).skip(from as int)),
            None => sum_of_counts(stat_views(stats@).skip(from as int)) > u64::MAX,
        },
{
    let ghost all = stat_views(stats@).skip(from as int);
    let mut total: u64 = 0;
    assert(all.take(0) =~= Seq::empty());
    for i in from..stats.len()
        invariant
            from <= stats@.len(),
            all == stat_views(stats@).skip(from as int),
            total == sum_of_counts(all.take(i - from)),
    {
        proof {
            let next = all.take(i - from + 1);
            assert(next.drop_last() =~= all.take(i - from));
            assert(next.last() == stats@[i as int]@);
            lemma_sum_splits(all, i - from + 1);
        }
        if stats[i].count > u64::MAX - total {
            return None;
        }
        total = total + stats[i].count;
    }
    assert(all.take(stats@.len() - from) =~= all);
    Some(total)
}

/// Whether the number of files without a slice of their own fits, so that the pie can be
/// drawn.
pub fn rest_fits(stats: &Vec<ExtensionStat>) -> (r: bool)
    ensures
        r == (rest_count(stat_views(stats@)) <= u64::MAX),
{
    if stats.len() <= MAX_PIE_SLICES {
        return true;
    }
    sum_from(stats, MAX_PIE_SLICES).is_some()
}

/// The slices of the pie.
pub fn pie_slices(stats: &Vec<ExtensionStat>) -> (r: Vec<PieSlice>)
    requires
        rest_count(stat_views(stats@)) <= u64::MAX,
    ensures
        slice_views(r@) == slices_of(stat_views(stats@)),
{
    let ghost views = stat_views(stats@);
    let shown: usize = if stats.len() < MAX_PIE_SLICES {
        stats.len()
    } else {
        MAX_PIE_SLICES
    };
    let mut r: Vec<PieSlice> = Vec::new();
    assert(slice_views(r@) =~= own_slices(views, 0));
    for i in 0..shown
        invariant
            shown <= stats@.len(),
            shown <= MAX_PIE_SLICES,
            views == stat_views(stats@),
            slice_views(r@) == own_slices(views, i as nat),
    {
        let color: [u8; 3] = COLORS[i % 20];
        let slice = PieSlice {
            label: stats[i].extension.clone(),
            count: stats[i].count,
            color,
        };
        proof {
            assert(slice@ =~= own_slice(views, i as int));
            assert(slice_views(r@.push(slice)) =~= slice_views(r@).push(slice@));
            assert(own_slices(views, (i + 1) as nat) =~= own_slices(views, i as nat).push(
                own_slice(views, i as int),
            ));
        }
        r.push(slice);
    }
    if stats.len() > MAX_PIE_SLICES {
        if let Some(other) = sum_from(stats, MAX_PIE_SLICES) {
            if other > 0 {
                let slice = PieSlice {
                    label: "Other".to_owned(),
                    count: other,
                    color: OTHER_COLOR,
                };
                assert(slice_views(r@.push(slice)) =~= slice_views(r@).push(slice@));
                r.push(slice);
            }
        }
    }
    r
}

// ------------------------------------------------------------
// The chart in a file
// ------------------------------------------------------------

/// The height of the first line of the legend, the distance of two lines, and the height
/// below which there is none.
pub const LEGEND_TOP: i32 = 125;

pub const LEGEND_STEP: i32 = 35;

pub const LEGEND_BOTTOM: i32 = 820;

/// A line of the legend.
#[derive(Debug)]
pub struct LegendLine {
    pub y: i32,
    pub color: [u8; 3],
    pub text: String,
}

/// A line of the legend, as mathematical values.
#[verifier::ext_equal]
pub struct LegendView {
    pub y: int,
    pub color: [u8; 3],
    pub text: Seq<char>,
}

impl View for LegendLine {
    type V = LegendView;

    open spec fn view(&self) -> LegendView {
        LegendView { y: self.y as int, color: self.color, text: self.text@ }
    }
}

/// The line of the legend for the slice at position `i`, with its share of `total` files.
pub open spec fn legend_line(slices: Seq<SliceView>, total: nat, i: int) -> LegendView {
    LegendView {
        y: LEGEND_TOP + LEGEND_STEP * i,
        color: slices[i].color,
        text: slices[i].label + "   "@ + fixed_text(percentage_of(slices[i].count, total), 2)
            + "%"@,
    }
}

/// How many lines the legend has: one for each slice, as far as there is room.
pub open spec fn legend_length(slices: nat) -> nat {
    let room = ((LEGEND_BOTTOM - LEGEND_TOP) / LEGEND_STEP as int + 1) as nat;
    if slices < room {
        slices
    } else {
        room
    }
}

/// The legend of the chart.
pub fn legend(slices: &Vec<PieSlice>, total: u64) -> (r: Vec<LegendLine>)
    requires
        forall|i: int| 0 <= i < slices@.len() ==> (#[trigger] slices@[i]).count <= total,
    ensures
        r@.len() == legend_length(slices@.len()),
        forall|i: int|
            0 <= i < r@.len() ==> (#[trigger] r@[i])@ == legend_line(
                slice_views(slices@),
                total as nat,
                i,
            ),
{
    let ghost views = slice_views(slices@);
    let mut r: Vec<LegendLine> = Vec::new();
    let mut y: i32 = LEGEND_TOP;
    let mut i: usize = 0;
    while i < slices.len() && y <= LEGEND_BOTTOM
        invariant
            views == slice_views(slices@),
            forall|k: int| 0 <= k < slices@.len() ==> (#[trigger] slices@[k]).count <= total,
            i <= slices@.len(),
            i == r@.len(),
            y == LEGEND_TOP + LEGEND_STEP * i,
            y <= LEGEND_BOTTOM + LEGEND_STEP,
            forall|k: int|
                0 <= k < r@.len() ==> (#[trigger] r@[k])@ == legend_line(views, total as nat, k),
        decreases slices@.len() - i,
    {
        let slice = &slices[i];
        assert(views[i as int] == slice@);
        let percent = format_fixed(percentage(slice.count, total), 2);
        let mut text = slice.label.clone();
        text.append("   ");
        text.append(percent.as_str());
        text.append("%");
        let line = LegendLine { y, color: slice.color, text };
        assert(line@ =~= legend_line(views, total as nat, i as int));
        r.push(line);
        y = y + LEGEND_STEP;
        i = i + 1;
    }
    r
}

/// The chart in a file: the name of the file, the texts in the chart, its slices and its
/// legend.
#[derive(Debug)]
pub struct PngChart {
    pub file_name: String,
    pub title: String,
    pub total: String,
    pub slices: Vec<PieSlice>,
    pub legend: Vec<LegendLine>,
}

/// The name of the file that holds the chart of a source.
pub open spec fn png_name(source: Seq<char>) -> Seq<char> {
    "pie_"@ + sanitized(source) + ".png"@
}

/// Whether `chart` is the chart of a source with these extensions.
pub open spec fn is_chart(chart: PngChart, source: ScanSource, stats: Seq<StatView>) -> bool {
    let total = sum_of_counts(stats);
    &&& chart.file_name@ == png_name(source.name_text())
    &&& chart.title@ == "File Extension Distribution - "@ + sanitized(source.name_text())
    &&& chart.total@ == "Total files: "@ + grouped(decimal_text(total))
    &&& slice_views(chart.slices@) == slices_of(stats)
    &&& chart.legend@.len() == chart.slices@.len()
    &&& forall|i: int|
        0 <= i < chart.legend@.len() ==> (#[trigger] chart.legend@[i])@ == legend_line(
            slices_of(stats),
            total,
            i,
        )
}

/// The chart of a source, where the number of files fits.
pub fn create_png(source: &ScanSource, stats: &Vec<ExtensionStat>) -> (r: Option<PngChart>)
    ensures
        match r {
            Some(chart) => {
                &&& sum_of_counts(stat_views(stats@)) <= u64::MAX
                &&& is_chart(chart, *source, stat_views(stats@))
            },
            None => sum_of_counts(stat_views(stats@)) > u64::MAX,
        },
{
    let total: u64 = match total_count(stats) {
        Some(total) => total,
        None => return None,
    };
    let source_name = source.name();
    let name = sanitize_filename(source_name.as_str());
    let mut file_name = "pie_".to_owned();
    file_name.append(name.as_str());
    file_name.append(".png");
    let mut title = "File Extension Distribution - ".to_owned();
    title.append(name.as_str());
    let number = format_number(total);
    let mut total_text = "Total files: ".to_owned();
    total_text.append(number.as_str());
    proof {
        if stats@.len() > MAX_PIE_SLICES {
            lemma_sum_splits(stat_views(stats@), MAX_PIE_SLICES as int);
        }
    }
    let slices = pie_slices(stats);
    proof {
        let views = slice_views(slices@);
        lemma_slices_account_for_all(stat_views(stats@));
        assert forall|i: int| 0 <= i < slices@.len() implies (#[trigger] slices@[i]).count
            <= total by {
            assert(views[i] == slices@[i]@);
            lemma_slice_in_sum(views, i);
        }
        assert(views.len() == slices@.len());
    }
    let lines = legend(&slices, total);
    Some(PngChart { file_name, title, total: total_text, slices, legend: lines })
}

// ------------------------------------------------------------
// The chart in the window
// ------------------------------------------------------------

/// A slice of the chart in the window: its share of the circle, the text on it where it
/// is large enough, and its line of the legend.
#[derive(Debug)]
pub struct WindowSlice {
    pub color: [u8; 3],
    pub share: Fraction,
    pub label: Option<String>,
    pub legend: String,
}

/// A slice of the chart in the window, as mathematical values.
#[verifier::ext_equal]
pub struct WindowView {
    pub color: [u8; 3],
    pub share: (nat, nat),
    pub label: Option<Seq<char>>,
    pub legend: Seq<char>,
}

impl View for WindowSlice {
    type V = WindowView;

    open spec fn view(&self) -> WindowView {
        WindowView {
            color: self.color,
            share: self.share@,
            label: match self.label {
                Some(text) => Some(text@),
                None => None,
            },
            legend: self.legend@,
        }
    }
}

/// The number of files in the slices, as double-precision arithmetic adds it up.
pub open spec fn double_total(slices: Seq<SliceView>) -> nat
    decreases slices.len(),
{
    if slices.len() == 0 {
        0
    } else {
        nearest_double(double_total(slices.drop_last()) + nearest_double(slices.last().count))
    }
}

proof fn lemma_double_total_positive(slices: Seq<SliceView>)
    ensures
        double_total(slices) > 0 <==> sum_of_slices(slices) > 0,
    decreases slices.len(),
{
    if slices.len() > 0 {
        let front = slices.drop_last();
        let count = slices.last().count;
        lemma_double_total_positive(front);
        lemma_nearest_positive(count, DOUBLE_LIMIT as nat);
        lemma_nearest_positive(double_total(front) + nearest_double(count), DOUBLE_LIMIT as nat);
    }
}

/// Whether a share is at least the single-precision number nearest to 0.04, which is
/// 10737418 divided by two to the power of 28.
pub open spec fn is_labelled(share: (nat, nat)) -> bool {
    share.0 * 268435456 >= 10737418 * share.1
}

/// A share in percent with `places` decimals.
pub open spec fn share_text(share: (nat, nat), places: nat) -> Seq<char> {
    fixed_text(single_percent(share), places) + "%"@
}

/// The count of a slice after it was a double-precision number: it stops at the largest
/// count that there is.
pub open spec fn shown_count(count: nat) -> nat {
    if nearest_double(count) <= u64::MAX {
        nearest_double(count)
    } else {
        u64::MAX as nat
    }
}

/// The slice at position `i` of the chart in the window.
pub open spec fn window_slice(slices: Seq<SliceView>, i: int) -> WindowView {
    let share = single_share(nearest_double(slices[i].count), double_total(slices));
    WindowView {
        color: slices[i].color,
        share,
        label: if is_labelled(share) {
            Some(share_text(share, 1))
        } else {
            None
        },
        legend: slices[i].label + "  "@ + share_text(share, 2) + "  ("@ + grouped(
            decimal_text(shown_count(slices[i].count)),
        ) + ")"@,
    }
}

spec fn doubled(n: nat) -> nat
    decreases n,
{
    if n == 0 {
        1
    } else {
        2 * doubled((n - 1) as nat)
    }
}

proof fn lemma_doubled_grows(n: nat, m: nat)
    requires
        n <= m,
    ensures
        1 <= doubled(n) <= doubled(m),
    decreases m,
{
    if n < m {
        lemma_doubled_grows(n, (m - 1) as nat);
    } else if n > 0 {
        lemma_doubled_grows((n - 1) as nat, (n - 1) as nat);
    }
}

fn added_up(slices: &Vec<PieSlice>) -> (r: u128)
    requires
        slices@.len() <= 15,
    ensures
        r == double_total(slice_views(slices@)),
        r <= 0x40_0000_0000_0000_0000,
        forall|i: int|
            0 <= i < slices@.len() ==> nearest_double((#[trigger] slices@[i]).count as nat)
                <= 0x8000 * r,
{
    let ghost views = slice_views(slices@);
    let mut total: u128 = 0;
    proof {
        assert(views.take(0) =~= Seq::empty());
    }
    for i in 0..slices.len()
        invariant
            slices@.len() <= 15,
            views == slice_views(slices@),
            total == double_total(views.take(i as int)),
            total <= i * 0x4_0000_0000_0000_0000,
            forall|k: int|
                0 <= k < i ==> nearest_double((#[trigger] slices@[k]).count as nat) <= doubled(
                    i as nat,
                ) * total,
    {
        let count: u128 = nearest(slices[i].count as u128, DOUBLE_LIMIT);
        let ghost before = total;
        total = nearest(total + count, DOUBLE_LIMIT);
        proof {
            let next = views.take(i + 1);
            assert(next.drop_last() =~= views.take(i as int));
            assert(next.last() == slices@[i as int]@);
            lemma_doubled_grows(0, i as nat);
            let bound = doubled(i as nat);
            assert forall|k: int| 0 <= k < i + 1 implies nearest_double(
                (#[trigger] slices@[k]).count as nat,
            ) <= doubled((i + 1) as nat) * total by {
                let n = nearest_double(slices@[k].count as nat);
                assert(n <= (2 * bound) * total) by (nonlinear_arith)
                    requires
                        n <= bound * before || n <= before + count,
                        before + count <= 2 * total,
                        bound >= 1,
                ;
            }
        }
    }
    proof {
        assert(views.take(slices@.len() as int) =~= views);
        lemma_doubled_grows(slices@.len(), 15);
        assert(doubled(15) == 0x8000) by {
            reveal_with_fuel(doubled, 16);
        }
        let bound = doubled(slices@.len());
        assert(bound * total <= 0x8000 * total) by (nonlinear_arith)
            requires
                bound <= 0x8000,
        ;
    }
    total
}

fn labelled(share: Fraction) -> (r: bool)
    ensures
        r == is_labelled(share@),
{
    let numerator: u64 = share.numerator();
    let denominator: u128 = share.denominator();
    if denominator > 0x1_0000_0000_0000_0000_0000_0000 {
        return false;
    }
    numerator as u128 * 268435456 >= 10737418 * denominator
}

fn percent_text(share: Fraction, places: usize) -> (r: String)
    requires
        share@.0 <= 2 * (DOUBLE_LIMIT + 1),
        1 <= places <= 9,
    ensures
        r@ == share_text(share@, places as nat),
{
    let mut text = format_fixed(share_percent(share), places);
    text.append("%");
    text
}

/// The chart in the window: none where there are no files.
pub fn in_app_pie(stats: &Vec<ExtensionStat>) -> (r: Vec<WindowSlice>)
    requires
        rest_count(stat_views(stats@)) <= u64::MAX,
    ensures
        sum_of_counts(stat_views(stats@)) == 0 ==> r@.len() == 0,
        sum_of_counts(stat_views(stats@)) > 0 ==> {
            &&& r@.len() == slices_of(stat_views(stats@)).len()
            &&& forall|i: int|
                0 <= i < r@.len() ==> (#[trigger] r@[i])@ == window_slice(
                    slices_of(stat_views(stats@)),
                    i,
                )
        },
{
    let slices = pie_slices(stats);
    let ghost views = slice_views(slices@);
    proof {
        lemma_slices_account_for_all(stat_views(stats@));
        lemma_double_total_positive(views);
        assert(views.len() == slices@.len());
    }
    let total: u128 = added_up(&slices);
    let mut r: Vec<WindowSlice> = Vec::new();
    if total == 0 {
        return r;
    }
    for i in 0..slices.len()
        invariant
            slices@.len() <= 15,
            views == slice_views(slices@),
            0 < total <= 0x40_0000_0000_0000_0000,
            total == double_total(views),
            forall|k: int|
                0 <= k < slices@.len() ==> nearest_double((#[trigger] slices@[k]).count as nat)
                    <= 0x8000 * total,
            r@.len() == i,
            forall|k: int| 0 <= k < r@.len() ==> (#[trigger] r@[k])@ == window_slice(views, k),
    {
        let slice = &slices[i];
        assert(views[i as int] == slice@);
        let count: u128 = nearest(slice.count as u128, DOUBLE_LIMIT);
        let part = share(count, total);
        let label = if labelled(part) {
            Some(percent_text(part, 1))
        } else {
            None
        };
        let percent = percent_text(part, 2);
        let shown: u64 = if count <= u64::MAX as u128 {
            count as u64
        } else {
            u64::MAX
        };
        let number = format_number(shown);
        let mut text = slice.label.clone();
        text.append("  ");
        text.append(percent.as_str());
        text.append("  (");
        text.append(number.as_str());
        text.append(")");
        let window = WindowSlice { color: slice.color, share: part, label, legend: text };
        assert(window@ =~= window_slice(views, i as int));
        r.push(window);
    }
    r
}

} // verus!
