//! Laws of the statistics.

use vstd::prelude::*;
use vstd::string::*;

use crate::laws::arithmetic::{distance, lemma_more_is_a_larger_percentage};
use crate::laws::arithmetic::{lemma_percentage_is_the_share, lemma_whole_is_100_percent, ACCURACY};
use crate::laws::texts::{comes_before, lemma_dictionary_order};
use crate::records::{file_views, stat_views, texts, ExtensionStat, FileRecord, FileView, StatView};
use crate::statistics::{count_part, is_statistics, lemma_statistics_account_for_all};
use crate::statistics::{stat_before, sum_of_counts};
use crate::tally::{bytes_of, count_of, lemma_part_of_total, lists, total_size};

verus! {

/// The mathematical values of records are those of their fields, one by one.
pub proof fn lemma_views_hold_every_field(
    files: Seq<FileRecord>,
    stats: Seq<ExtensionStat>,
    strings: Seq<String>,
    i: int,
)
    ensures
        file_views(files).len() == files.len(),
        stat_views(stats).len() == stats.len(),
        texts(strings).len() == strings.len(),
        0 <= i < strings.len() ==> texts(strings)[i] == strings[i]@,
        0 <= i < files.len() ==> {
            &&& file_views(files)[i].name == files[i].name@
            &&& file_views(files)[i].path == files[i].path@
            &&& file_views(files)[i].extension == files[i].extension@
            &&& file_views(files)[i].size == files[i].size
            &&& file_views(files)[i].filesystem_path == files[i].filesystem_path
            &&& file_views(files)[i].suspicious == files[i].suspicious
        },
        0 <= i < stats.len() ==> {
            &&& stat_views(stats)[i].extension == stats[i].extension@
            &&& stat_views(stats)[i].count == stats[i].count
            &&& stat_views(stats)[i].bytes == stats[i].bytes
            &&& stat_views(stats)[i].percentage == stats[i].percentage@
        },
{
}

/// The size of files is the sum of their sizes.
pub proof fn lemma_sizes_add_up(a: Seq<FileView>, b: Seq<FileView>, file: FileView)
    ensures
        total_size(Seq::empty()) == 0,
        total_size(seq![file]) == file.size,
        total_size(a + b) == total_size(a) + total_size(b),
    decreases b.len(),
{
    reveal_with_fuel(total_size, 2);
    assert(seq![file].drop_last() =~= Seq::empty());
    if b.len() == 0 {
        assert(a + b =~= a);
    } else {
        lemma_sizes_add_up(a, b.drop_last(), file);
        assert((a + b).drop_last() =~= a + b.drop_last());
    }
}

/// The files with an extension.
pub open spec fn files_with(files: Seq<FileView>, extension: Seq<char>) -> Seq<FileView> {
    files.filter(|f: FileView| f.extension == extension)
}

proof fn lemma_counted(files: Seq<FileView>, extension: Seq<char>)
    ensures
        count_of(files, extension) == files_with(files, extension).len(),
        bytes_of(files, extension) == total_size(files_with(files, extension)),
    decreases files.len(),
{
    reveal(Seq::filter);
    if files.len() > 0 {
        let front = files.drop_last();
        let kept = files_with(front, extension);
        lemma_counted(front, extension);
        if files.last().extension == extension {
            assert(kept.push(files.last()).drop_last() =~= kept);
        }
    }
}

/// Whether there is a line for an extension.
pub open spec fn has_line(stats: Seq<StatView>, extension: Seq<char>) -> bool {
    exists|i: int| 0 <= i < stats.len() && (#[trigger] stats[i]).extension == extension
}

/// A line of the statistics counts exactly the files with its extension, and their bytes;
/// each file is counted in a line, and no two lines have the same extension.
pub proof fn lemma_lines_count_their_files(stats: Seq<StatView>, files: Seq<FileView>)
    requires
        is_statistics(stats, files),
    ensures
        forall|i: int|
            0 <= i < stats.len() ==> {
                &&& (#[trigger] stats[i]).count == files_with(files, stats[i].extension).len()
                &&& stats[i].bytes == total_size(files_with(files, stats[i].extension))
                &&& stats[i].count > 0
            },
        forall|k: int| 0 <= k < files.len() ==> has_line(stats, (#[trigger] files[k]).extension),
        forall|i: int, j: int|
            0 <= i < j < stats.len() ==> (#[trigger] stats[i]).extension != (
            #[trigger] stats[j]).extension,
{
    let counts = stats.map_values(|s: StatView| count_part(s));
    assert forall|i: int| 0 <= i < stats.len() implies {
        &&& (#[trigger] stats[i]).count == files_with(files, stats[i].extension).len()
        &&& stats[i].bytes == total_size(files_with(files, stats[i].extension))
        &&& stats[i].count > 0
    } by {
        assert(counts[i] == count_part(stats[i]));
        lemma_counted(files, stats[i].extension);
    }
    assert forall|k: int| 0 <= k < files.len() implies has_line(
        stats,
        (#[trigger] files[k]).extension,
    ) by {
        assert(lists(counts, files[k].extension));
        let i = choose|i: int|
            0 <= i < counts.len() && #[trigger] counts[i].extension == files[k].extension;
        assert(stats[i].extension == files[k].extension);
    }
    assert forall|i: int, j: int| 0 <= i < j < stats.len() implies (#[trigger] stats[i]).extension
        != (#[trigger] stats[j]).extension by {
        assert(counts[i].extension != counts[j].extension);
    }
}

/// The percentage of a line stands to 100 as its count stands to the number of files, up
/// to rounding, and is exactly 100 where the line counts all files.
pub proof fn lemma_percentages_are_shares(stats: Seq<StatView>, files: Seq<FileView>, i: int)
    requires
        is_statistics(stats, files),
        0 <= i < stats.len(),
    ensures
        stats[i].percentage.1 > 0,
        distance(
            stats[i].percentage.0 * files.len(),
            100 * (stats[i].count * stats[i].percentage.1),
        ) * ACCURACY <= 100 * (stats[i].count * stats[i].percentage.1),
        stats[i].count == files.len() ==> stats[i].percentage.0 == 100 * stats[i].percentage.1,
{
    let counts = stats.map_values(|s: StatView| count_part(s));
    assert(counts[i] == count_part(stats[i]));
    lemma_part_of_total(files, stats[i].extension);
    lemma_percentage_is_the_share(stats[i].count, files.len());
    if stats[i].count == files.len() {
        lemma_whole_is_100_percent(files.len());
    }
}

/// The lines come with the larger count first, which has the larger percentage. Lines with
/// the same count have the same percentage, and their extensions ascend as in a dictionary.
pub proof fn lemma_lines_are_in_order(stats: Seq<StatView>, files: Seq<FileView>, i: int, j: int)
    requires
        is_statistics(stats, files),
        0 <= i < j < stats.len(),
    ensures
        stats[i].count >= stats[j].count,
        stats[i].count == stats[j].count ==> stats[i].percentage == stats[j].percentage,
        stats[i].count > stats[j].count && files.len() <= 0x1_0000_0000_0000
            ==> stats[j].percentage.0 * stats[i].percentage.1 < stats[i].percentage.0
            * stats[j].percentage.1,
        stats[i].count == stats[j].count ==> comes_before(stats[i].extension, stats[j].extension),
{
    let counts = stats.map_values(|s: StatView| count_part(s));
    assert(counts[i] == count_part(stats[i]));
    assert(counts[j] == count_part(stats[j]));
    lemma_part_of_total(files, stats[i].extension);
    assert(stat_before(stats[i], stats[j]));
    if stats[i].count > stats[j].count && files.len() <= 0x1_0000_0000_0000 {
        lemma_more_is_a_larger_percentage(stats[j].count, stats[i].count, files.len());
    }
    if stats[i].count == stats[j].count {
        lemma_dictionary_order(stats[i].extension, stats[j].extension);
    }
}

/// The percentages in units of one part in `scale`, cut off, and added up.
pub open spec fn sum_of_percentages(stats: Seq<StatView>, scale: nat) -> nat
    decreases stats.len(),
{
    if stats.len() == 0 {
        0
    } else {
        sum_of_percentages(stats.drop_last(), scale) + scale * stats.last().percentage.0
            / stats.last().percentage.1
    }
}

proof fn lemma_one_share(count: nat, whole: nat, p: nat, u: nat, scale: nat)
    requires
        u > 0,
        distance(p * whole, 100 * (count * u)) * ACCURACY <= 100 * (count * u),
    ensures
        (scale * p / u) * (whole * ACCURACY) <= (100 * scale * (ACCURACY + 1)) * count,
        (scale * p / u + 1) * (whole * ACCURACY) >= (100 * scale * (ACCURACY - 1)) * count,
{
    let k = ACCURACY as int;
    let t = scale * p / u;
    let x = p * whole;
    let a = count * u;
    assert(t * u <= scale * p < (t + 1) * u) by (nonlinear_arith)
        requires
            t == scale * p / u,
            u > 0,
    ;
    assert(x * k <= 100 * a * (k + 1)) by (nonlinear_arith)
        requires
            (x - 100 * a) * k <= 100 * a,
    ;
    assert(x * k >= 100 * a * (k - 1)) by (nonlinear_arith)
        requires
            (100 * a - x) * k <= 100 * a,
    ;
    let above = (100 * scale * (k + 1)) * count;
    let below = (100 * scale * (k - 1)) * count;
    assert(scale * (x * k) <= above * u) by (nonlinear_arith)
        requires
            x * k <= 100 * a * (k + 1),
            a == count * u,
            above == (100 * scale * (k + 1)) * count,
    {
        assert(scale * (100 * a * (k + 1)) == above * u);
    }
    assert(scale * (x * k) >= below * u) by (nonlinear_arith)
        requires
            x * k >= 100 * a * (k - 1),
            a == count * u,
            below == (100 * scale * (k - 1)) * count,
    {
        assert(scale * (100 * a * (k - 1)) == below * u);
    }
    let y = whole * k;
    assert(scale * (x * k) == (scale * p) * y) by (nonlinear_arith)
        requires
            x == p * whole,
            y == whole * k,
    ;
    assert((t * y) * u <= above * u) by (nonlinear_arith)
        requires
            t * u <= scale * p,
            (scale * p) * y <= above * u,
            y >= 0,
    ;
    assert(t * y <= above) by (nonlinear_arith)
        requires
            (t * y) * u <= above * u,
            u > 0,
    ;
    assert(((t + 1) * y) * u >= below * u) by (nonlinear_arith)
        requires
            (t + 1) * u >= scale * p,
            (scale * p) * y >= below * u,
            y >= 0,
    ;
    assert((t + 1) * y >= below) by (nonlinear_arith)
        requires
            ((t + 1) * y) * u >= below * u,
            u > 0,
    ;
}

proof fn lemma_partial_sums(stats: Seq<StatView>, whole: nat, scale: nat)
    requires
        forall|i: int|
            0 <= i < stats.len() ==> {
                &&& (#[trigger] stats[i]).percentage.1 > 0
                &&& distance(
                    stats[i].percentage.0 * whole,
                    100 * (stats[i].count * stats[i].percentage.1),
                ) * ACCURACY <= 100 * (stats[i].count * stats[i].percentage.1)
            },
    ensures
        sum_of_percentages(stats, scale) * (whole * ACCURACY) <= (100 * scale * (ACCURACY + 1))
            * sum_of_counts(stats),
        (sum_of_percentages(stats, scale) + stats.len()) * (whole * ACCURACY) >= (100 * scale * (
        ACCURACY - 1)) * sum_of_counts(stats),
    decreases stats.len(),
{
    let y = whole * ACCURACY;
    let above = 100 * scale * (ACCURACY + 1);
    let below = 100 * scale * (ACCURACY - 1);
    if stats.len() == 0 {
        assert(0 * y == 0 && above * 0 == 0 && below * 0 == 0) by (nonlinear_arith);
    } else {
        let front = stats.drop_last();
        let last = stats.last();
        assert(stats[stats.len() - 1] == last);
        assert forall|i: int| 0 <= i < front.len() implies {
            &&& (#[trigger] front[i]).percentage.1 > 0
            &&& distance(
                front[i].percentage.0 * whole,
                100 * (front[i].count * front[i].percentage.1),
            ) * ACCURACY <= 100 * (front[i].count * front[i].percentage.1)
        } by {
            assert(front[i] == stats[i]);
        }
        lemma_partial_sums(front, whole, scale);
        lemma_one_share(last.count, whole, last.percentage.0, last.percentage.1, scale);
        let s = sum_of_percentages(front, scale);
        let t = scale * last.percentage.0 / last.percentage.1;
        let c = sum_of_counts(front);
        assert((s + t) * y <= above * (c + last.count)) by (nonlinear_arith)
            requires
                s * y <= above * c,
                t * y <= above * last.count,
        ;
        let n = front.len();
        assert((s + t + (n + 1)) * y >= below * (c + last.count)) by (nonlinear_arith)
            requires
                (s + n) * y >= below * c,
                (t + 1) * y >= below * last.count,
        ;
    }
}

/// The percentages add up to 100, up to rounding: in units of one part in `scale` each is
/// cut off by less than a unit, and nothing else is lost but one unit in all.
pub proof fn lemma_percentages_add_up(stats: Seq<StatView>, files: Seq<FileView>, scale: nat)
    requires
        is_statistics(stats, files),
        files.len() > 0,
        100 * scale < ACCURACY,
    ensures
        sum_of_percentages(stats, scale) <= 100 * scale,
        100 * scale <= sum_of_percentages(stats, scale) + stats.len() + 1,
{
    let whole = files.len();
    assert forall|i: int| 0 <= i < stats.len() implies {
        &&& (#[trigger] stats[i]).percentage.1 > 0
        &&& distance(
            stats[i].percentage.0 * whole,
            100 * (stats[i].count * stats[i].percentage.1),
        ) * ACCURACY <= 100 * (stats[i].count * stats[i].percentage.1)
    } by {
        lemma_percentages_are_shares(stats, files, i);
    }
    lemma_partial_sums(stats, whole, scale);
    lemma_statistics_account_for_all(stats, files);
    let k = ACCURACY as int;
    let s = sum_of_percentages(stats, scale) as int;
    let n = stats.len() as int;
    assert(s * k <= 100 * scale * (k + 1)) by (nonlinear_arith)
        requires
            s * (whole * k) <= (100 * scale * (k + 1)) * whole,
            whole > 0,
    ;
    assert((s + n) * k >= 100 * scale * (k - 1)) by (nonlinear_arith)
        requires
            (s + n) * (whole * k) >= (100 * scale * (k - 1)) * whole,
            whole > 0,
    ;
    assert(s <= 100 * scale && 100 * scale <= s + n + 1) by (nonlinear_arith)
        requires
            s * k <= 100 * scale * (k + 1),
            (s + n) * k >= 100 * scale * (k - 1),
            100 * scale < k,
    ;
}

} // verus!
