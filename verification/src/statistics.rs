//! The statistics of a scan: its extensions with their counts, the most frequent first.

use vstd::prelude::*;
use vstd::string::*;

use crate::double::{lemma_percentage_bounds, percentage, percentage_of};
use crate::order::{keys_of, lemma_position_lt_irreflexive, lemma_same_members, position_lt};
use crate::order::{sort_positions, SortKey};
use crate::records::{stat_views, ExtensionStat, FileView, StatView};
use crate::tally::{bytes_of, count_of, is_tally, lemma_counted_occurs, lemma_part_of_total, lists};
use crate::tally::{total_size, CountView, Tally};
use crate::text::{chars_of, lemma_text_lt_irreflexive, lemma_text_lt_transitive, text_lt};

verus! {

/// The count in a line of the statistics.
pub open spec fn count_part(stat: StatView) -> CountView {
    CountView { extension: stat.extension, count: stat.count, bytes: stat.bytes }
}

/// The order of the statistics: the more frequent first, and by extension where the
/// counts are equal.
pub open spec fn stat_before(a: StatView, b: StatView) -> bool {
    a.count > b.count || (a.count == b.count && text_lt(a.extension, b.extension))
}

/// Whether `stats` are the statistics of `files`: one line for each extension that
/// occurs, with the number and the bytes of its files and its share in percent, the most
/// frequent first.
pub open spec fn is_statistics(stats: Seq<StatView>, files: Seq<FileView>) -> bool {
    &&& is_tally(stats.map_values(|s: StatView| count_part(s)), files)
    &&& forall|i: int|
        0 <= i < stats.len() ==> (#[trigger] stats[i]).percentage == percentage_of(
            stats[i].count,
            files.len(),
        )
    &&& forall|i: int, j: int|
        0 <= i < j < stats.len() ==> stat_before(#[trigger] stats[i], #[trigger] stats[j])
}

fn sort_keys(tally: &Tally) -> (r: Vec<SortKey>)
    requires
        forall|i: int|
            0 <= i < tally.counts().len() ==> (#[trigger] tally.counts()[i]).count <= u64::MAX,
    ensures
        r@.len() == tally.counts().len(),
        forall|i: int|
            0 <= i < r@.len() ==> {
                &&& (#[trigger] r@[i])@.number == u64::MAX - tally.counts()[i].count
                &&& r@[i]@.text == tally.counts()[i].extension
            },
{
    let mut keys: Vec<SortKey> = Vec::new();
    let n: usize = tally.len();
    for i in 0..n
        invariant
            n == tally.counts().len(),
            keys@.len() == i,
            forall|k: int|
                0 <= k < tally.counts().len() ==> (#[trigger] tally.counts()[k]).count <= u64::MAX,
            forall|k: int|
                0 <= k < keys@.len() ==> {
                    &&& (#[trigger] keys@[k])@.number == u64::MAX - tally.counts()[k].count
                    &&& keys@[k]@.text == tally.counts()[k].extension
                },
    {
        let counted = tally.get(i);
        let text = chars_of(counted.extension.as_str());
        keys.push(SortKey { number: u64::MAX - counted.count, text });
    }
    keys
}

/// The numbers below `n`, in order.
pub open spec fn numbers(n: nat) -> Seq<usize> {
    Seq::new(n, |i: int| i as usize)
}

fn all_positions(n: usize) -> (r: Vec<usize>)
    ensures
        r@ == numbers(n as nat),
        r@.no_duplicates(),
{
    let mut r: Vec<usize> = Vec::new();
    for i in 0..n
        invariant
            r@ == numbers(i as nat),
    {
        r.push(i);
        assert(r@ =~= numbers((i + 1) as nat));
    }
    r
}

/// The lines of the statistics from the counts, in the order of `order`.
fn arrange(
    tally: &Tally,
    order: &Vec<usize>,
    total_files: u64,
    Ghost(files): Ghost<Seq<FileView>>,
) -> (r: Vec<ExtensionStat>)
    requires
        is_tally(tally.counts(), files),
        files.len() == total_files,
        forall|k: int| 0 <= k < order@.len() ==> (#[trigger] order@[k]) < tally.counts().len(),
    ensures
        r@.len() == order@.len(),
        forall|k: int|
            0 <= k < r@.len() ==> {
                &&& count_part((#[trigger] r@[k])@) == tally.counts()[order@[k] as int]
                &&& r@[k]@.percentage == percentage_of(r@[k]@.count, files.len())
            },
{
    let mut r: Vec<ExtensionStat> = Vec::new();
    for i in 0..order.len()
        invariant
            is_tally(tally.counts(), files),
            files.len() == total_files,
            forall|k: int| 0 <= k < order@.len() ==> (#[trigger] order@[k]) < tally.counts().len(),
            r@.len() == i,
            forall|k: int|
                0 <= k < r@.len() ==> {
                    &&& count_part((#[trigger] r@[k])@) == tally.counts()[order@[k] as int]
                    &&& r@[k]@.percentage == percentage_of(r@[k]@.count, files.len())
                },
    {
        assert(order@[i as int] < tally.counts().len());
        let counted = tally.get(order[i]);
        proof {
            lemma_part_of_total(files, counted.extension@);
        }
        let share = percentage(counted.count, total_files);
        r.push(
            ExtensionStat {
                extension: counted.extension.clone(),
                count: counted.count,
                bytes: counted.bytes,
                percentage: share,
            },
        );
        assert(count_part(r@[i as int]@) =~= tally.counts()[order@[i as int] as int]);
    }
    r
}

/// The statistics of the files that were counted.
pub(crate) fn statistics(
    tally: &Tally,
    total_files: u64,
    Ghost(files): Ghost<Seq<FileView>>,
) -> (r: Vec<ExtensionStat>)
    requires
        is_tally(tally.counts(), files),
        files.len() == total_files,
    ensures
        is_statistics(stat_views(r@), files),
{
    proof {
        assert forall|i: int| 0 <= i < tally.counts().len() implies (
        #[trigger] tally.counts()[i]).count <= u64::MAX by {
            lemma_part_of_total(files, tally.counts()[i].extension);
        }
    }
    let keys = sort_keys(tally);
    let positions = all_positions(tally.len());
    let order = sort_positions(&keys, &positions);
    proof {
        lemma_same_members(order@, positions@);
        lemma_same_members(positions@, order@);
        assert forall|k: int| 0 <= k < order@.len() implies (#[trigger] order@[k])
            < tally.counts().len() by {
            assert(positions@.contains(order@[k]));
        }
    }
    let r = arrange(tally, &order, total_files, Ghost(files));
    proof {
        let stats = stat_views(r@);
        let parts = stats.map_values(|s: StatView| count_part(s));
        let counts = tally.counts();
        let k = keys_of(keys@);
        assert forall|i: int| 0 <= i < parts.len() implies #[trigger] parts[i]
            == counts[order@[i] as int] by {
            assert(parts[i] == count_part(r@[i]@));
        }
        assert forall|i: int, j: int| 0 <= i < j < stats.len() implies stat_before(
            #[trigger] stats[i],
            #[trigger] stats[j],
        ) by {
            let a = order@[i] as int;
            let b = order@[j] as int;
            assert(position_lt(k, a, b));
            assert(parts[i] == counts[a]);
            assert(parts[j] == counts[b]);
            lemma_position_lt_irreflexive(k, a);
            if keys@[a]@ == keys@[b]@ {
                assert(counts[a].extension == counts[b].extension);
            }
        }
        assert forall|i: int, j: int| 0 <= i < j < parts.len() implies (
        #[trigger] parts[i]).extension != (#[trigger] parts[j]).extension by {
            assert(stat_before(stats[i], stats[j]));
            lemma_text_lt_irreflexive(parts[i].extension);
        }
        assert forall|i: int| 0 <= i < files.len() implies lists(
            parts,
            (#[trigger] files[i]).extension,
        ) by {
            assert(lists(counts, files[i].extension));
            let a = choose|a: int|
                0 <= a < counts.len() && #[trigger] counts[a].extension == files[i].extension;
            assert(positions@[a] == a);
            assert(order@.contains(positions@[a]));
            let at = choose|at: int| 0 <= at < order@.len() && order@[at] == positions@[a];
            assert(parts[at].extension == files[i].extension);
        }
        assert forall|i: int| 0 <= i < stats.len() implies (#[trigger] stats[i]).percentage
            == percentage_of(stats[i].count, files.len()) by {
            assert(stats[i] == r@[i]@);
        }
    }
    r
}

// ------------------------------------------------------------
// Laws
// ------------------------------------------------------------

/// The sum of the counts.
pub open spec fn sum_of_counts(stats: Seq<StatView>) -> nat
    decreases stats.len(),
{
    if stats.len() == 0 {
        0
    } else {
        sum_of_counts(stats.drop_last()) + stats.last().count
    }
}

/// The sum of the bytes.
pub open spec fn sum_of_bytes(stats: Seq<StatView>) -> nat
    decreases stats.len(),
{
    if stats.len() == 0 {
        0
    } else {
        sum_of_bytes(stats.drop_last()) + stats.last().bytes
    }
}

spec fn counts_over(extensions: Seq<Seq<char>>, files: Seq<FileView>) -> nat
    decreases extensions.len(),
{
    if extensions.len() == 0 {
        0
    } else {
        counts_over(extensions.drop_last(), files) + count_of(files, extensions.last())
    }
}

spec fn bytes_over(extensions: Seq<Seq<char>>, files: Seq<FileView>) -> nat
    decreases extensions.len(),
{
    if extensions.len() == 0 {
        0
    } else {
        bytes_over(extensions.drop_last(), files) + bytes_of(files, extensions.last())
    }
}

proof fn lemma_one_more_file(extensions: Seq<Seq<char>>, files: Seq<FileView>)
    requires
        extensions.no_duplicates(),
        files.len() > 0,
    ensures
        counts_over(extensions, files) == counts_over(extensions, files.drop_last())
            + if extensions.contains(files.last().extension) {
            1nat
        } else {
            0
        },
        bytes_over(extensions, files) == bytes_over(extensions, files.drop_last())
            + if extensions.contains(files.last().extension) {
            files.last().size
        } else {
            0
        },
    decreases extensions.len(),
{
    if extensions.len() > 0 {
        let front = extensions.drop_last();
        lemma_one_more_file(front, files);
        let e = files.last().extension;
        if extensions.last() == e {
            assert(extensions[extensions.len() - 1] == e);
            assert(!front.contains(e));
        } else if extensions.contains(e) {
            let i = choose|i: int| 0 <= i < extensions.len() && extensions[i] == e;
            assert(front[i] == e);
        } else if front.contains(e) {
            let i = choose|i: int| 0 <= i < front.len() && front[i] == e;
            assert(extensions[i] == e);
        }
    }
}

proof fn lemma_no_files(extensions: Seq<Seq<char>>, files: Seq<FileView>)
    requires
        files.len() == 0,
    ensures
        counts_over(extensions, files) == 0,
        bytes_over(extensions, files) == 0,
    decreases extensions.len(),
{
    if extensions.len() > 0 {
        lemma_no_files(extensions.drop_last(), files);
    }
}

proof fn lemma_all_files(extensions: Seq<Seq<char>>, files: Seq<FileView>)
    requires
        extensions.no_duplicates(),
        forall|k: int|
            0 <= k < files.len() ==> extensions.contains((#[trigger] files[k]).extension),
    ensures
        counts_over(extensions, files) == files.len(),
        bytes_over(extensions, files) == total_size(files),
    decreases files.len(),
{
    if files.len() == 0 {
        lemma_no_files(extensions, files);
    } else {
        assert forall|k: int| 0 <= k < files.drop_last().len() implies extensions.contains(
            (#[trigger] files.drop_last()[k]).extension,
        ) by {
            assert(extensions.contains(files[k].extension));
        }
        lemma_all_files(extensions, files.drop_last());
        lemma_one_more_file(extensions, files);
        assert(extensions.contains(files[files.len() - 1].extension));
    }
}

proof fn lemma_sums_over(stats: Seq<StatView>, files: Seq<FileView>)
    requires
        forall|i: int|
            0 <= i < stats.len() ==> {
                &&& (#[trigger] stats[i]).count == count_of(files, stats[i].extension)
                &&& stats[i].bytes == bytes_of(files, stats[i].extension)
            },
    ensures
        sum_of_counts(stats) == counts_over(
            stats.map_values(|s: StatView| s.extension),
            files,
        ),
        sum_of_bytes(stats) == bytes_over(stats.map_values(|s: StatView| s.extension), files),
    decreases stats.len(),
{
    let extensions = stats.map_values(|s: StatView| s.extension);
    if stats.len() > 0 {
        lemma_sums_over(stats.drop_last(), files);
        assert(extensions.drop_last() =~= stats.drop_last().map_values(
            |s: StatView| s.extension,
        ));
        assert(extensions.last() == stats[stats.len() - 1].extension);
    }
}

/// The statistics account for every file and every byte: the counts add up to the number
/// of files, and the bytes to their total size.
pub proof fn lemma_statistics_account_for_all(stats: Seq<StatView>, files: Seq<FileView>)
    requires
        is_statistics(stats, files),
    ensures
        sum_of_counts(stats) == files.len(),
        sum_of_bytes(stats) == total_size(files),
{
    let parts = stats.map_values(|s: StatView| count_part(s));
    let extensions = stats.map_values(|s: StatView| s.extension);
    assert forall|i: int| 0 <= i < stats.len() implies {
        &&& (#[trigger] stats[i]).count == count_of(files, stats[i].extension)
        &&& stats[i].bytes == bytes_of(files, stats[i].extension)
    } by {
        assert(parts[i] == count_part(stats[i]));
    }
    lemma_sums_over(stats, files);
    assert forall|i: int, j: int| 0 <= i < extensions.len() && 0 <= j < extensions.len() && i
        != j implies extensions[i] != extensions[j] by {
        if i < j {
            assert(parts[i].extension != parts[j].extension);
        } else {
            assert(parts[j].extension != parts[i].extension);
        }
    }
    assert forall|k: int| 0 <= k < files.len() implies extensions.contains(
        (#[trigger] files[k]).extension,
    ) by {
        assert(lists(parts, files[k].extension));
        let i = choose|i: int|
            0 <= i < parts.len() && #[trigger] parts[i].extension == files[k].extension;
        assert(extensions[i] == files[k].extension);
    }
    lemma_all_files(extensions, files);
}

proof fn lemma_stat_order(a: StatView, b: StatView, c: StatView)
    ensures
        !stat_before(a, a),
        stat_before(a, b) && stat_before(b, c) ==> stat_before(a, c),
{
    lemma_text_lt_irreflexive(a.extension);
    if text_lt(a.extension, b.extension) && text_lt(b.extension, c.extension) {
        lemma_text_lt_transitive(a.extension, b.extension, c.extension);
    }
}

/// The line of `other` for the extension of line `i` of `stats`: it is the same line.
proof fn lemma_same_line(
    stats: Seq<StatView>,
    other: Seq<StatView>,
    files: Seq<FileView>,
    i: int,
) -> (j: int)
    requires
        is_statistics(stats, files),
        is_statistics(other, files),
        0 <= i < stats.len(),
    ensures
        0 <= j < other.len(),
        other[j] == stats[i],
{
    let parts = stats.map_values(|s: StatView| count_part(s));
    let others = other.map_values(|s: StatView| count_part(s));
    assert(parts[i] == count_part(stats[i]));
    lemma_counted_occurs(files, stats[i].extension);
    let k = choose|k: int|
        0 <= k < files.len() && (#[trigger] files[k]).extension == stats[i].extension;
    assert(lists(others, files[k].extension));
    let j = choose|j: int|
        0 <= j < others.len() && #[trigger] others[j].extension == files[k].extension;
    assert(others[j] == count_part(other[j]));
    assert(other[j].percentage == percentage_of(other[j].count, files.len()));
    assert(stats[i].percentage == percentage_of(stats[i].count, files.len()));
    assert(other[j] =~= stats[i]);
    j
}

/// Line by line the two are the same, up to line `n`.
proof fn lemma_same_lines(
    stats: Seq<StatView>,
    other: Seq<StatView>,
    files: Seq<FileView>,
    n: int,
)
    requires
        is_statistics(stats, files),
        is_statistics(other, files),
        0 <= n <= stats.len(),
        n <= other.len(),
    ensures
        forall|i: int| 0 <= i < n ==> stats[i] == other[i],
    decreases n,
{
    if n > 0 {
        lemma_same_lines(stats, other, files, n - 1);
        let m = n - 1;
        let j = lemma_same_line(stats, other, files, m);
        let i = lemma_same_line(other, stats, files, m);
        if j < m {
            assert(stats[j] == other[j]);
            assert(stat_before(stats[j], stats[m]));
            lemma_stat_order(stats[m], stats[m], stats[m]);
        }
        if i < m {
            assert(stats[i] == other[i]);
            assert(stat_before(other[i], other[m]));
            lemma_stat_order(other[m], other[m], other[m]);
        }
        if j > m && i > m {
            assert(stat_before(other[m], other[j]));
            assert(stat_before(stats[m], stats[i]));
            lemma_stat_order(stats[m], other[m], stats[m]);
        }
    }
}

/// The statistics of a list of files are unique, and so do not depend on how they were
/// gathered.
pub proof fn lemma_statistics_unique(
    stats: Seq<StatView>,
    other: Seq<StatView>,
    files: Seq<FileView>,
)
    requires
        is_statistics(stats, files),
        is_statistics(other, files),
    ensures
        stats == other,
{
    if stats.len() > other.len() {
        let n = other.len() as int;
        lemma_same_lines(stats, other, files, n);
        let j = lemma_same_line(stats, other, files, n);
        assert(stats[j] == other[j]);
        assert(stat_before(stats[j], stats[n]));
        lemma_stat_order(stats[n], stats[n], stats[n]);
    } else if other.len() > stats.len() {
        let n = stats.len() as int;
        lemma_same_lines(stats, other, files, n);
        let j = lemma_same_line(other, stats, files, n);
        assert(stats[j] == other[j]);
        assert(stat_before(other[j], other[n]));
        lemma_stat_order(other[n], other[n], other[n]);
    } else {
        lemma_same_lines(stats, other, files, stats.len() as int);
        assert(stats =~= other);
    }
}

proof fn lemma_without_one(files: Seq<FileView>, k: int, extension: Seq<char>)
    requires
        0 <= k < files.len(),
    ensures
        count_of(files, extension) == count_of(files.remove(k), extension) + if files[k].extension
            == extension {
            1nat
        } else {
            0
        },
        bytes_of(files, extension) == bytes_of(files.remove(k), extension) + if files[k].extension
            == extension {
            files[k].size
        } else {
            0
        },
    decreases files.len(),
{
    if k == files.len() - 1 {
        assert(files.remove(k) =~= files.drop_last());
    } else {
        lemma_without_one(files.drop_last(), k, extension);
        assert(files.remove(k).drop_last() =~= files.drop_last().remove(k));
        assert(files.remove(k).last() == files.last());
    }
}

proof fn lemma_same_counts(a: Seq<FileView>, b: Seq<FileView>, extension: Seq<char>)
    requires
        a.to_multiset() == b.to_multiset(),
    ensures
        count_of(a, extension) == count_of(b, extension),
        bytes_of(a, extension) == bytes_of(b, extension),
        a.len() == b.len(),
    decreases a.len(),
{
    broadcast use vstd::seq_lib::group_to_multiset_ensures;

    assert(a.len() == a.to_multiset().len());
    assert(b.len() == b.to_multiset().len());
    if a.len() > 0 {
        let last = a.len() - 1;
        let x = a[last];
        assert(a.contains(x));
        assert(b.to_multiset().count(x) > 0);
        let k = choose|k: int| 0 <= k < b.len() && b[k] == x;
        assert(a.remove(last).to_multiset() =~= a.to_multiset().remove(x));
        assert(b.remove(k).to_multiset() =~= b.to_multiset().remove(x));
        lemma_without_one(a, last, extension);
        lemma_without_one(b, k, extension);
        lemma_same_counts(a.remove(last), b.remove(k), extension);
    }
}

/// The order in which files are met does not matter: the statistics of files are those of
/// the same files in any other order.
pub proof fn lemma_statistics_ignore_order(
    stats: Seq<StatView>,
    a: Seq<FileView>,
    b: Seq<FileView>,
)
    requires
        is_statistics(stats, a),
        a.to_multiset() == b.to_multiset(),
    ensures
        is_statistics(stats, b),
{
    broadcast use vstd::seq_lib::group_to_multiset_ensures;

    let counts = stats.map_values(|s: StatView| count_part(s));
    lemma_same_counts(a, b, Seq::empty());
    assert forall|i: int| 0 <= i < counts.len() implies {
        &&& (#[trigger] counts[i]).count == count_of(b, counts[i].extension)
        &&& counts[i].bytes == bytes_of(b, counts[i].extension)
    } by {
        lemma_same_counts(a, b, counts[i].extension);
    }
    assert forall|k: int| 0 <= k < b.len() implies lists(counts, (#[trigger] b[k]).extension) by {
        assert(b.contains(b[k]));
        assert(a.to_multiset().count(b[k]) > 0);
        let j = choose|j: int| 0 <= j < a.len() && a[j] == b[k];
        assert(lists(counts, a[j].extension));
    }
}

/// The percentages of the statistics are above 0 and at most 100.
pub proof fn lemma_percentages_in_bounds(stats: Seq<StatView>, files: Seq<FileView>)
    requires
        is_statistics(stats, files),
    ensures
        forall|i: int|
            0 <= i < stats.len() ==> {
                &&& (#[trigger] stats[i]).percentage.1 > 0
                &&& stats[i].percentage.0 > 0
                &&& stats[i].percentage.0 <= 100 * stats[i].percentage.1
            },
{
    let counts = stats.map_values(|s: StatView| count_part(s));
    assert forall|i: int| 0 <= i < stats.len() implies {
        &&& (#[trigger] stats[i]).percentage.1 > 0
        &&& stats[i].percentage.0 > 0
        &&& stats[i].percentage.0 <= 100 * stats[i].percentage.1
    } by {
        assert(counts[i] == count_part(stats[i]));
        lemma_part_of_total(files, stats[i].extension);
        lemma_percentage_bounds(stats[i].count, files.len());
    }
}

} // verus!
