//! Which files are listed, and in which order.

use vstd::prelude::*;
use vstd::string::*;

use crate::names::NO_EXTENSION;
use crate::order::{ascending, keys_of, lemma_ascending_unique, lemma_position_lt_irreflexive};
use crate::order::{lemma_same_members, position_lt, sort_positions, KeyView, SortKey};
use crate::records::{file_views, FileRecord, FileView, SortMode};
use crate::statistics::numbers;
use crate::text::{chars_of, contains_text, is_white_space, lowercase, occurs, same_text, text_lt};
use crate::text::{to_lowercase, trim, trimmed};

verus! {

/// Which files are asked for.
pub struct Query {
    pub search: String,
    pub only_suspicious: bool,
    pub only_no_extension: bool,
}

/// Which files are asked for, as mathematical values: the text that is looked for is in
/// lower case and without white space at its ends.
#[verifier::ext_equal]
pub struct QueryView {
    pub text: Seq<char>,
    pub only_suspicious: bool,
    pub only_no_extension: bool,
}

/// The text that is looked for.
pub open spec fn search_text(search: Seq<char>) -> Seq<char> {
    lowercase(trimmed(search, |c: char| is_white_space(c)))
}

/// Whether a search looks for nothing: it is empty, or white space only.
pub open spec fn is_blank_search(search: Seq<char>) -> bool {
    trimmed(search, |c: char| is_white_space(c)).len() == 0
}

/// Whether the lower case of `s` holds the text that is looked for.
pub open spec fn mentions(s: Seq<char>, text: Seq<char>) -> bool {
    occurs(lowercase(s), text)
}

/// Whether a file is asked for.
pub open spec fn is_shown(file: FileView, query: QueryView) -> bool {
    &&& query.only_suspicious ==> file.suspicious
    &&& query.only_no_extension ==> file.extension == NO_EXTENSION@
    &&& query.text.len() == 0 || mentions(file.name, query.text) || mentions(
        file.path,
        query.text,
    ) || mentions(file.extension, query.text)
}

/// The positions of the files that are asked for, in their own order.
pub open spec fn matching(files: Seq<FileView>, query: QueryView) -> Seq<usize> {
    numbers(files.len()).filter(|i: usize| is_shown(files[i as int], query))
}

/// The order in which the files at `a` and `b` are listed. Files that are equal in what
/// the list is sorted by keep their own order.
pub open spec fn listed_before(files: Seq<FileView>, mode: SortMode, a: int, b: int) -> bool {
    match mode {
        SortMode::Name => {
            ||| text_lt(lowercase(files[a].name), lowercase(files[b].name))
            ||| lowercase(files[a].name) == lowercase(files[b].name) && a < b
        },
        SortMode::Extension => {
            ||| text_lt(files[a].extension, files[b].extension)
            ||| files[a].extension == files[b].extension && a < b
        },
        SortMode::Largest => {
            ||| files[a].size > files[b].size
            ||| files[a].size == files[b].size && a < b
        },
        SortMode::Smallest => {
            ||| files[a].size < files[b].size
            ||| files[a].size == files[b].size && a < b
        },
    }
}

/// Whether `list` holds the positions of the files that are asked for, each once, in the
/// order of `mode`.
pub open spec fn is_listing(
    files: Seq<FileView>,
    query: QueryView,
    mode: SortMode,
    list: Seq<usize>,
) -> bool {
    &&& forall|k: int|
        0 <= k < list.len() ==> (#[trigger] list[k]) < files.len() && is_shown(
            files[list[k] as int],
            query,
        )
    &&& forall|i: int|
        0 <= i < files.len() && is_shown(#[trigger] files[i], query) ==> list.contains(i as usize)
    &&& forall|j: int, k: int|
        0 <= j < k < list.len() ==> listed_before(
            files,
            mode,
            #[trigger] list[j] as int,
            #[trigger] list[k] as int,
        )
}

impl View for Query {
    type V = QueryView;

    open spec fn view(&self) -> QueryView {
        QueryView {
            text: search_text(self.search@),
            only_suspicious: self.only_suspicious,
            only_no_extension: self.only_no_extension,
        }
    }
}

fn prepared(query: &Query) -> (r: Vec<char>)
    ensures
        r@ == query@.text,
{
    let lower = to_lowercase(trim(query.search.as_str()).as_str());
    chars_of(lower.as_str())
}

fn holds_text(s: &String, text: &Vec<char>) -> (r: bool)
    ensures
        r == mentions(s@, text@),
{
    let lower = to_lowercase(s.as_str());
    let chars = chars_of(lower.as_str());
    contains_text(&chars, text)
}

fn shows(file: &FileRecord, query: &Query, text: &Vec<char>) -> (r: bool)
    requires
        text@ == query@.text,
    ensures
        r == is_shown(file@, query@),
{
    if query.only_suspicious && !file.suspicious {
        return false;
    }
    if query.only_no_extension && !same_text(file.extension.as_str(), NO_EXTENSION) {
        return false;
    }
    text.len() == 0 || holds_text(&file.name, text) || holds_text(&file.path, text) || holds_text(
        &file.extension,
        text,
    )
}

fn matching_positions(files: &Vec<FileRecord>, query: &Query) -> (r: Vec<usize>)
    ensures
        r@ == matching(file_views(files@), query@),
{
    let text = prepared(query);
    let ghost views = file_views(files@);
    let ghost pred = |i: usize| is_shown(views[i as int], query@);
    let mut r: Vec<usize> = Vec::new();
    proof {
        reveal(Seq::filter);
        assert(numbers(0) =~= Seq::empty());
    }
    for i in 0..files.len()
        invariant
            text@ == query@.text,
            views == file_views(files@),
            pred == (|i: usize| is_shown(views[i as int], query@)),
            r@ == numbers(i as nat).filter(pred),
    {
        if shows(&files[i], query, &text) {
            r.push(i);
        }
        proof {
            assert(views[i as int] == files@[i as int]@);
            assert(numbers((i + 1) as nat) =~= numbers(i as nat).push(i));
            numbers(i as nat).lemma_filter_push(i, pred);
        }
    }
    r
}

/// How many files are asked for.
pub fn filtered_count(files: &Vec<FileRecord>, query: &Query) -> (r: usize)
    ensures
        r == matching(file_views(files@), query@).len(),
        is_blank_search(query.search@) && !query.only_suspicious && !query.only_no_extension
            ==> r == files@.len(),
{
    let positions = matching_positions(files, query);
    let count: usize = files.len();
    proof {
        assert(file_views(files@).len() == count);
        if query@.text.len() == 0 && !query.only_suspicious && !query.only_no_extension {
            lemma_blank_query_lists_all(file_views(files@), query@);
        }
    }
    positions.len()
}

/// A query without a text and without filters asks for every file.
pub proof fn lemma_blank_query_lists_all(files: Seq<FileView>, query: QueryView)
    requires
        files.len() <= usize::MAX,
        query.text.len() == 0,
        !query.only_suspicious,
        !query.only_no_extension,
    ensures
        matching(files, query) == numbers(files.len()),
{
    let pred = |i: usize| is_shown(files[i as int], query);
    lemma_filter_keeps_all(numbers(files.len()), pred);
}

proof fn lemma_filter_keeps_all(all: Seq<usize>, pred: spec_fn(usize) -> bool)
    requires
        forall|i: int| 0 <= i < all.len() ==> #[trigger] pred(all[i]),
    ensures
        all.filter(pred) == all,
    decreases all.len(),
{
    reveal(Seq::filter);
    if all.len() > 0 {
        let front = all.drop_last();
        assert forall|i: int| 0 <= i < front.len() implies #[trigger] pred(front[i]) by {
            assert(pred(all[i]));
        }
        lemma_filter_keeps_all(front, pred);
        assert(pred(all[all.len() - 1]));
        assert(front.push(all.last()) =~= all);
    } else {
        assert(all.filter(pred) =~= all);
    }
}

/// A filter narrows: what a query with filters asks for, the same query with fewer filters
/// asks for too.
pub proof fn lemma_filters_narrow(file: FileView, query: QueryView, wider: QueryView)
    requires
        is_shown(file, query),
        wider.text == query.text || wider.text.len() == 0,
        wider.only_suspicious ==> query.only_suspicious,
        wider.only_no_extension ==> query.only_no_extension,
    ensures
        is_shown(file, wider),
{
}

/// What a file is sorted by.
pub open spec fn listing_key(file: FileView, mode: SortMode) -> KeyView {
    match mode {
        SortMode::Name => KeyView { number: 0, text: lowercase(file.name) },
        SortMode::Extension => KeyView { number: 0, text: file.extension },
        SortMode::Largest => KeyView { number: u64::MAX - file.size, text: Seq::empty() },
        SortMode::Smallest => KeyView { number: file.size as int, text: Seq::empty() },
    }
}

fn listing_keys(files: &Vec<FileRecord>, mode: SortMode) -> (r: Vec<SortKey>)
    ensures
        r@.len() == files@.len(),
        forall|i: int| 0 <= i < r@.len() ==> (#[trigger] r@[i])@ == listing_key(files@[i]@, mode),
{
    let mut r: Vec<SortKey> = Vec::new();
    for i in 0..files.len()
        invariant
            r@.len() == i,
            forall|k: int|
                0 <= k < r@.len() ==> (#[trigger] r@[k])@ == listing_key(files@[k]@, mode),
    {
        let file = &files[i];
        let key = match mode {
            SortMode::Name => {
                let lower = to_lowercase(file.name.as_str());
                SortKey { number: 0, text: chars_of(lower.as_str()) }
            },
            SortMode::Extension => SortKey { number: 0, text: chars_of(file.extension.as_str()) },
            SortMode::Largest => SortKey { number: u64::MAX - file.size, text: Vec::new() },
            SortMode::Smallest => SortKey { number: file.size, text: Vec::new() },
        };
        assert(key@ =~= listing_key(file@, mode));
        r.push(key);
    }
    r
}

proof fn lemma_matching(files: Seq<FileView>, query: QueryView)
    requires
        files.len() <= usize::MAX,
    ensures
        matching(files, query).no_duplicates(),
        forall|k: int|
            0 <= k < matching(files, query).len() ==> (#[trigger] matching(files, query)[k])
                < files.len() && is_shown(files[matching(files, query)[k] as int], query),
        forall|i: int|
            0 <= i < files.len() && is_shown(#[trigger] files[i], query) ==> matching(
                files,
                query,
            ).contains(i as usize),
{
    let all = numbers(files.len());
    let pred = |i: usize| is_shown(files[i as int], query);
    lemma_filter_ascending(all, pred);
    assert forall|i: int|
        0 <= i < files.len() && is_shown(#[trigger] files[i], query) implies matching(
        files,
        query,
    ).contains(i as usize) by {
        assert(all[i] == i as usize);
        all.lemma_filter_contains(pred, i);
    }
    assert forall|k: int| 0 <= k < matching(files, query).len() implies (
    #[trigger] matching(files, query)[k]) < files.len() && is_shown(
        files[matching(files, query)[k] as int],
        query,
    ) by {
        all.lemma_filter_pred(pred, k);
        let m = matching(files, query);
        assert(m.contains(m[k]));
        all.lemma_filter_contains_rev(pred, m[k]);
    }
}

proof fn lemma_filter_ascending(all: Seq<usize>, pred: spec_fn(usize) -> bool)
    requires
        forall|i: int, j: int| 0 <= i < j < all.len() ==> #[trigger] all[i] < #[trigger] all[j],
    ensures
        forall|i: int, j: int|
            0 <= i < j < all.filter(pred).len() ==> #[trigger] all.filter(pred)[i]
                < #[trigger] all.filter(pred)[j],
    decreases all.len(),
{
    reveal(Seq::filter);
    if all.len() > 0 {
        let front = all.drop_last();
        lemma_filter_ascending(front, pred);
        let kept = front.filter(pred);
        assert forall|i: int| 0 <= i < kept.len() implies #[trigger] kept[i] < all.last() by {
            assert(kept.contains(kept[i]));
            front.lemma_filter_contains_rev(pred, kept[i]);
            let k = choose|k: int| 0 <= k < front.len() && front[k] == kept[i];
            assert(all[k] < all[all.len() - 1]);
        }
    }
}

proof fn lemma_order_by_keys(files: Seq<FileView>, mode: SortMode, a: int, b: int)
    requires
        forall|i: int| 0 <= i < files.len() ==> (#[trigger] files[i]).size <= u64::MAX,
        0 <= a < files.len(),
        0 <= b < files.len(),
    ensures
        position_lt(|i: int| listing_key(files[i], mode), a, b) == listed_before(
            files,
            mode,
            a,
            b,
        ),
{
    let none = Seq::<char>::empty();
    assert(!text_lt(none, none));
    let x = listing_key(files[a], mode);
    let y = listing_key(files[b], mode);
    assert((x == y) == (x.number == y.number && x.text == y.text));
}

/// The positions of the files that are asked for, in the order of `mode`.
pub fn filtered_indices(files: &Vec<FileRecord>, query: &Query, mode: SortMode) -> (r: Vec<usize>)
    ensures
        is_listing(file_views(files@), query@, mode, r@),
        r@.to_multiset() == matching(file_views(files@), query@).to_multiset(),
        r@.len() == matching(file_views(files@), query@).len(),
        is_blank_search(query.search@) && !query.only_suspicious && !query.only_no_extension
            ==> r@.len() == files@.len(),
{
    let positions = matching_positions(files, query);
    let keys = listing_keys(files, mode);
    let ghost views = file_views(files@);
    let count: usize = files.len();
    proof {
        lemma_matching(views, query@);
        if query@.text.len() == 0 && !query.only_suspicious && !query.only_no_extension {
            lemma_blank_query_lists_all(views, query@);
        }
    }
    let r = sort_positions(&keys, &positions);
    proof {
        lemma_same_members(r@, positions@);
        lemma_same_members(positions@, r@);
        assert forall|i: int| 0 <= i < views.len() implies (#[trigger] views[i]).size
            <= u64::MAX by {
            assert(views[i] == files@[i]@);
        }
        assert forall|k: int| 0 <= k < r@.len() implies (#[trigger] r@[k]) < views.len()
            && is_shown(views[r@[k] as int], query@) by {
            assert(positions@.contains(r@[k]));
        }
        assert forall|i: int| 0 <= i < views.len() && is_shown(
            #[trigger] views[i],
            query@,
        ) implies r@.contains(i as usize) by {
            assert(positions@.contains(i as usize));
            let k = choose|k: int| 0 <= k < positions@.len() && positions@[k] == i as usize;
            assert(r@.contains(positions@[k]));
        }
        assert forall|j: int, k: int| 0 <= j < k < r@.len() implies listed_before(
            views,
            mode,
            #[trigger] r@[j] as int,
            #[trigger] r@[k] as int,
        ) by {
            let a = r@[j] as int;
            let b = r@[k] as int;
            assert(position_lt(keys_of(keys@), a, b));
            assert(keys@[a]@ == listing_key(views[a], mode));
            assert(keys@[b]@ == listing_key(views[b], mode));
            lemma_order_by_keys(views, mode, a, b);
        }
    }
    r
}

/// Sorting changes the order only: the listings in two orders hold the same files.
pub proof fn lemma_sorting_keeps_files(
    files: Seq<FileView>,
    query: QueryView,
    mode: SortMode,
    a: Seq<usize>,
    other: SortMode,
    b: Seq<usize>,
)
    requires
        files.len() <= usize::MAX,
        forall|i: int| 0 <= i < files.len() ==> (#[trigger] files[i]).size <= u64::MAX,
        is_listing(files, query, mode, a),
        is_listing(files, query, other, b),
    ensures
        a.to_multiset() == b.to_multiset(),
{
    lemma_listing_ascends(files, query, mode, a);
    lemma_listing_ascends(files, query, other, b);
    assert forall|x: usize| a.contains(x) == b.contains(x) by {
        if a.contains(x) {
            let k = choose|k: int| 0 <= k < a.len() && a[k] == x;
            assert(is_shown(files[a[k] as int], query));
            assert(b.contains((x as int) as usize));
        }
        if b.contains(x) {
            let k = choose|k: int| 0 <= k < b.len() && b[k] == x;
            assert(is_shown(files[b[k] as int], query));
            assert(a.contains((x as int) as usize));
        }
    }
    assert(a.to_multiset() =~= b.to_multiset()) by {
        broadcast use vstd::seq_lib::group_to_multiset_ensures;

        a.lemma_multiset_has_no_duplicates();
        b.lemma_multiset_has_no_duplicates();
        assert forall|x: usize| a.to_multiset().count(x) == b.to_multiset().count(x) by {
            assert(a.contains(x) == b.contains(x));
        }
    }
}

/// There is one listing only: what is asked for and the order determine it.
pub proof fn lemma_listing_unique(
    files: Seq<FileView>,
    query: QueryView,
    mode: SortMode,
    a: Seq<usize>,
    b: Seq<usize>,
)
    requires
        files.len() <= usize::MAX,
        forall|i: int| 0 <= i < files.len() ==> (#[trigger] files[i]).size <= u64::MAX,
        is_listing(files, query, mode, a),
        is_listing(files, query, mode, b),
    ensures
        a == b,
{
    let keys = |i: int| listing_key(files[i], mode);
    lemma_listing_ascends(files, query, mode, a);
    lemma_listing_ascends(files, query, mode, b);
    lemma_sorting_keeps_files(files, query, mode, a, mode, b);
    lemma_ascending_unique(keys, a, b);
}

/// A listing ascends by the keys of its files, and holds no position twice.
pub proof fn lemma_listing_ascends(
    files: Seq<FileView>,
    query: QueryView,
    mode: SortMode,
    list: Seq<usize>,
)
    requires
        forall|i: int| 0 <= i < files.len() ==> (#[trigger] files[i]).size <= u64::MAX,
        is_listing(files, query, mode, list),
    ensures
        ascending(|i: int| listing_key(files[i], mode), list),
        list.no_duplicates(),
{
    let keys = |i: int| listing_key(files[i], mode);
    assert forall|j: int, k: int| 0 <= j < k < list.len() implies position_lt(
        keys,
        #[trigger] list[j] as int,
        #[trigger] list[k] as int,
    ) by {
        lemma_order_by_keys(files, mode, list[j] as int, list[k] as int);
    }
    assert forall|j: int, k: int| 0 <= j < list.len() && 0 <= k < list.len() && j
        != k implies list[j] != list[k] by {
        lemma_position_lt_irreflexive(keys, list[j] as int);
        if j < k {
            assert(position_lt(keys, list[j] as int, list[k] as int));
        } else {
            assert(position_lt(keys, list[k] as int, list[j] as int));
        }
    }
}

} // verus!
