//! Laws of the listing.

use vstd::prelude::*;
use vstd::string::*;

use crate::filter::{is_listing, is_shown, lemma_listing_ascends, listed_before, matching};
use crate::filter::{mentions, search_text, Query, QueryView};
use crate::laws::texts::{comes_before, lemma_dictionary_order, parts_at};
use crate::laws::texts::{lemma_occurs_between, lemma_occurs_splits, lemma_trimmed_middle};
use crate::order::{ascending, keys_of, position_lt, SortKey};
use crate::records::{FileView, SortMode};
use crate::statistics::numbers;
use crate::text::{is_white_space, lowercase};

verus! {

// ------------------------------------------------------------
// What is shown
// ------------------------------------------------------------

/// The text that is looked for may stand anywhere: with any text before it and any text
/// behind it, in the lower case of the name, the path or the extension of a file.
pub proof fn lemma_shown_wherever_the_text_stands(
    file: FileView,
    query: QueryView,
    before: Seq<char>,
    behind: Seq<char>,
)
    requires
        !query.only_suspicious,
        !query.only_no_extension,
        lowercase(file.name) == before + query.text + behind || lowercase(file.path) == before
            + query.text + behind || lowercase(file.extension) == before + query.text + behind,
    ensures
        is_shown(file, query),
{
    lemma_occurs_between(before, query.text, behind);
}

/// Whether `whole` is some text, the text, and some text again.
pub open spec fn stands_in(text: Seq<char>, whole: Seq<char>) -> bool {
    exists|before: Seq<char>, behind: Seq<char>| whole == #[trigger] (before + text + behind)
}

/// A file is shown exactly if it passes the filters that are set, and the text that is
/// looked for, if any, stands in its name, its path or its extension.
pub proof fn lemma_shown_exactly(file: FileView, query: QueryView)
    ensures
        is_shown(file, query) <==> {
            &&& !query.only_suspicious || file.suspicious
            &&& !query.only_no_extension || file.extension == "File / No Extension"@
            &&& query.text.len() == 0 || stands_in(query.text, lowercase(file.name)) || stands_in(
                query.text,
                lowercase(file.path),
            ) || stands_in(query.text, lowercase(file.extension))
        },
{
    lemma_mentions(file.name, query.text);
    lemma_mentions(file.path, query.text);
    lemma_mentions(file.extension, query.text);
}

proof fn lemma_mentions(s: Seq<char>, text: Seq<char>)
    ensures
        mentions(s, text) <==> stands_in(text, lowercase(s)),
{
    if mentions(s, text) {
        let r = lemma_occurs_splits(lowercase(s), text);
        assert(lowercase(s) == r.0 + text + r.1);
    }
    if stands_in(text, lowercase(s)) {
        let (before, behind) = choose|before: Seq<char>, behind: Seq<char>|
            lowercase(s) == #[trigger] (before + text + behind);
        lemma_occurs_between(before, text, behind);
    }
}

/// White space around a search makes no difference: what is looked for is the lower case of
/// what stands between.
pub proof fn lemma_search_text(before: Seq<char>, text: Seq<char>, behind: Seq<char>)
    requires
        forall|i: int| 0 <= i < before.len() ==> is_white_space(#[trigger] before[i]),
        forall|i: int| 0 <= i < behind.len() ==> is_white_space(#[trigger] behind[i]),
        text.len() > 0 ==> !is_white_space(text.first()) && !is_white_space(text.last()),
    ensures
        search_text(before + text + behind) == lowercase(text),
{
    lemma_trimmed_middle(before, text, behind, |c: char| is_white_space(c));
}

/// A query asks for what its fields say.
pub proof fn lemma_query_fields(query: Query)
    ensures
        query@.text == search_text(query.search@),
        query@.only_suspicious == query.only_suspicious,
        query@.only_no_extension == query.only_no_extension,
{
}

/// The files that are asked for are found one by one, in their own order.
pub proof fn lemma_matching_one_by_one(files: Seq<FileView>, file: FileView, query: QueryView)
    requires
        files.len() < usize::MAX,
    ensures
        matching(Seq::empty(), query) == Seq::<usize>::empty(),
        is_shown(file, query) ==> matching(files.push(file), query) == matching(files, query).push(
            files.len() as usize,
        ),
        !is_shown(file, query) ==> matching(files.push(file), query) == matching(files, query),
{
    reveal(Seq::filter);
    let more = files.push(file);
    let n = files.len() as usize;
    let pred = |i: usize| is_shown(files[i as int], query);
    let wider = |i: usize| is_shown(more[i as int], query);
    assert(numbers(0) =~= Seq::empty());
    assert(numbers(more.len()) =~= numbers(files.len()).push(n));
    numbers(files.len()).lemma_filter_push(n, wider);
    lemma_filters_agree(numbers(files.len()), pred, wider);
    assert(wider(n) == is_shown(file, query));
}

proof fn lemma_filters_agree(
    all: Seq<usize>,
    a: spec_fn(usize) -> bool,
    b: spec_fn(usize) -> bool,
)
    requires
        forall|i: int| 0 <= i < all.len() ==> a(#[trigger] all[i]) == b(all[i]),
    ensures
        all.filter(a) == all.filter(b),
    decreases all.len(),
{
    reveal(Seq::filter);
    if all.len() > 0 {
        let front = all.drop_last();
        assert forall|i: int| 0 <= i < front.len() implies a(#[trigger] front[i]) == b(
            front[i],
        ) by {
            assert(front[i] == all[i]);
        }
        lemma_filters_agree(front, a, b);
        assert(a(all[all.len() - 1]) == b(all[all.len() - 1]));
    }
}

/// A listing holds the positions of the files that are shown, each once, and nothing else.
pub proof fn lemma_listing_holds_what_is_shown(
    files: Seq<FileView>,
    query: QueryView,
    mode: SortMode,
    list: Seq<usize>,
    i: int,
)
    requires
        files.len() <= usize::MAX,
        forall|k: int| 0 <= k < files.len() ==> (#[trigger] files[k]).size <= u64::MAX,
        is_listing(files, query, mode, list),
        0 <= i <= usize::MAX,
    ensures
        list.contains(i as usize) <==> i < files.len() && is_shown(files[i], query),
        forall|j: int, k: int|
            0 <= j < k < list.len() ==> #[trigger] list[j] != #[trigger] list[k],
{
    lemma_listing_ascends(files, query, mode, list);
    if list.contains(i as usize) {
        let k = choose|k: int| 0 <= k < list.len() && list[k] == i as usize;
        assert(list[k] < files.len());
    }
}

// ------------------------------------------------------------
// The order of the listing
// ------------------------------------------------------------

/// In sorted positions the numbers of the keys ascend; where those are the same the texts
/// ascend as in a dictionary; and where both are the same the positions do.
pub proof fn lemma_sorted_positions(keys: Seq<SortKey>, list: Seq<usize>, j: int, k: int)
    requires
        ascending(keys_of(keys), list),
        0 <= j < k < list.len(),
    ensures
        ({
            let a = keys[list[j] as int];
            let b = keys[list[k] as int];
            &&& a.number <= b.number
            &&& a.number == b.number ==> a.text@ == b.text@ || comes_before(a.text@, b.text@)
            &&& a.number == b.number && a.text@ == b.text@ ==> list[j] < list[k]
        }),
{
    let a = list[j] as int;
    let b = list[k] as int;
    assert(position_lt(keys_of(keys), a, b));
    lemma_dictionary_order(keys[a].text@, keys[b].text@);
}

/// In a listing by name, the lower-cased names ascend as in a dictionary; files whose
/// lower-cased names are the same keep their order.
pub proof fn lemma_listing_by_name_ascends(
    files: Seq<FileView>,
    query: QueryView,
    list: Seq<usize>,
    j: int,
    k: int,
)
    requires
        is_listing(files, query, SortMode::Name, list),
        0 <= j < k < list.len(),
    ensures
        ({
            let a = lowercase(files[list[j] as int].name);
            let b = lowercase(files[list[k] as int].name);
            comes_before(a, b) || (a == b && list[j] < list[k])
        }),
{
    let a = list[j];
    let b = list[k];
    assert(listed_before(files, SortMode::Name, a as int, b as int));
    lemma_dictionary_order(lowercase(files[a as int].name), lowercase(files[b as int].name));
}

/// In a listing by name, of two files whose lower-cased names first differ at some place
/// the one with the lesser character there comes first, and one whose lower-cased name
/// begins that of the other comes before it.
pub proof fn lemma_first_difference_of_names_decides(
    files: Seq<FileView>,
    query: QueryView,
    list: Seq<usize>,
    j: int,
    k: int,
    p: int,
)
    requires
        is_listing(files, query, SortMode::Name, list),
        0 <= j < list.len(),
        0 <= k < list.len(),
        0 <= p <= lowercase(files[list[j] as int].name).len(),
        p < lowercase(files[list[k] as int].name).len(),
        forall|q: int|
            0 <= q < p ==> #[trigger] lowercase(files[list[j] as int].name)[q] == lowercase(
                files[list[k] as int].name,
            )[q],
        p < lowercase(files[list[j] as int].name).len() ==> lowercase(
            files[list[j] as int].name,
        )[p] < lowercase(files[list[k] as int].name)[p],
    ensures
        j < k,
{
    let a = lowercase(files[list[j] as int].name);
    let b = lowercase(files[list[k] as int].name);
    assert(parts_at(a, b, p));
    lemma_dictionary_order(a, b);
    if k < j {
        lemma_listing_by_name_ascends(files, query, list, k, j);
        lemma_dictionary_order(b, a);
    }
}

/// In a listing by extension, the extensions ascend as in a dictionary; files with the
/// same extension keep their order.
pub proof fn lemma_listing_by_extension_ascends(
    files: Seq<FileView>,
    query: QueryView,
    list: Seq<usize>,
    j: int,
    k: int,
)
    requires
        is_listing(files, query, SortMode::Extension, list),
        0 <= j < k < list.len(),
    ensures
        ({
            let a = files[list[j] as int].extension;
            let b = files[list[k] as int].extension;
            comes_before(a, b) || (a == b && list[j] < list[k])
        }),
{
    let a = list[j];
    let b = list[k];
    assert(listed_before(files, SortMode::Extension, a as int, b as int));
    lemma_dictionary_order(files[a as int].extension, files[b as int].extension);
}

/// In a listing by extension, of two files whose extensions first differ at some place the
/// one with the lesser character there comes first.
pub proof fn lemma_first_difference_of_extensions_decides(
    files: Seq<FileView>,
    query: QueryView,
    list: Seq<usize>,
    j: int,
    k: int,
    p: int,
)
    requires
        is_listing(files, query, SortMode::Extension, list),
        0 <= j < list.len(),
        0 <= k < list.len(),
        0 <= p <= files[list[j] as int].extension.len(),
        p < files[list[k] as int].extension.len(),
        forall|q: int|
            0 <= q < p ==> #[trigger] files[list[j] as int].extension[q]
                == files[list[k] as int].extension[q],
        p < files[list[j] as int].extension.len() ==> files[list[j] as int].extension[p]
            < files[list[k] as int].extension[p],
    ensures
        j < k,
{
    let a = files[list[j] as int].extension;
    let b = files[list[k] as int].extension;
    assert(parts_at(a, b, p));
    lemma_dictionary_order(a, b);
    if k < j {
        lemma_listing_by_extension_ascends(files, query, list, k, j);
        lemma_dictionary_order(b, a);
    }
}

/// In a listing by size, the sizes descend with the largest first and ascend with the
/// smallest first; files of the same size keep their order.
pub proof fn lemma_listing_by_size(
    files: Seq<FileView>,
    query: QueryView,
    mode: SortMode,
    list: Seq<usize>,
    j: int,
    k: int,
)
    requires
        is_listing(files, query, mode, list),
        0 <= j < k < list.len(),
    ensures
        mode == SortMode::Largest ==> files[list[j] as int].size >= files[list[k] as int].size,
        mode == SortMode::Smallest ==> files[list[j] as int].size <= files[list[k] as int].size,
        (mode == SortMode::Largest || mode == SortMode::Smallest) && files[list[j] as int].size
            == files[list[k] as int].size ==> list[j] < list[k],
{
    let a = list[j];
    let b = list[k];
    assert(listed_before(files, mode, a as int, b as int));
}

} // verus!
