//! What lies in a folder, and what a walk through it meets.

use vstd::prelude::*;
use vstd::string::*;

use crate::names::{is_portable, settled_verdict};
use crate::scan::{entered, failures, found_files, is_folder_record, is_link, is_run};
use crate::scan::{lemma_links_change_nothing, lemma_run_records_all};
use crate::scan::{lemma_runs_agree_but_for_links, without_links, FolderEvent, FoundFile};
use crate::scan::{ReportView, ScanView};

verus! {

/// What lies in a folder, in the order in which its entries are listed.
pub enum FolderTree {
    /// The entries cannot be read.
    Unreadable { path: String, error: String },
    /// The entries.
    Entries(Seq<TreeEntry>),
}

/// An entry of a folder.
pub enum TreeEntry {
    /// A link, to anything.
    Link { is_dir: bool, is_file: bool },
    /// Neither a link nor a directory nor a file.
    Other,
    /// It cannot be read.
    Broken { error: String },
    /// It cannot be told what it is.
    Untyped { path: String, error: String },
    /// A file whose size cannot be read.
    Unmeasured { path: String, error: String },
    /// A file.
    File(FoundFile),
    /// A directory.
    Directory(FolderTree),
}

/// What a walk through a folder meets, where it does at each step what the scan asks for.
pub open spec fn walk_events(tree: FolderTree) -> Seq<FolderEvent>
    decreases tree,
{
    seq![FolderEvent::Entered] + match tree {
        FolderTree::Unreadable { path, error } => seq![FolderEvent::Unreadable { path, error }],
        FolderTree::Entries(entries) => entries_events(entries),
    }
}

/// What a walk meets in the entries of a folder.
pub open spec fn entries_events(entries: Seq<TreeEntry>) -> Seq<FolderEvent>
    decreases entries,
{
    if entries.len() == 0 {
        Seq::empty()
    } else {
        entries_events(entries.subrange(0, entries.len() - 1)) + entry_events(
            entries[entries.len() - 1],
        )
    }
}

/// What a walk meets in an entry: a directory is entered, a file is measured, and a link
/// is passed over.
pub open spec fn entry_events(entry: TreeEntry) -> Seq<FolderEvent>
    decreases entry,
{
    match entry {
        TreeEntry::Link { is_dir, is_file } => seq![
            FolderEvent::Typed { is_symlink: true, is_dir, is_file },
        ],
        TreeEntry::Other => seq![
            FolderEvent::Typed { is_symlink: false, is_dir: false, is_file: false },
        ],
        TreeEntry::Broken { error } => seq![FolderEvent::EntryFailed { error }],
        TreeEntry::Untyped { path, error } => seq![FolderEvent::TypeFailed { path, error }],
        TreeEntry::Unmeasured { path, error } => seq![
            FolderEvent::Typed { is_symlink: false, is_dir: false, is_file: true },
            FolderEvent::MetadataFailed { path, error },
        ],
        TreeEntry::File(found) => seq![
            FolderEvent::Typed { is_symlink: false, is_dir: false, is_file: true },
            FolderEvent::Found(found),
        ],
        TreeEntry::Directory(tree) => seq![
            FolderEvent::Typed { is_symlink: false, is_dir: true, is_file: false },
        ] + walk_events(tree),
    }
}

/// A folder without the links in it and in all its directories.
pub open spec fn tree_without_links(tree: FolderTree) -> FolderTree
    decreases tree,
{
    match tree {
        FolderTree::Unreadable { path, error } => tree,
        FolderTree::Entries(entries) => FolderTree::Entries(entries_without_links(entries)),
    }
}

/// Entries without links.
pub open spec fn entries_without_links(entries: Seq<TreeEntry>) -> Seq<TreeEntry>
    decreases entries,
{
    if entries.len() == 0 {
        Seq::empty()
    } else {
        let front = entries_without_links(entries.subrange(0, entries.len() - 1));
        match entries[entries.len() - 1] {
            TreeEntry::Link { is_dir, is_file } => front,
            TreeEntry::Directory(tree) => front.push(
                TreeEntry::Directory(tree_without_links(tree)),
            ),
            entry => front.push(entry),
        }
    }
}

proof fn lemma_without_links_joins(a: Seq<FolderEvent>, b: Seq<FolderEvent>)
    ensures
        without_links(a + b) == without_links(a) + without_links(b),
    decreases b.len(),
{
    if b.len() == 0 {
        assert(a + b =~= a);
        assert(without_links(a) + without_links(b) =~= without_links(a));
    } else {
        lemma_without_links_joins(a, b.drop_last());
        assert((a + b).drop_last() =~= a + b.drop_last());
        assert(without_links(a + b) =~= without_links(a) + without_links(b));
    }
}

proof fn lemma_short_runs(events: Seq<FolderEvent>)
    requires
        1 <= events.len() <= 2,
        forall|i: int| 0 <= i < events.len() ==> !is_link(#[trigger] events[i]),
    ensures
        without_links(events) == events,
{
    reveal_with_fuel(without_links, 3);
    assert(!is_link(events[0]));
    assert(without_links(events) =~= events);
}

proof fn lemma_walk_without_links(tree: FolderTree)
    ensures
        walk_events(tree_without_links(tree)) == without_links(walk_events(tree)),
    decreases tree,
{
    let first = seq![FolderEvent::Entered];
    lemma_short_runs(first);
    match tree {
        FolderTree::Unreadable { path, error } => {
            let second = seq![FolderEvent::Unreadable { path, error }];
            lemma_short_runs(second);
            lemma_without_links_joins(first, second);
        },
        FolderTree::Entries(entries) => {
            lemma_entries_without_links(entries);
            lemma_without_links_joins(first, entries_events(entries));
        },
    }
}

proof fn lemma_entries_without_links(entries: Seq<TreeEntry>)
    ensures
        entries_events(entries_without_links(entries)) == without_links(entries_events(entries)),
    decreases entries,
{
    if entries.len() > 0 {
        let front = entries.subrange(0, entries.len() - 1);
        let last = entries[entries.len() - 1];
        let kept = entries_without_links(entries);
        let kept_front = entries_without_links(front);
        lemma_entries_without_links(front);
        lemma_without_links_joins(entries_events(front), entry_events(last));
        lemma_entry_without_links(last);
        if last is Link {
            assert(without_links(entries_events(entries)) =~= without_links(
                entries_events(front),
            ));
        } else {
            assert(kept.subrange(0, kept.len() - 1) =~= kept_front);
            assert(entries_events(kept) == entries_events(kept_front) + entry_events(
                kept[kept.len() - 1],
            ));
        }
    }
}

proof fn lemma_entry_without_links(entry: TreeEntry)
    ensures
        match entry {
            TreeEntry::Link { is_dir, is_file } => without_links(entry_events(entry)).len() == 0,
            TreeEntry::Directory(tree) => without_links(entry_events(entry)) == entry_events(
                TreeEntry::Directory(tree_without_links(tree)),
            ),
            _ => without_links(entry_events(entry)) == entry_events(entry),
        },
    decreases entry,
{
    match entry {
        TreeEntry::Link { is_dir, is_file } => {
            reveal_with_fuel(without_links, 2);
            assert(is_link(entry_events(entry).last()));
        },
        TreeEntry::Directory(tree) => {
            let first = seq![
                FolderEvent::Typed { is_symlink: false, is_dir: true, is_file: false },
            ];
            lemma_short_runs(first);
            lemma_walk_without_links(tree);
            lemma_without_links_joins(first, walk_events(tree));
        },
        _ => {
            lemma_short_runs(entry_events(entry));
        },
    }
}

/// Links are neither followed nor recorded nor reported, wherever they lead: scans of two
/// folders that are the same but for links come to the same files, directories, errors and
/// reports.
pub proof fn lemma_links_are_passed_over(
    before: ScanView,
    tree: FolderTree,
    other: FolderTree,
    after: ScanView,
    sent: Seq<ReportView>,
)
    requires
        tree_without_links(tree) == tree_without_links(other),
    ensures
        is_run(before, walk_events(tree), after, sent) <==> is_run(
            before,
            walk_events(other),
            after,
            sent,
        ),
{
    lemma_walk_without_links(tree);
    lemma_walk_without_links(other);
    lemma_links_change_nothing(before, walk_events(tree), after, sent);
    lemma_links_change_nothing(before, walk_events(other), after, sent);
}

// ------------------------------------------------------------
// Whole folders
// ------------------------------------------------------------

/// The files in a folder and in all its directories, in the order of the walk.
pub open spec fn tree_files(tree: FolderTree) -> Seq<FoundFile>
    decreases tree,
{
    match tree {
        FolderTree::Unreadable { path, error } => Seq::empty(),
        FolderTree::Entries(entries) => entries_files(entries),
    }
}

/// The files among entries and in their directories.
pub open spec fn entries_files(entries: Seq<TreeEntry>) -> Seq<FoundFile>
    decreases entries,
{
    if entries.len() == 0 {
        Seq::empty()
    } else {
        entries_files(entries.subrange(0, entries.len() - 1)) + match entries[entries.len() - 1] {
            TreeEntry::File(found) => seq![found],
            TreeEntry::Directory(tree) => tree_files(tree),
            _ => Seq::empty(),
        }
    }
}

/// How many directories a folder holds, with all that they hold, and itself.
pub open spec fn tree_directories(tree: FolderTree) -> nat
    decreases tree,
{
    1 + match tree {
        FolderTree::Unreadable { path, error } => 0,
        FolderTree::Entries(entries) => entries_directories(entries),
    }
}

/// How many directories are among entries, with all that they hold.
pub open spec fn entries_directories(entries: Seq<TreeEntry>) -> nat
    decreases entries,
{
    if entries.len() == 0 {
        0
    } else {
        entries_directories(entries.subrange(0, entries.len() - 1))
            + match entries[entries.len() - 1] {
            TreeEntry::Directory(tree) => tree_directories(tree),
            _ => 0,
        }
    }
}

/// Whether all that a walk through a folder reads can be read.
pub open spec fn is_readable(tree: FolderTree) -> bool
    decreases tree,
{
    match tree {
        FolderTree::Unreadable { path, error } => false,
        FolderTree::Entries(entries) => all_readable(entries),
    }
}

/// Whether all that a walk reads of entries can be read.
pub open spec fn all_readable(entries: Seq<TreeEntry>) -> bool
    decreases entries,
{
    if entries.len() == 0 {
        true
    } else {
        all_readable(entries.subrange(0, entries.len() - 1))
            && match entries[entries.len() - 1] {
            TreeEntry::Broken { error } => false,
            TreeEntry::Untyped { path, error } => false,
            TreeEntry::Unmeasured { path, error } => false,
            TreeEntry::Directory(tree) => is_readable(tree),
            _ => true,
        }
    }
}

proof fn lemma_runs_join(a: Seq<FolderEvent>, b: Seq<FolderEvent>)
    ensures
        found_files(a + b) == found_files(a) + found_files(b),
        entered(a + b) == entered(a) + entered(b),
        failures(a + b) == failures(a) + failures(b),
    decreases b.len(),
{
    if b.len() == 0 {
        assert(a + b =~= a);
        assert(found_files(a) + found_files(b) =~= found_files(a));
        assert(failures(a) + failures(b) =~= failures(a));
    } else {
        lemma_runs_join(a, b.drop_last());
        assert((a + b).drop_last() =~= a + b.drop_last());
        assert(found_files(a + b) =~= found_files(a) + found_files(b));
        assert(failures(a + b) =~= failures(a) + failures(b));
    }
}

proof fn lemma_walk_meets(tree: FolderTree)
    ensures
        found_files(walk_events(tree)) == tree_files(tree),
        entered(walk_events(tree)) == tree_directories(tree),
        is_readable(tree) <==> failures(walk_events(tree)).len() == 0,
    decreases tree,
{
    let first = seq![FolderEvent::Entered];
    reveal_with_fuel(found_files, 2);
    reveal_with_fuel(entered, 2);
    reveal_with_fuel(failures, 2);
    assert(first.drop_last() =~= Seq::empty());
    assert(found_files(first) =~= Seq::empty());
    match tree {
        FolderTree::Unreadable { path, error } => {
            let second = seq![FolderEvent::Unreadable { path, error }];
            assert(second.drop_last() =~= Seq::empty());
            lemma_runs_join(first, second);
            assert(found_files(walk_events(tree)) =~= Seq::empty());
        },
        FolderTree::Entries(entries) => {
            lemma_entries_meet(entries);
            lemma_runs_join(first, entries_events(entries));
            assert(found_files(walk_events(tree)) =~= tree_files(tree));
        },
    }
}

proof fn lemma_entries_meet(entries: Seq<TreeEntry>)
    ensures
        found_files(entries_events(entries)) == entries_files(entries),
        entered(entries_events(entries)) == entries_directories(entries),
        all_readable(entries) <==> failures(entries_events(entries)).len() == 0,
    decreases entries,
{
    if entries.len() > 0 {
        let front = entries.subrange(0, entries.len() - 1);
        let last = entries[entries.len() - 1];
        lemma_entries_meet(front);
        lemma_entry_meets(last);
        lemma_runs_join(entries_events(front), entry_events(last));
    }
}

proof fn lemma_entry_meets(entry: TreeEntry)
    ensures
        found_files(entry_events(entry)) == match entry {
            TreeEntry::File(found) => seq![found],
            TreeEntry::Directory(tree) => tree_files(tree),
            _ => Seq::empty(),
        },
        entered(entry_events(entry)) == match entry {
            TreeEntry::Directory(tree) => tree_directories(tree),
            _ => 0,
        },
        failures(entry_events(entry)).len() == 0 <==> match entry {
            TreeEntry::Broken { error } => false,
            TreeEntry::Untyped { path, error } => false,
            TreeEntry::Unmeasured { path, error } => false,
            TreeEntry::Directory(tree) => is_readable(tree),
            _ => true,
        },
    decreases entry,
{
    let events = entry_events(entry);
    reveal_with_fuel(found_files, 3);
    reveal_with_fuel(entered, 3);
    reveal_with_fuel(failures, 3);
    match entry {
        TreeEntry::Directory(tree) => {
            let first = seq![
                FolderEvent::Typed { is_symlink: false, is_dir: true, is_file: false },
            ];
            assert(first.drop_last() =~= Seq::empty());
            lemma_walk_meets(tree);
            lemma_runs_join(first, walk_events(tree));
            assert(found_files(events) =~= tree_files(tree));
        },
        TreeEntry::File(found) => {
            assert(events.drop_last().drop_last() =~= Seq::empty());
            assert(found_files(events) =~= seq![found]);
        },
        TreeEntry::Unmeasured { path, error } => {
            assert(events.drop_last().drop_last() =~= Seq::empty());
            assert(found_files(events) =~= Seq::empty());
        },
        _ => {
            assert(events.drop_last() =~= Seq::empty());
            assert(found_files(events) =~= Seq::empty());
        },
    }
}

/// A scan of a folder records each file in it and in its directories, whatever it is
/// called, once and in the order of the walk, counts each directory once, and lists an
/// error exactly if something cannot be read.
pub proof fn lemma_folder_is_recorded(
    before: ScanView,
    tree: FolderTree,
    after: ScanView,
    sent: Seq<ReportView>,
)
    requires
        is_run(before, walk_events(tree), after, sent),
    ensures
        after.files.len() == before.files.len() + tree_files(tree).len(),
        after.files.take(before.files.len() as int) == before.files,
        forall|j: int|
            0 <= j < tree_files(tree).len() ==> is_folder_record(
                #[trigger] tree_files(tree)[j],
                after.files[before.files.len() + j],
            ),
        after.directories == before.directories + tree_directories(tree),
        is_readable(tree) <==> after.errors == before.errors,
{
    lemma_walk_meets(tree);
    lemma_run_records_all(before, walk_events(tree), after, sent);
    if is_readable(tree) {
        assert(after.errors =~= before.errors);
    }
}

/// Whether the verdict on a file is the same on every system.
pub open spec fn is_settled(found: FoundFile) -> bool {
    match found.name {
        Some(name) => is_portable(name@) || settled_verdict(name@) is Some,
        None => true,
    }
}

/// Scans of two folders that are the same but for links, with names on which every system
/// gives the same verdict, find exactly the same and report the same.
pub proof fn lemma_scans_agree_but_for_links(
    before: ScanView,
    tree: FolderTree,
    after: ScanView,
    sent: Seq<ReportView>,
    other_tree: FolderTree,
    other: ScanView,
    other_sent: Seq<ReportView>,
)
    requires
        tree_without_links(tree) == tree_without_links(other_tree),
        is_run(before, walk_events(tree), after, sent),
        is_run(before, walk_events(other_tree), other, other_sent),
        forall|j: int|
            0 <= j < tree_files(tree).len() ==> is_settled(#[trigger] tree_files(tree)[j]),
    ensures
        after == other,
        sent == other_sent,
{
    let known = before.files.len() as int;
    let events = walk_events(tree);
    lemma_walk_without_links(tree);
    lemma_walk_without_links(other_tree);
    lemma_walk_meets(tree);
    lemma_runs_agree_but_for_links(
        before,
        events,
        after,
        sent,
        walk_events(other_tree),
        other,
        other_sent,
    );
    lemma_run_records_all(before, events, after, sent);
    lemma_run_records_all(before, walk_events(other_tree), other, other_sent);
    assert forall|i: int| 0 <= i < after.files.len() implies #[trigger] after.files[i]
        == other.files[i] by {
        if i < known {
            assert(after.files.take(known)[i] == other.files.take(known)[i]);
        } else {
            let found = found_files(events)[i - known];
            assert(is_settled(tree_files(tree)[i - known]));
            assert(is_folder_record(found, after.files[known + (i - known)]));
            assert(is_folder_record(found, other.files[known + (i - known)]));
            assert(after.files[i] =~= other.files[i]);
        }
    }
    assert(after.files =~= other.files);
    assert(after =~= other);
}

} // verus!
