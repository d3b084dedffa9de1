//! A scan: what it has found so far, and what it does with each thing that it meets.

use vstd::prelude::*;
use vstd::string::*;

use std::path::PathBuf;

use crate::archive::{entry_view, names_directory, ZipEntry, ZipReader};
use crate::names::{component_extension, component_label, extension_label, extension_of};
use crate::names::{is_file_name, is_portable, is_suspicious, label_text, last_component};
use crate::names::{lemma_last_component, lemma_portable_verdict, lemma_settled_extension};
use crate::names::{lemma_settled_verdict, may_be_verdict, path_file_name, portable_label};
use crate::names::{settled_extension, settled_verdict, split_name, suspicious_name, tail_of};
use crate::names::{text_of};
use crate::records::{file_views, stat_views, texts, FileRecord, FileView, ScanMessage};
use crate::records::{ ScanResult, ScanSource};
use crate::statistics::{is_statistics, lemma_statistics_account_for_all, statistics};
use crate::statistics::{sum_of_bytes, sum_of_counts};
use crate::tally::{is_tally, total_size, Tally};
use crate::text::{decimal, decimal_text};

verus! {

/// After how many files a running scan reports its progress.
pub const PROGRESS_EVERY: u64 = 500;

/// What a scan has found so far, as mathematical values.
#[verifier::ext_equal]
pub struct ScanView {
    pub files: Seq<FileView>,
    pub directories: nat,
    pub errors: Seq<Seq<char>>,
}

/// What a scan has found so far.
pub struct Scan {
    files: Vec<FileRecord>,
    tally: Tally,
    directories: u64,
    scanned: u64,
    bytes: u64,
    errors: Vec<String>,
}

/// Whether the statistics and the total of a result are those of its files.
pub open spec fn is_result(result: ScanResult) -> bool {
    &&& is_statistics(stat_views(result.extensions@), file_views(result.files@))
    &&& result.total_bytes == total_size(file_views(result.files@))
}

/// A scan that has found nothing yet.
pub open spec fn nothing_found() -> ScanView {
    ScanView { files: Seq::empty(), directories: 0, errors: Seq::empty() }
}

/// Whether `message` reports this progress.
pub open spec fn is_progress(
    message: ScanMessage,
    files: nat,
    directories: nat,
    current: Seq<char>,
) -> bool {
    message matches ScanMessage::Progress { files: f, directories: d, current: c } && f == files
        && d == directories && c@ == current
}

// ------------------------------------------------------------
// Folders
// ------------------------------------------------------------

/// A file in a folder: its last component where that is text, the extension of a last
/// component that is no text where the extension is, its whole path as it is shown, its
/// place and its size.
pub struct FoundFile {
    pub name: Option<String>,
    pub extension: Option<String>,
    pub display: String,
    pub location: PathBuf,
    pub size: u64,
}

/// What happens while a folder is walked through.
pub enum FolderEvent {
    /// A directory was reached.
    Entered,
    /// The entries of the directory cannot be read.
    Unreadable { path: String, error: String },
    /// An entry of the directory cannot be read.
    EntryFailed { error: String },
    /// It cannot be told what the entry is.
    TypeFailed { path: String, error: String },
    /// What the entry is.
    Typed { is_symlink: bool, is_dir: bool, is_file: bool },
    /// The size of the file cannot be read.
    MetadataFailed { path: String, error: String },
    /// A file, with its size.
    Found(FoundFile),
}

/// What to do next while a folder is walked through.
pub enum FolderAction {
    /// Read the entries of the directory.
    ReadEntries,
    /// Go back to the directory above.
    Leave,
    /// Take the next entry.
    NextEntry,
    /// Enter the directory that the entry is, and then take the next entry.
    Descend,
    /// Read the size of the file that the entry is.
    ReadMetadata,
    /// Report the progress, and then take the next entry.
    Report(ScanMessage),
}

/// The text of an error at a place.
pub open spec fn located_error(path: Seq<char>, error: Seq<char>) -> Seq<char> {
    path + ": "@ + error
}

/// The extension of a file in a folder: that of its name, where its name is text.
pub open spec fn found_extension(found: FoundFile) -> Option<Seq<char>> {
    match found.name {
        Some(name) => extension_of(name@),
        None => text_of(found.extension),
    }
}

/// Whether `file` is the record of a file found in a folder.
pub open spec fn is_folder_record(found: FoundFile, file: FileView) -> bool {
    &&& file.name == match found.name {
        Some(name) => name@,
        None => Seq::empty(),
    }
    &&& file.path == found.display@
    &&& file.extension == label_text(found_extension(found))
    &&& file.size == found.size
    &&& file.filesystem_path == Some(found.location)
    &&& may_be_verdict(file.name, file.suspicious)
    &&& is_portable(file.name) ==> file.suspicious == is_suspicious(file.name)
    &&& settled_verdict(file.name) matches Some(verdict) ==> file.suspicious == verdict
}

/// The entry that an event is about is passed over, entered or looked at, by what it is
/// alone. Links are never followed.
pub open spec fn action_for_type(is_symlink: bool, is_dir: bool, is_file: bool) -> FolderAction {
    if is_symlink {
        FolderAction::NextEntry
    } else if is_dir {
        FolderAction::Descend
    } else if is_file {
        FolderAction::ReadMetadata
    } else {
        FolderAction::NextEntry
    }
}

/// Whether an event takes a scan from `before` to `after` and calls for `action`.
pub open spec fn is_step(
    before: ScanView,
    event: FolderEvent,
    after: ScanView,
    action: FolderAction,
) -> bool {
    match event {
        FolderEvent::Entered => {
            &&& after == ScanView { directories: before.directories + 1, ..before }
            &&& action == FolderAction::ReadEntries
        },
        FolderEvent::Unreadable { path, error } => {
            &&& after == ScanView {
                errors: before.errors.push(located_error(path@, error@)),
                ..before
            }
            &&& action == FolderAction::Leave
        },
        FolderEvent::EntryFailed { error } => {
            &&& after == ScanView { errors: before.errors.push(error@), ..before }
            &&& action == FolderAction::NextEntry
        },
        FolderEvent::TypeFailed { path, error } | FolderEvent::MetadataFailed { path, error } => {
            &&& after == ScanView {
                errors: before.errors.push(located_error(path@, error@)),
                ..before
            }
            &&& action == FolderAction::NextEntry
        },
        FolderEvent::Typed { is_symlink, is_dir, is_file } => {
            &&& after == before
            &&& action == action_for_type(is_symlink, is_dir, is_file)
        },
        FolderEvent::Found(found) => {
            &&& after.files.len() == before.files.len() + 1
            &&& after == ScanView { files: before.files.push(after.files.last()), ..before }
            &&& is_folder_record(found, after.files.last())
            &&& if after.files.len() % PROGRESS_EVERY as nat == 0 {
                action matches FolderAction::Report(message) && is_progress(
                    message,
                    after.files.len(),
                    after.directories,
                    found.display@,
                )
            } else {
                action == FolderAction::NextEntry
            }
        },
    }
}

/// Whether the counters of a scan have room for what an event adds.
pub open spec fn has_room(before: ScanView, event: FolderEvent) -> bool {
    match event {
        FolderEvent::Entered => before.directories < u64::MAX,
        FolderEvent::Found(found) => total_size(before.files) + found.size <= u64::MAX,
        _ => true,
    }
}

/// A report of the progress, as mathematical values: the number of files, the number of
/// directories, and what was met last.
pub type ReportView = (nat, nat, Seq<char>);

/// What an action reports.
pub open spec fn reports_of(action: FolderAction) -> Seq<ReportView> {
    match action {
        FolderAction::Report(
            ScanMessage::Progress { files, directories, current },
        ) => seq![(files as nat, directories as nat, current@)],
        _ => Seq::empty(),
    }
}

/// Whether a run of events takes a scan from `before` to `after` and reports `sent`.
pub open spec fn is_run(
    before: ScanView,
    events: Seq<FolderEvent>,
    after: ScanView,
    sent: Seq<ReportView>,
) -> bool
    decreases events.len(),
{
    if events.len() == 0 {
        after == before && sent.len() == 0
    } else {
        exists|middle: ScanView, earlier: Seq<ReportView>, action: FolderAction|
            is_run(before, events.drop_last(), middle, earlier) && #[trigger] is_sent_step(
                middle,
                earlier,
                events.last(),
                action,
                after,
                sent,
            )
    }
}

/// Whether an event takes a scan from `middle` to `after`, and what was reported from
/// `earlier` to `sent`.
pub open spec fn is_sent_step(
    middle: ScanView,
    earlier: Seq<ReportView>,
    event: FolderEvent,
    action: FolderAction,
    after: ScanView,
    sent: Seq<ReportView>,
) -> bool {
    is_step(middle, event, after, action) && sent == earlier + reports_of(action)
}

/// The files of a run of events, in order.
pub open spec fn found_files(events: Seq<FolderEvent>) -> Seq<FoundFile>
    decreases events.len(),
{
    if events.len() == 0 {
        Seq::empty()
    } else {
        let front = found_files(events.drop_last());
        match events.last() {
            FolderEvent::Found(found) => front.push(found),
            _ => front,
        }
    }
}

/// How many directories a run of events reaches.
pub open spec fn entered(events: Seq<FolderEvent>) -> nat
    decreases events.len(),
{
    if events.len() == 0 {
        0
    } else {
        entered(events.drop_last()) + if events.last() is Entered {
            1nat
        } else {
            0nat
        }
    }
}

/// The texts of the errors of a run of events, in order.
pub open spec fn failures(events: Seq<FolderEvent>) -> Seq<Seq<char>>
    decreases events.len(),
{
    if events.len() == 0 {
        Seq::empty()
    } else {
        let front = failures(events.drop_last());
        match events.last() {
            FolderEvent::Unreadable { path, error }
            | FolderEvent::TypeFailed { path, error }
            | FolderEvent::MetadataFailed { path, error } => front.push(
                located_error(path@, error@),
            ),
            FolderEvent::EntryFailed { error } => front.push(error@),
            _ => front,
        }
    }
}

/// What a run of events reports, from a scan that knows `files` files and `directories`
/// directories: the progress after every file that makes their number a multiple.
pub open spec fn run_reports(files: nat, directories: nat, events: Seq<FolderEvent>) -> Seq<
    ReportView,
>
    decreases events.len(),
{
    if events.len() == 0 {
        Seq::empty()
    } else {
        let front = run_reports(files, directories, events.drop_last());
        let count = files + found_files(events).len();
        match events.last() {
            FolderEvent::Found(found) => if count % PROGRESS_EVERY as nat == 0 {
                front.push((count, directories + entered(events), found.display@))
            } else {
                front
            },
            _ => front,
        }
    }
}

/// A run through a folder leaves nothing out and adds nothing: every file that was met is
/// recorded once and in order, every directory is counted once, every failure is listed
/// once, the progress is reported when it is due, and what was known before stays.
pub proof fn lemma_run_records_all(
    before: ScanView,
    events: Seq<FolderEvent>,
    after: ScanView,
    sent: Seq<ReportView>,
)
    requires
        is_run(before, events, after, sent),
    ensures
        after.directories == before.directories + entered(events),
        after.errors == before.errors + failures(events),
        sent == run_reports(before.files.len(), before.directories, events),
        after.files.len() == before.files.len() + found_files(events).len(),
        after.files.take(before.files.len() as int) == before.files,
        forall|j: int|
            0 <= j < found_files(events).len() ==> is_folder_record(
                #[trigger] found_files(events)[j],
                after.files[before.files.len() + j],
            ),
    decreases events.len(),
{
    let known = before.files.len() as int;
    if events.len() == 0 {
        assert(after.files.take(known) =~= before.files);
        assert(before.errors + failures(events) =~= before.errors);
        assert(sent =~= Seq::empty());
    } else {
        let (middle, earlier, action) = lemma_last_step(before, events, after, sent);
        let front = found_files(events.drop_last());
        lemma_run_records_all(before, events.drop_last(), middle, earlier);
        assert(after.files.take(known) =~= middle.files.take(known));
        assert(after.errors =~= before.errors + failures(events));
        assert(sent =~= run_reports(before.files.len(), before.directories, events));
        assert forall|j: int| 0 <= j < found_files(events).len() implies is_folder_record(
            #[trigger] found_files(events)[j],
            after.files[known + j],
        ) by {
            if j < front.len() {
                assert(found_files(events)[j] == front[j]);
                assert(after.files[known + j] == middle.files[known + j]);
            }
        }
    }
}

// ------------------------------------------------------------
// Links
// ------------------------------------------------------------

/// Whether an event is that a link was met.
pub open spec fn is_link(event: FolderEvent) -> bool {
    event matches FolderEvent::Typed { is_symlink, .. } && is_symlink
}

/// A run of events without those of links.
pub open spec fn without_links(events: Seq<FolderEvent>) -> Seq<FolderEvent>
    decreases events.len(),
{
    if events.len() == 0 {
        Seq::empty()
    } else if is_link(events.last()) {
        without_links(events.drop_last())
    } else {
        without_links(events.drop_last()).push(events.last())
    }
}

proof fn lemma_links_add_nothing(files: nat, directories: nat, events: Seq<FolderEvent>)
    ensures
        found_files(without_links(events)) == found_files(events),
        failures(without_links(events)) == failures(events),
        entered(without_links(events)) == entered(events),
        run_reports(files, directories, without_links(events)) == run_reports(
            files,
            directories,
            events,
        ),
    decreases events.len(),
{
    if events.len() > 0 {
        let front = without_links(events.drop_last());
        lemma_links_add_nothing(files, directories, events.drop_last());
        if !is_link(events.last()) {
            assert(front.push(events.last()).drop_last() =~= front);
        }
    }
}

/// Links change nothing: a run of events comes to the same end, with the same reports, as
/// the run without its links.
pub proof fn lemma_links_change_nothing(
    before: ScanView,
    events: Seq<FolderEvent>,
    after: ScanView,
    sent: Seq<ReportView>,
)
    ensures
        is_run(before, events, after, sent) <==> is_run(
            before,
            without_links(events),
            after,
            sent,
        ),
    decreases events.len(),
{
    if events.len() > 0 {
        let front = events.drop_last();
        let rest = without_links(events);
        if is_link(events.last()) {
            lemma_links_change_nothing(before, front, after, sent);
            if is_run(before, events, after, sent) {
                let (middle, earlier, action) = lemma_last_step(before, events, after, sent);
                assert(middle == after);
                assert(earlier =~= sent);
            }
            if is_run(before, front, after, sent) {
                assert(sent =~= sent + reports_of(FolderAction::NextEntry));
                assert(is_sent_step(
                    after,
                    sent,
                    events.last(),
                    FolderAction::NextEntry,
                    after,
                    sent,
                ));
            }
        } else {
            assert(rest.drop_last() =~= without_links(front));
            if is_run(before, events, after, sent) {
                let (middle, earlier, action) = lemma_last_step(before, events, after, sent);
                lemma_links_change_nothing(before, front, middle, earlier);
                assert(is_run(before, rest.drop_last(), middle, earlier));
                assert(is_sent_step(middle, earlier, rest.last(), action, after, sent));
            }
            if is_run(before, rest, after, sent) {
                let (middle, earlier, action) = lemma_last_step(before, rest, after, sent);
                lemma_links_change_nothing(before, front, middle, earlier);
                assert(is_run(before, events.drop_last(), middle, earlier));
                assert(is_sent_step(middle, earlier, events.last(), action, after, sent));
            }
        }
    }
}

proof fn lemma_last_step(
    before: ScanView,
    events: Seq<FolderEvent>,
    after: ScanView,
    sent: Seq<ReportView>,
) -> (r: (ScanView, Seq<ReportView>, FolderAction))
    requires
        events.len() > 0,
        is_run(before, events, after, sent),
    ensures
        is_run(before, events.drop_last(), r.0, r.1),
        is_step(r.0, events.last(), after, r.2),
        sent == r.1 + reports_of(r.2),
{
    choose|middle: ScanView, earlier: Seq<ReportView>, action: FolderAction|
        is_run(before, events.drop_last(), middle, earlier) && #[trigger] is_sent_step(
            middle,
            earlier,
            events.last(),
            action,
            after,
            sent,
        )
}

/// Two runs that differ in links only end with the same directories and errors, with
/// records of the same files in the same order, and with the same reports.
pub proof fn lemma_runs_agree_but_for_links(
    before: ScanView,
    events: Seq<FolderEvent>,
    after: ScanView,
    sent: Seq<ReportView>,
    other_events: Seq<FolderEvent>,
    other: ScanView,
    other_sent: Seq<ReportView>,
)
    requires
        is_run(before, events, after, sent),
        is_run(before, other_events, other, other_sent),
        without_links(events) == without_links(other_events),
    ensures
        after.directories == other.directories,
        after.errors == other.errors,
        sent == other_sent,
        found_files(events) == found_files(other_events),
        after.files.len() == other.files.len(),
        forall|j: int|
            0 <= j < found_files(events).len() ==> {
                &&& is_folder_record(
                    #[trigger] found_files(events)[j],
                    after.files[before.files.len() + j],
                )
                &&& is_folder_record(
                    found_files(events)[j],
                    other.files[before.files.len() + j],
                )
            },
        is_run(before, events, other, other_sent),
        is_run(before, other_events, after, sent),
{
    lemma_run_records_all(before, events, after, sent);
    lemma_run_records_all(before, other_events, other, other_sent);
    lemma_links_add_nothing(before.files.len(), before.directories, events);
    lemma_links_add_nothing(before.files.len(), before.directories, other_events);
    lemma_links_change_nothing(before, events, after, sent);
    lemma_links_change_nothing(before, other_events, other, other_sent);
    lemma_links_change_nothing(before, events, other, other_sent);
    lemma_links_change_nothing(before, other_events, after, sent);
}

// ------------------------------------------------------------
// Archives
// ------------------------------------------------------------

/// An entry of an archive that is a file.
pub open spec fn is_listed(entry: Result<(Seq<char>, u64), Seq<char>>) -> bool {
    entry matches Ok(e) && !names_directory(e.0)
}

/// The files among the entries `from` to `to` of an archive, in order.
pub open spec fn listed(
    entries: Seq<Result<(Seq<char>, u64), Seq<char>>>,
    from: int,
    to: int,
) -> Seq<(Seq<char>, u64)>
    decreases to - from,
{
    if to <= from {
        Seq::empty()
    } else {
        let front = listed(entries, from, to - 1);
        match entries[to - 1] {
            Ok(e) => if names_directory(e.0) {
                front
            } else {
                front.push(e)
            },
            Err(_) => front,
        }
    }
}

/// The text of the error at an entry of an archive.
pub open spec fn entry_error(index: nat, error: Seq<char>) -> Seq<char> {
    "ZIP entry "@ + decimal_text(index) + ": "@ + error
}

/// The texts of the errors among the entries `from` to `to` of an archive, in order.
pub open spec fn entry_errors(
    entries: Seq<Result<(Seq<char>, u64), Seq<char>>>,
    from: int,
    to: int,
) -> Seq<Seq<char>>
    decreases to - from,
{
    if to <= from {
        Seq::empty()
    } else {
        let front = entry_errors(entries, from, to - 1);
        match entries[to - 1] {
            Ok(_) => front,
            Err(error) => front.push(entry_error((to - 1) as nat, error)),
        }
    }
}

/// The path of an entry as it is shown: that of the archive and the name of the entry.
pub open spec fn entry_path(zip_path: Seq<char>, name: Seq<char>) -> Seq<char> {
    zip_path + " :: "@ + name
}

/// Whether `file` shows the entry name, where a system takes `component` for its file
/// name.
pub open spec fn shows_component(
    name: Seq<char>,
    component: Option<Seq<char>>,
    file: FileView,
) -> bool {
    &&& is_file_name(name, component)
    &&& file.name == shown_text(component, name)
    &&& file.extension == label_text(component_extension(component))
}

/// The name that is shown of an entry: its file name, or its whole name where it has none.
pub open spec fn shown_text(component: Option<Seq<char>>, name: Seq<char>) -> Seq<char> {
    match component {
        Some(last) => last,
        None => name,
    }
}

fn shown_name(component: &Option<String>, name: &String) -> (r: String)
    ensures
        r@ == shown_text(text_of(*component), name@),
{
    match component {
        Some(last) => last.clone(),
        None => name.clone(),
    }
}

/// The record of an entry of the archive at `zip_path`, given the file name that the
/// system finds in its name and the verdict on that.
pub open spec fn entry_record(
    zip_path: Seq<char>,
    entry: ZipEntry,
    component: Option<Seq<char>>,
    suspicious: bool,
) -> FileView {
    FileView {
        name: shown_text(component, entry.name@),
        path: entry_path(zip_path, entry.name@),
        extension: label_text(component_extension(component)),
        size: entry.size as nat,
        filesystem_path: None,
        suspicious,
    }
}

/// Whether an entry takes a scan from `before` to `after` and calls for `report`: an entry
/// that cannot be read is an error, a directory is passed over, and a file is recorded.
pub open spec fn is_entry_step(
    before: ScanView,
    zip_path: Seq<char>,
    index: nat,
    entry: Result<ZipEntry, String>,
    component: Option<Seq<char>>,
    suspicious: bool,
    after: ScanView,
    report: Option<ScanMessage>,
) -> bool {
    match entry {
        Err(error) => {
            &&& after == ScanView {
                errors: before.errors.push(entry_error(index, error@)),
                ..before
            }
            &&& report is None
        },
        Ok(entry) => if entry.is_dir {
            after == before && report is None
        } else {
            &&& after == ScanView {
                files: before.files.push(entry_record(zip_path, entry, component, suspicious)),
                ..before
            }
            &&& match report {
                Some(message) => {
                    &&& after.files.len() % PROGRESS_EVERY as nat == 0
                    &&& is_progress(
                        message,
                        after.files.len(),
                        0,
                        entry_path(zip_path, entry.name@),
                    )
                },
                None => after.files.len() % PROGRESS_EVERY as nat != 0,
            }
        },
    }
}

/// Whether `file` is the record of an entry of the archive at `zip_path`.
pub open spec fn is_zip_record(
    zip_path: Seq<char>,
    entry: (Seq<char>, u64),
    file: FileView,
) -> bool {
    &&& exists|component: Option<Seq<char>>| shows_component(entry.0, component, file)
    &&& file.path == entry_path(zip_path, entry.0)
    &&& file.size == entry.1
    &&& file.filesystem_path is None
    &&& may_be_verdict(file.name, file.suspicious)
}

/// The record of an entry with a portable name.
pub open spec fn portable_zip_record(zip_path: Seq<char>, entry: (Seq<char>, u64)) -> FileView {
    let name = match last_component(entry.0) {
        Some(last) => last,
        None => entry.0,
    };
    FileView {
        name,
        path: entry_path(zip_path, entry.0),
        extension: portable_label(entry.0),
        size: entry.1 as nat,
        filesystem_path: None,
        suspicious: is_suspicious(name),
    }
}

/// The record of an entry with a portable name is the same on every system.
pub proof fn lemma_portable_zip_record(
    zip_path: Seq<char>,
    entry: (Seq<char>, u64),
    file: FileView,
)
    requires
        is_zip_record(zip_path, entry, file),
        is_portable(entry.0),
    ensures
        file == portable_zip_record(zip_path, entry),
{
    lemma_last_component(entry.0);
    if let Some(last) = last_component(entry.0) {
        assert(is_portable(last)) by {
            if last.len() >= 2 && last[0] == '/' {
                assert(last.contains('/'));
            }
        }
    }
    lemma_portable_verdict(file.name, file.suspicious);
    assert(file =~= portable_zip_record(zip_path, entry));
}

/// The record of an entry whose tail has an extension shows that extension on every
/// system, under a name that ends with the tail, and with the verdict that is settled for
/// that name.
pub proof fn lemma_settled_zip_record(
    zip_path: Seq<char>,
    entry: (Seq<char>, u64),
    file: FileView,
)
    requires
        is_zip_record(zip_path, entry, file),
        settled_extension(entry.0) is Some,
    ensures
        file.extension == label_text(settled_extension(entry.0)),
        tail_of(entry.0).is_suffix_of(file.name),
        settled_verdict(file.name) matches Some(verdict) ==> file.suspicious == verdict,
{
    let component = choose|component: Option<Seq<char>>| shows_component(entry.0, component, file);
    lemma_settled_extension(entry.0, component);
    if settled_verdict(file.name) is Some {
        lemma_settled_verdict(file.name, file.suspicious);
    }
}

/// Whether reading the entries `from` to `to` of the archive at `zip_path` takes a scan
/// from `before` to `after`.
pub open spec fn is_zip_step(
    before: ScanView,
    zip_path: Seq<char>,
    entries: Seq<Result<(Seq<char>, u64), Seq<char>>>,
    from: int,
    to: int,
    after: ScanView,
) -> bool {
    let found = listed(entries, from, to);
    &&& after.directories == before.directories
    &&& after.errors == before.errors + entry_errors(entries, from, to)
    &&& after.files.len() == before.files.len() + found.len()
    &&& after.files.take(before.files.len() as int) == before.files
    &&& forall|j: int|
        0 <= j < found.len() ==> is_zip_record(
            zip_path,
            #[trigger] found[j],
            after.files[before.files.len() + j],
        )
}

/// What is read of an archive in two parts is what is read of each.
pub proof fn lemma_listed_splits(
    entries: Seq<Result<(Seq<char>, u64), Seq<char>>>,
    from: int,
    middle: int,
    to: int,
)
    requires
        from <= middle <= to,
    ensures
        listed(entries, from, to) == listed(entries, from, middle) + listed(entries, middle, to),
        entry_errors(entries, from, to) == entry_errors(entries, from, middle) + entry_errors(
            entries,
            middle,
            to,
        ),
    decreases to - middle,
{
    if middle < to {
        lemma_listed_splits(entries, from, middle, to - 1);
    }
    assert(listed(entries, from, to) =~= listed(entries, from, middle) + listed(
        entries,
        middle,
        to,
    ));
    assert(entry_errors(entries, from, to) =~= entry_errors(entries, from, middle)
        + entry_errors(entries, middle, to));
}

/// Reports in between change nothing: reading an archive in parts finds what reading it at
/// once does.
pub proof fn lemma_zip_steps_compose(
    before: ScanView,
    zip_path: Seq<char>,
    entries: Seq<Result<(Seq<char>, u64), Seq<char>>>,
    from: int,
    middle: int,
    to: int,
    between: ScanView,
    after: ScanView,
)
    requires
        from <= middle <= to,
        is_zip_step(before, zip_path, entries, from, middle, between),
        is_zip_step(between, zip_path, entries, middle, to, after),
    ensures
        is_zip_step(before, zip_path, entries, from, to, after),
{
    lemma_listed_splits(entries, from, middle, to);
    let first = listed(entries, from, middle);
    let second = listed(entries, middle, to);
    let found = listed(entries, from, to);
    let known = before.files.len() as int;
    assert forall|j: int| 0 <= j < between.files.len() implies #[trigger] after.files[j]
        == between.files[j] by {
        assert(after.files.take(between.files.len() as int)[j] == after.files[j]);
    }
    assert(after.files.take(known) =~= between.files.take(known));
    assert(after.errors =~= before.errors + entry_errors(entries, from, to));
    assert forall|j: int| 0 <= j < found.len() implies is_zip_record(
        zip_path,
        #[trigger] found[j],
        after.files[known + j],
    ) by {
        if j < first.len() {
            assert(found[j] == first[j]);
        } else {
            assert(found[j] == second[j - first.len()]);
            assert(between.files.len() + (j - first.len()) == known + j);
        }
    }
}

/// Whether the progress is to be reported after the entry before position `at`, where a
/// scan with `known` files started to read at `from`.
pub open spec fn is_due(
    known: nat,
    entries: Seq<Result<(Seq<char>, u64), Seq<char>>>,
    from: int,
    at: int,
) -> bool {
    is_listed(entries[at - 1]) && (known + listed(entries, from, at).len())
        % PROGRESS_EVERY as nat == 0
}

proof fn lemma_one_more_entry(
    before: ScanView,
    zip_path: Seq<char>,
    entries: Seq<Result<(Seq<char>, u64), Seq<char>>>,
    from: int,
    at: int,
    sofar: ScanView,
    entry: Result<ZipEntry, String>,
    component: Option<Seq<char>>,
    suspicious: bool,
    after: ScanView,
    report: Option<ScanMessage>,
)
    requires
        0 <= from <= at < entries.len(),
        is_zip_step(before, zip_path, entries, from, at, sofar),
        entry_view(entry) == entries[at],
        entry matches Ok(e) ==> e.is_dir == names_directory(e.name@),
        entry matches Ok(e) ==> !e.is_dir ==> is_file_name(e.name@, component) && may_be_verdict(
            shown_text(component, e.name@),
            suspicious,
        ),
        is_entry_step(sofar, zip_path, at as nat, entry, component, suspicious, after, report),
    ensures
        is_zip_step(before, zip_path, entries, from, at + 1, after),
        report is Some <==> is_due(before.files.len(), entries, from, at + 1),
        report matches Some(message) ==> is_progress(
            message,
            after.files.len(),
            0,
            after.files.last().path,
        ),
{
    let known = before.files.len() as int;
    let front = listed(entries, from, at);
    let found = listed(entries, from, at + 1);
    assert(after.errors =~= before.errors + entry_errors(entries, from, at + 1));
    assert(after.files.take(known) =~= sofar.files.take(known));
    if let Ok(e) = entry {
        if !e.is_dir {
            let file = after.files.last();
            assert(shows_component((e.name@, e.size).0, component, file));
            assert(is_zip_record(zip_path, (e.name@, e.size), file));
            assert(found =~= front.push((e.name@, e.size)));
        }
    }
    assert forall|j: int| 0 <= j < found.len() implies is_zip_record(
        zip_path,
        #[trigger] found[j],
        after.files[known + j],
    ) by {
        if j < front.len() {
            assert(found[j] == front[j]);
        }
    }
}

/// How far reading an archive has come.
pub enum ZipStep {
    /// The progress is to be reported, and then to be read on.
    Report(ScanMessage),
    /// All entries have been read.
    Done,
    /// The size of the next entry does not fit into the total.
    Overflow,
}

impl Scan {
    /// What the scan has found so far.
    pub closed spec fn view(self) -> ScanView {
        ScanView {
            files: file_views(self.files@),
            directories: self.directories as nat,
            errors: texts(self.errors@),
        }
    }

    /// The counters fit the files that were found.
    pub closed spec fn wf(self) -> bool {
        &&& self.tally.wf()
        &&& is_tally(self.tally.counts(), file_views(self.files@))
        &&& self.scanned == self.files@.len()
        &&& self.bytes == total_size(file_views(self.files@))
    }

    /// A scan that has found nothing yet.
    pub fn new() -> (r: Scan)
        ensures
            r.wf(),
            r@ == nothing_found(),
    {
        let r = Scan {
            files: Vec::new(),
            tally: Tally::new(),
            directories: 0,
            scanned: 0,
            bytes: 0,
            errors: Vec::new(),
        };
        assert(file_views(r.files@) =~= Seq::empty());
        assert(texts(r.errors@) =~= Seq::empty());
        r
    }

    /// Whether the total has room for a file of this size.
    pub fn fits(&self, size: u64) -> (r: bool)
        requires
            self.wf(),
        ensures
            r == (total_size(self@.files) + size <= u64::MAX),
    {
        size <= u64::MAX - self.bytes
    }

    /// Whether the counters of the scan have room for what an event adds.
    pub fn accepts(&self, event: &FolderEvent) -> (r: bool)
        requires
            self.wf(),
        ensures
            r == has_room(self@, *event),
    {
        match event {
            FolderEvent::Entered => self.directories < u64::MAX,
            FolderEvent::Found(found) => self.fits(found.size),
            _ => true,
        }
    }

    fn add_error(&mut self, text: String)
        requires
            old(self).wf(),
        ensures
            final(self).wf(),
            final(self)@ == (ScanView { errors: old(self)@.errors.push(text@), ..old(self)@ }),
    {
        self.errors.push(text);
        assert(texts(self.errors@) =~= texts(old(self).errors@).push(text@));
    }

    fn add_located_error(&mut self, path: &String, error: &String)
        requires
            old(self).wf(),
        ensures
            final(self).wf(),
            final(self)@ == (ScanView {
                errors: old(self)@.errors.push(located_error(path@, error@)),
                ..old(self)@
            }),
    {
        let mut text = path.clone();
        text.append(": ");
        text.append(error.as_str());
        self.add_error(text);
    }

    fn add_file(&mut self, file: FileRecord)
        requires
            old(self).wf(),
            total_size(old(self)@.files) + file.size <= u64::MAX,
        ensures
            final(self).wf(),
            final(self)@ == (ScanView { files: old(self)@.files.push(file@), ..old(self)@ }),
    {
        let ghost files = file_views(self.files@);
        let size: u64 = file.size;
        let extension = file.extension.clone();
        self.files.push(file);
        let count: usize = self.files.len();
        assert(files.len() < count);
        assert(file_views(self.files@) =~= files.push(file@));
        assert(files.push(file@).drop_last() =~= files);
        self.tally.record(&extension, size, Ghost(files), Ghost(file@));
        self.scanned = self.scanned + 1;
        self.bytes = self.bytes + size;
    }

    fn progress(&self, directories: u64, current: &str) -> (r: Option<ScanMessage>)
        requires
            self.wf(),
        ensures
            match r {
                Some(message) => {
                    &&& self@.files.len() % PROGRESS_EVERY as nat == 0
                    &&& is_progress(message, self@.files.len(), directories as nat, current@)
                },
                None => self@.files.len() % PROGRESS_EVERY as nat != 0,
            },
    {
        if self.scanned % PROGRESS_EVERY == 0 {
            Some(
                ScanMessage::Progress {
                    files: self.scanned,
                    directories,
                    current: current.to_owned(),
                },
            )
        } else {
            None
        }
    }

    /// Takes in what happened while a folder was walked through, and tells what to do
    /// next.
    pub fn scan_directory(&mut self, event: FolderEvent) -> (r: FolderAction)
        requires
            old(self).wf(),
            has_room(old(self)@, event),
        ensures
            final(self).wf(),
            is_step(old(self)@, event, final(self)@, r),
    {
        match event {
            FolderEvent::Entered => {
                self.directories = self.directories + 1;
                FolderAction::ReadEntries
            },
            FolderEvent::Unreadable { path, error } => {
                self.add_located_error(&path, &error);
                FolderAction::Leave
            },
            FolderEvent::EntryFailed { error } => {
                self.add_error(error);
                FolderAction::NextEntry
            },
            FolderEvent::TypeFailed { path, error } => {
                self.add_located_error(&path, &error);
                FolderAction::NextEntry
            },
            FolderEvent::Typed { is_symlink, is_dir, is_file } => {
                if is_symlink {
                    FolderAction::NextEntry
                } else if is_dir {
                    FolderAction::Descend
                } else if is_file {
                    FolderAction::ReadMetadata
                } else {
                    FolderAction::NextEntry
                }
            },
            FolderEvent::MetadataFailed { path, error } => {
                self.add_located_error(&path, &error);
                FolderAction::NextEntry
            },
            FolderEvent::Found(found) => {
                let (name, extension) = match &found.name {
                    Some(name) => {
                        let (_, extension) = split_name(name.as_str());
                        (name.clone(), extension_label(&extension))
                    },
                    None => (String::new(), extension_label(&found.extension)),
                };
                let suspicious = suspicious_name(name.as_str());
                let shown = found.display.clone();
                let file = FileRecord {
                    name,
                    path: found.display,
                    extension,
                    size: found.size,
                    filesystem_path: Some(found.location),
                    suspicious,
                };
                self.add_file(file);
                assert(self@.files.last() == file@);
                match self.progress(self.directories, shown.as_str()) {
                    Some(message) => FolderAction::Report(message),
                    None => FolderAction::NextEntry,
                }
            },
        }
    }

    /// Takes in the entry at position `index` of the archive at `zip_path`, given the file
    /// name that the system finds in its name and the verdict on that, and tells the
    /// progress where it is to be reported.
    pub fn take_entry(
        &mut self,
        zip_path: &str,
        index: usize,
        entry: &Result<ZipEntry, String>,
        component: &Option<String>,
        suspicious: bool,
    ) -> (r: Option<ScanMessage>)
        requires
            old(self).wf(),
            *entry matches Ok(e) ==> e.is_dir || total_size(old(self)@.files) + e.size
                <= u64::MAX,
        ensures
            final(self).wf(),
            is_entry_step(
                old(self)@,
                zip_path@,
                index as nat,
                *entry,
                text_of(*component),
                suspicious,
                final(self)@,
                r,
            ),
    {
        match entry {
            Err(error) => {
                let mut text = "ZIP entry ".to_owned();
                let number = decimal(index as u64);
                text.append(number.as_str());
                text.append(": ");
                text.append(error.as_str());
                self.add_error(text);
                None
            },
            Ok(entry) => {
                if entry.is_dir {
                    return None;
                }
                let mut path = zip_path.to_owned();
                path.append(" :: ");
                path.append(entry.name.as_str());
                let shown = path.clone();
                let file = FileRecord {
                    name: shown_name(component, &entry.name),
                    path,
                    extension: component_label(component),
                    size: entry.size,
                    filesystem_path: None,
                    suspicious,
                };
                assert(file@ =~= entry_record(zip_path@, *entry, text_of(*component), suspicious));
                self.add_file(file);
                self.progress(0, shown.as_str())
            },
        }
    }

    /// Reads on in the archive at `zip_path`, until the progress is to be reported or all
    /// entries have been read.
    pub fn scan_zip_archive(&mut self, zip_path: &str, reader: &mut ZipReader) -> (r: ZipStep)
        requires
            old(self).wf(),
            old(reader).wf(),
        ensures
            final(self).wf(),
            final(reader).wf(),
            final(reader).entries() == old(reader).entries(),
            old(reader).next() <= final(reader).next(),
            is_zip_step(
                old(self)@,
                zip_path@,
                old(reader).entries(),
                old(reader).next(),
                final(reader).next(),
                final(self)@,
            ),
            forall|at: int|
                old(reader).next() < at < final(reader).next() ==> !is_due(
                    old(self)@.files.len(),
                    old(reader).entries(),
                    old(reader).next(),
                    at,
                ),
            match r {
                ZipStep::Report(message) => {
                    &&& old(reader).next() < final(reader).next()
                    &&& is_due(
                        old(self)@.files.len(),
                        old(reader).entries(),
                        old(reader).next(),
                        final(reader).next(),
                    )
                    &&& is_progress(
                        message,
                        final(self)@.files.len(),
                        0,
                        final(self)@.files.last().path,
                    )
                },
                ZipStep::Done => final(reader).next() == old(reader).entries().len() && (
                old(reader).next() < final(reader).next() ==> !is_due(
                    old(self)@.files.len(),
                    old(reader).entries(),
                    old(reader).next(),
                    final(reader).next(),
                )),
                ZipStep::Overflow => {
                    &&& final(reader).next() < old(reader).entries().len()
                    &&& is_listed(old(reader).entries()[final(reader).next()])
                    &&& total_size(final(self)@.files) + old(
                        reader,
                    ).entries()[final(reader).next()]->Ok_0.1 > u64::MAX
                    &&& old(reader).next() < final(reader).next() ==> !is_due(
                        old(self)@.files.len(),
                        old(reader).entries(),
                        old(reader).next(),
                        final(reader).next(),
                    )
                },
            },
    {
        let ghost before = self@;
        let ghost entries = reader.entries();
        let ghost from = reader.next();
        proof {
            reader.lemma_position();
            assert(before.files.take(before.files.len() as int) =~= before.files);
            assert(before.errors + entry_errors(entries, from, from) =~= before.errors);
        }
        while !reader.at_end()
            invariant
                before == old(self)@,
                entries == old(reader).entries(),
                from == old(reader).next(),
                self.wf(),
                reader.wf(),
                reader.entries() == entries,
                from <= reader.next(),
                0 <= from,
                is_zip_step(before, zip_path@, entries, from, reader.next(), self@),
                forall|at: int|
                    from < at <= reader.next() ==> !is_due(before.files.len(), entries, from, at),
            ensures
                self.wf(),
                reader.wf(),
                reader.entries() == entries,
                from <= reader.next(),
                reader.next() == entries.len(),
                is_zip_step(before, zip_path@, entries, from, reader.next(), self@),
                forall|at: int|
                    from < at <= reader.next() ==> !is_due(before.files.len(), entries, from, at),
            decreases entries.len() - reader.next(),
        {
            let ghost at = reader.next();
            proof {
                reader.lemma_position();
            }
            let ghost sofar = self@;
            let entry = reader.peek();
            let index: usize = reader.position();
            let mut component: Option<String> = None;
            let mut suspicious = false;
            if let Ok(found) = &entry {
                if !found.is_dir {
                    if !self.fits(found.size) {
                        return ZipStep::Overflow;
                    }
                    component = path_file_name(found.name.as_str());
                    let filename = shown_name(&component, &found.name);
                    suspicious = suspicious_name(filename.as_str());
                }
            }
            let report = self.take_entry(zip_path, index, &entry, &component, suspicious);
            reader.advance();
            proof {
                lemma_one_more_entry(
                    before,
                    zip_path@,
                    entries,
                    from,
                    at,
                    sofar,
                    entry,
                    text_of(component),
                    suspicious,
                    self@,
                    report,
                );
            }
            if let Some(message) = report {
                return ZipStep::Report(message);
            }
        }
        ZipStep::Done
    }

    /// Ends the scan of `source`: the last report of its progress, and all that it found.
    pub fn perform_scan(self, source: ScanSource) -> (r: (ScanMessage, ScanResult))
        requires
            self.wf(),
        ensures
            is_progress(r.0, self@.files.len(), self@.directories, "Finished"@),
            is_result(r.1),
            r.1.source == source,
            file_views(r.1.files@) == self@.files,
            texts(r.1.errors@) == self@.errors,
    {
        let extensions = statistics(&self.tally, self.scanned, Ghost(self@.files));
        let message = ScanMessage::Progress {
            files: self.scanned,
            directories: self.directories,
            current: "Finished".to_owned(),
        };
        (
            message,
            ScanResult {
                source,
                files: self.files,
                extensions,
                total_bytes: self.bytes,
                errors: self.errors,
            },
        )
    }
}

/// The statistics of a scan of a folder count every file that was met, and their bytes
/// add up to the total.
pub proof fn lemma_folder_scan_counts_all(
    events: Seq<FolderEvent>,
    after: ScanView,
    sent: Seq<ReportView>,
    result: ScanResult,
)
    requires
        is_run(nothing_found(), events, after, sent),
        file_views(result.files@) == after.files,
        is_result(result),
    ensures
        sum_of_counts(stat_views(result.extensions@)) == found_files(events).len(),
        sum_of_bytes(stat_views(result.extensions@)) == result.total_bytes,
{
    lemma_run_records_all(nothing_found(), events, after, sent);
    lemma_statistics_account_for_all(stat_views(result.extensions@), after.files);
}

/// The statistics of a scan of an archive count every entry that is a file, and their
/// bytes add up to the total.
pub proof fn lemma_archive_scan_counts_all(
    zip_path: Seq<char>,
    entries: Seq<Result<(Seq<char>, u64), Seq<char>>>,
    after: ScanView,
    result: ScanResult,
)
    requires
        is_zip_step(nothing_found(), zip_path, entries, 0, entries.len() as int, after),
        file_views(result.files@) == after.files,
        is_result(result),
    ensures
        sum_of_counts(stat_views(result.extensions@)) == listed(
            entries,
            0,
            entries.len() as int,
        ).len(),
        sum_of_bytes(stat_views(result.extensions@)) == result.total_bytes,
{
    lemma_statistics_account_for_all(stat_views(result.extensions@), after.files);
}

} // verus!
