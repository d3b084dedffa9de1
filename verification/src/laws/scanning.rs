//! Laws of a running scan.

use vstd::prelude::*;
use vstd::string::*;

use crate::archive::{names_directory, ZipEntry};
use crate::laws::names::{executable_extensions, holds_executable_name};
use crate::laws::names::{lemma_extension_behind_last_stop, lemma_flagged_names_are_executable};
use crate::laws::names::{lemma_label_of_no_extension, lemma_last_component_is_the_last};
use crate::laws::names::{lemma_no_extension, lemma_no_extension_is_not_suspicious};
use crate::laws::names::lemma_suspicious_means_disguised;
use crate::names::{is_portable, label_text};
use crate::records::{FileView, ScanMessage};
use crate::scan::{entry_errors, has_room, is_due, is_entry_step, is_folder_record, is_listed};
use crate::scan::{is_progress, is_step, is_zip_record, is_zip_step, lemma_listed_splits};
use crate::scan::{lemma_portable_zip_record, listed, nothing_found, FolderAction, FolderEvent};
use crate::scan::{FoundFile, ScanView};
use crate::tally::total_size;
use crate::text::{decimal_text, lowercase};

verus! {

/// A report of the progress tells the numbers of files and directories and what was met
/// last, and a scan that has found nothing has no files, no directories and no errors.
pub proof fn lemma_progress_tells_all(
    files: u64,
    directories: u64,
    current: String,
    n: nat,
    d: nat,
    text: Seq<char>,
)
    ensures
        is_progress(ScanMessage::Progress { files, directories, current }, n, d, text) <==> files
            == n && directories == d && current@ == text,
        nothing_found().files.len() == 0,
        nothing_found().directories == 0,
        nothing_found().errors.len() == 0,
{
}

// ------------------------------------------------------------
// Folders
// ------------------------------------------------------------

/// A step of a scan counts a directory where one was reached, and adds a file where one was
/// found and an error where something failed, each behind those that were there. It changes
/// nothing else.
pub proof fn lemma_step_adds_what_was_met(
    before: ScanView,
    event: FolderEvent,
    after: ScanView,
    action: FolderAction,
)
    requires
        is_step(before, event, after, action),
    ensures
        event is Entered ==> after.directories == before.directories + 1,
        event !is Entered ==> after.directories == before.directories,
        event is Found ==> after.files.len() == before.files.len() + 1,
        event !is Found ==> after.files.len() == before.files.len(),
        forall|i: int|
            0 <= i < before.files.len() ==> #[trigger] after.files[i] == before.files[i],
        event is Entered || event is Typed || event is Found ==> after.errors == before.errors,
        event matches FolderEvent::EntryFailed { error } ==> after.errors == before.errors.push(
            error@,
        ),
        event matches FolderEvent::Unreadable { path, error } ==> after.errors
            == before.errors.push(path@ + seq![':', ' '] + error@),
        event matches FolderEvent::TypeFailed { path, error } ==> after.errors
            == before.errors.push(path@ + seq![':', ' '] + error@),
        event matches FolderEvent::MetadataFailed { path, error } ==> after.errors
            == before.errors.push(path@ + seq![':', ' '] + error@),
{
    reveal_strlit(": ");
    assert(": "@ =~= seq![':', ' ']);
}

/// What a step calls for: links are passed over whatever they lead to, directories are
/// entered, the size of a file is read, a directory that cannot be read is left, and the
/// progress is reported after every file that makes the number of files a multiple of 500.
pub proof fn lemma_step_calls_for(
    before: ScanView,
    event: FolderEvent,
    after: ScanView,
    action: FolderAction,
)
    requires
        is_step(before, event, after, action),
    ensures
        action is ReadEntries <==> event is Entered,
        action is Leave <==> event is Unreadable,
        action is Descend <==> (event matches FolderEvent::Typed { is_symlink, is_dir, .. }
            && !is_symlink && is_dir),
        action is ReadMetadata <==> (event matches FolderEvent::Typed {
            is_symlink,
            is_dir,
            is_file,
        } && !is_symlink && !is_dir && is_file),
        action is Report <==> event is Found && exists|k: nat|
            before.files.len() + 1 == #[trigger] (k * 500),
        action matches FolderAction::Report(
            ScanMessage::Progress { files, directories, current },
        ) ==> event matches FolderEvent::Found(found) && files == before.files.len() + 1
            && directories == before.directories && current@ == found.display@,
        action matches FolderAction::Report(message) ==> message is Progress,
{
    if event is Found {
        let n = after.files.len();
        if n % 500 == 0 {
            assert(n == (n / 500) * 500);
        }
        if exists|k: nat| before.files.len() + 1 == #[trigger] (k * 500) {
            let k = choose|k: nat| before.files.len() + 1 == #[trigger] (k * 500);
            assert(n % 500 == 0);
        }
    }
}

/// An event has room unless it would make a counter too large.
pub proof fn lemma_room(before: ScanView, event: FolderEvent)
    ensures
        has_room(before, event) <==> {
            &&& event is Entered ==> before.directories + 1 <= 0xffff_ffff_ffff_ffff
            &&& event matches FolderEvent::Found(found) ==> total_size(before.files) + found.size
                <= 0xffff_ffff_ffff_ffff
        },
{
}

/// The record of a file in a folder holds its name, its path, its place and its size.
pub proof fn lemma_folder_record_tells(found: FoundFile, file: FileView)
    requires
        is_folder_record(found, file),
    ensures
        found.name matches Some(name) ==> file.name == name@,
        found.name is None ==> file.name.len() == 0,
        file.path == found.display@,
        file.size == found.size,
        file.filesystem_path == Some(found.location),
{
}

/// The record of a file whose name is something, a full stop and a part without full stops
/// has the label of that part for its extension. It is flagged exactly if the lower case of
/// that part is on the list of executable extensions and another full stop stands before,
/// behind the first character.
pub proof fn lemma_folder_record_extension(
    found: FoundFile,
    file: FileView,
    stem: Seq<char>,
    extension: Seq<char>,
)
    requires
        is_folder_record(found, file),
        found.name matches Some(name) && name@ == stem + seq!['.'] + extension,
        stem.len() > 0,
        !extension.contains('.'),
    ensures
        file.extension == label_text(Some(extension)),
        (forall|i: int|
            0 <= i < stem.len() ==> (#[trigger] stem[i]) != '/' && stem[i] != '\\' && stem[i]
                != ':') && (forall|i: int|
            0 <= i < extension.len() ==> (#[trigger] extension[i]) != '/' && extension[i] != '\\'
                && extension[i] != ':') ==> (file.suspicious <==> {
            &&& executable_extensions().contains(lowercase(extension))
            &&& exists|i: int| 0 < i < stem.len() && #[trigger] stem[i] == '.'
            &&& stem != seq!['.', '.']
        }),
        file.suspicious ==> holds_executable_name(file.name),
{
    lemma_extension_behind_last_stop(stem, extension);
    if (forall|i: int|
        0 <= i < stem.len() ==> (#[trigger] stem[i]) != '/' && stem[i] != '\\' && stem[i] != ':')
        && (forall|i: int|
        0 <= i < extension.len() ==> (#[trigger] extension[i]) != '/' && extension[i] != '\\'
            && extension[i] != ':') {
        lemma_suspicious_means_disguised(stem, extension);
    }
    if file.suspicious {
        lemma_flagged_names_are_executable(file.name);
    }
}

/// The record of a file whose name has no full stop behind its first character tells that
/// there is no extension, and that of a file whose name is no text has the label of the
/// extension that was found with it.
pub proof fn lemma_folder_record_without_extension(found: FoundFile, file: FileView)
    requires
        is_folder_record(found, file),
        found.name matches Some(name) ==> forall|i: int|
            0 < i < name@.len() ==> #[trigger] name@[i] != '.',
    ensures
        found.name is Some ==> file.extension == "File / No Extension"@,
        found.name is None ==> file.extension == match found.extension {
            Some(extension) => label_text(Some(extension@)),
            None => "File / No Extension"@,
        },
        found.name is None ==> !file.suspicious,
        found.name matches Some(name) && !name@.contains('/') && !name@.contains('\\')
            && !name@.contains(':') ==> !file.suspicious,
{
    lemma_label_of_no_extension(seq!['x']);
    match found.name {
        Some(name) => {
            lemma_no_extension(name@);
            if !name@.contains('/') && !name@.contains('\\') && !name@.contains(':') {
                lemma_no_extension_is_not_suspicious(name@);
                if name@.len() >= 2 && name@[0] == '/' {
                    assert(name@.contains('/'));
                }
            }
        },
        None => {
            assert(file.name =~= Seq::empty());
            lemma_no_extension_is_not_suspicious(file.name);
        },
    }
}

// ------------------------------------------------------------
// Archives
// ------------------------------------------------------------

/// An entry is a directory exactly if its name ends with a slash or a backslash.
pub proof fn lemma_directory_entries(front: Seq<char>, last: char)
    ensures
        !names_directory(Seq::empty()),
        names_directory(front.push(last)) <==> last == '/' || last == '\\',
{
    assert(front.push(last).last() == last);
}

/// Of the entries of an archive each that can be read and is no directory is listed, and
/// each that cannot be read gives one error, which tells its position; all in their order.
pub proof fn lemma_entries_are_listed_one_by_one(
    entries: Seq<Result<(Seq<char>, u64), Seq<char>>>,
    from: int,
    at: int,
)
    requires
        0 <= from <= at < entries.len(),
    ensures
        listed(entries, from, from) == Seq::<(Seq<char>, u64)>::empty(),
        entry_errors(entries, from, from) == Seq::<Seq<char>>::empty(),
        entries[at] matches Ok(entry) ==> {
            &&& entry_errors(entries, from, at + 1) == entry_errors(entries, from, at)
            &&& !names_directory(entry.0) ==> listed(entries, from, at + 1) == listed(
                entries,
                from,
                at,
            ).push(entry)
            &&& names_directory(entry.0) ==> listed(entries, from, at + 1) == listed(
                entries,
                from,
                at,
            )
            &&& is_listed(entries[at]) <==> !names_directory(entry.0)
        },
        entries[at] matches Err(error) ==> {
            &&& entry_errors(entries, from, at + 1) == entry_errors(entries, from, at).push(
                seq!['Z', 'I', 'P', ' ', 'e', 'n', 't', 'r', 'y', ' '] + decimal_text(at as nat)
                    + seq![':', ' '] + error,
            )
            &&& listed(entries, from, at + 1) == listed(entries, from, at)
            &&& !is_listed(entries[at])
        },
{
    reveal_strlit("ZIP entry ");
    reveal_strlit(": ");
    assert("ZIP entry "@ =~= seq!['Z', 'I', 'P', ' ', 'e', 'n', 't', 'r', 'y', ' ']);
    assert(": "@ =~= seq![':', ' ']);
}

/// Reading an archive in parts lists what reading it at once does.
pub proof fn lemma_listing_in_parts(
    entries: Seq<Result<(Seq<char>, u64), Seq<char>>>,
    from: int,
    middle: int,
    to: int,
)
    requires
        from <= middle <= to,
    ensures
        listed(entries, from, to) == listed(entries, from, middle) + listed(entries, middle, to),
        entry_errors(entries, from, to) == entry_errors(entries, from, middle) + entry_errors(
            entries,
            middle,
            to,
        ),
{
    lemma_listed_splits(entries, from, middle, to);
}

/// The progress is due after an entry that is listed, where that makes the number of files
/// a multiple of 500.
pub proof fn lemma_archive_progress_is_due(
    known: nat,
    entries: Seq<Result<(Seq<char>, u64), Seq<char>>>,
    from: int,
    at: int,
)
    ensures
        is_due(known, entries, from, at) <==> is_listed(entries[at - 1]) && exists|k: nat|
            known + listed(entries, from, at).len() == #[trigger] (k * 500),
{
    let n = known + listed(entries, from, at).len();
    if n % 500 == 0 {
        assert(n == (n / 500) * 500);
    }
    if exists|k: nat| n == #[trigger] (k * 500) {
        let k = choose|k: nat| n == #[trigger] (k * 500);
        assert(n % 500 == 0);
    }
}

/// The record of an entry holds the path of the archive, two colons and the name of the
/// entry for its path, and the size of the entry. It has no place in a folder.
pub proof fn lemma_zip_record_tells(zip_path: Seq<char>, entry: (Seq<char>, u64), file: FileView)
    requires
        is_zip_record(zip_path, entry, file),
    ensures
        file.path == zip_path + seq![' ', ':', ':', ' '] + entry.0,
        file.size == entry.1,
        file.filesystem_path is None,
{
    reveal_strlit(" :: ");
    assert(" :: "@ =~= seq![' ', ':', ':', ' ']);
}

/// The record of an entry in directories, or in none, whose last component is something, a
/// full stop and a part without full stops, shows that component, and the label of that part
/// for its extension. It is flagged exactly if the lower case of that part is on the list of
/// executable extensions and another full stop stands before, behind the first character of
/// the component.
pub proof fn lemma_zip_record_of_path(
    zip_path: Seq<char>,
    directory: Option<Seq<char>>,
    stem: Seq<char>,
    extension: Seq<char>,
    size: u64,
    file: FileView,
)
    requires
        stem.len() > 0,
        extension.len() > 0,
        !extension.contains('.'),
        forall|i: int|
            0 <= i < stem.len() ==> (#[trigger] stem[i]) != '/' && stem[i] != '\\' && stem[i]
                != ':',
        forall|i: int|
            0 <= i < extension.len() ==> (#[trigger] extension[i]) != '/' && extension[i] != '\\'
                && extension[i] != ':',
        directory matches Some(front) ==> !front.contains('\\') && !front.contains(':') && (
        front.len() == 0 || front[0] != '/'),
        is_zip_record(
            zip_path,
            (
                match directory {
                    Some(front) => front + seq!['/'] + (stem + seq!['.'] + extension),
                    None => stem + seq!['.'] + extension,
                },
                size,
            ),
            file,
        ),
    ensures
        file.name == stem + seq!['.'] + extension,
        file.extension == label_text(Some(extension)),
        file.size == size,
        file.suspicious <==> {
            &&& executable_extensions().contains(lowercase(extension))
            &&& exists|i: int| 0 < i < stem.len() && #[trigger] stem[i] == '.'
            &&& stem != seq!['.', '.']
        },
{
    let name = stem + seq!['.'] + extension;
    assert forall|i: int| 0 <= i < name.len() implies (#[trigger] name[i]) != '/' && name[i]
        != '\\' && name[i] != ':' by {
        if i < stem.len() {
            assert(name[i] == stem[i]);
        } else if i > stem.len() {
            assert(name[i] == extension[i - stem.len() - 1]);
        }
    }
    assert(name.last() == extension.last());
    assert(extension.contains(extension.last()));
    lemma_suspicious_means_disguised(stem, extension);
    lemma_extension_behind_last_stop(stem, extension);
    match directory {
        Some(front) => {
            let path = front + seq!['/'] + name;
            lemma_last_component_is_the_last(front, name);
            assert forall|i: int| 0 <= i < path.len() implies (#[trigger] path[i]) != '\\'
                && path[i] != ':' by {
                if i < front.len() {
                    assert(front.contains(front[i]));
                } else if i > front.len() {
                    assert(path[i] == name[i - front.len() - 1]);
                }
            }
            assert(front.len() == 0 ==> path[1] == name[0]);
            assert(is_portable(path));
            lemma_portable_zip_record(zip_path, (path, size), file);
        },
        None => {
            lemma_last_component_is_the_last(name, name);
            assert(is_portable(name));
            lemma_portable_zip_record(zip_path, (name, size), file);
        },
    }
}

/// Reading entries of an archive records each that is listed behind the files that were
/// known, in their order, and leaves those and the number of directories as they are.
pub proof fn lemma_archive_files_are_recorded(
    before: ScanView,
    zip_path: Seq<char>,
    entries: Seq<Result<(Seq<char>, u64), Seq<char>>>,
    from: int,
    to: int,
    after: ScanView,
    j: int,
)
    requires
        is_zip_step(before, zip_path, entries, from, to, after),
    ensures
        after.directories == before.directories,
        after.errors == before.errors + entry_errors(entries, from, to),
        after.files.len() == before.files.len() + listed(entries, from, to).len(),
        0 <= j < before.files.len() ==> after.files[j] == before.files[j],
        0 <= j < listed(entries, from, to).len() ==> {
            let file = after.files[before.files.len() + j];
            let entry = listed(entries, from, to)[j];
            &&& file.path == zip_path + seq![' ', ':', ':', ' '] + entry.0
            &&& file.size == entry.1
            &&& file.filesystem_path is None
        },
{
    if 0 <= j < before.files.len() {
        assert(after.files.take(before.files.len() as int)[j] == after.files[j]);
    }
    if 0 <= j < listed(entries, from, to).len() {
        lemma_zip_record_tells(
            zip_path,
            listed(entries, from, to)[j],
            after.files[before.files.len() + j],
        );
    }
}

/// An entry of an archive adds an error, which tells its position, where it cannot be read;
/// nothing where it is a directory; and otherwise a file with its size, under the name that
/// the system finds in its name, or under all of it.
pub proof fn lemma_entry_step_adds_what_was_met(
    before: ScanView,
    zip_path: Seq<char>,
    index: nat,
    entry: Result<ZipEntry, String>,
    component: Option<Seq<char>>,
    suspicious: bool,
    after: ScanView,
    report: Option<ScanMessage>,
)
    requires
        is_entry_step(
            before,
            zip_path,
            index,
            entry,
            component,
            suspicious,
            after,
            report,
        ),
    ensures
        after.directories == before.directories,
        entry matches Err(error) ==> after.files == before.files && after.errors
            == before.errors.push(
            seq!['Z', 'I', 'P', ' ', 'e', 'n', 't', 'r', 'y', ' '] + decimal_text(index) + seq![
                ':',
                ' ',
            ] + error@,
        ),
        entry is Ok ==> after.errors == before.errors,
        entry matches Ok(e) ==> e.is_dir ==> after.files == before.files,
        entry matches Ok(e) ==> !e.is_dir ==> {
            &&& after.files.len() == before.files.len() + 1
            &&& after.files.drop_last() == before.files
            &&& component matches Some(name) ==> after.files.last().name == name
            &&& component is None ==> after.files.last().name == e.name@
            &&& after.files.last().path == zip_path + seq![' ', ':', ':', ' '] + e.name@
            &&& after.files.last().size == e.size
            &&& after.files.last().filesystem_path is None
            &&& after.files.last().suspicious == suspicious
        },
        report is Some <==> (entry matches Ok(e) && !e.is_dir && exists|k: nat|
            before.files.len() + 1 == #[trigger] (k * 500)),
        report matches Some(ScanMessage::Progress { files, directories, current }) ==> files
            == after.files.len() && directories == 0 && current@ == after.files.last().path,
        report matches Some(message) ==> message is Progress,
{
    reveal_strlit("ZIP entry ");
    reveal_strlit(": ");
    reveal_strlit(" :: ");
    assert("ZIP entry "@ =~= seq!['Z', 'I', 'P', ' ', 'e', 'n', 't', 'r', 'y', ' ']);
    assert(": "@ =~= seq![':', ' ']);
    assert(" :: "@ =~= seq![' ', ':', ':', ' ']);
    if let Ok(e) = entry {
        if !e.is_dir {
            assert(after.files.drop_last() =~= before.files);
            let n = after.files.len();
            if n % 500 == 0 {
                assert(n == (n / 500) * 500);
            }
            if exists|k: nat| n == #[trigger] (k * 500) {
                let k = choose|k: nat| n == #[trigger] (k * 500);
                assert(n % 500 == 0);
            }
        }
    }
}

/// The record of an entry whose file name is something, a full stop and a part without full
/// stops has the label of that part for its extension, and one whose file name has no full
/// stop behind its first character, or that has none, tells that there is no extension.
pub proof fn lemma_entry_step_extension(
    before: ScanView,
    zip_path: Seq<char>,
    index: nat,
    entry: ZipEntry,
    component: Option<Seq<char>>,
    stem: Seq<char>,
    extension: Seq<char>,
    suspicious: bool,
    after: ScanView,
    report: Option<ScanMessage>,
)
    requires
        stem.len() > 0,
        !extension.contains('.'),
        !entry.is_dir,
        is_entry_step(
            before,
            zip_path,
            index,
            Ok(entry),
            component,
            suspicious,
            after,
            report,
        ),
    ensures
        component == Some(stem + seq!['.'] + extension) ==> after.files.last().extension
            == label_text(Some(extension)),
        component matches Some(name) ==> (forall|i: int|
            0 < i < name.len() ==> #[trigger] name[i] != '.') ==> after.files.last().extension
            == "File / No Extension"@,
        component is None ==> after.files.last().extension == "File / No Extension"@,
{
    lemma_extension_behind_last_stop(stem, extension);
    lemma_label_of_no_extension(seq!['x']);
    if let Some(name) = component {
        if (forall|i: int| 0 < i < name.len() ==> #[trigger] name[i] != '.') {
            lemma_no_extension(name);
        }
    }
}

} // verus!
