//! Laws of the state of the program and of the texts of the window.

use vstd::prelude::*;
use vstd::string::*;

use crate::chart::is_chart;
use crate::filter::search_text;
use crate::format::{bytes_text, grouped, middle_truncated};
use crate::laws::showing::lemma_truncated_is_two_ends;
use crate::records::{stat_views, FileView, ScanMessage, ScanResult, ScanSource, SortMode};
use crate::report::{json_name, report_text};
use crate::state::{are_orders, is_received, is_start, last_failure, last_progress, last_result};
use crate::state::{ChartOrder, Orders, SavedFile, ScannerApp};
use crate::statistics::sum_of_counts;
use crate::text::decimal_text;
use crate::view::{is_output_line, is_row, number_text, reads, sort_text, FileRow, OutputLine};
use crate::view::{SummaryLine, CURRENT_MOST, SOURCE_MOST};

verus! {

// ------------------------------------------------------------
// Messages
// ------------------------------------------------------------

/// The progress that counts is the last one: that behind which there is no other.
pub proof fn lemma_last_progress_counts(messages: Seq<ScanMessage>, k: int)
    requires
        0 <= k < messages.len() ==> messages[k] is Progress,
        -1 <= k < messages.len(),
        forall|j: int| k < j < messages.len() ==> #[trigger] messages[j] !is Progress,
    ensures
        k < 0 ==> last_progress(messages) is None,
        k >= 0 ==> (messages[k] matches ScanMessage::Progress { files, directories, current }
            && last_progress(messages) == Some((files, directories, current@))),
    decreases messages.len(),
{
    if messages.len() > 0 && k < messages.len() - 1 {
        let front = messages.drop_last();
        assert(messages[messages.len() - 1] !is Progress);
        assert forall|j: int| k < j < front.len() implies #[trigger] front[j] !is Progress by {
            assert(front[j] == messages[j]);
        }
        lemma_last_progress_counts(front, k);
    }
}

/// The result that counts is the last one: that behind which there is no other.
pub proof fn lemma_last_result_counts(messages: Seq<ScanMessage>, k: int)
    requires
        0 <= k < messages.len() ==> messages[k] is Finished,
        -1 <= k < messages.len(),
        forall|j: int| k < j < messages.len() ==> #[trigger] messages[j] !is Finished,
    ensures
        k < 0 ==> last_result(messages) is None,
        k >= 0 ==> (messages[k] matches ScanMessage::Finished(result) && last_result(messages)
            == Some(result)),
    decreases messages.len(),
{
    if messages.len() > 0 && k < messages.len() - 1 {
        let front = messages.drop_last();
        assert(messages[messages.len() - 1] !is Finished);
        assert forall|j: int| k < j < front.len() implies #[trigger] front[j] !is Finished by {
            assert(front[j] == messages[j]);
        }
        lemma_last_result_counts(front, k);
    }
}

/// The failure that counts is the last one: that behind which there is no other.
pub proof fn lemma_last_failure_counts(messages: Seq<ScanMessage>, k: int)
    requires
        0 <= k < messages.len() ==> messages[k] is Failed,
        -1 <= k < messages.len(),
        forall|j: int| k < j < messages.len() ==> #[trigger] messages[j] !is Failed,
    ensures
        k < 0 ==> last_failure(messages) is None,
        k >= 0 ==> (messages[k] matches ScanMessage::Failed(error) && last_failure(messages)
            == Some(error@)),
    decreases messages.len(),
{
    if messages.len() > 0 && k < messages.len() - 1 {
        let front = messages.drop_last();
        assert(messages[messages.len() - 1] !is Failed);
        assert forall|j: int| k < j < front.len() implies #[trigger] front[j] !is Failed by {
            assert(front[j] == messages[j]);
        }
        lemma_last_failure_counts(front, k);
    }
}

/// Messages with a result among them show the last one, and end the scan.
pub proof fn lemma_result_is_shown(
    before: ScannerApp,
    messages: Seq<ScanMessage>,
    after: ScannerApp,
    k: int,
)
    requires
        is_received(before, messages, after),
        0 <= k < messages.len(),
        messages[k] is Finished,
        forall|j: int| k < j < messages.len() ==> #[trigger] messages[j] !is Finished,
    ensures
        messages[k] matches ScanMessage::Finished(result) && {
            &&& after.files == result.files
            &&& after.extensions == result.extensions
            &&& after.total_bytes == result.total_bytes
            &&& after.errors == result.errors
        },
        !after.scanning,
        after.scan_started is None,
{
    lemma_last_result_counts(messages, k);
}

/// Messages without a result leave what is shown as it is. The scan goes on unless one of
/// them tells that it failed.
pub proof fn lemma_scan_goes_on(
    before: ScannerApp,
    messages: Seq<ScanMessage>,
    after: ScannerApp,
)
    requires
        is_received(before, messages, after),
        forall|j: int| 0 <= j < messages.len() ==> #[trigger] messages[j] !is Finished,
    ensures
        after.files == before.files,
        after.extensions == before.extensions,
        after.total_bytes == before.total_bytes,
        after.errors == before.errors,
        after.scan_started == before.scan_started,
        (forall|j: int| 0 <= j < messages.len() ==> #[trigger] messages[j] !is Failed)
            ==> after.scanning == before.scanning,
        (exists|j: int| 0 <= j < messages.len() && #[trigger] messages[j] is Failed)
            ==> !after.scanning,
{
    lemma_last_result_counts(messages, -1);
    if (forall|j: int| 0 <= j < messages.len() ==> #[trigger] messages[j] !is Failed) {
        lemma_last_failure_counts(messages, -1);
    } else {
        lemma_failure_is_found(messages);
    }
}

proof fn lemma_failure_is_found(messages: Seq<ScanMessage>)
    requires
        exists|j: int| 0 <= j < messages.len() && #[trigger] messages[j] is Failed,
    ensures
        last_failure(messages) is Some,
    decreases messages.len(),
{
    let j = choose|j: int| 0 <= j < messages.len() && #[trigger] messages[j] is Failed;
    if messages.last() !is Failed {
        let front = messages.drop_last();
        assert(front[j] is Failed);
        lemma_failure_is_found(front);
    }
}

/// Messages with progress among them show the last one, and those without leave what is
/// shown of it as it is. Messages never change what was chosen.
pub proof fn lemma_progress_is_shown(
    before: ScannerApp,
    messages: Seq<ScanMessage>,
    after: ScannerApp,
    k: int,
)
    requires
        is_received(before, messages, after),
        0 <= k < messages.len() ==> messages[k] is Progress,
        -1 <= k < messages.len(),
        forall|j: int| k < j < messages.len() ==> #[trigger] messages[j] !is Progress,
    ensures
        k >= 0 ==> (messages[k] matches ScanMessage::Progress { files, directories, current }
            && after.scanned_files == files && after.scanned_directories == directories
            && after.current_file@ == current@),
        k < 0 ==> after.scanned_files == before.scanned_files && after.scanned_directories
            == before.scanned_directories && after.current_file == before.current_file,
        after.source == before.source,
        after.search == before.search,
        after.selected_file == before.selected_file,
        after.receiving == before.receiving,
        after.png_path == before.png_path,
        after.json_path == before.json_path,
        after.sort_mode == before.sort_mode,
        after.only_suspicious == before.only_suspicious,
        after.only_no_extension == before.only_no_extension,
        after.generate_pie_chart == before.generate_pie_chart,
        after.generate_report == before.generate_report,
        after.about_open == before.about_open,
{
    lemma_last_progress_counts(messages, k);
}

// ------------------------------------------------------------
// Steps
// ------------------------------------------------------------

/// A scan that starts shows its source and nothing that was found before, and keeps what
/// was set.
pub proof fn lemma_start_forgets(
    before: ScannerApp,
    source: ScanSource,
    now: u64,
    after: ScannerApp,
)
    requires
        is_start(before, source, now, after),
    ensures
        after.scanning,
        after.receiving,
        after.scan_started == Some(now),
        after.source == Some(source),
        after.files@.len() == 0,
        after.extensions@.len() == 0,
        after.errors@.len() == 0,
        after.search@.len() == 0,
        after.current_file@.len() == 0,
        after.total_bytes == 0,
        after.scanned_files == 0,
        after.scanned_directories == 0,
        after.selected_file is None,
        after.png_path is None,
        after.json_path is None,
        after.sort_mode == before.sort_mode,
        after.only_suspicious == before.only_suspicious,
        after.only_no_extension == before.only_no_extension,
        after.generate_pie_chart == before.generate_pie_chart,
        after.generate_report == before.generate_report,
        after.about_open == before.about_open,
{
}

/// A finished scan calls for a chart and for a report exactly where they are asked for; a
/// chart is missing only where the counts do not fit into a total. Both are those of what
/// the scan found.
pub proof fn lemma_orders_are_those_asked_for(
    orders: Orders,
    result: ScanResult,
    generate_pie_chart: bool,
    generate_report: bool,
)
    requires
        are_orders(orders, result, generate_pie_chart, generate_report),
    ensures
        orders.chart is Disabled <==> !generate_pie_chart,
        orders.chart is Draw <==> generate_pie_chart && sum_of_counts(
            stat_views(result.extensions@),
        ) <= 0xffff_ffff_ffff_ffff,
        orders.report is Some <==> generate_report,
        orders.chart matches ChartOrder::Draw(chart) ==> is_chart(
            chart,
            result.source,
            stat_views(result.extensions@),
        ),
        orders.report matches Some(report) ==> report.file_name@ == json_name(
            result.source.name_text(),
        ) && report.text@ == report_text(
            result.source.path().display@,
            stat_views(result.extensions@),
            result.total_bytes as nat,
            result.files@.len(),
        ),
{
}

/// What is looked for is what the search and the filters say.
pub proof fn lemma_query_of_state(app: ScannerApp)
    ensures
        app.query().text == search_text(app.search@),
        app.query().only_suspicious == app.only_suspicious,
        app.query().only_no_extension == app.only_no_extension,
{
}

// ------------------------------------------------------------
// The window
// ------------------------------------------------------------

/// The line of a file tells its extension and its size. Its name is whole up to 40
/// characters and its path up to 115; of longer ones both ends are shown. A suspicious file
/// is marked, and so is the selected one.
pub proof fn lemma_row_tells(row: FileRow, file: FileView, selected: bool)
    requires
        is_row(row, file, selected),
    ensures
        row.extension@ == file.extension,
        row.size@ == bytes_text(file.size),
        file.name.len() <= 40 ==> row.name@ == file.name,
        file.name.len() > 40 ==> row.name@.len() == 39 && row.name@ == middle_truncated(
            file.name,
            40,
        ),
        file.path.len() <= 115 ==> row.path@ == file.path,
        file.path.len() > 115 ==> row.path@.len() == 115 && row.path@ == middle_truncated(
            file.path,
            115,
        ),
        file.suspicious ==> row.icon@ == "!"@ && row.icon_color@ == seq![255u8, 175, 55],
        !file.suspicious ==> row.icon@ == "•"@ && row.icon_color@ == seq![130u8, 130, 130],
        selected ==> (row.background matches Some(color) && color@ == seq![35u8, 70, 105]),
        !selected ==> row.background is None,
{
    lemma_truncated_is_two_ends(file.name, 40, 18);
    lemma_truncated_is_two_ends(file.path, 115, 56);
}

/// How much is shown of what is being scanned and of the path of a source, and the form of
/// numbers.
pub proof fn lemma_window_widths(n: nat)
    ensures
        CURRENT_MOST == 120,
        SOURCE_MOST == 85,
        number_text(n) == grouped(decimal_text(n)),
{
}

/// A file that was written is linked by its name, or by a name for all. One that was not
/// is told to be disabled exactly if it is not asked for.
pub proof fn lemma_output_line_tells(
    line: OutputLine,
    saved: Option<SavedFile>,
    asked_for: bool,
    fallback: Seq<char>,
    disabled: Seq<char>,
)
    requires
        is_output_line(line, saved, asked_for, fallback, disabled),
    ensures
        line is Link <==> saved is Some,
        line is Disabled <==> saved is None && !asked_for,
        line is Nothing <==> saved is None && asked_for,
        line matches OutputLine::Disabled(text) ==> text@ == disabled,
        line matches OutputLine::Link(text) ==> text@ == match saved->0.file_name {
            Some(name) => name@,
            None => fallback,
        },
{
}

/// The ways to sort have different texts.
pub proof fn lemma_sort_texts_differ(a: SortMode, b: SortMode)
    requires
        a != b,
    ensures
        sort_text(a) != sort_text(b),
{
    reveal_strlit("Name");
    reveal_strlit("Extension");
    reveal_strlit("Size ↓");
    reveal_strlit("Size ↑");
    assert("Name"@.len() == 4);
    assert("Extension"@.len() == 9);
    assert("Size ↓"@[5] != "Size ↑"@[5]);
}

/// A line of the summary reads as its two texts.
pub proof fn lemma_summary_line(line: SummaryLine, label: Seq<char>, value: Seq<char>)
    ensures
        reads(line, label, value) <==> line.label@ == label && line.value@ == value,
{
}

} // verus!
