//! The state of the program: what was scanned, what was found, and what is shown of it.

use vstd::prelude::*;
use vstd::string::*;

use std::path::PathBuf;

use crate::chart::{create_png, is_chart, PngChart};
use crate::filter::{filtered_count, filtered_indices, is_blank_search, is_listing, matching};
use crate::filter::{search_text, Query, QueryView};
use crate::records::{file_views, stat_views, ExtensionStat, FileRecord, ScanMessage, ScanResult};
use crate::records::{ScanSource, SortMode};
use crate::report::{create_json, json_name, report_text, JsonReport};
use crate::scan::is_result;
use crate::statistics::{is_statistics, lemma_statistics_account_for_all, sum_of_counts};
use crate::tally::total_size;

verus! {

/// The title of the program.
pub const APP_NAME: &'static str = "Extension Scanner";

/// A file that was written: its last component, where it has one that is text, and its
/// place.
#[derive(Debug)]
pub struct SavedFile {
    pub file_name: Option<String>,
    pub location: PathBuf,
}

/// The state of the program. The time at which a scan started is in nanoseconds, on a clock
/// that runs with the program. `receiving` tells that there is a scan whose messages come in.
pub struct ScannerApp {
    pub source: Option<ScanSource>,
    pub files: Vec<FileRecord>,
    pub extensions: Vec<ExtensionStat>,
    pub search: String,
    pub sort_mode: SortMode,
    pub only_suspicious: bool,
    pub only_no_extension: bool,
    pub generate_pie_chart: bool,
    pub generate_report: bool,
    pub selected_file: Option<usize>,
    pub scanning: bool,
    pub scanned_files: u64,
    pub scanned_directories: u64,
    pub current_file: String,
    pub scan_started: Option<u64>,
    pub receiving: bool,
    pub total_bytes: u64,
    pub errors: Vec<String>,
    pub png_path: Option<SavedFile>,
    pub json_path: Option<SavedFile>,
    pub about_open: bool,
}

/// What is shown below the toolbar.
#[derive(Clone, Copy, Debug, PartialEq, Eq, Structural)]
pub enum Screen {
    Start,
    Scanning,
    Dashboard,
}

/// Whether the chart of a finished scan is to be drawn.
pub enum ChartOrder {
    /// No chart is asked for.
    Disabled,
    /// The chart to draw.
    Draw(PngChart),
    /// The counts of the extensions do not fit into a total.
    Overflow,
}

/// What is to be written after a scan has finished: first the chart and then the report.
pub struct Orders {
    pub chart: ChartOrder,
    pub report: Option<JsonReport>,
}

/// What the messages of a scan call for: to write what a finished scan asks for, and then
/// to show the error of one that failed.
pub struct Received {
    pub orders: Option<Orders>,
    pub failed: Option<String>,
}

/// Whether `orders` are those of a finished scan, as far as they are asked for.
pub open spec fn are_orders(
    orders: Orders,
    result: ScanResult,
    generate_pie_chart: bool,
    generate_report: bool,
) -> bool {
    let stats = stat_views(result.extensions@);
    &&& match orders.chart {
        ChartOrder::Disabled => !generate_pie_chart,
        ChartOrder::Draw(chart) => {
            &&& generate_pie_chart
            &&& sum_of_counts(stats) <= u64::MAX
            &&& is_chart(chart, result.source, stats)
        },
        ChartOrder::Overflow => generate_pie_chart && sum_of_counts(stats) > u64::MAX,
    }
    &&& match orders.report {
        Some(report) => {
            &&& generate_report
            &&& report.file_name@ == json_name(result.source.name_text())
            &&& report.text@ == report_text(
                result.source.path().display@,
                stats,
                result.total_bytes as nat,
                result.files@.len(),
            )
        },
        None => !generate_report,
    }
}

/// The chart of a scan can always be drawn: the counts add up to the number of its files.
pub proof fn lemma_result_has_chart(result: ScanResult)
    requires
        is_result(result),
    ensures
        sum_of_counts(stat_views(result.extensions@)) == result.files@.len(),
{
    lemma_statistics_account_for_all(stat_views(result.extensions@), file_views(result.files@));
}

// ------------------------------------------------------------
// Messages
// ------------------------------------------------------------

/// The progress that was reported last.
pub open spec fn last_progress(messages: Seq<ScanMessage>) -> Option<(u64, u64, Seq<char>)>
    decreases messages.len(),
{
    if messages.len() == 0 {
        None
    } else {
        match messages.last() {
            ScanMessage::Progress { files, directories, current } => Some(
                (files, directories, current@),
            ),
            _ => last_progress(messages.drop_last()),
        }
    }
}

/// The result that was reported last.
pub open spec fn last_result(messages: Seq<ScanMessage>) -> Option<ScanResult>
    decreases messages.len(),
{
    if messages.len() == 0 {
        None
    } else {
        match messages.last() {
            ScanMessage::Finished(result) => Some(result),
            _ => last_result(messages.drop_last()),
        }
    }
}

/// The failure that was reported last.
pub open spec fn last_failure(messages: Seq<ScanMessage>) -> Option<Seq<char>>
    decreases messages.len(),
{
    if messages.len() == 0 {
        None
    } else {
        match messages.last() {
            ScanMessage::Failed(error) => Some(error@),
            _ => last_failure(messages.drop_last()),
        }
    }
}

// ------------------------------------------------------------
// Steps
// ------------------------------------------------------------

/// Whether two states have the same settings.
pub open spec fn same_settings(a: ScannerApp, b: ScannerApp) -> bool {
    &&& a.sort_mode == b.sort_mode
    &&& a.only_suspicious == b.only_suspicious
    &&& a.only_no_extension == b.only_no_extension
    &&& a.generate_pie_chart == b.generate_pie_chart
    &&& a.generate_report == b.generate_report
    &&& a.about_open == b.about_open
}

/// Whether nothing is left in `app` of an earlier scan.
pub open spec fn is_blank(app: ScannerApp) -> bool {
    &&& app.files@.len() == 0
    &&& app.extensions@.len() == 0
    &&& app.search@.len() == 0
    &&& app.selected_file is None
    &&& app.scanned_files == 0
    &&& app.scanned_directories == 0
    &&& app.current_file@.len() == 0
    &&& app.total_bytes == 0
    &&& app.errors@.len() == 0
    &&& app.png_path is None
    &&& app.json_path is None
}

/// Whether a scan of `source` takes the state from `before` to `after` as it starts at the
/// time `now`.
pub open spec fn is_start(
    before: ScannerApp,
    source: ScanSource,
    now: u64,
    after: ScannerApp,
) -> bool {
    &&& after.scanning
    &&& after.scan_started == Some(now)
    &&& after.receiving
    &&& after.source == Some(source)
    &&& is_blank(after)
    &&& same_settings(before, after)
}

/// What of a state a progress message changes, and nothing else.
pub open spec fn is_progressed(
    before: ScannerApp,
    progress: Option<(u64, u64, Seq<char>)>,
    after: ScannerApp,
) -> bool {
    match progress {
        Some((files, directories, current)) => {
            &&& after.scanned_files == files
            &&& after.scanned_directories == directories
            &&& after.current_file@ == current
        },
        None => {
            &&& after.scanned_files == before.scanned_files
            &&& after.scanned_directories == before.scanned_directories
            &&& after.current_file == before.current_file
        },
    }
}

/// What of a state a result changes, and nothing else.
pub open spec fn holds_result(
    before: ScannerApp,
    result: Option<ScanResult>,
    after: ScannerApp,
) -> bool {
    match result {
        Some(result) => {
            &&& after.files == result.files
            &&& after.extensions == result.extensions
            &&& after.total_bytes == result.total_bytes
            &&& after.errors == result.errors
            &&& after.scan_started is None
        },
        None => {
            &&& after.files == before.files
            &&& after.extensions == before.extensions
            &&& after.total_bytes == before.total_bytes
            &&& after.errors == before.errors
            &&& after.scan_started == before.scan_started
        },
    }
}

/// Whether what messages never change is the same in two states.
pub open spec fn same_choices(a: ScannerApp, b: ScannerApp) -> bool {
    &&& same_settings(a, b)
    &&& a.source == b.source
    &&& a.search == b.search
    &&& a.selected_file == b.selected_file
    &&& a.receiving == b.receiving
    &&& a.png_path == b.png_path
    &&& a.json_path == b.json_path
}

/// Whether messages take the state from `before` to `after`.
pub open spec fn is_received(
    before: ScannerApp,
    messages: Seq<ScanMessage>,
    after: ScannerApp,
) -> bool {
    &&& same_choices(before, after)
    &&& is_progressed(before, last_progress(messages), after)
    &&& holds_result(before, last_result(messages), after)
    &&& after.scanning == (before.scanning && last_result(messages) is None && last_failure(
        messages,
    ) is None)
}

proof fn lemma_blank_is_consistent(app: ScannerApp)
    requires
        is_blank(app),
    ensures
        app.is_consistent(),
{
    assert(file_views(app.files@) =~= Seq::empty());
    assert(stat_views(app.extensions@) =~= Seq::empty());
}

impl Default for ScannerApp {
    fn default() -> (r: ScannerApp)
        ensures
            r.wf(),
            r.is_consistent(),
            r.source is None,
            is_blank(r),
            !r.scanning,
            r.scan_started is None,
            !r.receiving,
            r.sort_mode == SortMode::Name,
            !r.only_suspicious,
            !r.only_no_extension,
            r.generate_pie_chart,
            r.generate_report,
            !r.about_open,
    {
        let r = ScannerApp {
            source: None,
            files: Vec::new(),
            extensions: Vec::new(),
            search: String::new(),
            sort_mode: SortMode::Name,
            only_suspicious: false,
            only_no_extension: false,
            generate_pie_chart: true,
            generate_report: true,
            selected_file: None,
            scanning: false,
            scanned_files: 0,
            scanned_directories: 0,
            current_file: String::new(),
            scan_started: None,
            receiving: false,
            total_bytes: 0,
            errors: Vec::new(),
            png_path: None,
            json_path: None,
            about_open: false,
        };
        proof {
            lemma_blank_is_consistent(r);
        }
        r
    }
}

impl ScannerApp {
    /// What holds between all steps: a running scan has started and is listened to, and has
    /// left nothing of an earlier one; a selected file is one of the files; and files come
    /// from a source.
    pub open spec fn wf(self) -> bool {
        &&& self.scanning ==> self.scan_started is Some && self.receiving
        &&& self.scanning ==> self.files@.len() == 0 && self.extensions@.len() == 0
            && self.total_bytes == 0 && self.errors@.len() == 0 && self.png_path is None
            && self.json_path is None
        &&& self.scanning || self.files@.len() > 0 ==> self.source is Some
        &&& self.selected_file matches Some(index) ==> index < self.files@.len()
    }

    /// The statistics and the total are those of the files.
    pub open spec fn is_consistent(self) -> bool {
        &&& is_statistics(stat_views(self.extensions@), file_views(self.files@))
        &&& self.total_bytes == total_size(file_views(self.files@))
    }

    /// What is asked for by the search and the filters.
    pub open spec fn query(self) -> QueryView {
        QueryView {
            text: search_text(self.search@),
            only_suspicious: self.only_suspicious,
            only_no_extension: self.only_no_extension,
        }
    }

    /// What is shown below the toolbar.
    pub fn screen(&self) -> (r: Screen)
        ensures
            r == Screen::Scanning <==> self.scanning,
            r == Screen::Start <==> !self.scanning && self.files@.len() == 0,
            r == Screen::Dashboard <==> !self.scanning && self.files@.len() > 0,
    {
        if self.scanning {
            Screen::Scanning
        } else if self.files.len() == 0 {
            Screen::Start
        } else {
            Screen::Dashboard
        }
    }

    /// Starts a scan of `source` at the time `now`, unless one is running, and gives back
    /// what is to be scanned.
    pub fn start_scan(&mut self, source: ScanSource, now: u64) -> (r: Option<ScanSource>)
        ensures
            old(self).scanning ==> r is None && *final(self) == *old(self),
            !old(self).scanning ==> r == Some(source) && is_start(
                *old(self),
                source,
                now,
                *final(self),
            ) && final(self).is_consistent(),
            old(self).wf() ==> final(self).wf(),
    {
        if self.scanning {
            return None;
        }
        self.source = Some(source.clone());
        self.files.clear();
        self.extensions.clear();
        self.search = String::new();
        self.selected_file = None;
        self.scanned_files = 0;
        self.scanned_directories = 0;
        self.current_file = String::new();
        self.total_bytes = 0;
        self.errors.clear();
        self.png_path = None;
        self.json_path = None;
        self.scan_started = Some(now);
        self.scanning = true;
        self.receiving = true;
        proof {
            lemma_blank_is_consistent(*self);
        }
        Some(source)
    }

    /// Whether the last source can be scanned again.
    pub fn can_rescan(&self) -> (r: bool)
        ensures
            r == (self.source is Some && !self.scanning),
    {
        self.source.is_some() && !self.scanning
    }

    /// Starts a scan of the last source, where there is one and no scan is running.
    pub fn rescan(&mut self, now: u64) -> (r: Option<ScanSource>)
        ensures
            old(self).source is Some && !old(self).scanning ==> r == old(self).source
                && is_start(*old(self), old(self).source->0, now, *final(self))
                && final(self).is_consistent(),
            old(self).source is None || old(self).scanning ==> r is None && *final(self) == *old(
                self,
            ),
            old(self).wf() ==> final(self).wf(),
    {
        let source = match &self.source {
            Some(source) => source.clone(),
            None => {
                return None;
            },
        };
        self.start_scan(source, now)
    }

    /// Whether there is a search to clear.
    pub fn can_clear(&self) -> (r: bool)
        ensures
            r == (self.search@.len() > 0),
    {
        !self.search.as_str().is_empty()
    }

    /// Clears the search.
    pub fn clear_search(&mut self)
        ensures
            final(self).search@.len() == 0,
            *final(self) == (ScannerApp { search: final(self).search, ..*old(self) }),
            old(self).wf() ==> final(self).wf(),
    {
        self.search = String::new();
    }

    /// Takes in the messages of a scan, in the order in which they were sent, and tells
    /// what they call for.
    pub fn receive_messages(&mut self, messages: Vec<ScanMessage>) -> (r: Received)
        ensures
            is_received(*old(self), messages@, *final(self)),
            match (r.orders, last_result(messages@)) {
                (Some(orders), Some(result)) => are_orders(
                    orders,
                    result,
                    old(self).generate_pie_chart,
                    old(self).generate_report,
                ),
                (None, None) => true,
                _ => false,
            },
            match (r.failed, last_failure(messages@)) {
                (Some(error), Some(text)) => error@ == text,
                (None, None) => true,
                _ => false,
            },
            old(self).wf() && (old(self).scanning || last_result(messages@) is None)
                ==> final(self).wf(),
            old(self).is_consistent() && (last_result(messages@) matches Some(result)
                ==> is_result(result)) ==> final(self).is_consistent(),
    {
        let ghost all = messages@;
        let mut rest = messages;
        let mut progressed = false;
        let mut finished: Option<ScanResult> = None;
        let mut failed: Option<String> = None;
        while rest.len() > 0
            invariant
                same_choices(*old(self), *self),
                holds_result(*old(self), None, *self),
                self.scanning == old(self).scanning,
                progressed ==> last_progress(all) is Some && is_progressed(
                    *old(self),
                    last_progress(all),
                    *self,
                ),
                !progressed ==> last_progress(all) == last_progress(rest@) && is_progressed(
                    *old(self),
                    None,
                    *self,
                ),
                finished is Some ==> last_result(all) == finished,
                finished is None ==> last_result(all) == last_result(rest@),
                failed matches Some(error) ==> last_failure(all) == Some(error@),
                failed is None ==> last_failure(all) == last_failure(rest@),
            decreases rest@.len(),
        {
            match rest.pop() {
                Some(ScanMessage::Progress { files, directories, current }) => {
                    if !progressed {
                        self.scanned_files = files;
                        self.scanned_directories = directories;
                        self.current_file = current;
                        progressed = true;
                    }
                },
                Some(ScanMessage::Finished(result)) => {
                    if finished.is_none() {
                        finished = Some(result);
                    }
                },
                Some(ScanMessage::Failed(error)) => {
                    if failed.is_none() {
                        failed = Some(error);
                    }
                },
                None => {},
            }
        }
        let orders = match finished {
            Some(result) => Some(self.finish_scan(result)),
            None => None,
        };
        if failed.is_some() {
            self.scanning = false;
        }
        Received { orders, failed }
    }

    /// Takes in the result of a scan, and tells what is to be written.
    pub fn finish_scan(&mut self, result: ScanResult) -> (r: Orders)
        ensures
            *final(self) == (ScannerApp {
                files: result.files,
                extensions: result.extensions,
                total_bytes: result.total_bytes,
                errors: result.errors,
                scanning: false,
                scan_started: None,
                ..*old(self)
            }),
            are_orders(r, result, old(self).generate_pie_chart, old(self).generate_report),
            is_result(result) ==> final(self).is_consistent() && !(r.chart is Overflow),
            old(self).wf() && old(self).scanning ==> final(self).wf(),
    {
        proof {
            if is_result(result) {
                lemma_result_has_chart(result);
            }
        }
        let files: usize = result.files.len();
        let source = result.source;
        self.files = result.files;
        self.extensions = result.extensions;
        self.total_bytes = result.total_bytes;
        self.errors = result.errors;
        self.scanning = false;
        self.scan_started = None;
        let chart = if self.generate_pie_chart {
            match create_png(&source, &self.extensions) {
                Some(chart) => ChartOrder::Draw(chart),
                None => ChartOrder::Overflow,
            }
        } else {
            ChartOrder::Disabled
        };
        let report = if self.generate_report {
            Some(create_json(&source, &self.extensions, self.total_bytes, files as u64))
        } else {
            None
        };
        Orders { chart, report }
    }

    /// Takes in where the chart of a finished scan was written.
    pub fn chart_saved(&mut self, file: SavedFile)
        ensures
            *final(self) == (ScannerApp { png_path: Some(file), ..*old(self) }),
            old(self).wf() && !old(self).scanning ==> final(self).wf(),
    {
        self.png_path = Some(file);
    }

    /// Takes in where the report of a finished scan was written.
    pub fn report_saved(&mut self, file: SavedFile)
        ensures
            *final(self) == (ScannerApp { json_path: Some(file), ..*old(self) }),
            old(self).wf() && !old(self).scanning ==> final(self).wf(),
    {
        self.json_path = Some(file);
    }

    /// Selects the file at `index`, where there is one.
    pub fn select(&mut self, index: usize)
        ensures
            *final(self) == (ScannerApp {
                selected_file: if index < old(self).files@.len() {
                    Some(index)
                } else {
                    old(self).selected_file
                },
                ..*old(self)
            }),
            old(self).wf() ==> final(self).wf(),
    {
        if index < self.files.len() {
            self.selected_file = Some(index);
        }
    }

    /// Where the file at `index` lies: nowhere for an entry of an archive.
    pub fn locate_file(&self, index: usize) -> (r: Option<PathBuf>)
        ensures
            index < self.files@.len() ==> r == self.files@[index as int].filesystem_path,
            index >= self.files@.len() ==> r is None,
    {
        if index < self.files.len() {
            match &self.files[index].filesystem_path {
                Some(path) => Some(path.clone()),
                None => None,
            }
        } else {
            None
        }
    }

    fn to_query(&self) -> (r: Query)
        ensures
            r@ == self.query(),
            r.search@ == self.search@,
            r.only_suspicious == self.only_suspicious,
            r.only_no_extension == self.only_no_extension,
    {
        Query {
            search: self.search.clone(),
            only_suspicious: self.only_suspicious,
            only_no_extension: self.only_no_extension,
        }
    }

    /// The positions of the files that are listed, in the order in which they are.
    pub fn filtered_indices(&self) -> (r: Vec<usize>)
        ensures
            is_listing(file_views(self.files@), self.query(), self.sort_mode, r@),
            r@.len() == matching(file_views(self.files@), self.query()).len(),
            is_blank_search(self.search@) && !self.only_suspicious && !self.only_no_extension
                ==> r@.len() == self.files@.len(),
    {
        let query = self.to_query();
        filtered_indices(&self.files, &query, self.sort_mode)
    }

    /// How many files are listed.
    pub fn filtered_count(&self) -> (r: usize)
        ensures
            r == matching(file_views(self.files@), self.query()).len(),
            is_blank_search(self.search@) && !self.only_suspicious && !self.only_no_extension
                ==> r == self.files@.len(),
    {
        let query = self.to_query();
        filtered_count(&self.files, &query)
    }
}

/// A scan that is started and reports to its end leaves a state that holds what the scan
/// found, with nothing of an earlier scan, and another scan can be started.
pub proof fn lemma_scan_is_shown(
    before: ScannerApp,
    source: ScanSource,
    now: u64,
    started: ScannerApp,
    messages: Seq<ScanMessage>,
    after: ScannerApp,
)
    requires
        is_start(before, source, now, started),
        is_received(started, messages, after),
        last_result(messages) is Some,
    ensures
        after.wf(),
        !after.scanning,
        after.source == Some(source),
        after.files == last_result(messages)->0.files,
        after.extensions == last_result(messages)->0.extensions,
        after.errors == last_result(messages)->0.errors,
        after.selected_file is None,
        after.search@.len() == 0,
        is_result(last_result(messages)->0) ==> after.is_consistent(),
{
}

/// A scan that fails shows nothing: the state is empty, and another scan can be started.
pub proof fn lemma_failed_scan_shows_nothing(
    before: ScannerApp,
    source: ScanSource,
    now: u64,
    started: ScannerApp,
    messages: Seq<ScanMessage>,
    after: ScannerApp,
)
    requires
        is_start(before, source, now, started),
        is_received(started, messages, after),
        last_result(messages) is None,
        last_failure(messages) is Some,
    ensures
        after.wf(),
        !after.scanning,
        after.source == Some(source),
        after.files@.len() == 0,
        after.extensions@.len() == 0,
        after.png_path is None,
        after.json_path is None,
{
}

// ------------------------------------------------------------
// Every state
// ------------------------------------------------------------

/// What changes the state: a call, or a change of the search or of a setting in the window.
pub enum Call {
    Start(ScanSource, u64),
    Rescan(u64),
    Receive(Seq<ScanMessage>),
    ChartSaved(SavedFile),
    ReportSaved(SavedFile),
    Select(usize),
    ClearSearch,
    Change,
}

/// Whether `app` is the state in which the program starts.
pub open spec fn is_first(app: ScannerApp) -> bool {
    app.source is None && is_blank(app) && !app.scanning && app.scan_started is None
        && !app.receiving
}

/// Whether a call takes the state from `before` to `after`. Files are written after a scan
/// has finished, and a result that arrives is that of a scan.
pub open spec fn is_call(before: ScannerApp, call: Call, after: ScannerApp) -> bool {
    match call {
        Call::Start(source, now) => if before.scanning {
            after == before
        } else {
            is_start(before, source, now, after)
        },
        Call::Rescan(now) => if before.source is Some && !before.scanning {
            is_start(before, before.source->0, now, after)
        } else {
            after == before
        },
        Call::Receive(messages) => {
            &&& is_received(before, messages, after)
            &&& last_result(messages) matches Some(result) ==> is_result(result)
        },
        Call::ChartSaved(file) => {
            &&& !before.scanning
            &&& after == ScannerApp { png_path: Some(file), ..before }
        },
        Call::ReportSaved(file) => {
            &&& !before.scanning
            &&& after == ScannerApp { json_path: Some(file), ..before }
        },
        Call::Select(index) => after == ScannerApp {
            selected_file: if index < before.files@.len() {
                Some(index)
            } else {
                before.selected_file
            },
            ..before
        },
        Call::ClearSearch => {
            &&& after.search@.len() == 0
            &&& after == ScannerApp { search: after.search, ..before }
        },
        Call::Change => after == ScannerApp {
            search: after.search,
            sort_mode: after.sort_mode,
            only_suspicious: after.only_suspicious,
            only_no_extension: after.only_no_extension,
            generate_pie_chart: after.generate_pie_chart,
            generate_report: after.generate_report,
            about_open: after.about_open,
            ..before
        },
    }
}

/// Whether the program can be in the state `app` after these calls.
pub open spec fn is_reached(calls: Seq<Call>, app: ScannerApp) -> bool
    decreases calls.len(),
{
    if calls.len() == 0 {
        is_first(app)
    } else {
        exists|before: ScannerApp|
            is_reached(calls.drop_last(), before) && #[trigger] is_call(before, calls.last(), app)
    }
}

/// What holds in every state that the program can reach: a running scan has a source, has
/// started, is listened to, and shows nothing of an earlier one, and the statistics and the
/// total are always those of the files.
pub proof fn lemma_every_state(calls: Seq<Call>, app: ScannerApp)
    requires
        is_reached(calls, app),
    ensures
        app.scanning ==> {
            &&& app.source is Some
            &&& app.receiving
            &&& app.scan_started is Some
            &&& app.files@.len() == 0
            &&& app.extensions@.len() == 0
            &&& app.errors@.len() == 0
            &&& app.total_bytes == 0
            &&& app.png_path is None
            &&& app.json_path is None
        },
        app.is_consistent(),
        app.total_bytes == total_size(file_views(app.files@)),
    decreases calls.len(),
{
    if calls.len() == 0 {
        lemma_blank_is_consistent(app);
    } else {
        let before = choose|before: ScannerApp|
            is_reached(calls.drop_last(), before) && #[trigger] is_call(before, calls.last(), app);
        lemma_every_state(calls.drop_last(), before);
        if is_blank(app) {
            lemma_blank_is_consistent(app);
        }
    }
}

} // verus!
