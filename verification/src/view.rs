//! The texts and colors of the window.

use vstd::prelude::*;
use vstd::string::*;

use crate::filter::matching;
use crate::format::{bytes_text, duration_text, format_bytes, format_duration, format_number};
use crate::format::{grouped, middle_truncated, truncate_middle};
use crate::names::text_of;
use crate::records::{file_views, FileRecord, FileView, SortMode};
use crate::state::{SavedFile, ScannerApp};
use crate::text::decimal_text;

verus! {

/// A number with commas between its thousands.
pub open spec fn number_text(n: nat) -> Seq<char> {
    grouped(decimal_text(n))
}

// ------------------------------------------------------------
// Toolbar
// ------------------------------------------------------------

/// The text for a way to sort.
pub open spec fn sort_text(mode: SortMode) -> Seq<char> {
    match mode {
        SortMode::Name => "Name"@,
        SortMode::Extension => "Extension"@,
        SortMode::Largest => "Size ↓"@,
        SortMode::Smallest => "Size ↑"@,
    }
}

/// The text for a way to sort.
pub fn sort_label(mode: SortMode) -> (r: &'static str)
    ensures
        r@ == sort_text(mode),
{
    match mode {
        SortMode::Name => "Name",
        SortMode::Extension => "Extension",
        SortMode::Largest => "Size ↓",
        SortMode::Smallest => "Size ↑",
    }
}

// ------------------------------------------------------------
// Running scan
// ------------------------------------------------------------

/// The texts about a running scan.
#[derive(Debug)]
pub struct ScanningTexts {
    pub files: String,
    pub directories: String,
    pub elapsed: Option<String>,
    pub current: String,
}

/// How many nanoseconds a second has.
pub const SECOND: u64 = 1_000_000_000;

/// How many whole seconds have passed since `start`: none where that lies ahead.
pub open spec fn elapsed_seconds(start: u64, now: u64) -> nat {
    if start <= now {
        (now - start) as nat / SECOND as nat
    } else {
        0
    }
}

/// The most characters that are shown of a path while a scan is running.
pub const CURRENT_MOST: usize = 120;

// ------------------------------------------------------------
// Summary
// ------------------------------------------------------------

/// A line of the summary.
#[derive(Debug)]
pub struct SummaryLine {
    pub label: &'static str,
    pub value: String,
}

/// Whether a line of the summary reads so.
pub open spec fn reads(line: SummaryLine, label: Seq<char>, value: Seq<char>) -> bool {
    line.label@ == label && line.value@ == value
}

/// What is shown of a file that a scan writes.
#[derive(Debug)]
pub enum OutputLine {
    /// The file can be opened.
    Link(String),
    /// The file is not asked for.
    Disabled(&'static str),
    /// There is nothing to show.
    Nothing,
}

/// What is shown of a file that a scan writes: its name where it was written, and
/// otherwise that it is not asked for.
pub open spec fn is_output_line(
    line: OutputLine,
    saved: Option<SavedFile>,
    asked_for: bool,
    fallback: Seq<char>,
    disabled: Seq<char>,
) -> bool {
    match saved {
        Some(file) => line matches OutputLine::Link(text) && text@ == match file.file_name {
            Some(name) => name@,
            None => fallback,
        },
        None => if asked_for {
            line is Nothing
        } else {
            line matches OutputLine::Disabled(text) && text@ == disabled
        },
    }
}

fn output_line(
    saved: &Option<SavedFile>,
    asked_for: bool,
    fallback: &'static str,
    disabled: &'static str,
) -> (r: OutputLine)
    ensures
        is_output_line(r, *saved, asked_for, fallback@, disabled@),
{
    match saved {
        Some(file) => match &file.file_name {
            Some(name) => OutputLine::Link(name.clone()),
            None => OutputLine::Link(fallback.to_owned()),
        },
        None => if asked_for {
            OutputLine::Nothing
        } else {
            OutputLine::Disabled(disabled)
        },
    }
}

/// How many files are suspicious.
pub open spec fn suspicious_among(files: Seq<FileView>) -> nat
    decreases files.len(),
{
    if files.len() == 0 {
        0
    } else {
        suspicious_among(files.drop_last()) + if files.last().suspicious {
            1nat
        } else {
            0nat
        }
    }
}

/// How many files are suspicious.
pub fn suspicious_count(files: &Vec<FileRecord>) -> (r: usize)
    ensures
        r == suspicious_among(file_views(files@)),
        r <= files@.len(),
{
    let ghost views = file_views(files@);
    let mut count: usize = 0;
    assert(views.take(0) =~= Seq::empty());
    for i in 0..files.len()
        invariant
            views == file_views(files@),
            count == suspicious_among(views.take(i as int)),
            count <= i,
    {
        proof {
            let next = views.take(i + 1);
            assert(next.drop_last() =~= views.take(i as int));
            assert(next.last() == files@[i as int]@);
        }
        if files[i].suspicious {
            count = count + 1;
        }
    }
    assert(views.take(files@.len() as int) =~= views);
    count
}

/// The most characters that are shown of the path of a source.
pub const SOURCE_MOST: usize = 85;

// ------------------------------------------------------------
// Files
// ------------------------------------------------------------

/// A color, as red, green and blue.
pub type Color = [u8; 3];

/// The color behind the selected file.
pub const SELECTED: Color = [35, 70, 105];

/// The color of the mark of a suspicious file.
pub const WARNING: Color = [255, 175, 55];

/// The color of the mark of any other file.
pub const PLAIN: Color = [130, 130, 130];

/// The most characters that are shown of the name and of the path of a file.
pub const NAME_MOST: usize = 40;

pub const PATH_MOST: usize = 115;

/// The line of a file in the list.
#[derive(Debug)]
pub struct FileRow {
    pub background: Option<Color>,
    pub icon: &'static str,
    pub icon_color: Color,
    pub name: String,
    pub extension: String,
    pub size: String,
    pub path: String,
}

/// Whether `row` is the line of a file, selected or not.
pub open spec fn is_row(row: FileRow, file: FileView, selected: bool) -> bool {
    &&& row.background == if selected {
        Some(SELECTED)
    } else {
        None
    }
    &&& row.icon@ == if file.suspicious {
        "!"@
    } else {
        "•"@
    }
    &&& row.icon_color == if file.suspicious {
        WARNING
    } else {
        PLAIN
    }
    &&& row.name@ == middle_truncated(file.name, NAME_MOST as nat)
    &&& row.extension@ == file.extension
    &&& row.size@ == bytes_text(file.size)
    &&& row.path@ == middle_truncated(file.path, PATH_MOST as nat)
}

impl ScannerApp {
    /// The texts about a running scan at the time `now`.
    pub fn scanning_texts(&self, now: u64) -> (r: ScanningTexts)
        ensures
            r.files@ == number_text(self.scanned_files as nat) + " files"@,
            r.directories@ == number_text(self.scanned_directories as nat) + " directories"@,
            text_of(r.elapsed) == match self.scan_started {
                Some(start) => Some("Elapsed: "@ + duration_text(elapsed_seconds(start, now))),
                None => None,
            },
            r.current@ == middle_truncated(self.current_file@, CURRENT_MOST as nat),
    {
        let mut files = format_number(self.scanned_files);
        files.append(" files");
        let mut directories = format_number(self.scanned_directories);
        directories.append(" directories");
        let elapsed_text = match self.scan_started {
            Some(start) => {
                let passed: u64 = if start <= now {
                    now - start
                } else {
                    0
                };
                let duration = format_duration(passed / SECOND);
                let mut text = "Elapsed: ".to_owned();
                text.append(duration.as_str());
                Some(text)
            },
            None => None,
        };
        ScanningTexts {
            files,
            directories,
            elapsed: elapsed_text,
            current: truncate_middle(self.current_file.as_str(), CURRENT_MOST),
        }
    }

    /// The text about how many files are listed.
    pub fn matching_text(&self) -> (r: String)
        ensures
            r@ == number_text(matching(file_views(self.files@), self.query()).len())
                + " matching"@,
    {
        let count: usize = self.filtered_count();
        let mut text = format_number(count as u64);
        text.append(" matching");
        text
    }

    /// The lines of the summary.
    pub fn summary(&self) -> (r: Vec<SummaryLine>)
        ensures
            r@.len() == 5,
            reads(r@[0], "Files:"@, number_text(self.files@.len())),
            reads(r@[1], "Size:"@, bytes_text(self.total_bytes as nat)),
            reads(r@[2], "Extensions:"@, number_text(self.extensions@.len())),
            reads(
                r@[3],
                "Suspicious:"@,
                number_text(suspicious_among(file_views(self.files@))),
            ),
            reads(r@[4], "Errors:"@, number_text(self.errors@.len())),
    {
        let files: usize = self.files.len();
        let extensions: usize = self.extensions.len();
        let suspicious: usize = suspicious_count(&self.files);
        let errors: usize = self.errors.len();
        vec![
            SummaryLine { label: "Files:", value: format_number(files as u64) },
            SummaryLine { label: "Size:", value: format_bytes(self.total_bytes) },
            SummaryLine { label: "Extensions:", value: format_number(extensions as u64) },
            SummaryLine { label: "Suspicious:", value: format_number(suspicious as u64) },
            SummaryLine { label: "Errors:", value: format_number(errors as u64) },
        ]
    }

    /// What is shown of the chart that was written.
    pub fn chart_line(&self) -> (r: OutputLine)
        ensures
            is_output_line(
                r,
                self.png_path,
                self.generate_pie_chart,
                "pie.png"@,
                "Pie chart disabled"@,
            ),
    {
        output_line(&self.png_path, self.generate_pie_chart, "pie.png", "Pie chart disabled")
    }

    /// What is shown of the report that was written.
    pub fn report_line(&self) -> (r: OutputLine)
        ensures
            is_output_line(
                r,
                self.json_path,
                self.generate_report,
                "report.json"@,
                "Report disabled"@,
            ),
    {
        output_line(&self.json_path, self.generate_report, "report.json", "Report disabled")
    }

    /// The name of the source and what is shown of its path, where there is a source.
    pub fn source_lines(&self) -> (r: Option<(String, String)>)
        ensures
            match (r, self.source) {
                (Some((name, path)), Some(source)) => {
                    &&& name@ == source.name_text()
                    &&& path@ == middle_truncated(source.path().display@, SOURCE_MOST as nat)
                },
                (None, None) => true,
                _ => false,
            },
    {
        match &self.source {
            Some(source) => {
                let path = source.display_path();
                Some((source.name(), truncate_middle(path.as_str(), SOURCE_MOST)))
            },
            None => None,
        }
    }

    /// The line of the file at `index`, where there is one.
    pub fn file_row(&self, index: usize) -> (r: Option<FileRow>)
        ensures
            match r {
                Some(row) => {
                    &&& index < self.files@.len()
                    &&& is_row(
                        row,
                        self.files@[index as int]@,
                        self.selected_file == Some(index),
                    )
                },
                None => index >= self.files@.len(),
            },
    {
        if index >= self.files.len() {
            return None;
        }
        let file = &self.files[index];
        let selected = match self.selected_file {
            Some(chosen) => chosen == index,
            None => false,
        };
        Some(
            FileRow {
                background: if selected {
                    Some(SELECTED)
                } else {
                    None
                },
                icon: if file.suspicious {
                    "!"
                } else {
                    "•"
                },
                icon_color: if file.suspicious {
                    WARNING
                } else {
                    PLAIN
                },
                name: truncate_middle(file.name.as_str(), NAME_MOST),
                extension: file.extension.clone(),
                size: format_bytes(file.size),
                path: truncate_middle(file.path.as_str(), PATH_MOST),
            },
        )
    }
}

// ------------------------------------------------------------
// Errors
// ------------------------------------------------------------

/// The text that tells that the chart could not be written.
pub fn chart_failure(error: &str) -> (r: String)
    ensures
        r@ == "The scan completed, but the pie chart could not be generated.\n\n"@ + error@,
{
    let mut text = "The scan completed, but the pie chart could not be generated.\n\n".to_owned();
    text.append(error);
    text
}

/// The text that tells that the report could not be written.
pub fn report_failure(error: &str) -> (r: String)
    ensures
        r@ == "The scan completed, but the report could not be generated.\n\n"@ + error@,
{
    let mut text = "The scan completed, but the report could not be generated.\n\n".to_owned();
    text.append(error);
    text
}

} // verus!
