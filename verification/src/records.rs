//! What a scan looks at and what it finds.

use vstd::prelude::*;
use vstd::string::*;

use std::path::PathBuf;

use crate::double::Fraction;

verus! {

/// `std::path::PathBuf`: the place of a file, carried along and never looked into.
#[verifier::external_type_specification]
#[verifier::external_body]
pub struct ExPathBuf(PathBuf);

/// `PathBuf::clone`: the clone is the same path.
pub assume_specification[ <PathBuf as Clone>::clone ](path: &PathBuf) -> (r: PathBuf)
    ensures
        r == *path,
;

// ------------------------------------------------------------
// Scan source
// ------------------------------------------------------------

/// The place of a folder or an archive, with the parts of it that are shown: its last
/// component and its stem, where it has them and they are text, and the whole path.
#[derive(Debug)]
pub struct SourcePath {
    pub file_name: Option<String>,
    pub file_stem: Option<String>,
    pub display: String,
    pub location: PathBuf,
}

/// What is scanned.
#[derive(Debug)]
pub enum ScanSource {
    Folder(SourcePath),
    Zip(SourcePath),
}

impl Clone for SourcePath {
    fn clone(&self) -> (r: SourcePath)
        ensures
            r == *self,
    {
        let file_name: Option<String> = match &self.file_name {
            Some(name) => Some(name.clone()),
            None => None,
        };
        let file_stem: Option<String> = match &self.file_stem {
            Some(stem) => Some(stem.clone()),
            None => None,
        };
        SourcePath {
            file_name,
            file_stem,
            display: self.display.clone(),
            location: self.location.clone(),
        }
    }
}

impl Clone for ScanSource {
    fn clone(&self) -> (r: ScanSource)
        ensures
            r == *self,
    {
        match self {
            ScanSource::Folder(path) => ScanSource::Folder(path.clone()),
            ScanSource::Zip(path) => ScanSource::Zip(path.clone()),
        }
    }
}

impl ScanSource {
    /// The place of the source.
    pub open spec fn path(self) -> SourcePath {
        match self {
            ScanSource::Folder(path) => path,
            ScanSource::Zip(path) => path,
        }
    }

    /// The name of the source: that of the folder, or that of the archive without its
    /// extension.
    pub open spec fn name_text(self) -> Seq<char> {
        match self {
            ScanSource::Folder(path) => match path.file_name {
                Some(name) => name@,
                None => "folder"@,
            },
            ScanSource::Zip(path) => match path.file_stem {
                Some(stem) => stem@,
                None => "archive"@,
            },
        }
    }

    /// The name of the source.
    pub fn name(&self) -> (r: String)
        ensures
            r@ == self.name_text(),
    {
        match self {
            ScanSource::Folder(path) => match &path.file_name {
                Some(name) => name.clone(),
                None => "folder".to_owned(),
            },
            ScanSource::Zip(path) => match &path.file_stem {
                Some(stem) => stem.clone(),
                None => "archive".to_owned(),
            },
        }
    }

    /// The whole path of the source.
    pub fn display_path(&self) -> (r: String)
        ensures
            r@ == self.path().display@,
    {
        match self {
            ScanSource::Folder(path) => path.display.clone(),
            ScanSource::Zip(path) => path.display.clone(),
        }
    }
}

// ------------------------------------------------------------
// Files
// ------------------------------------------------------------

/// A file that was found.
#[derive(Debug)]
pub struct FileRecord {
    pub name: String,
    pub path: String,
    pub extension: String,
    pub size: u64,
    pub filesystem_path: Option<PathBuf>,
    pub suspicious: bool,
}

/// A file that was found, as mathematical values.
#[verifier::ext_equal]
pub struct FileView {
    pub name: Seq<char>,
    pub path: Seq<char>,
    pub extension: Seq<char>,
    pub size: nat,
    pub filesystem_path: Option<PathBuf>,
    pub suspicious: bool,
}

impl View for FileRecord {
    type V = FileView;

    open spec fn view(&self) -> FileView {
        FileView {
            name: self.name@,
            path: self.path@,
            extension: self.extension@,
            size: self.size as nat,
            filesystem_path: self.filesystem_path,
            suspicious: self.suspicious,
        }
    }
}

/// The files of a list, as mathematical values.
pub open spec fn file_views(files: Seq<FileRecord>) -> Seq<FileView> {
    files.map_values(|f: FileRecord| f@)
}

/// The texts of a list of strings.
pub open spec fn texts(s: Seq<String>) -> Seq<Seq<char>> {
    s.map_values(|t: String| t@)
}

// ------------------------------------------------------------
// Statistics
// ------------------------------------------------------------

/// How often an extension occurs, and how many bytes its files have.
#[derive(Debug)]
pub struct ExtensionStat {
    pub extension: String,
    pub count: u64,
    pub bytes: u64,
    pub percentage: Fraction,
}

/// How often an extension occurs, as mathematical values.
#[verifier::ext_equal]
pub struct StatView {
    pub extension: Seq<char>,
    pub count: nat,
    pub bytes: nat,
    pub percentage: (nat, nat),
}

impl View for ExtensionStat {
    type V = StatView;

    open spec fn view(&self) -> StatView {
        StatView {
            extension: self.extension@,
            count: self.count as nat,
            bytes: self.bytes as nat,
            percentage: self.percentage@,
        }
    }
}

/// The statistics of a list, as mathematical values.
pub open spec fn stat_views(stats: Seq<ExtensionStat>) -> Seq<StatView> {
    stats.map_values(|s: ExtensionStat| s@)
}

// ------------------------------------------------------------
// Results and messages
// ------------------------------------------------------------

/// All that a scan found.
pub struct ScanResult {
    pub source: ScanSource,
    pub files: Vec<FileRecord>,
    pub extensions: Vec<ExtensionStat>,
    pub total_bytes: u64,
    pub errors: Vec<String>,
}

/// What a running scan reports.
pub enum ScanMessage {
    Progress { files: u64, directories: u64, current: String },
    Finished(ScanResult),
    Failed(String),
}

/// The order in which files are listed.
#[derive(Clone, Copy, Debug, PartialEq, Eq, Structural)]
pub enum SortMode {
    Name,
    Extension,
    Largest,
    Smallest,
}

} // verus!
