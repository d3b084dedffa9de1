use extension_scanner::archive::{ZipEntry, ZipReader};
use extension_scanner::records::{ScanMessage, ScanResult, ScanSource, SourcePath};
use extension_scanner::scan::{FolderAction, FolderEvent, FoundFile, Scan, ZipStep};
use std::io::{Cursor, Write};
use std::path::PathBuf;
use zip::write::SimpleFileOptions;
use zip::{CompressionMethod, ZipArchive, ZipWriter};

fn source(path: &str) -> SourcePath {
    SourcePath {
        file_name: Some("things".to_string()),
        file_stem: Some("things".to_string()),
        display: path.to_string(),
        location: PathBuf::from(path),
    }
}

fn found(name: &str, extension: Option<&str>, size: u64) -> FolderEvent {
    FolderEvent::Found(FoundFile {
        name: Some(name.to_string()),
        extension: extension.map(|x| x.to_string()),
        display: format!("/top/{}", name),
        location: PathBuf::from(format!("/top/{}", name)),
        size,
    })
}

fn finish(scan: Scan) -> (ScanMessage, ScanResult) {
    scan.perform_scan(ScanSource::Folder(source("/top")))
}

#[test]
fn a_folder_is_walked_through() {
    let mut scan = Scan::new();
    assert!(matches!(scan.scan_directory(FolderEvent::Entered), FolderAction::ReadEntries));
    assert!(matches!(
        scan.scan_directory(FolderEvent::Typed { is_symlink: false, is_dir: true, is_file: false }),
        FolderAction::Descend
    ));
    assert!(matches!(
        scan.scan_directory(FolderEvent::Typed { is_symlink: false, is_dir: false, is_file: true }),
        FolderAction::ReadMetadata
    ));
    assert!(matches!(
        scan.scan_directory(FolderEvent::Typed { is_symlink: false, is_dir: false, is_file: false }),
        FolderAction::NextEntry
    ));
    assert!(matches!(scan.scan_directory(found("a.TXT", Some("TXT"), 10)), FolderAction::NextEntry));
    assert!(matches!(scan.scan_directory(found("b.txt", Some("txt"), 5)), FolderAction::NextEntry));
    assert!(matches!(scan.scan_directory(found(".hidden", None, 1)), FolderAction::NextEntry));
    assert!(matches!(scan.scan_directory(found("x.png.exe", Some("exe"), 7)), FolderAction::NextEntry));
    let (message, result) = finish(scan);
    match message {
        ScanMessage::Progress { files, directories, current } => {
            assert_eq!(files, 4);
            assert_eq!(directories, 1);
            assert_eq!(current, "Finished");
        },
        _ => panic!("no progress"),
    }
    assert_eq!(result.total_bytes, 23);
    assert!(result.errors.is_empty());
    assert_eq!(result.files.len(), 4);
    assert_eq!(result.files[0].name, "a.TXT");
    assert_eq!(result.files[0].path, "/top/a.TXT");
    assert_eq!(result.files[0].extension, ".txt");
    assert_eq!(result.files[0].filesystem_path, Some(PathBuf::from("/top/a.TXT")));
    assert!(!result.files[0].suspicious);
    assert_eq!(result.files[2].extension, "File / No Extension");
    assert!(result.files[3].suspicious);
    let lines: Vec<(&str, u64, u64)> =
        result.extensions.iter().map(|s| (s.extension.as_str(), s.count, s.bytes)).collect();
    assert_eq!(lines, vec![(".txt", 2, 15), (".exe", 1, 7), ("File / No Extension", 1, 1)]);
    assert_eq!(result.extensions.iter().map(|s| s.count).sum::<u64>(), 4);
    assert_eq!(result.extensions.iter().map(|s| s.bytes).sum::<u64>(), result.total_bytes);
}

#[test]
fn links_are_passed_over() {
    let mut scan = Scan::new();
    for (is_dir, is_file) in [(true, false), (false, true), (false, false)] {
        assert!(matches!(
            scan.scan_directory(FolderEvent::Typed { is_symlink: true, is_dir, is_file }),
            FolderAction::NextEntry
        ));
    }
}

#[test]
fn failures_are_listed() {
    let mut scan = Scan::new();
    let text = |s: &str| s.to_string();
    assert!(matches!(
        scan.scan_directory(FolderEvent::Unreadable { path: text("/a"), error: text("denied") }),
        FolderAction::Leave
    ));
    assert!(matches!(
        scan.scan_directory(FolderEvent::EntryFailed { error: text("broken") }),
        FolderAction::NextEntry
    ));
    assert!(matches!(
        scan.scan_directory(FolderEvent::TypeFailed { path: text("/b"), error: text("odd") }),
        FolderAction::NextEntry
    ));
    assert!(matches!(
        scan.scan_directory(FolderEvent::MetadataFailed { path: text("/c"), error: text("gone") }),
        FolderAction::NextEntry
    ));
    let (_, result) = finish(scan);
    assert_eq!(result.errors, vec!["/a: denied", "broken", "/b: odd", "/c: gone"]);
    assert!(result.files.is_empty());
    assert!(result.extensions.is_empty());
}

#[test]
fn progress_is_reported_every_500_files() {
    let mut scan = Scan::new();
    scan.scan_directory(FolderEvent::Entered);
    let mut reports: Vec<(u64, u64, String)> = Vec::new();
    for i in 1..=1200u64 {
        let event = found(&format!("f{}.bin", i), Some("bin"), 1);
        assert!(scan.accepts(&event));
        match scan.scan_directory(event) {
            FolderAction::Report(ScanMessage::Progress { files, directories, current }) => {
                reports.push((files, directories, current));
            },
            FolderAction::NextEntry => {},
            _ => panic!("unexpected action"),
        }
    }
    assert_eq!(
        reports,
        vec![(500, 1, "/top/f500.bin".to_string()), (1000, 1, "/top/f1000.bin".to_string())]
    );
}

#[test]
fn a_total_that_does_not_fit_is_not_accepted() {
    let mut scan = Scan::new();
    scan.scan_directory(found("a", None, u64::MAX - 1));
    assert!(scan.accepts(&found("b", None, 1)));
    assert!(!scan.accepts(&found("b", None, 2)));
    assert!(scan.fits(1));
    assert!(!scan.fits(2));
    assert!(scan.accepts(&FolderEvent::Entered));
}

#[test]
fn a_file_without_a_text_name_has_an_empty_name() {
    let mut scan = Scan::new();
    scan.scan_directory(FolderEvent::Found(FoundFile {
        name: None,
        extension: None,
        display: "/top/?".to_string(),
        location: PathBuf::from("/top/x"),
        size: 0,
    }));
    let (_, result) = finish(scan);
    assert_eq!(result.files[0].name, "");
    assert_eq!(result.files[0].path, "/top/?");
    assert!(!result.files[0].suspicious);
}

#[test]
fn statistics_do_not_depend_on_the_order() {
    let names = [("a.txt", "txt", 1), ("b.png", "png", 2), ("c.txt", "txt", 3), ("d.gif", "gif", 4)];
    let collect = |order: &[usize]| {
        let mut scan = Scan::new();
        for i in order {
            let (name, extension, size) = names[*i];
            scan.scan_directory(found(name, Some(extension), size));
        }
        let (_, result) = finish(scan);
        result
            .extensions
            .iter()
            .map(|s| (s.extension.clone(), s.count, s.bytes))
            .collect::<Vec<_>>()
    };
    assert_eq!(collect(&[0, 1, 2, 3]), collect(&[3, 2, 1, 0]));
    assert_eq!(
        collect(&[2, 0, 3, 1]),
        vec![(".txt".to_string(), 2, 4), (".gif".to_string(), 1, 4), (".png".to_string(), 1, 2)]
    );
}

fn archive(entries: &[(&str, usize)]) -> Vec<u8> {
    let mut writer = ZipWriter::new(Cursor::new(Vec::new()));
    let options = SimpleFileOptions::default().compression_method(CompressionMethod::Stored);
    for (name, size) in entries {
        if name.ends_with('/') {
            writer.add_directory(*name, options).unwrap();
        } else {
            writer.start_file(*name, options).unwrap();
            writer.write_all(&vec![7u8; *size]).unwrap();
        }
    }
    writer.finish().unwrap().into_inner()
}

fn scan_all(bytes: Vec<u8>) -> (ScanResult, Vec<(u64, u64, String)>) {
    let mut reader = ZipReader::open(bytes).unwrap();
    let mut scan = Scan::new();
    let mut reports: Vec<(u64, u64, String)> = Vec::new();
    loop {
        match scan.scan_zip_archive("/z/things.zip", &mut reader) {
            ZipStep::Report(ScanMessage::Progress { files, directories, current }) => {
                reports.push((files, directories, current));
            },
            ZipStep::Done => {
                break;
            },
            _ => panic!("unexpected step"),
        }
    }
    let (_, result) = scan.perform_scan(ScanSource::Zip(source("/z/things.zip")));
    (result, reports)
}

#[test]
fn an_archive_is_read() {
    let bytes = archive(&[("dir/", 0), ("dir/a.TXT", 3), ("malware.png.exe", 5), ("dir/README", 2)]);
    let (result, reports) = scan_all(bytes);
    assert!(reports.is_empty());
    assert!(result.errors.is_empty());
    assert_eq!(result.total_bytes, 10);
    let rows: Vec<(&str, &str, &str, u64, bool)> = result
        .files
        .iter()
        .map(|f| (f.name.as_str(), f.path.as_str(), f.extension.as_str(), f.size, f.suspicious))
        .collect();
    assert_eq!(
        rows,
        vec![
            ("a.TXT", "/z/things.zip :: dir/a.TXT", ".txt", 3, false),
            ("malware.png.exe", "/z/things.zip :: malware.png.exe", ".exe", 5, true),
            ("README", "/z/things.zip :: dir/README", "File / No Extension", 2, false),
        ]
    );
    assert!(result.files.iter().all(|f| f.filesystem_path.is_none()));
}

#[test]
fn archive_progress_counts_no_directories() {
    let names: Vec<String> = (0..1001).map(|i| format!("f{}.bin", i)).collect();
    let entries: Vec<(&str, usize)> = names.iter().map(|n| (n.as_str(), 0)).collect();
    let (result, reports) = scan_all(archive(&entries));
    assert_eq!(result.files.len(), 1001);
    assert_eq!(
        reports,
        vec![
            (500, 0, "/z/things.zip :: f499.bin".to_string()),
            (1000, 0, "/z/things.zip :: f999.bin".to_string()),
        ]
    );
}

#[test]
fn an_entry_that_cannot_be_read_is_listed_as_an_error() {
    let mut bytes = archive(&[("a.txt", 1), ("b.txt", 1), ("c.txt", 1)]);
    // Mark the second entry as encrypted, in its local and its central header.
    let mut locals = 0;
    let mut centrals = 0;
    for at in 0..bytes.len() - 4 {
        if bytes[at..at + 4] == [0x50, 0x4b, 3, 4] {
            locals += 1;
            if locals == 2 {
                bytes[at + 6] |= 1;
            }
        }
        if bytes[at..at + 4] == [0x50, 0x4b, 1, 2] {
            centrals += 1;
            if centrals == 2 {
                bytes[at + 8] |= 1;
            }
        }
    }
    let text = match ZipArchive::new(Cursor::new(bytes.clone())).unwrap().by_index(1) {
        Ok(_) => panic!("readable"),
        Err(error) => error.to_string(),
    };
    let (result, _) = scan_all(bytes);
    assert_eq!(result.errors, vec![format!("ZIP entry 1: {}", text)]);
    assert_eq!(result.files.len(), 2);
    assert_eq!(result.files[1].name, "c.txt");
}

#[test]
fn bytes_that_are_no_archive_are_refused() {
    let text = match ZipArchive::new(Cursor::new(vec![1u8, 2, 3])) {
        Ok(_) => panic!("readable"),
        Err(error) => error.to_string(),
    };
    match ZipReader::open(vec![1, 2, 3]) {
        Ok(_) => panic!("opened"),
        Err(error) => assert_eq!(error, text),
    }
}

#[test]
fn an_archive_that_does_not_fit_the_total_stops() {
    let mut scan = Scan::new();
    scan.scan_directory(found("big", None, u64::MAX - 1));
    let mut reader = ZipReader::open(archive(&[("a", 1), ("b", 1)])).unwrap();
    assert!(matches!(scan.scan_zip_archive("z", &mut reader), ZipStep::Overflow));
    assert_eq!(reader.position(), 1);
    assert!(!reader.at_end());
}

#[test]
fn sources_have_names() {
    let plain = source("/z/things.zip");
    assert_eq!(ScanSource::Folder(plain.clone()).name(), "things");
    assert_eq!(ScanSource::Zip(plain.clone()).display_path(), "/z/things.zip");
    let unnamed = SourcePath { file_name: None, file_stem: None, ..plain.clone() };
    assert_eq!(ScanSource::Folder(unnamed.clone()).name(), "folder");
    assert_eq!(ScanSource::Zip(unnamed).name(), "archive");
    assert_eq!(plain.clone().location, PathBuf::from("/z/things.zip"));
}

#[test]
fn links_change_nothing() {
    let link = |is_dir: bool| FolderEvent::Typed { is_symlink: true, is_dir, is_file: !is_dir };
    let collect = |with_links: bool| {
        let mut scan = Scan::new();
        scan.scan_directory(FolderEvent::Entered);
        let mut reports = 0;
        for i in 0..1000 {
            if with_links && i % 3 == 0 {
                scan.scan_directory(link(i % 2 == 0));
            }
            if let FolderAction::Report(_) = scan.scan_directory(found(&format!("{}.x", i), Some("x"), 2)) {
                reports += 1;
            }
        }
        scan.scan_directory(FolderEvent::EntryFailed { error: "bad".to_string() });
        let (_, result) = finish(scan);
        let names: Vec<String> = result.files.iter().map(|f| f.name.clone()).collect();
        (names, result.errors, result.total_bytes, reports)
    };
    assert_eq!(collect(true), collect(false));
    assert_eq!(collect(true).3, 2);
}

#[test]
fn the_extension_of_a_file_is_that_of_its_name() {
    let mut scan = Scan::new();
    scan.scan_directory(found("a.TXT", None, 1));
    scan.scan_directory(found("b", Some("png"), 1));
    scan.scan_directory(FolderEvent::Found(FoundFile {
        name: None,
        extension: Some("GIF".to_string()),
        display: "/top/?.GIF".to_string(),
        location: PathBuf::from("/top/x"),
        size: 1,
    }));
    let (_, result) = finish(scan);
    assert_eq!(result.files[0].extension, ".txt");
    assert_eq!(result.files[1].extension, "File / No Extension");
    assert_eq!(result.files[2].extension, ".gif");
}

#[test]
fn entries_are_taken_in_one_by_one() {
    let mut scan = Scan::new();
    let entry = |name: &str, is_dir: bool, size: u64| {
        Ok::<ZipEntry, String>(ZipEntry { is_dir, name: name.to_string(), size })
    };
    assert!(scan.take_entry("z.zip", 0, &entry("d/", true, u64::MAX), &None, true).is_none());
    assert!(scan.take_entry("z.zip", 1, &Err("bad".to_string()), &None, false).is_none());
    let component = Some("a.B".to_string());
    assert!(scan.take_entry("z.zip", 2, &entry("d/a.B", false, 7), &component, true).is_none());
    assert!(scan.take_entry("z.zip", 3, &entry("..", false, 1), &None, false).is_none());
    for i in 0..498 {
        let report = scan.take_entry("z.zip", 4 + i, &entry("e", false, 0), &None, false);
        match report {
            Some(ScanMessage::Progress { files, directories, current }) => {
                assert_eq!((i, files, directories), (497, 500, 0));
                assert_eq!(current, "z.zip :: e");
            },
            _ => assert!(i < 497),
        }
    }
    let (_, result) = scan.perform_scan(ScanSource::Zip(source("z.zip")));
    assert_eq!(result.errors, vec!["ZIP entry 1: bad"]);
    assert_eq!(result.files.len(), 500);
    assert_eq!(result.files[0].name, "a.B");
    assert_eq!(result.files[0].extension, ".b");
    assert_eq!(result.files[0].path, "z.zip :: d/a.B");
    assert!(result.files[0].suspicious);
    assert_eq!(result.files[1].name, "..");
    assert_eq!(result.files[1].extension, "File / No Extension");
}
