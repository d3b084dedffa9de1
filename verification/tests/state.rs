use extension_scanner::double::percentage;
use extension_scanner::records::{ExtensionStat, FileRecord, ScanMessage, ScanResult, ScanSource};
use extension_scanner::records::{SortMode, SourcePath};
use extension_scanner::state::{ChartOrder, SavedFile, ScannerApp, Screen};
use extension_scanner::view::{chart_failure, report_failure, sort_label, suspicious_count, OutputLine};
use std::path::PathBuf;

fn source(name: &str) -> ScanSource {
    ScanSource::Folder(SourcePath {
        file_name: Some(name.to_string()),
        file_stem: Some(name.to_string()),
        display: format!("/some/where/{}", name),
        location: PathBuf::from("/some/where").join(name),
    })
}

fn file(name: &str, suspicious: bool) -> FileRecord {
    FileRecord {
        name: name.to_string(),
        path: format!("/some/where/{}", name),
        extension: ".txt".to_string(),
        size: 2048,
        filesystem_path: Some(PathBuf::from(format!("/some/where/{}", name))),
        suspicious,
    }
}

fn result(name: &str) -> ScanResult {
    ScanResult {
        source: source(name),
        files: vec![file("b.txt", false), file("a.txt", true)],
        extensions: vec![ExtensionStat {
            extension: ".txt".to_string(),
            count: 2,
            bytes: 4096,
            percentage: percentage(2, 2),
        }],
        total_bytes: 4096,
        errors: vec!["oops".to_string()],
    }
}

fn progress(files: u64, directories: u64, current: &str) -> ScanMessage {
    ScanMessage::Progress { files, directories, current: current.to_string() }
}

fn finished() -> ScannerApp {
    let mut app = ScannerApp::default();
    app.start_scan(source("things"), 7);
    app.receive_messages(vec![ScanMessage::Finished(result("things"))]);
    app
}

#[test]
fn the_program_starts_with_nothing() {
    let app = ScannerApp::default();
    assert_eq!(app.screen(), Screen::Start);
    assert!(app.sort_mode == SortMode::Name);
    assert!(app.generate_pie_chart);
    assert!(app.generate_report);
    assert!(!app.only_suspicious);
    assert!(!app.only_no_extension);
    assert!(!app.scanning);
    assert!(!app.about_open);
    assert!(!app.can_rescan());
    assert!(!app.can_clear());
    assert!(app.source_lines().is_none());
    assert!(app.file_row(0).is_none());
}

#[test]
fn a_scan_starts_from_a_blank_state() {
    let mut app = finished();
    app.search = "b".to_string();
    app.select(1);
    app.only_suspicious = true;
    app.sort_mode = SortMode::Largest;
    app.png_path = Some(SavedFile { file_name: None, location: PathBuf::from("x") });
    let started = app.start_scan(source("other"), 7);
    assert_eq!(started.unwrap().name(), "other");
    assert_eq!(app.screen(), Screen::Scanning);
    assert!(app.files.is_empty());
    assert!(app.extensions.is_empty());
    assert!(app.errors.is_empty());
    assert_eq!(app.search, "");
    assert_eq!(app.selected_file, None);
    assert_eq!(app.total_bytes, 0);
    assert!(app.png_path.is_none());
    assert!(app.only_suspicious);
    assert!(app.sort_mode == SortMode::Largest);
    assert_eq!(app.source_lines().unwrap().0, "other");
}

#[test]
fn only_one_scan_runs() {
    let mut app = ScannerApp::default();
    assert!(app.start_scan(source("one"), 7).is_some());
    assert!(app.start_scan(source("two"), 7).is_none());
    assert!(app.rescan(9).is_none());
    assert!(!app.can_rescan());
    assert_eq!(app.source.unwrap().name(), "one");
}

#[test]
fn a_source_can_be_scanned_again() {
    let mut app = finished();
    assert!(app.can_rescan());
    assert_eq!(app.scan_started, None);
    assert_eq!(app.rescan(9).unwrap().name(), "things");
    assert!(app.scanning);
    assert!(app.files.is_empty());
    assert!(ScannerApp::default().rescan(9).is_none());
}

#[test]
fn progress_is_shown() {
    let mut app = ScannerApp::default();
    app.start_scan(source("things"), 7);
    let received = app.receive_messages(vec![progress(500, 3, "/x"), progress(1000, 70000, "/y")]);
    assert!(received.orders.is_none());
    assert!(received.failed.is_none());
    assert!(app.scanning);
    let texts = app.scanning_texts(75_999_999_999 + 7);
    assert_eq!(texts.files, "1,000 files");
    assert_eq!(texts.directories, "70,000 directories");
    assert_eq!(texts.elapsed, Some("Elapsed: 1m 15s".to_string()));
    assert_eq!(texts.current, "/y");
    assert_eq!(app.scanning_texts(75_000_000_006).elapsed, Some("Elapsed: 1m 14s".to_string()));
    assert_eq!(app.scanning_texts(0).elapsed, Some("Elapsed: 0s".to_string()));
    assert_eq!(ScannerApp::default().scanning_texts(5).elapsed, None);
    app.receive_messages(vec![progress(1, 1, &"x".repeat(200))]);
    assert_eq!(app.scanning_texts(7).current, format!("{}...{}", "x".repeat(58), "x".repeat(58)));
}

#[test]
fn a_finished_scan_is_shown() {
    let mut app = ScannerApp::default();
    app.start_scan(source("things"), 7);
    let received = app.receive_messages(vec![
        progress(2, 1, "Finished"),
        ScanMessage::Finished(result("things")),
    ]);
    assert!(received.failed.is_none());
    let orders = received.orders.unwrap();
    match orders.chart {
        ChartOrder::Draw(chart) => {
            assert_eq!(chart.file_name, "pie_things.png");
            assert_eq!(chart.total, "Total files: 2");
        },
        _ => panic!("no chart"),
    }
    let report = orders.report.unwrap();
    assert_eq!(report.file_name, "extensions_things.json");
    assert!(report.text.contains("\"total_files\": 2,"));
    assert!(report.text.contains("\"total_bytes\": 4096,"));
    assert_eq!(app.screen(), Screen::Dashboard);
    assert_eq!(app.scanned_files, 2);
    assert_eq!(app.errors, vec!["oops"]);
    assert_eq!(app.filtered_indices(), vec![1, 0]);
    assert_eq!(app.filtered_count(), 2);
    assert_eq!(app.matching_text(), "2 matching");
}

#[test]
fn outputs_can_be_switched_off() {
    let mut app = ScannerApp::default();
    app.generate_pie_chart = false;
    app.generate_report = false;
    let orders = app.finish_scan(result("things"));
    assert!(matches!(orders.chart, ChartOrder::Disabled));
    assert!(orders.report.is_none());
    match app.chart_line() {
        OutputLine::Disabled(text) => assert_eq!(text, "Pie chart disabled"),
        _ => panic!("not disabled"),
    }
    match app.report_line() {
        OutputLine::Disabled(text) => assert_eq!(text, "Report disabled"),
        _ => panic!("not disabled"),
    }
}

#[test]
fn counts_that_do_not_fit_have_no_chart() {
    let mut app = ScannerApp::default();
    let mut huge = result("things");
    huge.extensions[0].count = u64::MAX;
    huge.extensions.push(ExtensionStat {
        extension: ".b".to_string(),
        count: 1,
        bytes: 0,
        percentage: percentage(1, 2),
    });
    assert!(matches!(app.finish_scan(huge).chart, ChartOrder::Overflow));
}

#[test]
fn a_failed_scan_shows_nothing() {
    let mut app = ScannerApp::default();
    app.start_scan(source("things"), 7);
    let received = app.receive_messages(vec![
        ScanMessage::Failed("first".to_string()),
        ScanMessage::Failed("no such file".to_string()),
    ]);
    assert!(received.orders.is_none());
    assert_eq!(received.failed, Some("no such file".to_string()));
    assert!(!app.scanning);
    assert_eq!(app.screen(), Screen::Start);
    assert!(app.can_rescan());
}

#[test]
fn the_summary_counts() {
    let app = finished();
    let lines: Vec<(&str, String)> =
        app.summary().into_iter().map(|line| (line.label, line.value)).collect();
    assert_eq!(
        lines,
        vec![
            ("Files:", "2".to_string()),
            ("Size:", "4.00 KB".to_string()),
            ("Extensions:", "1".to_string()),
            ("Suspicious:", "1".to_string()),
            ("Errors:", "1".to_string()),
        ]
    );
    assert_eq!(suspicious_count(&app.files), 1);
}

#[test]
fn written_files_are_linked() {
    let mut app = finished();
    assert!(matches!(app.chart_line(), OutputLine::Nothing));
    assert!(matches!(app.report_line(), OutputLine::Nothing));
    app.chart_saved(SavedFile {
        file_name: Some("pie_things.png".to_string()),
        location: PathBuf::from("/out/pie_things.png"),
    });
    app.report_saved(SavedFile { file_name: None, location: PathBuf::from("/") });
    match app.chart_line() {
        OutputLine::Link(text) => assert_eq!(text, "pie_things.png"),
        _ => panic!("no link"),
    }
    match app.report_line() {
        OutputLine::Link(text) => assert_eq!(text, "report.json"),
        _ => panic!("no link"),
    }
    app.png_path = Some(SavedFile { file_name: None, location: PathBuf::from("/") });
    match app.chart_line() {
        OutputLine::Link(text) => assert_eq!(text, "pie.png"),
        _ => panic!("no link"),
    }
}

#[test]
fn rows_show_files() {
    let mut app = finished();
    app.files[0].name = "n".repeat(50);
    app.files[0].path = "p".repeat(116);
    app.select(1);
    app.select(7);
    assert_eq!(app.selected_file, Some(1));
    let plain = app.file_row(0).unwrap();
    assert_eq!(plain.background, None);
    assert_eq!(plain.icon, "•");
    assert_eq!(plain.icon_color, [130, 130, 130]);
    assert_eq!(plain.name, format!("{}...{}", "n".repeat(18), "n".repeat(18)));
    assert_eq!(plain.path, format!("{}...{}", "p".repeat(56), "p".repeat(56)));
    assert_eq!(plain.size, "2.00 KB");
    assert_eq!(plain.extension, ".txt");
    let marked = app.file_row(1).unwrap();
    assert_eq!(marked.background, Some([35, 70, 105]));
    assert_eq!(marked.icon, "!");
    assert_eq!(marked.icon_color, [255, 175, 55]);
    assert_eq!(marked.name, "a.txt");
    assert!(app.file_row(2).is_none());
}

#[test]
fn files_are_located() {
    let mut app = finished();
    assert_eq!(app.locate_file(1), Some(PathBuf::from("/some/where/a.txt")));
    assert_eq!(app.locate_file(2), None);
    app.files[0].filesystem_path = None;
    assert_eq!(app.locate_file(0), None);
}

#[test]
fn the_search_can_be_cleared() {
    let mut app = finished();
    app.search = "A.TXT".to_string();
    assert!(app.can_clear());
    assert_eq!(app.filtered_indices(), vec![1]);
    app.clear_search();
    assert!(!app.can_clear());
    assert_eq!(app.filtered_count(), 2);
}

#[test]
fn the_source_is_shown() {
    let mut app = finished();
    assert_eq!(
        app.source_lines(),
        Some(("things".to_string(), "/some/where/things".to_string()))
    );
    app.source = Some(source(&"d".repeat(100)));
    let (_, path) = app.source_lines().unwrap();
    assert_eq!(path, format!("/some/where/{}...{}", "d".repeat(29), "d".repeat(41)));
}

#[test]
fn texts_for_sorting_and_failures() {
    assert_eq!(sort_label(SortMode::Name), "Name");
    assert_eq!(sort_label(SortMode::Extension), "Extension");
    assert_eq!(sort_label(SortMode::Largest), "Size ↓");
    assert_eq!(sort_label(SortMode::Smallest), "Size ↑");
    assert_eq!(
        chart_failure("no room"),
        "The scan completed, but the pie chart could not be generated.\n\nno room"
    );
    assert_eq!(
        report_failure("no room"),
        "The scan completed, but the report could not be generated.\n\nno room"
    );
}

#[test]
fn every_state_is_consistent() {
    let mut app = ScannerApp::default();
    for round in 0..3 {
        app.start_scan(source("things"), 7);
        assert!(app.files.is_empty() && app.total_bytes == 0 && app.png_path.is_none());
        app.receive_messages(vec![progress(round, 1, "x")]);
        app.start_scan(source("other"), 8);
        app.only_suspicious = !app.only_suspicious;
        assert!(app.receiving && app.scan_started == Some(7));
        assert!(app.scanning && app.extensions.is_empty() && app.errors.is_empty());
        app.receive_messages(vec![ScanMessage::Finished(result("things"))]);
        assert_eq!(app.total_bytes, app.files.iter().map(|f| f.size).sum::<u64>());
        app.chart_saved(SavedFile { file_name: None, location: PathBuf::from("x") });
    }
}
