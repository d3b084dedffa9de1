use extension_scanner::double::percentage;
use extension_scanner::records::{ExtensionStat, ScanSource, SourcePath};
use extension_scanner::report::create_json;
use std::path::PathBuf;

fn stat(extension: &str, count: u64, bytes: u64, total: u64) -> ExtensionStat {
    ExtensionStat {
        extension: extension.to_string(),
        count,
        bytes,
        percentage: percentage(count, total),
    }
}

fn archive(stem: Option<&str>) -> ScanSource {
    ScanSource::Zip(SourcePath {
        file_name: Some("data.zip".to_string()),
        file_stem: stem.map(|s| s.to_string()),
        display: "C:\\in\\\"data\".zip".to_string(),
        location: PathBuf::from("data.zip"),
    })
}

#[test]
fn a_report_lists_the_extensions() {
    let stats = vec![stat(".txt", 2, 2048, 3), stat("File / No Extension", 1, 7, 3)];
    let report = create_json(&archive(Some("data")), &stats, 2055, 3);
    assert_eq!(report.file_name, "extensions_data.json");
    let expected = "{\n  \"application\": \"Extension Scanner\",\n  \"source\": \"C:\\\\in\\\\\\\"data\\\".zip\",\n  \"total_files\": 3,\n  \"total_bytes\": 2055,\n  \"extensions\": [\n    {\n      \"extension\": \".txt\",\n      \"count\": 2,\n      \"bytes\": 2048,\n      \"percentage\": 66.666667\n    },\n    {\n      \"extension\": \"File / No Extension\",\n      \"count\": 1,\n      \"bytes\": 7,\n      \"percentage\": 33.333333\n    }\n  ]\n}\n";
    assert_eq!(report.text, expected);
}

#[test]
fn a_report_may_be_empty() {
    let report = create_json(&archive(None), &Vec::new(), 0, 0);
    assert_eq!(report.file_name, "extensions_archive.json");
    assert!(report.text.ends_with("  \"extensions\": [\n  ]\n}\n"));
}

#[test]
fn different_extensions_give_different_reports() {
    let one = create_json(&archive(None), &vec![stat("a\",\n", 1, 0, 1)], 0, 1);
    let two = create_json(&archive(None), &vec![stat("a", 1, 0, 1)], 0, 1);
    let three = create_json(&archive(None), &vec![stat("a", 1, 1, 1)], 0, 1);
    assert_ne!(one.text, two.text);
    assert_ne!(two.text, three.text);
    assert_eq!(one.text.lines().count(), two.text.lines().count());
}

#[test]
fn names_of_reports_hold_no_forbidden_character() {
    let report = create_json(&archive(Some("a<b>:\"/\\|?*")), &Vec::new(), 0, 0);
    assert_eq!(report.file_name, format!("extensions_a_b{}.json", "_".repeat(8)));
}
