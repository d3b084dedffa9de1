use extension_scanner::filter::{filtered_count, filtered_indices, Query};
use extension_scanner::records::{FileRecord, SortMode};

fn file(name: &str, extension: &str, size: u64, suspicious: bool) -> FileRecord {
    FileRecord {
        name: name.to_string(),
        path: format!("/Top/{}", name),
        extension: extension.to_string(),
        size,
        filesystem_path: None,
        suspicious,
    }
}

fn files() -> Vec<FileRecord> {
    vec![
        file("beta.txt", ".txt", 30, false),
        file("Alpha.png.exe", ".exe", 10, true),
        file("gamma", "File / No Extension", 20, false),
        file("alpha.TXT", ".txt", 30, false),
        file("Äpfel.txt", ".txt", 5, false),
    ]
}

fn query(search: &str) -> Query {
    Query { search: search.to_string(), only_suspicious: false, only_no_extension: false }
}

#[test]
fn an_empty_search_lists_every_file() {
    for search in ["", "   ", "\t\n"] {
        assert_eq!(filtered_count(&files(), &query(search)), 5);
        assert_eq!(filtered_indices(&files(), &query(search), SortMode::Smallest).len(), 5);
    }
}

#[test]
fn listings_are_sorted() {
    let all = query("");
    assert_eq!(filtered_indices(&files(), &all, SortMode::Name), vec![1, 3, 0, 2, 4]);
    assert_eq!(filtered_indices(&files(), &all, SortMode::Extension), vec![1, 0, 3, 4, 2]);
    assert_eq!(filtered_indices(&files(), &all, SortMode::Largest), vec![0, 3, 2, 1, 4]);
    assert_eq!(filtered_indices(&files(), &all, SortMode::Smallest), vec![4, 1, 2, 0, 3]);
}

#[test]
fn sorting_keeps_the_files() {
    let wanted = query("a");
    let mut expected = filtered_indices(&files(), &wanted, SortMode::Name);
    expected.sort();
    for mode in [SortMode::Extension, SortMode::Largest, SortMode::Smallest] {
        let mut other = filtered_indices(&files(), &wanted, mode);
        other.sort();
        assert_eq!(other, expected);
    }
}

#[test]
fn a_search_looks_at_name_path_and_extension_in_any_case() {
    assert_eq!(filtered_indices(&files(), &query(" ALPHA "), SortMode::Name), vec![1, 3]);
    assert_eq!(filtered_indices(&files(), &query("ÄPF"), SortMode::Name), vec![4]);
    assert_eq!(filtered_count(&files(), &query("/top/")), 5);
    assert_eq!(filtered_indices(&files(), &query("no ext"), SortMode::Name), vec![2]);
    assert_eq!(filtered_count(&files(), &query("nowhere")), 0);
    assert!(filtered_indices(&files(), &query("nowhere"), SortMode::Name).is_empty());
}

#[test]
fn filters_narrow_the_listing() {
    let suspicious = Query { only_suspicious: true, ..query("") };
    assert_eq!(filtered_indices(&files(), &suspicious, SortMode::Name), vec![1]);
    let plain = Query { only_no_extension: true, ..query("") };
    assert_eq!(filtered_indices(&files(), &plain, SortMode::Name), vec![2]);
    let both = Query { only_suspicious: true, only_no_extension: true, ..query("") };
    assert_eq!(filtered_count(&files(), &both), 0);
    let searched = Query { only_suspicious: true, ..query("beta") };
    assert_eq!(filtered_count(&files(), &searched), 0);
}
