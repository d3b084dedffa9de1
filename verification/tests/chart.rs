use extension_scanner::chart::{create_png, in_app_pie, legend, pie_slices, rest_fits, total_count};
use extension_scanner::chart::PieSlice;
use extension_scanner::double::percentage;
use extension_scanner::format::format_number;
use extension_scanner::records::{ExtensionStat, ScanSource, SourcePath};
use std::path::PathBuf;

fn stat(extension: &str, count: u64) -> ExtensionStat {
    ExtensionStat {
        extension: extension.to_string(),
        count,
        bytes: 0,
        percentage: percentage(0, 1),
    }
}

fn stats(counts: &[u64]) -> Vec<ExtensionStat> {
    counts.iter().enumerate().map(|(i, c)| stat(&format!(".e{}", i), *c)).collect()
}

fn source(name: &str) -> ScanSource {
    ScanSource::Folder(SourcePath {
        file_name: Some(name.to_string()),
        file_stem: Some(name.to_string()),
        display: format!("/x/{}", name),
        location: PathBuf::from("/x"),
    })
}

#[test]
fn few_extensions_have_a_slice_each() {
    let slices = pie_slices(&stats(&[5, 3, 1]));
    assert_eq!(slices.len(), 3);
    assert_eq!(slices[0].label, ".e0");
    assert_eq!(slices[0].count, 5);
    assert_eq!(slices[0].color, [46, 204, 113]);
    assert_eq!(slices[2].color, [231, 76, 60]);
    assert!(pie_slices(&stats(&[])).is_empty());
}

#[test]
fn the_rest_goes_into_one_slice() {
    let counts: Vec<u64> = (0..20).map(|i| 100 - i).collect();
    let slices = pie_slices(&stats(&counts));
    assert_eq!(slices.len(), 15);
    assert_eq!(slices[13].label, ".e13");
    assert_eq!(slices[13].color, [211, 84, 0]);
    assert_eq!(slices[14].label, "Other");
    assert_eq!(slices[14].count, 86 + 85 + 84 + 83 + 82 + 81);
    assert_eq!(slices[14].color, [110, 110, 120]);
    assert_eq!(slices.iter().map(|s| s.count).sum::<u64>(), counts.iter().sum::<u64>());
    assert_eq!(pie_slices(&stats(&[1; 14])).len(), 14);
    let mut empty_rest = vec![1u64; 14];
    empty_rest.push(0);
    assert_eq!(pie_slices(&stats(&empty_rest)).len(), 14);
}

#[test]
fn totals() {
    assert_eq!(total_count(&stats(&[])), Some(0));
    assert_eq!(total_count(&stats(&[1, 2, 3])), Some(6));
    assert_eq!(total_count(&stats(&[u64::MAX, 0])), Some(u64::MAX));
    assert_eq!(total_count(&stats(&[u64::MAX, 1])), None);
}

#[test]
fn only_the_rest_has_to_fit_for_the_pie() {
    assert!(rest_fits(&stats(&[u64::MAX; 14])));
    assert!(rest_fits(&stats(&[u64::MAX; 15])));
    assert!(!rest_fits(&stats(&[u64::MAX; 16])));
    assert_eq!(pie_slices(&stats(&[u64::MAX; 15]))[14].count, u64::MAX);
}

#[test]
fn the_chart_in_a_file() {
    let chart = create_png(&source("My: Docs"), &stats(&[1500, 500])).unwrap();
    assert_eq!(chart.file_name, "pie_My_ Docs.png");
    assert_eq!(chart.title, "File Extension Distribution - My_ Docs");
    assert_eq!(chart.total, "Total files: 2,000");
    assert_eq!(chart.slices.len(), 2);
    let lines: Vec<(i32, &str)> = chart.legend.iter().map(|l| (l.y, l.text.as_str())).collect();
    assert_eq!(lines, vec![(125, ".e0   75.00%"), (160, ".e1   25.00%")]);
    assert_eq!(chart.legend[1].color, [52, 152, 219]);
    assert!(create_png(&source("x"), &stats(&[u64::MAX, 1])).is_none());
    let empty = create_png(&source("x"), &stats(&[0])).unwrap();
    assert_eq!(empty.legend[0].text, ".e0   0.00%");
}

#[test]
fn a_long_legend_is_cut_off() {
    let slices: Vec<PieSlice> =
        (0..30).map(|i| PieSlice { label: format!("{}", i), count: 1, color: [0, 0, 0] }).collect();
    let lines = legend(&slices, 30);
    assert_eq!(lines.len(), 20);
    assert_eq!(lines[19].y, 790);
}

fn check_window(counts: &[u64]) {
    let all = stats(counts);
    let slices = pie_slices(&all);
    let total = slices.iter().map(|s| s.count as f64).sum::<f64>();
    let window = in_app_pie(&all);
    if total <= 0.0 {
        assert!(window.is_empty());
        return;
    }
    assert_eq!(window.len(), slices.len());
    for (slice, shown) in slices.iter().zip(window.iter()) {
        let count = slice.count as f64;
        let fraction = (count / total) as f32;
        assert_eq!(shown.color, slice.color);
        let share = shown.share.numerator() as f64 / shown.share.denominator() as f64;
        assert_eq!(share, fraction as f64);
        if fraction >= 0.04 {
            assert_eq!(shown.label, Some(format!("{:.1}%", fraction * 100.0)));
        } else {
            assert_eq!(shown.label, None);
        }
        assert_eq!(
            shown.legend,
            format!("{}  {:.2}%  ({})", slice.label, fraction * 100.0, format_number(count as u64))
        );
    }
}

#[test]
fn the_chart_in_the_window_agrees_with_floating_point() {
    check_window(&[]);
    check_window(&[0, 0]);
    check_window(&[1]);
    check_window(&[1, 1, 1]);
    check_window(&[96, 4]);
    check_window(&[961, 39]);
    check_window(&[u64::MAX]);
    check_window(&[u64::MAX - 1, 1]);
    check_window(&[u64::MAX; 14]);
    check_window(&[u64::MAX, u64::MAX, 5]);
    check_window(&[1 << 53, (1 << 53) + 1, 3]);
    let mut state = 5u64;
    for round in 0..400 {
        let mut counts: Vec<u64> = Vec::new();
        for _ in 0..(round % 20) + 1 {
            state = state.wrapping_mul(6364136223846793005).wrapping_add(1442695040888963407);
            counts.push(state >> (6 + (state >> 33) % 50));
        }
        check_window(&counts);
    }
}
