use extension_scanner::double::percentage;
use extension_scanner::format::{format_bytes, format_fixed, format_duration, format_number, truncate_middle};

fn shown(bytes: u64) -> String {
    let value = bytes as f64;
    if value >= 1099511627776.0 {
        format!("{:.2} TB", value / 1099511627776.0)
    } else if value >= 1073741824.0 {
        format!("{:.2} GB", value / 1073741824.0)
    } else if value >= 1048576.0 {
        format!("{:.2} MB", value / 1048576.0)
    } else if value >= 1024.0 {
        format!("{:.2} KB", value / 1024.0)
    } else {
        format!("{} B", bytes)
    }
}

#[test]
fn sizes_agree_with_double_precision() {
    for bytes in 0..20000u64 {
        assert_eq!(format_bytes(bytes), shown(bytes));
    }
    for shift in 0..64 {
        for offset in 0..3000u64 {
            let high = (1u64 << shift).wrapping_add(offset);
            let low = (1u64 << shift).wrapping_sub(offset);
            assert_eq!(format_bytes(high), shown(high));
            assert_eq!(format_bytes(low), shown(low));
        }
    }
    // Ties: an eighth of a unit above a whole number of units.
    for units in 1..1000u64 {
        for unit in [1024u64, 1048576, 1073741824, 1099511627776] {
            for eighth in 0..8u64 {
                let bytes = units * unit + unit / 8 * eighth;
                assert_eq!(format_bytes(bytes), shown(bytes));
            }
        }
    }
    let mut state = 1u64;
    for _ in 0..20000 {
        state = state.wrapping_mul(6364136223846793005).wrapping_add(1442695040888963407);
        assert_eq!(format_bytes(state), shown(state));
        assert_eq!(format_bytes(state >> 9), shown(state >> 9));
        assert_eq!(format_bytes(state >> 30), shown(state >> 30));
    }
    assert_eq!(format_bytes(u64::MAX), "16777216.00 TB");
}

fn check_percentage(part: u64, whole: u64) {
    let value = if whole == 0 { 0.0 } else { part as f64 / whole as f64 * 100.0 };
    assert_eq!(format_fixed(percentage(part, whole), 2), format!("{:.2}", value));
    assert_eq!(format_fixed(percentage(part, whole), 6), format!("{:.6}", value));
}

#[test]
fn percentages_agree_with_double_precision() {
    check_percentage(0, 0);
    for whole in 1..400u64 {
        for part in 0..whole + 1 {
            check_percentage(part, whole);
        }
    }
    // Halves of the last place that is shown.
    for part in 0..1601u64 {
        check_percentage(part, 1600);
        check_percentage(part * 7, 12800);
    }
    let mut state = 1u64;
    for _ in 0..50000 {
        state = state.wrapping_mul(6364136223846793005).wrapping_add(1442695040888963407);
        let a = state;
        state = state.wrapping_mul(6364136223846793005).wrapping_add(1442695040888963407);
        let b = state;
        check_percentage(a.min(b), a.max(b));
        let (x, y) = (a >> 20, b >> 17);
        check_percentage(x.min(y), x.max(y));
        let (x, y) = (a >> 60, b >> 3);
        check_percentage(x.min(y), x.max(y));
        let (x, y) = (a >> 44, b >> 40);
        check_percentage(x.min(y), x.max(y));
    }
    check_percentage(1, u64::MAX);
    check_percentage(u64::MAX, u64::MAX);
    check_percentage(u64::MAX - 1, u64::MAX);
}

#[test]
fn numbers_have_commas_between_thousands() {
    assert_eq!(format_number(0), "0");
    assert_eq!(format_number(12), "12");
    assert_eq!(format_number(999), "999");
    assert_eq!(format_number(1000), "1,000");
    assert_eq!(format_number(123456), "123,456");
    assert_eq!(format_number(1234567), "1,234,567");
    assert_eq!(format_number(u64::MAX), "18,446,744,073,709,551,615");
    for n in [7u64, 1001, 90210, 1_000_000] {
        assert_eq!(format_number(n).replace(',', "").parse::<u64>(), Ok(n));
    }
}

#[test]
fn sizes_change_unit_at_powers_of_1024() {
    assert_eq!(format_bytes(0), "0 B");
    assert_eq!(format_bytes(1023), "1023 B");
    assert_eq!(format_bytes(1024), "1.00 KB");
    assert_eq!(format_bytes(1536), "1.50 KB");
    assert_eq!(format_bytes(1048575), "1024.00 KB");
    assert_eq!(format_bytes(1048576), "1.00 MB");
    assert_eq!(format_bytes(1073741824), "1.00 GB");
    assert_eq!(format_bytes(1099511627776), "1.00 TB");
}

#[test]
fn durations() {
    assert_eq!(format_duration(0), "0s");
    assert_eq!(format_duration(59), "59s");
    assert_eq!(format_duration(60), "1m 00s");
    assert_eq!(format_duration(61), "1m 01s");
    assert_eq!(format_duration(3599), "59m 59s");
    assert_eq!(format_duration(3600), "1h 00m");
    assert_eq!(format_duration(3661), "1h 01m");
    assert_eq!(format_duration(360000 + 59 * 60), "100h 59m");
}

#[test]
fn long_texts_lose_their_middle() {
    assert_eq!(truncate_middle("abcdef", 6), "abcdef");
    assert_eq!(truncate_middle("abcdefg", 6), "a...g");
    assert_eq!(truncate_middle("abcdefghij", 7), "ab...ij");
    assert_eq!(truncate_middle("abcdefghij", 8), "ab...ij");
    assert_eq!(truncate_middle("abcdefghij", 9), "abc...hij");
    assert_eq!(truncate_middle("äöüßéèêë", 7), "äö...êë");
    assert_eq!(truncate_middle("abc", 0), "...");
    assert_eq!(truncate_middle("", 0), "");
}

#[test]
fn percentages_are_above_0_and_at_most_100() {
    for (part, whole) in [(1u64, 1u64), (1, u64::MAX), (u64::MAX, u64::MAX), (u64::MAX - 1, u64::MAX), (2, 3)] {
        let value = percentage(part, whole);
        assert!(value.numerator() > 0);
        assert!(value.numerator() as u128 / 100 <= value.denominator());
    }
    let whole = percentage(7, 7);
    assert_eq!(whole.numerator() as u128, 100 * whole.denominator());
}
