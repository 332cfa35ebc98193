use datara::present::{format_date, format_size, meta_line, render_date, DateParts};
use datara::text::{parse_u64, str_eq, u64_to_string};

#[test]
fn sizes_scale_by_powers_of_1024() {
    assert_eq!(format_size(2048), "2 KB");
    assert_eq!(format_size(500), "500 B");
}

#[test]
fn size_boundaries() {
    assert_eq!(format_size(0), "0 B");
    assert_eq!(format_size(1023), "1023 B");
    assert_eq!(format_size(1024), "1 KB");
    assert_eq!(format_size(1048575), "1023 KB");
    assert_eq!(format_size(1048576), "1 MB");
    assert_eq!(format_size(1073741824), "1 GB");
    assert_eq!(format_size(u64::MAX), "17179869183 GB");
}

#[test]
fn dates_render_zero_padded() {
    let p = DateParts { year: 2024, month: 1, day: 5, hour: 9, minute: 30 };
    assert_eq!(render_date(&p), "Jan 05, 2024 09:30");
    let p = DateParts { year: 1999, month: 12, day: 31, hour: 23, minute: 59 };
    assert_eq!(render_date(&p), "Dec 31, 1999 23:59");
    let p = DateParts { year: 5, month: 6, day: 1, hour: 0, minute: 0 };
    assert_eq!(render_date(&p), "Jun 01, 0005 00:00");
}

#[test]
fn timestamps_agree_with_the_clock_library() {
    for &secs in &[0i64, 1700000000, 1234567890, -1000000] {
        let expected = chrono::DateTime::from_timestamp(secs, 0)
            .unwrap()
            .with_timezone(&chrono::Local)
            .format("%b %d, %Y %H:%M")
            .to_string();
        assert_eq!(format_date(secs), expected);
    }
}

#[test]
fn out_of_range_timestamp_renders_empty() {
    assert_eq!(format_date(i64::MAX), "");
}

#[test]
fn meta_lines_join_date_and_size() {
    assert_eq!(meta_line(true, "Jan 05, 2024 09:30", "2 KB"), "Jan 05, 2024 09:30");
    assert_eq!(meta_line(false, "Jan 05, 2024 09:30", "2 KB"), "Jan 05, 2024 09:30  \u{b7}  2 KB");
    assert_eq!(meta_line(false, "", "2 KB"), "2 KB");
    assert_eq!(meta_line(false, "Jan 05, 2024 09:30", ""), "Jan 05, 2024 09:30");
    assert_eq!(meta_line(false, "", ""), "");
}

#[test]
fn decimal_text_round_trips() {
    assert_eq!(u64_to_string(0), "0");
    assert_eq!(u64_to_string(907), "907");
    assert_eq!(u64_to_string(u64::MAX), "18446744073709551615");
    assert_eq!(parse_u64("907"), Some(907));
    assert_eq!(parse_u64("18446744073709551615"), Some(u64::MAX));
    assert_eq!(parse_u64("18446744073709551616"), None);
    assert_eq!(parse_u64(""), None);
    assert_eq!(parse_u64("12a"), None);
}

#[test]
fn string_equality_by_characters() {
    assert!(str_eq("abc", "abc"));
    assert!(!str_eq("abc", "abd"));
    assert!(!str_eq("abc", "ab"));
    assert!(str_eq("", ""));
}
