use rucycle::format::{
    format_bytes, format_system_time, format_time_at_offset, is_formattable, split_nanos,
    truncate_middle,
};

#[test]
fn formats_bytes() {
    assert_eq!(format_bytes(0), "0 B");
    assert_eq!(format_bytes(1023), "1023 B");
    assert_eq!(format_bytes(1024), "1.00 KiB");
    assert_eq!(format_bytes(5 * 1024 * 1024), "5.00 MiB");
}

#[test]
fn truncates_middle() {
    assert_eq!(truncate_middle("abcdef", 4), "...f");
    assert_eq!(truncate_middle("abc", 4), "abc");
}

#[test]
fn formats_bytes_with_one_and_no_decimals() {
    assert_eq!(format_bytes(10 * 1024), "10.0 KiB");
    assert_eq!(format_bytes(100 * 1024), "100 KiB");
    assert_eq!(format_bytes(1536), "1.50 KiB");
    assert_eq!(format_bytes(3 * 1024 * 1024 * 1024), "3.00 GiB");
    assert_eq!(format_bytes(2 * 1024 * 1024 * 1024 * 1024), "2.00 TiB");
}

#[test]
fn formats_bytes_rounding_half_to_even() {
    // 1152 bytes are exactly 1.125 KiB: the tie goes to the even digit.
    assert_eq!(format_bytes(1152), "1.12 KiB");
    // 1.135 KiB is not a tie in binary: 1162.24 bytes do not exist, so take
    // 1163 bytes = 1.1357... KiB.
    assert_eq!(format_bytes(1163), "1.14 KiB");
    // Just below 1 MiB the rounded size reaches 1024 KiB.
    assert_eq!(format_bytes(1024 * 1024 - 1), "1024 KiB");
    // 99.96 KiB rounds up to 100.0 with one decimal.
    assert_eq!(format_bytes(102359), "100.0 KiB");
}

#[test]
fn formats_the_largest_counts_in_pib() {
    assert_eq!(format_bytes(u64::MAX), "16384 PiB");
    assert_eq!(format_bytes(1u64 << 53), "8.00 PiB");
    assert_eq!(format_bytes((1u64 << 53) + 1), "8.00 PiB");
    assert_eq!(format_bytes(1024u64.pow(5) * 2000), "2000 PiB");
}

#[test]
fn truncates_to_small_widths() {
    assert_eq!(truncate_middle("abcdef", 0), "");
    assert_eq!(truncate_middle("abcdef", 1), ".");
    assert_eq!(truncate_middle("abcdef", 2), "..");
    assert_eq!(truncate_middle("abcdef", 3), "...");
    assert_eq!(truncate_middle("abcdefghij", 7), "ab...ij");
    assert_eq!(truncate_middle("abcdefghij", 8), "ab...hij");
    assert_eq!(truncate_middle("äöüßéè", 5), "ä...è");
}

#[test]
fn splits_times_into_seconds_and_nanoseconds() {
    assert_eq!(split_nanos(0), (0, 0));
    assert_eq!(split_nanos(1_500_000_000), (1, 500_000_000));
    assert_eq!(split_nanos(-1), (-1, 999_999_999));
    assert_eq!(split_nanos(-2_000_000_000), (-2, 0));
    assert!(is_formattable(0));
    assert!(!is_formattable(i128::MAX));
    assert!(!is_formattable(-8334601315200000000001));
    assert!(is_formattable(8210266876799999999999));
    let text = format_system_time(1_700_000_000_000_000_000);
    assert_eq!(text.chars().count(), 16);
    assert!(text.starts_with("2023-11-1"));
}

#[test]
fn writes_times_at_a_given_offset() {
    assert_eq!(format_time_at_offset(0, 0), "1970-01-01 00:00");
    assert_eq!(format_time_at_offset(0, 3600), "1970-01-01 01:00");
    assert_eq!(format_time_at_offset(-1, 0), "1969-12-31 23:59");
    assert_eq!(format_time_at_offset(1_700_000_000_000_000_000, -18000), "2023-11-14 17:13");
    assert_eq!(format_time_at_offset(59_999_999_999, 0), "1970-01-01 00:00");
}
