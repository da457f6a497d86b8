use splatrs::inspect::{estimated_raw_bytes_per_splat, format_bytes};

#[test]
fn formats_byte_counts() {
    assert_eq!(format_bytes(512), "512 B");
    assert_eq!(format_bytes(1024), "1.00 KiB");
    assert_eq!(format_bytes(1024 * 1024), "1.00 MiB");
}

#[test]
fn formats_bytes_below_one_kib_exactly() {
    assert_eq!(format_bytes(0), "0 B");
    assert_eq!(format_bytes(1023), "1023 B");
}

#[test]
fn formats_bytes_with_two_rounded_decimals() {
    assert_eq!(format_bytes(1536), "1.50 KiB");
    assert_eq!(format_bytes(1024 * 1024 - 1), "1024.00 KiB");
    assert_eq!(format_bytes(5 * 1024 * 1024 + 300 * 1024), "5.29 MiB");
    assert_eq!(format_bytes(1 << 30), "1.00 GiB");
    assert_eq!(format_bytes(3 * (1 << 30) + (1 << 29)), "3.50 GiB");
}

#[test]
fn formats_bytes_rounds_halfway_to_even() {
    // 1152 / 1024 = 1.125 exactly: the even neighbour 1.12 is kept.
    assert_eq!(format_bytes(1152), "1.12 KiB");
    // 1408 / 1024 = 1.375 exactly: rounds to the even neighbour 1.38.
    assert_eq!(format_bytes(1408), "1.38 KiB");
}

#[test]
fn formats_bytes_matches_float_formatting() {
    for bytes in [0usize, 1, 999, 1000, 1024, 1025, 4095, 65_536, 123_456_789, 9_999_999_999] {
        let value = bytes as f64;
        let expected = if value >= 1024.0 * 1024.0 * 1024.0 {
            format!("{:.2} GiB", value / (1024.0 * 1024.0 * 1024.0))
        } else if value >= 1024.0 * 1024.0 {
            format!("{:.2} MiB", value / (1024.0 * 1024.0))
        } else if value >= 1024.0 {
            format!("{:.2} KiB", value / 1024.0)
        } else {
            format!("{value:.0} B")
        };
        assert_eq!(format_bytes(bytes), expected);
    }
}

#[test]
fn raw_bytes_per_splat_counts_scalars() {
    assert_eq!(estimated_raw_bytes_per_splat(0, 16), 56);
    assert_eq!(estimated_raw_bytes_per_splat(45, 16), (14 + 45) * 4);
}

#[test]
fn raw_bytes_per_splat_never_below_record_size() {
    assert_eq!(estimated_raw_bytes_per_splat(0, 96), 96);
    assert_eq!(estimated_raw_bytes_per_splat(10, 96), 96);
    assert_eq!(estimated_raw_bytes_per_splat(11, 96), 100);
}
