use cargo_sift::human::format_size;

#[test]
fn formats_with_binary_units() {
    assert_eq!(format_size(0), "0 B");
    assert_eq!(format_size(1023), "1023 B");
    assert_eq!(format_size(1024), "1.00 KiB");
    assert_eq!(format_size(1536), "1.50 KiB");
    assert_eq!(format_size(5 * 1024 * 1024), "5.00 MiB");
}

/// The size text as a double-precision division and `{:.2}` produce it.
fn float_reference(bytes: u64) -> String {
    const UNITS: [&str; 5] = ["B", "KiB", "MiB", "GiB", "TiB"];
    if bytes < 1024 {
        return format!("{bytes} B");
    }
    let mut value = bytes as f64;
    let mut unit = 0;
    while value >= 1024.0 && unit < UNITS.len() - 1 {
        value /= 1024.0;
        unit += 1;
    }
    format!("{value:.2} {}", UNITS[unit])
}

#[test]
fn format_size_matches_double_rounding() {
    let mut samples: Vec<u64> = vec![
        1024,
        1152, // 1.125 KiB: a tie, rounds to even
        1158,
        1048575,
        1048576,
        1073741823,
        1073741824,
        1099511627775,
        1099511627776,
        (1u64 << 53) - 1,
        1u64 << 53,
        (1u64 << 53) + 1,
        (1u64 << 53) + 3,
        u64::MAX,
        u64::MAX - 1024,
        5 * 1024 * 1024 * 1024 * 1024 * 1024,
    ];
    let mut x: u64 = 1024;
    while x < (1u64 << 62) {
        samples.push(x);
        samples.push(x + x / 3);
        samples.push(x + 128);
        samples.push(x * 7 + 5);
        x = x * 3 + 17;
    }
    for b in 1024u64..20000 {
        samples.push(b);
    }
    for b in samples {
        assert_eq!(format_size(b), float_reference(b), "bytes = {b}");
    }
}

#[test]
fn format_size_exact_values() {
    assert_eq!(format_size(1152), "1.12 KiB");
    assert_eq!(format_size(1023 * 1024 + 1013), "1023.99 KiB");
    assert_eq!(format_size(1023 * 1024 + 1019), "1024.00 KiB");
    assert_eq!(format_size(1024 * 1024 - 1), "1024.00 KiB");
    assert_eq!(format_size(3 * 1024 * 1024 * 1024), "3.00 GiB");
    assert_eq!(format_size(2 * 1024 * 1024 * 1024 * 1024), "2.00 TiB");
    assert_eq!(format_size(u64::MAX), "16777216.00 TiB");
}
