use kdownload::size::format_bytes;

fn float_format(value: u64) -> String {
    const UNITS: [&str; 5] = ["B", "KiB", "MiB", "GiB", "TiB"];
    let mut val = value as f64;
    let mut unit = 0usize;
    while val >= 1024.0 && unit < UNITS.len() - 1 {
        val /= 1024.0;
        unit += 1;
    }
    if unit == 0 {
        format!("{} {}", value, UNITS[unit])
    } else {
        format!("{val:.2} {}", UNITS[unit])
    }
}

#[test]
fn sizes_in_units() {
    assert_eq!(format_bytes(0), "0 B");
    assert_eq!(format_bytes(1023), "1023 B");
    assert_eq!(format_bytes(1024), "1.00 KiB");
    assert_eq!(format_bytes(1536), "1.50 KiB");
    assert_eq!(format_bytes(10 * 1048576), "10.00 MiB");
    assert_eq!(format_bytes(5 * 1073741824), "5.00 GiB");
    assert_eq!(format_bytes(3 * 1099511627776), "3.00 TiB");
    assert_eq!(format_bytes(u64::MAX), "16777216.00 TiB");
}

#[test]
fn sizes_agree_with_float_formatting() {
    let mut v: u64 = 1;
    let mut checked = 0;
    while v < (1u64 << 52) {
        for x in [v, v + 1, v.saturating_mul(3) / 2, v * 1000 / 997] {
            assert_eq!(format_bytes(x), float_format(x), "value {x}");
            checked += 1;
        }
        v = v * 7 / 5 + 1;
    }
    for x in [1152u64, 1178, 3 * 128, 1024 + 5 * 128, 1048576 + 5 * 131072 / 10] {
        assert_eq!(format_bytes(x), float_format(x), "value {x}");
    }
    assert!(checked > 100);
}
