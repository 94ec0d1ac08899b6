use neoutils::duration::{duration_error_message, parse_duration, DurationError};
use neoutils::size::{format_size, parse_clean_size, parse_size, size_error_message, SizeError};

const SEC: u128 = 1_000_000_000;

#[test]
fn duration_single_units() {
    assert_eq!(parse_duration("30s"), Ok(30 * SEC));
    assert_eq!(parse_duration("5m"), Ok(300 * SEC));
    assert_eq!(parse_duration("12h"), Ok(12 * 3600 * SEC));
    assert_eq!(parse_duration("30d"), Ok(30 * 86400 * SEC));
    assert_eq!(parse_duration("2w"), Ok(2 * 604800 * SEC));
}

#[test]
fn duration_combined_terms() {
    assert_eq!(parse_duration("7d12h"), Ok((7 * 86400 + 12 * 3600) * SEC));
    assert_eq!(parse_duration("1h30m15s"), Ok((3600 + 1800 + 15) * SEC));
}

#[test]
fn duration_is_the_sum_of_its_parts() {
    let whole = parse_duration("7d12h").unwrap();
    let a = parse_duration("7d").unwrap();
    let b = parse_duration("12h").unwrap();
    assert_eq!(whole, a + b);
}

#[test]
fn duration_fractions_and_bare_numbers() {
    assert_eq!(parse_duration("1.5h"), Ok(5400 * SEC));
    assert_eq!(parse_duration("0.5s"), Ok(SEC / 2));
    assert_eq!(parse_duration("90"), Ok(90 * SEC));
    assert_eq!(parse_duration("1h30"), Ok((3600 + 30) * SEC));
    assert_eq!(parse_duration(""), Ok(0));
}

#[test]
fn duration_errors() {
    assert_eq!(parse_duration("h"), Err(DurationError::MissingNumber));
    assert_eq!(parse_duration("5h m"), Err(DurationError::MissingNumber));
    assert_eq!(parse_duration("5 h"), Err(DurationError::UnknownUnit(' ')));
    assert_eq!(parse_duration("5x"), Err(DurationError::UnknownUnit('x')));
    assert_eq!(parse_duration("1.2.3s"), Err(DurationError::InvalidNumber));
    assert_eq!(parse_duration("."), Err(DurationError::InvalidNumber));
    assert_eq!(parse_duration("99999999999999999999w"), Err(DurationError::TooLarge));
}

#[test]
fn size_units() {
    assert_eq!(parse_size("10MB"), Ok(10 * 1024 * 1024));
    assert_eq!(parse_size("1.5GB"), Ok(1610612736));
    assert_eq!(parse_size("500KB"), Ok(512000));
    assert_eq!(parse_size("2TB"), Ok(2 * (1u64 << 40)));
    assert_eq!(parse_size("7B"), Ok(7));
    assert_eq!(parse_size("100"), Ok(100));
    assert_eq!(parse_size("0.5KB"), Ok(512));
}

#[test]
fn size_case_and_space() {
    assert_eq!(parse_size(" 500kb "), Ok(512000));
    assert_eq!(parse_size("10mb"), Ok(10 * 1024 * 1024));
    assert_eq!(parse_size("1 GB"), Ok(1 << 30));
}

#[test]
fn size_float_forms() {
    assert_eq!(parse_size("1e3"), Ok(1000));
    assert_eq!(parse_size("-5"), Ok(0));
    assert_eq!(parse_size("inf"), Ok(u64::MAX));
    assert_eq!(parse_size("nan"), Ok(0));
}

#[test]
fn size_errors() {
    assert_eq!(parse_size(""), Err(SizeError::Empty));
    assert_eq!(parse_size("MB"), Err(SizeError::Empty));
    assert_eq!(parse_size("  kb "), Err(SizeError::Empty));
    assert_eq!(parse_size("abc"), Err(SizeError::InvalidNumber));
    assert_eq!(parse_size("1.2.3MB"), Err(SizeError::InvalidNumber));
}

#[test]
fn format_size_bytes() {
    assert_eq!(format_size(0), "0 B");
    assert_eq!(format_size(512), "512 B");
    assert_eq!(format_size(1023), "1023 B");
}

#[test]
fn format_size_scaled() {
    assert_eq!(format_size(1024), "1.0 KB");
    assert_eq!(format_size(1536), "1.5 KB");
    assert_eq!(format_size(1280), "1.2 KB");
    assert_eq!(format_size(1048576), "1.0 MB");
    assert_eq!(format_size(10 * 1024 * 1024), "10.0 MB");
    assert_eq!(format_size(1u64 << 40), "1.0 TB");
    assert_eq!(format_size(1u64 << 50), "1024.0 TB");
    assert_eq!(format_size(u64::MAX), "16777216.0 TB");
}

#[test]
fn size_from_clean_text() {
    assert_eq!(parse_clean_size("10MB"), Ok(10 * 1024 * 1024));
    assert_eq!(parse_clean_size("10 KB"), Ok(10240));
    assert_eq!(parse_clean_size("KB"), Err(SizeError::Empty));
    assert_eq!(parse_clean_size("1.5X"), Err(SizeError::InvalidNumber));
}

#[test]
fn error_messages() {
    assert_eq!(duration_error_message(DurationError::MissingNumber, "h"), "invalid duration: h");
    assert_eq!(duration_error_message(DurationError::InvalidNumber, "1..2h"), "invalid number in duration: 1..2h");
    assert_eq!(duration_error_message(DurationError::UnknownUnit('x'), "5x"), "unknown unit 'x' in duration");
    assert_eq!(size_error_message(SizeError::Empty, "MB"), "invalid size: MB");
    assert_eq!(size_error_message(SizeError::InvalidNumber, "abc"), "invalid number in size: abc");
}

#[test]
fn formatted_sizes_read_back_within_a_sixteenth_of_their_unit() {
    let cases: [(u64, u64); 8] = [
        (0, 1),
        (1023, 1),
        (1024, 1024),
        (1500, 1024),
        (1_048_575, 1024),
        (5_000_000, 1 << 20),
        (3_333_333_333, 1 << 30),
        (u64::MAX, 1 << 40),
    ];
    for (b, unit) in cases {
        let back = parse_size(&format_size(b)).unwrap();
        let diff = if back > b { back - b } else { b - back };
        assert!(16 * (diff as u128) <= unit as u128, "{} read back as {}", b, back);
        if b < 1024 {
            assert_eq!(back, b);
        }
    }
}
