//! The library computes with exact integers; these tests hold it to the
//! floating-point formulas the tools are specified by, over many inputs.
use neoutils::duration::parse_duration;
use neoutils::nav::{add_visit, frecency, NavEntry};
use neoutils::size::{format_size, parse_size};

fn float_format_size(bytes: u64) -> String {
    const UNITS: &[&str] = &["B", "KB", "MB", "GB", "TB"];
    let mut size = bytes as f64;
    let mut unit = 0;
    while size >= 1024.0 && unit < UNITS.len() - 1 {
        size /= 1024.0;
        unit += 1;
    }
    if unit == 0 {
        format!("{} {}", bytes, UNITS[unit])
    } else {
        format!("{:.1} {}", size, UNITS[unit])
    }
}

fn float_frecency(rank: u64, age_secs: u64) -> u64 {
    let dx = age_secs as f64;
    (10000.0 * rank as f64 * (3.75 / (0.0001 * dx + 1.0 + 0.25))).round() as u64
}

fn float_size(s: &str) -> Option<u64> {
    let clean = s.trim().to_uppercase();
    let (num, mult): (&str, u64) = if clean.ends_with("TB") {
        (&clean[..clean.len() - 2], 1 << 40)
    } else if clean.ends_with("GB") {
        (&clean[..clean.len() - 2], 1 << 30)
    } else if clean.ends_with("MB") {
        (&clean[..clean.len() - 2], 1 << 20)
    } else if clean.ends_with("KB") {
        (&clean[..clean.len() - 2], 1 << 10)
    } else if clean.ends_with('B') {
        (&clean[..clean.len() - 1], 1)
    } else {
        (clean.as_str(), 1)
    };
    let num = num.trim();
    if num.is_empty() {
        return None;
    }
    let n: f64 = num.parse().ok()?;
    Some((n * mult as f64) as u64)
}

#[test]
fn format_size_agrees_with_floats_on_small_counts() {
    for b in 0..70_000u64 {
        assert_eq!(format_size(b), float_format_size(b), "bytes {}", b);
    }
}

#[test]
fn format_size_agrees_with_floats_on_large_counts() {
    let mut x: u64 = 1;
    for _ in 0..64 {
        for d in [0u64, 1, 2, 3, 51, 52, 102, 103, 1000] {
            for v in [x.wrapping_sub(d), x.wrapping_add(d), x.wrapping_mul(3).wrapping_add(d)] {
                assert_eq!(format_size(v), float_format_size(v), "bytes {}", v);
            }
        }
        x = x.wrapping_mul(2);
    }
    let mut y: u64 = 12345;
    for _ in 0..5000 {
        y = y.wrapping_mul(6364136223846793005).wrapping_add(1442695040888963407);
        let v = y >> (y % 60);
        assert_eq!(format_size(v), float_format_size(v), "bytes {}", v);
    }
}

#[test]
fn frecency_agrees_with_floats() {
    for rank in 0..200u64 {
        for age in [0u64, 1, 2, 59, 60, 3599, 3600, 86399, 86400, 604800, 2_592_000, 31_557_600, 1_000_000_000] {
            assert_eq!(frecency(rank, age), float_frecency(rank, age), "rank {} age {}", rank, age);
        }
    }
    for age in 0..20_000u64 {
        assert_eq!(frecency(7, age), float_frecency(7, age), "age {}", age);
    }
}

#[test]
fn parse_size_agrees_with_floats() {
    let numbers = [
        "0", "1", "7", "10", "100", "512", "1023", "1024", "0.5", "1.5", "2.25", "0.001", "3.14159",
        "99.99", "1e3", "2.5e2", "1E-3", ".5", "5.", "+4", "-2", "123456789", "0.1", "0.2", "0.3",
        "1.1", "4095.9", "1e10", "1e20", "18446744073709551615", "inf", "-inf", "nan", "infinity",
    ];
    let units = ["", "B", "b", "KB", "kb", "Kb", "MB", "mb", "GB", "gb", "TB", "tb", " KB", " mb "];
    for n in numbers {
        for u in units {
            let s = format!("{}{}", n, u);
            assert_eq!(parse_size(&s).ok(), float_size(&s), "text {:?}", s);
        }
    }
}

#[test]
fn parse_duration_agrees_with_floats() {
    let cases: [(&str, f64); 14] = [
        ("1s", 1.0),
        ("1.5s", 1.5),
        ("0.25m", 15.0),
        ("2h", 7200.0),
        ("1.5h", 5400.0),
        ("0.5d", 43200.0),
        ("3w", 1_814_400.0),
        ("0.001s", 0.001),
        ("0.1s", 0.1),
        ("0.3s", 0.3),
        ("2.75m", 165.0),
        ("12", 12.0),
        ("1.25", 1.25),
        ("100d", 8_640_000.0),
    ];
    for (s, secs) in cases {
        let expected = std::time::Duration::from_secs_f64(secs).as_nanos();
        assert_eq!(parse_duration(s), Ok(expected), "text {:?}", s);
    }
}

#[test]
fn frecency_agrees_with_floats_at_the_extremes() {
    let ranks = [0u64, 1, 2, 3, 9000, 65535, 1 << 32, (1 << 53) - 1, 1 << 53, (1 << 53) + 1, u64::MAX / 3, u64::MAX];
    let ages = [0u64, 1, 12_499, 12_500, 1 << 40, (1 << 53) + 1, u64::MAX / 7, u64::MAX];
    for rank in ranks {
        for age in ages {
            assert_eq!(frecency(rank, age), float_frecency(rank, age), "rank {} age {}", rank, age);
        }
    }
    let mut y: u64 = 987654321;
    for _ in 0..20000 {
        y = y.wrapping_mul(6364136223846793005).wrapping_add(1442695040888963407);
        let rank = (y >> 40) % 20000;
        let age = (y >> 7) % 100_000_000;
        assert_eq!(frecency(rank, age), float_frecency(rank, age), "rank {} age {}", rank, age);
    }
}

#[test]
fn aging_agrees_with_floats() {

    for rank in [1u64, 2, 99, 100, 101, 150, 999, 1000, 4500, 8999, 9000] {
        let entries = vec![NavEntry { path: "/a".to_string(), rank, time: 1 }, NavEntry { path: "/b".to_string(), rank: 9000, time: 1 }];
        let aged = add_visit(entries, "/c".to_string(), 5);
        let expected = (rank as f64 * 0.99) as u64;
        let got = aged.iter().find(|e| e.path == "/a").map(|e| e.rank).unwrap_or(0);
        assert_eq!(got, expected, "rank {}", rank);
    }
}

fn float_duration(s: &str) -> Option<u128> {
    let mut total = std::time::Duration::ZERO;
    let mut num = String::new();
    for c in s.chars() {
        if c.is_ascii_digit() || c == '.' {
            num.push(c);
        } else {
            if num.is_empty() {
                return None;
            }
            let n: f64 = num.parse().ok()?;
            let dur = match c {
                's' => std::time::Duration::from_secs_f64(n),
                'm' => std::time::Duration::from_secs_f64(n * 60.0),
                'h' => std::time::Duration::from_secs_f64(n * 3600.0),
                'd' => std::time::Duration::from_secs_f64(n * 86400.0),
                'w' => std::time::Duration::from_secs_f64(n * 604800.0),
                _ => return None,
            };
            total += dur;
            num.clear();
        }
    }
    if !num.is_empty() {
        let n: f64 = num.parse().ok()?;
        total += std::time::Duration::from_secs_f64(n);
    }
    Some(total.as_nanos())
}

#[test]
fn long_numbers_are_read_as_doubles() {
    assert_eq!(parse_size("0.99999999999999999999KB"), Ok(1024));
    assert_eq!(parse_size("1.9999999999999999B"), Ok(2));
    assert_eq!(parse_size("4503599627370497.5"), Ok(4503599627370498));
    assert_eq!(parse_size("9007199254740993"), Ok(9007199254740992));
    assert_eq!(parse_duration("123456789.123456789s"), Ok(123456789123456791));
    for s in [
        "0.99999999999999999999KB",
        "1.9999999999999999B",
        "4503599627370497.5",
        "9007199254740993",
        "0.000000000000000000000000000001TB",
        "123456789012345678901234567890e-20GB",
        "0.30000000000000000000000000000000000000000001KB",
        "1e-13TB",
        "9.5367431640625e-7TB",
    ] {
        assert_eq!(parse_size(s).ok(), float_size(s), "text {:?}", s);
    }
    for s in [
        "123456789.123456789s",
        "0.1m",
        "0.3h",
        "0.0000000005s",
        "0.0000000015s",
        "0.00000000049999999999999999s",
        "1.0000000000000000001w",
        "33333.333333333333333d",
        "0.7h0.7m0.7s",
        "99999999999.999999h",
    ] {
        assert_eq!(parse_duration(s).ok(), float_duration(s), "text {:?}", s);
    }
}

#[test]
fn random_decimals_are_read_as_doubles() {
    let mut y: u64 = 1234567;
    let units = ["", "B", "KB", "MB", "GB", "TB"];
    let dunits = ["s", "m", "h", "d", "w", ""];
    for _ in 0..20000 {
        y = y.wrapping_mul(6364136223846793005).wrapping_add(1442695040888963407);
        let int_digits = (y >> 60) as usize % 8;
        let frac_digits = (y >> 56) as usize % 24;
        let mut s = String::new();
        let mut z = y;
        for _ in 0..int_digits {
            z = z.wrapping_mul(6364136223846793005).wrapping_add(1442695040888963407);
            s.push(char::from(b'0' + ((z >> 33) % 10) as u8));
        }
        s.push('.');
        for _ in 0..frac_digits {
            z = z.wrapping_mul(6364136223846793005).wrapping_add(1442695040888963407);
            s.push(char::from(b'0' + ((z >> 33) % 10) as u8));
        }
        if s == "." {
            s = "0.5".to_string();
        }
        let u = units[(y >> 20) as usize % units.len()];
        let text = format!("{}{}", s, u);
        assert_eq!(parse_size(&text).ok(), float_size(&text), "text {:?}", text);
        let d = dunits[(y >> 24) as usize % dunits.len()];
        let text = format!("{}{}", s, d);
        assert_eq!(parse_duration(&text).ok(), float_duration(&text), "text {:?}", text);
    }
}

#[test]
fn aging_large_ranks_agrees_with_floats() {
    let ranks = [
        9001u64,
        123_456_789,
        (1 << 45) + 77,
        (1 << 53) - 1,
        1 << 53,
        (1 << 53) + 1,
        (1 << 53) + 3,
        (1 << 60) + 12345,
        u64::MAX / 2,
        u64::MAX - 1,
    ];
    for rank in ranks {
        let entries = vec![NavEntry { path: "/a".to_string(), rank, time: 1 }];
        let aged = add_visit(entries, "/c".to_string(), 5);
        let expected = (rank as f64 * 0.99) as u64;
        let got = aged.iter().find(|e| e.path == "/a").map(|e| e.rank).unwrap_or(0);
        assert_eq!(got, expected, "rank {}", rank);
    }
    let mut y: u64 = 55555;
    for _ in 0..20000 {
        y = y.wrapping_mul(6364136223846793005).wrapping_add(1442695040888963407);
        let rank = (y >> ((y >> 58) as u32)) | 9001;
        if rank == u64::MAX {
            continue;
        }
        let entries = vec![NavEntry { path: "/a".to_string(), rank, time: 1 }];
        let aged = add_visit(entries, "/c".to_string(), 5);
        let expected = (rank as f64 * 0.99) as u64;
        let got = aged.iter().find(|e| e.path == "/a").map(|e| e.rank).unwrap_or(0);
        assert_eq!(got, expected, "rank {}", rank);
    }
}
