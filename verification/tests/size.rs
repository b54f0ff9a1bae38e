use lutils::error::UtilsError;
use lutils::mount::{capacity, parse_capacity};

fn bytes(text: &str) -> u64 {
    parse_capacity(text).unwrap()
}

fn message(text: &str) -> String {
    match parse_capacity(text) {
        Ok(bytes) => panic!("{} was read as {}", text, bytes),
        Err(e) => e.to_string(),
    }
}

#[test]
fn capacity_without_unit_is_bytes() {
    assert_eq!(capacity("100"), 100);
    assert_eq!(bytes("0"), 0);
    assert_eq!(bytes("007"), 7);
    assert_eq!(bytes("1536.9"), 1536);
}

#[test]
fn capacity_units_are_powers_of_1024() {
    assert_eq!(bytes("1K"), 1024);
    assert_eq!(bytes("1M"), 1024 * 1024);
    assert_eq!(bytes("1G"), 1024 * 1024 * 1024);
    assert_eq!(bytes("1T"), 1024u64 * 1024 * 1024 * 1024);
}

#[test]
fn capacity_next_unit_is_1024_times() {
    assert_eq!(capacity("1T"), 1024 * capacity("1G"));
    assert_eq!(capacity("37G"), 1024 * capacity("37M"));
    assert_eq!(capacity("37M"), 1024 * capacity("37K"));
    assert_eq!(capacity("37K"), 1024 * capacity("37"));
    assert!(capacity("1.7T") >= 1024 * capacity("1.7G"));
    assert!(capacity("0.3K") >= 1024 * capacity("0.3"));
}

#[test]
fn capacity_with_a_fraction_is_truncated() {
    assert_eq!(capacity("465.8G"), 500148941619);
    assert_eq!(capacity("465.8G"), (465.8_f64 * 1024.0 * 1024.0 * 1024.0) as u64);
    assert_eq!(bytes("0.5K"), 512);
    assert_eq!(bytes("0.1K"), 102);
    assert_eq!(bytes("1.5K"), 1536);
    assert_eq!(bytes("0.0009765625M"), 1024);
    assert_eq!(bytes("0.0009765624M"), 1023);
}

#[test]
fn capacity_reads_every_digit_of_a_long_fraction() {
    assert_eq!(bytes("0.99999999999999999999999999999999999999999999K"), 1023);
    assert_eq!(bytes("0.00000000000000000000000000000000000000000001T"), 0);
    assert_eq!(bytes("0.50000000000000000000000000000000000000000000T"), 512u64 * 1024 * 1024 * 1024);
}

#[test]
fn capacity_point_may_stand_first_or_last() {
    assert_eq!(bytes(".5K"), 512);
    assert_eq!(bytes("5."), 5);
    assert_eq!(bytes("5.G"), 5 * 1024 * 1024 * 1024);
}

#[test]
fn capacity_sign() {
    assert_eq!(bytes("+2K"), 2048);
    assert_eq!(bytes("-2K"), 0);
    assert_eq!(bytes("-0.5"), 0);
}

#[test]
fn capacity_beyond_u64_is_the_largest_u64() {
    assert_eq!(bytes("18446744073709551615"), u64::MAX);
    assert_eq!(bytes("18446744073709551614"), u64::MAX - 1);
    assert_eq!(bytes("18446744073709551616"), u64::MAX);
    assert_eq!(bytes("99999999999999999999999999999999999999999999T"), u64::MAX);
    assert_eq!(bytes("16777216T"), u64::MAX);
    assert_eq!(bytes("16777215T"), 16777215u64 * 1024 * 1024 * 1024 * 1024);
}

#[test]
fn capacity_agrees_with_floating_point_on_common_sizes() {
    let sizes = [
        "465.8G", "1.8T", "931.5G", "512M", "3.7G", "0.5K", "128K", "7.3T", "16M", "1K", "29.8G",
        "100", "238.5G", "0.3M", "14.6T", "3.999G", "57.6G", "1.1T", "223.6G",
    ];
    for size in sizes {
        let (number, unit) = match size.chars().last().unwrap() {
            'T' => (&size[..size.len() - 1], 1024.0 * 1024.0 * 1024.0 * 1024.0),
            'G' => (&size[..size.len() - 1], 1024.0 * 1024.0 * 1024.0),
            'M' => (&size[..size.len() - 1], 1024.0 * 1024.0),
            'K' => (&size[..size.len() - 1], 1024.0),
            _ => (size, 1.0),
        };
        let expected = (number.parse::<f64>().unwrap() * unit) as u64;
        assert_eq!(capacity(size), expected, "{}", size);
    }
}

#[test]
fn capacity_agrees_with_floating_point_on_one_digit_after_the_point() {
    let units = [("", 1.0), ("K", 1024.0), ("M", 1048576.0), ("G", 1073741824.0), ("T", 1099511627776.0)];
    for n in 0..5000u32 {
        let number = format!("{}.{}", n / 10, n % 10);
        for (letter, unit) in units {
            let expected = (number.parse::<f64>().unwrap() * unit) as u64;
            assert_eq!(capacity(&format!("{}{}", number, letter)), expected, "{}{}", number, letter);
        }
    }
}

#[test]
fn capacity_rejects_what_is_no_number() {
    for text in ["", "G", "K", "abc", "1.2.3G", "1e3", "12 G", " 12", "1,5G", "+", "-", ".", ".K", "--1", "1g", "１"] {
        assert!(parse_capacity(text).is_err(), "{:?}", text);
    }
}

#[test]
fn capacity_error_carries_the_text() {
    assert!(matches!(parse_capacity("12x"), Err(UtilsError::BlockError(_))));
    assert_eq!(message("12x"), "Block error: `invalid size: 12x`");
    assert_eq!(message(""), "Block error: `invalid size: `");
}

#[test]
fn capacity_unit_letters_are_upper_case() {
    assert!(parse_capacity("1k").is_err());
    assert!(parse_capacity("1m").is_err());
    assert!(parse_capacity("1t").is_err());
    assert_eq!(bytes("1KK".trim_end_matches('K')), 1);
    assert!(parse_capacity("1KK").is_err());
}
