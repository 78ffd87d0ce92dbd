use tohdr::encode::Flavor;
use tohdr::size::{parse_size, SizeError};

#[test]
fn sizes_parse() {
    assert_eq!(parse_size("4MB").unwrap(), 4_000_000);
    assert_eq!(parse_size("4MiB").unwrap(), 4 * 1024 * 1024);
    assert_eq!(parse_size("4 mib").unwrap(), 4 * 1024 * 1024);
    assert_eq!(parse_size("3.5m").unwrap(), 3_500_000);
    assert_eq!(parse_size("1500000").unwrap(), 1_500_000);
    assert_eq!(parse_size("512k").unwrap(), 512_000);
    assert!(parse_size("").is_err());
    assert!(parse_size("banana").is_err());
    assert!(parse_size("4PB").is_err());
}

#[test]
fn flavor_coverage() {
    assert!(Flavor::Both.writes_apple() && Flavor::Both.writes_iso());
    assert!(Flavor::Apple.writes_apple() && !Flavor::Apple.writes_iso());
    assert!(!Flavor::Iso.writes_apple() && Flavor::Iso.writes_iso());
    assert_eq!(Flavor::default(), Flavor::Both);
}

/// The number and its product are double-precision values, and what is left of a byte is
/// dropped.
#[test]
fn sizes_are_what_double_precision_makes_of_them() {
    for (text, number, unit) in [
        ("0.29m", 0.29f64, 1e6f64),
        ("0.57k", 0.57, 1e3),
        ("1.005g", 1.005, 1e9),
        ("16.1MiB", 16.1, 1048576.0),
        ("3.14159265358979323846264338327950288419716939937510 gib", 3.141592653589793, 1073741824.0),
        ("0.000000000000000000000000000001gb", 1e-30, 1e9),
        ("123456789.987654321", 123456789.987654321, 1.0),
        ("9007199254740993", 9007199254740993.0, 1.0),
        ("0000000000000000000000000000000000000000012kb", 12.0, 1e3),
    ] {
        assert_eq!(parse_size(text).unwrap(), (number * unit) as u64, "{text}");
    }
}

#[test]
fn the_largest_sizes_stop_at_what_can_be_counted() {
    assert_eq!(parse_size("18446744073709551616").unwrap(), u64::MAX);
    assert_eq!(parse_size("18446744073709551615").unwrap(), u64::MAX);
    assert_eq!(parse_size("18446744073709549568").unwrap(), 18446744073709549568);
    assert_eq!(parse_size("18446744073709555712").unwrap_err(), SizeError::TooLarge("18446744073709555712".to_string()));
    let long = "99999999999999999999999999999999999999999999";
    assert_eq!(parse_size(long).unwrap_err(), SizeError::TooLarge(long.to_string()));
    assert_eq!(parse_size(" 20000000000gib").unwrap_err(), SizeError::TooLarge(" 20000000000gib".to_string()));
}

/// The least number that is past every double-precision one, and the one below it.
#[test]
fn a_number_past_every_double_is_refused_before_its_unit_is_read() {
    let past = "179769313486231580793728971405303415079934132710037826936173778980444968292764750946649017977587207096330286416692887910946555547851940402630657488671505820681908902000708383676273854845817711531764475730270069855571366959622842914819860834936475292719074168444365510704342711559699508093042880177904174497792";
    let below = "179769313486231580793728971405303415079934132710037826936173778980444968292764750946649017977587207096330286416692887910946555547851940402630657488671505820681908902000708383676273854845817711531764475730270069855571366959622842914819860834936475292719074168444365510704342711559699508093042880177904174497791";
    for unit in ["", ".0", " mb", " furlongs"] {
        let text = format!("{past}{unit}");
        let e = parse_size(&text).unwrap_err();
        assert_eq!(e, SizeError::NotFinite(text.clone()));
        assert_eq!(e.message(), format!("size must be finite and non-negative: {text:?}"));
    }
    assert_eq!(parse_size(below).unwrap_err(), SizeError::TooLarge(below.to_string()));
    let text = format!("{below}.99 furlongs");
    assert_eq!(parse_size(&text).unwrap_err(), SizeError::UnknownUnit("furlongs".to_string()));
    assert!(past.parse::<f64>().unwrap().is_infinite() && below.parse::<f64>().unwrap().is_finite());
}

#[test]
fn every_refused_size_says_why() {
    assert_eq!(parse_size("  ").unwrap_err(), SizeError::Empty);
    assert_eq!(parse_size("1.2.3k").unwrap_err(), SizeError::NotANumber("1.2.3".to_string()));
    assert_eq!(parse_size(".").unwrap_err(), SizeError::NotANumber(".".to_string()));
    assert_eq!(parse_size("-4k").unwrap_err(), SizeError::NotANumber(String::new()));
    assert_eq!(parse_size("4 PB").unwrap_err(), SizeError::UnknownUnit("pb".to_string()));
    assert_eq!(parse_size("4 PB").unwrap_err().message(), "unknown size unit: \"pb\"");
    assert_eq!(parse_size("1.2.3k").unwrap_err().message(), "not a number: \"1.2.3\"");
    assert_eq!(parse_size("4 a\"\t").unwrap_err().message(), "unknown size unit: \"a\\\"\"");
    assert_eq!(
        parse_size("\t20000000000gib").unwrap_err().message(),
        "size too large: \"\\t20000000000gib\""
    );
    assert_eq!(parse_size(" ").unwrap_err().message(), "empty size");
    assert_eq!(parse_size("5.").unwrap(), 5);
    assert_eq!(parse_size(".5k").unwrap(), 500);
    assert_eq!(parse_size("\u{3000}7 \u{a0}KiB\n").unwrap(), 7168);
}
