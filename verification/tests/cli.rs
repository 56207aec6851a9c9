//! Command-line parsing for the driver.

use gardogs::{outcome_str, parse_u64, preset_by_name, FlagError, Flags, Preset};

fn args(xs: &[&str]) -> Vec<String> {
    xs.iter().map(|s| s.to_string()).collect()
}

#[test]
fn flags_pairs_and_quiet() {
    let f = match Flags::parse(&args(&["--seed", "7", "--quiet", "--config", "phase1", "--seed", "9"])) {
        Ok(f) => f,
        Err(_) => panic!("should parse"),
    };
    assert!(f.has("quiet"));
    assert_eq!(f.get_str("quiet"), Some("1"));
    assert_eq!(f.get_str("config"), Some("phase1"));
    // A later setting overrides an earlier one.
    assert!(matches!(f.get_u64("seed", 0), Ok(9)));
    assert!(matches!(f.get_u64("episodes", 2000), Ok(2000)));
    assert!(!f.has("episodes"));
    assert_eq!(f.get_str("out"), None);
}

#[test]
fn flags_errors() {
    match Flags::parse(&args(&["seed", "7"])) {
        Err(FlagError::NotAFlag(s)) => assert_eq!(s, "seed"),
        _ => panic!("expected NotAFlag"),
    }
    match Flags::parse(&args(&["--seed"])) {
        Err(FlagError::MissingValue(k)) => assert_eq!(k, "seed"),
        _ => panic!("expected MissingValue"),
    }
    match Flags::parse(&args(&["-x", "1"])) {
        Err(FlagError::NotAFlag(s)) => assert_eq!(s, "-x"),
        _ => panic!("expected NotAFlag"),
    }
    let f = match Flags::parse(&args(&["--games", "lots"])) {
        Ok(f) => f,
        Err(_) => panic!("should parse"),
    };
    match f.get_u64("games", 100) {
        Err(FlagError::InvalidNumber(k, v)) => {
            assert_eq!(k, "games");
            assert_eq!(v, "lots");
        }
        _ => panic!("expected InvalidNumber"),
    }
}

#[test]
fn no_flags_at_all() {
    let f = match Flags::parse(&args(&[])) {
        Ok(f) => f,
        Err(_) => panic!("should parse"),
    };
    assert!(!f.has("quiet"));
    assert!(matches!(f.get_u64("seed", 5), Ok(5)));
}

#[test]
fn decimal_numbers() {
    assert_eq!(parse_u64("0"), Some(0));
    assert_eq!(parse_u64("2000000"), Some(2_000_000));
    assert_eq!(parse_u64("+42"), Some(42));
    assert_eq!(parse_u64("007"), Some(7));
    assert_eq!(parse_u64("18446744073709551615"), Some(u64::MAX));
    assert_eq!(parse_u64("18446744073709551616"), None);
    assert_eq!(parse_u64(""), None);
    assert_eq!(parse_u64("+"), None);
    assert_eq!(parse_u64("-1"), None);
    assert_eq!(parse_u64("12a"), None);
    assert_eq!(parse_u64(" 1"), None);
    // The same answers as the standard library's parser.
    for s in ["0", "+0", "99", "-0", "1_000", "١", "4294967296"] {
        assert_eq!(parse_u64(s), s.parse::<u64>().ok(), "{s}");
    }
}

#[test]
fn presets_and_outcomes() {
    assert_eq!(preset_by_name("phase1"), Some(Preset::Phase1));
    assert_eq!(preset_by_name("phase2"), Some(Preset::Phase2));
    assert_eq!(preset_by_name("phase3"), None);
    assert_eq!(preset_by_name(""), None);
    assert_eq!(outcome_str(true, true), "WIN");
    assert_eq!(outcome_str(false, true), "LOSE");
    assert_eq!(outcome_str(false, false), "TIMEOUT");
}
