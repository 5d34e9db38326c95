use schedge_solver::parse_duration;
use schedge_solver::solver::round_up_to_five_minutes;

#[test]
fn test_parse_duration() {
    assert_eq!(parse_duration("P3Y6M4DT12H30M5S").unwrap(), (3 * 365 + 6 * 30 + 4) * 86400 + 12 * 3600 + 30 * 60 + 5);
    assert_eq!(parse_duration("T3600S").unwrap(), 3600);
    assert_eq!(parse_duration("P2W").unwrap(), 2 * 7 * 86400);
    assert_eq!(parse_duration("P1D").unwrap(), 86400);
    assert_eq!(parse_duration("T1H30M").unwrap(), 5400);
    assert!(parse_duration("Invalid").is_none());
}

#[test]
fn duration_edge_cases() {
    assert_eq!(parse_duration("P"), Some(0));
    assert_eq!(parse_duration("PT"), Some(0));
    assert_eq!(parse_duration("P1M"), Some(30 * 86400));
    assert_eq!(parse_duration("PT1M"), Some(60));
    assert_eq!(parse_duration(""), None);
    assert_eq!(parse_duration("P1H"), None);
    assert_eq!(parse_duration("PT1D"), None);
    assert_eq!(parse_duration("P1D2Y"), None);
    assert_eq!(parse_duration("1D"), None);
    assert_eq!(parse_duration("P99999999999999999999Y"), None);
    assert_eq!(parse_duration("T9223372036854775807S"), Some(i64::MAX));
    assert_eq!(parse_duration("T9223372036854775808S"), None);
}

#[test]
fn now_rounds_to_five_minutes() {
    assert_eq!(round_up_to_five_minutes(0), 0);
    assert_eq!(round_up_to_five_minutes(1), 300);
    assert_eq!(round_up_to_five_minutes(299), 300);
    assert_eq!(round_up_to_five_minutes(300), 300);
    assert_eq!(round_up_to_five_minutes(-300), -300);
    assert_eq!(round_up_to_five_minutes(-299), 0);
}
