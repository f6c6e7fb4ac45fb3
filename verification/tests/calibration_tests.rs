use radial_realtime::calibration::CalibrationBounds;
use radial_realtime::calibration::Calibrator;
use radial_realtime::calibration::encode_record;
use radial_realtime::calibration::parse_record;

#[test]
fn record_round_trip_documented_bounds() {
    // The bounds (10.0, -10.0, 5.0, -5.0), persisted and reloaded.
    let b = CalibrationBounds {
        max_x: 10_000_000,
        min_x: -10_000_000,
        max_y: 5_000_000,
        min_y: -5_000_000,
    };
    let line = encode_record(&b);
    assert_eq!(
        String::from_utf8(line.clone()).unwrap(),
        "10.000000 -10.000000 5.000000 -5.000000"
    );
    let reloaded = parse_record(&line).expect("own record must parse");
    assert_eq!(reloaded, b);
}

#[test]
fn record_round_trip_awkward_values() {
    let b = CalibrationBounds { max_x: 0, min_x: -1, max_y: 999_999_999_999_999, min_y: 123 };
    let line = encode_record(&b);
    assert_eq!(parse_record(&line), Some(b));
}

#[test]
fn record_parses_plain_integers() {
    let line = b"10 -10 5 -5";
    let b = parse_record(line).expect("integer record must parse");
    assert_eq!(b.max_x, 10_000_000);
    assert_eq!(b.min_x, -10_000_000);
    assert_eq!(b.max_y, 5_000_000);
    assert_eq!(b.min_y, -5_000_000);
}

#[test]
fn malformed_records_are_rejected() {
    assert_eq!(parse_record(b""), None);
    assert_eq!(parse_record(b"1 2 3"), None);
    assert_eq!(parse_record(b"1 2 3 4 5"), None);
    assert_eq!(parse_record(b"a b c d"), None);
    assert_eq!(parse_record(b"1 2 3 x"), None);
    assert_eq!(parse_record(b"1  2 3"), None); // double space makes an empty field
}

#[test]
fn calibrator_first_sample_sets_all_extremes() {
    let mut c = Calibrator::new();
    assert!(!c.started);
    c.observe(3_000_000, -2_000_000);
    assert!(c.started);
    assert_eq!(c.bounds.max_x, 3_000_000);
    assert_eq!(c.bounds.min_x, 3_000_000);
    assert_eq!(c.bounds.max_y, -2_000_000);
    assert_eq!(c.bounds.min_y, -2_000_000);
}

#[test]
fn calibrator_folds_running_extremes() {
    let mut c = Calibrator::new();
    c.observe(1_000_000, 0);
    c.observe(-4_000_000, 2_000_000);
    c.observe(2_000_000, -1_000_000);
    c.observe(0, 500_000);
    assert_eq!(c.bounds.max_x, 2_000_000);
    assert_eq!(c.bounds.min_x, -4_000_000);
    assert_eq!(c.bounds.max_y, 2_000_000);
    assert_eq!(c.bounds.min_y, -1_000_000);
}

#[test]
fn degenerate_session_is_persisted_as_is() {
    // One sample only: both axes collapse, the record still round-trips.
    let mut c = Calibrator::new();
    c.observe(7, 7);
    let b = c.bounds;
    assert_eq!(parse_record(&encode_record(&b)), Some(b));
}
