use radial_realtime::calibration::CalibrationBounds;
use radial_realtime::heading::normalize;
use radial_realtime::pipeline::FrameOutcome;
use radial_realtime::pipeline::History;
use radial_realtime::pipeline::Ping;
use radial_realtime::pipeline::process_frame;

fn unit_calibration() -> CalibrationBounds {
    CalibrationBounds { max_x: 1_000_000, min_x: -1_000_000, max_y: 1_000_000, min_y: -1_000_000 }
}

#[test]
fn end_to_end_magnetometer_scenario() {
    // The 13-field line with mag readings (1.0, 0.0, 0.0) and nine
    // distances of 500 mm, against calibration bounds of +/-1 on both axes.
    // Schema dispatch needs 13 fields; like the ranging schema's unused
    // trailing field, the last magnetometer field carries no data.
    let line = b"1.0,0.0,0.0,500,500,500,500,500,500,500,500,500,0";
    let calib = unit_calibration();
    match process_frame(line, &calib) {
        FrameOutcome::NeedsHeading { distances, x, y } => {
            assert_eq!(distances.len(), 9);
            for d in &distances {
                // 500 mm is exactly 0.5 m.
                assert_eq!(*d, Some(500_000_000));
                assert_eq!(d.unwrap() as f64 / 1e9, 0.5);
            }
            // normalize(1, 1, -1) = (1 - -1)/(1 - -1) - 1/2 = 1/2.
            let xf = x.num as f64 / x.den as f64;
            assert_eq!(xf, 0.5);
            // normalize(0, 1, -1) = (0 - -1)/(1 - -1) - 1/2 = 0.
            let yf = y.num as f64 / y.den as f64;
            assert_eq!(yf, 0.0);
            // The consumer's angle step: atan2(y, x) + pi.
            let heading = yf.atan2(xf) + std::f64::consts::PI;
            assert!(heading.is_finite());
            assert!((heading - std::f64::consts::PI).abs() < 1e-12);
            assert!(heading > 0.0 && heading <= 2.0 * std::f64::consts::PI);
        }
        other => panic!("expected a normalized magnetometer sample, got {:?}", other),
    }
}

#[test]
fn degenerate_calibration_drops_the_sample() {
    let line = b"1.0,0.0,0.0,500,500,500,500,500,500,500,500,500,0";
    let x_collapsed =
        CalibrationBounds { max_x: 5, min_x: 5, max_y: 1_000_000, min_y: -1_000_000 };
    let y_collapsed =
        CalibrationBounds { max_x: 1_000_000, min_x: -1_000_000, max_y: -7, min_y: -7 };
    assert!(matches!(process_frame(line, &x_collapsed), FrameOutcome::Degenerate));
    assert!(matches!(process_frame(line, &y_collapsed), FrameOutcome::Degenerate));
    // No ping exists for such a sample, so no consumer ever sees an
    // undefined heading.
}

#[test]
fn ranging_frame_is_ready_at_once() {
    let line = b"3.25,42,500,501,502,503,504,505,506,507,508,1,2,3,4,5,6,7,8,0";
    match process_frame(line, &unit_calibration()) {
        FrameOutcome::Ready(p) => {
            assert_eq!(p.heading, 3_250_000);
            assert_eq!(p.distances.len(), 9);
            assert_eq!(p.distances[0], Some(500_000_000));
        }
        other => panic!("expected a ready ping, got {:?}", other),
    }
}

#[test]
fn non_frames_are_skipped() {
    let calib = unit_calibration();
    assert!(matches!(process_frame(b"", &calib), FrameOutcome::NotAFrame));
    assert!(matches!(process_frame(b"1,2,3", &calib), FrameOutcome::NotAFrame));
    let mut bad = b"1.0,0.0,0.0,500,500,500,500,500,500,500,500,500,0".to_vec();
    bad[0] = 0xC0; // never valid UTF-8
    assert!(matches!(process_frame(&bad, &calib), FrameOutcome::NotAFrame));
}

#[test]
fn normalize_maps_extremes_to_half_bounds() {
    // min -> -1/2, max -> +1/2, midpoint -> 0, strictly increasing.
    let (min, max) = (-3_000_000i64, 5_000_000i64);
    let at = |raw: i64| -> f64 {
        let q = normalize(raw, max, min).expect("non-degenerate");
        q.num as f64 / q.den as f64
    };
    assert_eq!(at(min), -0.5);
    assert_eq!(at(max), 0.5);
    assert_eq!(at(1_000_000), 0.0);
    let mut prev = at(min);
    for raw in [-2_000_000, -500_000, 0, 2_500_000, 4_999_999] {
        let cur = at(raw);
        assert!(cur > prev, "normalize must be strictly increasing");
        prev = cur;
    }
    assert!(normalize(7, 9, 9).is_none());
}

#[test]
fn history_is_bounded_and_fifo() {
    let mut h = History::new();
    assert_eq!(h.len(), 0);
    for i in 0..600i64 {
        h.push(Ping { distances: vec![Some(i)], heading: i });
        assert!(h.len() <= 500, "history may never exceed its cap");
    }
    assert_eq!(h.len(), 500);
    // The first 100 pings were evicted, oldest first.
    assert_eq!(h.get(0).heading, 100);
    assert_eq!(h.get(499).heading, 599);
    for i in 0..499 {
        assert!(h.get(i).heading < h.get(i + 1).heading, "order must be FIFO");
    }
    h.clear();
    assert_eq!(h.len(), 0);
}

#[test]
fn history_below_capacity_keeps_everything() {
    let mut h = History::new();
    for i in 0..42i64 {
        h.push(Ping { distances: Vec::new(), heading: i });
    }
    assert_eq!(h.len(), 42);
    assert_eq!(h.get(0).heading, 0);
    assert_eq!(h.get(41).heading, 41);
}
