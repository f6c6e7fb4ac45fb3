use radial_realtime::codec::Reading;
use radial_realtime::codec::decode_frame;
use radial_realtime::codec::parse_line;

fn ranging_line(fields: &[&str]) -> Vec<u8> {
    fields.join(",").into_bytes()
}

fn frame_with_n_fields(n: usize) -> Vec<u8> {
    let fields: Vec<String> = (0..n).map(|i| i.to_string()).collect();
    fields.join(",").into_bytes()
}

#[test]
fn dispatch_rejects_wrong_field_counts() {
    for n in [1, 2, 12, 14, 19, 21, 25] {
        let buf = frame_with_n_fields(n);
        assert!(decode_frame(&buf).is_none(), "count {} must not decode", n);
    }
    assert!(decode_frame(b"").is_none());
    assert!(decode_frame(b"no commas here").is_none());
}

#[test]
fn dispatch_accepts_twenty_fields() {
    let buf = frame_with_n_fields(20);
    match decode_frame(&buf) {
        Some(Reading::Ranging { .. }) => {}
        other => panic!("expected ranging reading, got {:?}", other),
    }
}

#[test]
fn dispatch_accepts_thirteen_fields() {
    let buf = frame_with_n_fields(13);
    match decode_frame(&buf) {
        Some(Reading::Magnetometer { .. }) => {}
        other => panic!("expected magnetometer reading, got {:?}", other),
    }
}

#[test]
fn invalid_utf8_is_not_a_frame() {
    // 19 commas -> 20 fields, but one byte is not UTF-8.
    let mut buf = frame_with_n_fields(20);
    buf[0] = 0xFF;
    assert!(decode_frame(&buf).is_none());
}

#[test]
fn nul_padding_and_newline_are_trimmed() {
    let mut buf = ranging_line(&[
        "1.5", "123", "500", "501", "502", "503", "504", "505", "506", "507", "508", "100",
        "101", "102", "103", "104", "105", "106", "107", "0",
    ]);
    buf.push(b'\n');
    buf.extend(std::iter::repeat(0u8).take(40));
    let reading = decode_frame(&buf).expect("padded frame must decode");
    match reading {
        Reading::Ranging { heading, timestamp, .. } => {
            assert_eq!(heading, 1_500_000);
            assert_eq!(timestamp, 123);
        }
        other => panic!("expected ranging reading, got {:?}", other),
    }
}

#[test]
fn ranging_field_layout() {
    let buf = ranging_line(&[
        "2.5", "77", "500", "501", "502", "503", "504", "505", "506", "507", "508", "100",
        "101", "102", "103", "104", "105", "106", "107", "9999",
    ]);
    match decode_frame(&buf) {
        Some(Reading::Ranging { distances, strengths, heading, timestamp }) => {
            assert_eq!(heading, 2_500_000);
            assert_eq!(timestamp, 77);
            assert_eq!(distances.len(), 9);
            for (i, d) in distances.iter().enumerate() {
                assert_eq!(*d, Some((500 + i as i64) * 1_000_000));
            }
            assert_eq!(strengths.len(), 8);
            for (i, s) in strengths.iter().enumerate() {
                assert_eq!(*s, Some((100 + i as i64) * 1_000_000));
            }
        }
        other => panic!("expected ranging reading, got {:?}", other),
    }
}

#[test]
fn unit_conversion_millimeters_to_meters() {
    // A raw integer distance of d millimeters decodes to d * 1_000_000
    // nanometers, exactly d / 1000.0 meters.
    let buf = ranging_line(&[
        "0", "0", "500", "0", "0", "0", "0", "0", "0", "0", "0", "0", "0", "0", "0", "0", "0",
        "0", "0", "0",
    ]);
    match decode_frame(&buf) {
        Some(Reading::Ranging { distances, .. }) => {
            let nanos = distances[0].expect("numeric field must parse");
            assert_eq!(nanos, 500_000_000);
            let meters = nanos as f64 / 1e9;
            assert_eq!(meters, 500.0 / 1000.0);
        }
        other => panic!("expected ranging reading, got {:?}", other),
    }
}

#[test]
fn sentinel_substitution_does_not_abort_frame() {
    let buf = ranging_line(&[
        "bad", "bad", "garbage", "501", "502", "503", "504", "505", "506", "507", "508", "100",
        "101", "102", "103", "104", "105", "106", "107", "0",
    ]);
    match decode_frame(&buf) {
        Some(Reading::Ranging { distances, heading, timestamp, .. }) => {
            // The corrupt distance field is flagged, its neighbours decode.
            assert_eq!(distances[0], None);
            assert_eq!(distances[1], Some(501_000_000));
            // Corrupt heading and timestamp fields decode to zero.
            assert_eq!(heading, 0);
            assert_eq!(timestamp, 0);
        }
        other => panic!("expected ranging reading, got {:?}", other),
    }
}

#[test]
fn numeric_grammar_edge_cases() {
    let buf = ranging_line(&[
        "-2.5", "4294967295", "5.", ".5", "-", "0.1234567", "1.2.3", "1234567890", "-0.000001",
        "0", "0", "0", "0", "0", "0", "0", "0", "0", "0", "0",
    ]);
    match decode_frame(&buf) {
        Some(Reading::Ranging { distances, heading, timestamp, .. }) => {
            assert_eq!(heading, -2_500_000);
            assert_eq!(timestamp, u32::MAX);
            assert_eq!(distances[0], Some(5_000_000)); // "5."
            assert_eq!(distances[1], Some(500_000)); // ".5"
            assert_eq!(distances[2], None); // "-" alone
            assert_eq!(distances[3], Some(123_456)); // seventh digit truncated
            assert_eq!(distances[4], None); // two dots
            assert_eq!(distances[5], None); // ten integer digits
            assert_eq!(distances[6], Some(-1)); // one negative micro-unit
        }
        other => panic!("expected ranging reading, got {:?}", other),
    }
}

#[test]
fn timestamp_overflow_becomes_zero() {
    let buf = ranging_line(&[
        "0", "4294967296", "0", "0", "0", "0", "0", "0", "0", "0", "0", "0", "0", "0", "0",
        "0", "0", "0", "0", "0",
    ]);
    match decode_frame(&buf) {
        Some(Reading::Ranging { timestamp, .. }) => assert_eq!(timestamp, 0),
        other => panic!("expected ranging reading, got {:?}", other),
    }
}

#[test]
fn magnetometer_field_layout() {
    let buf = ranging_line(&[
        "1.25", "-0.5", "9.75", "500", "501", "502", "503", "504", "505", "506", "507", "508",
        "509",
    ]);
    match decode_frame(&buf) {
        Some(Reading::Magnetometer { distances, mag_x, mag_y, mag_z }) => {
            assert_eq!(mag_x, 1_250_000);
            assert_eq!(mag_y, -500_000);
            assert_eq!(mag_z, 9_750_000);
            assert_eq!(distances.len(), 9);
            assert_eq!(distances[0], Some(500_000_000));
            assert_eq!(distances[8], Some(508_000_000));
        }
        other => panic!("expected magnetometer reading, got {:?}", other),
    }
}

#[test]
fn parse_line_accepts_only_ranging_frames() {
    let ranging = frame_with_n_fields(20);
    let (distances, strengths, _heading, _timestamp) =
        parse_line(&ranging).expect("20 fields must parse");
    assert_eq!(distances.len(), 9);
    assert_eq!(strengths.len(), 8);
    assert!(parse_line(&frame_with_n_fields(13)).is_none());
    assert!(parse_line(&frame_with_n_fields(19)).is_none());
}

#[test]
fn utf8_multibyte_text_decodes_as_non_numeric() {
    let mut fields: Vec<String> = (0..20).map(|i| i.to_string()).collect();
    fields[2] = "m\u{e8}tre".to_string(); // valid two-byte sequence, not a numeral
    fields[3] = "\u{1F9ED}".to_string(); // valid four-byte sequence, not a numeral
    let buf = fields.join(",").into_bytes();
    match decode_frame(&buf) {
        Some(Reading::Ranging { distances, .. }) => {
            assert_eq!(distances[0], None);
            assert_eq!(distances[1], None);
            assert_eq!(distances[2], Some(4_000_000));
        }
        other => panic!("expected ranging reading, got {:?}", other),
    }
}

#[test]
fn utf8_surrogates_and_overlong_forms_are_rejected() {
    // A UTF-16 surrogate encoded as three bytes is not UTF-8.
    let mut buf = frame_with_n_fields(20);
    buf.extend([0xED, 0xA0, 0x80]);
    assert!(decode_frame(&buf).is_none());
    // An overlong two-byte encoding of '/' is not UTF-8 either.
    let mut buf = frame_with_n_fields(20);
    buf.extend([0xC0, 0xAF]);
    assert!(decode_frame(&buf).is_none());
    // A truncated multibyte sequence at the end of the buffer.
    let mut buf = frame_with_n_fields(20);
    buf.extend([0xE2, 0x82]);
    assert!(decode_frame(&buf).is_none());
}
