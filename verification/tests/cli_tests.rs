use egorec::cli::{parse_u32, parse_u64, usage};
use egorec::clip::frame_range_from_timestamps;

#[test]
fn parse_numbers_like_from_str() {
    assert_eq!(parse_u32("30000", "timescale"), Ok(30000));
    assert_eq!(parse_u32("+7", "timescale"), Ok(7));
    assert_eq!(parse_u32("4294967295", "x"), Ok(u32::MAX));
    assert_eq!(parse_u64("18446744073709551615", "t"), Ok(u64::MAX));
    assert_eq!(parse_u32("", "timescale"), Err("invalid timescale: cannot parse integer from empty string".to_string()));
    assert_eq!(parse_u32("12a", "sample_delta"), Err("invalid sample_delta: invalid digit found in string".to_string()));
    assert_eq!(parse_u32("-1", "x"), Err("invalid x: invalid digit found in string".to_string()));
    assert_eq!(parse_u32("+", "x"), Err("invalid x: invalid digit found in string".to_string()));
    assert_eq!(parse_u32("4294967296", "x"), Err("invalid x: number too large to fit in target type".to_string()));
    assert_eq!(parse_u64("99999999999999999999x", "t"), Err("invalid t: number too large to fit in target type".to_string()));
    for s in ["0", "+0", "007", "123456789", "4294967295", "4294967296", "", "-", "+", "1_000", " 1"] {
        let ours = parse_u32(s, "f");
        match s.parse::<u32>() {
            Ok(v) => assert_eq!(ours, Ok(v)),
            Err(e) => assert_eq!(ours, Err(format!("invalid f: {}", e))),
        }
    }
}

#[test]
fn usage_names_the_program() {
    let u = usage("egorec-mp4");
    assert_eq!(
        u,
        "Usage:\n  egorec-mp4 <input.egorec> <output.mp4>\n  egorec-mp4 mp4 <input.egorec> <output.mp4>\n  egorec-mp4 init <input.egorec> <output.mp4> <timescale> <sample_delta>\n  egorec-mp4 segment <input.egorec> <output.m4s> <timescale> <sample_delta> <sequence_number> <base_decode_time>"
    );
}

#[test]
fn frame_range_picks_expected_span() {
    let timestamps = [1_000_000, 1_100_000, 1_200_000, 1_300_000, 1_400_000];
    // 0.05 s and 0.25 s after the start.
    let (start, end) = frame_range_from_timestamps(&timestamps, 1_000_000, 50_000, 250_000).unwrap();
    assert_eq!((start, end), (1, 3));
}

#[test]
fn frame_range_rejects_empty_window() {
    let timestamps = [1_000_000, 1_100_000];
    // 0.3 s and 0.31 s after the start.
    let err = frame_range_from_timestamps(&timestamps, 1_000_000, 300_000, 310_000).unwrap_err();
    assert!(err.to_string().contains("beyond the end"));
}

#[test]
fn frame_range_other_errors() {
    assert_eq!(frame_range_from_timestamps(&[], 0, 0, 1).unwrap_err(), "recording has no frames");
    let ts = [10, 20, 30];
    assert_eq!(
        frame_range_from_timestamps(&ts, 0, 12, 15).unwrap_err(),
        "requested range resolves to an empty frame span"
    );
    assert_eq!(frame_range_from_timestamps(&ts, 0, 0, u64::MAX), Ok((0, 3)));
    assert_eq!(frame_range_from_timestamps(&ts, u64::MAX, 1, 2).unwrap_err(), "requested start is beyond the end of the recording");
}
