use egorec::convert::{egorec_to_fmp4_init, egorec_to_fmp4_segment, egorec_to_mp4, ConvertError};

/// A thousand times the footer's frame rate, rounded in f64 as the converter does.
fn timescale(file: &[u8]) -> u32 {
    if file.len() < 36 {
        return 30000;
    }
    let n = file.len();
    let frames = u64::from_le_bytes(file[n - 20..n - 12].try_into().unwrap());
    let duration_us = u64::from_le_bytes(file[n - 12..n - 4].try_into().unwrap());
    let duration_s = duration_us as f64 / 1_000_000.0;
    let fps = if duration_s > 0.0 { frames as f64 / duration_s } else { 30.0 };
    (fps * 1000.0).round() as u32
}


const FILE_HEADER_SIZE: usize = 472;
const FRAME_MAGIC: u32 = 0x46524D45;
const INDEX_MAGIC: u32 = 0x58444E49;
const FOOTER_MAGIC: u32 = 0x454E4F44;
const STREAMABLE_RGB_CODEC: u8 = 2;

fn make_keyframe_h264() -> Vec<u8> {
    let mut data = Vec::new();
    data.extend_from_slice(&[0x00, 0x00, 0x00, 0x01]);
    data.extend_from_slice(&[0x67, 0x42, 0xC0, 0x1E, 0xD9, 0x00, 0xA0, 0x47, 0xFE, 0x88]);
    data.extend_from_slice(&[0x00, 0x00, 0x00, 0x01]);
    data.extend_from_slice(&[0x68, 0xCE, 0x38, 0x80]);
    data.extend_from_slice(&[0x00, 0x00, 0x00, 0x01]);
    data.extend_from_slice(&[0x65, 0x88, 0x80, 0x40, 0x00, 0xFF, 0xAA, 0x55]);
    data
}

fn make_pframe_h264() -> Vec<u8> {
    let mut data = Vec::new();
    data.extend_from_slice(&[0x00, 0x00, 0x00, 0x01]);
    data.extend_from_slice(&[0x41, 0x9A, 0x24, 0x6C, 0x41, 0xFF]);
    data
}

fn write_fixed_string(out: &mut Vec<u8>, value: &str, width: usize) {
    let bytes = value.as_bytes();
    let copy_len = bytes.len().min(width.saturating_sub(1));
    out.extend_from_slice(&bytes[..copy_len]);
    out.extend(std::iter::repeat(0u8).take(width - copy_len));
}

fn header_bytes(rgb_codec: u8) -> Vec<u8> {
    let mut bytes = Vec::new();
    bytes.extend_from_slice(&[b'E', b'G', b'O', b'R', b'E', b'C', 0x02, 0x00]);
    bytes.extend_from_slice(&(FILE_HEADER_SIZE as u32).to_le_bytes());
    bytes.extend_from_slice(&0u32.to_le_bytes());
    write_fixed_string(&mut bytes, "SERIAL-123", 32);
    bytes.extend_from_slice(&0.001f32.to_le_bytes());
    bytes.extend_from_slice(&0u32.to_le_bytes());
    bytes.extend_from_slice(&0u32.to_le_bytes());
    for _ in 0..4 {
        bytes.extend_from_slice(&0.0f32.to_le_bytes());
    }
    bytes.extend_from_slice(&0u32.to_le_bytes());
    for _ in 0..5 {
        bytes.extend_from_slice(&0.0f32.to_le_bytes());
    }
    bytes.extend_from_slice(&640u32.to_le_bytes());
    bytes.extend_from_slice(&480u32.to_le_bytes());
    bytes.extend_from_slice(&600.0f32.to_le_bytes());
    bytes.extend_from_slice(&600.0f32.to_le_bytes());
    bytes.extend_from_slice(&320.0f32.to_le_bytes());
    bytes.extend_from_slice(&240.0f32.to_le_bytes());
    bytes.extend_from_slice(&0u32.to_le_bytes());
    for _ in 0..(5 + 9 + 3) {
        bytes.extend_from_slice(&0.0f32.to_le_bytes());
    }
    write_fixed_string(&mut bytes, "session-001", 128);
    bytes.extend_from_slice(&0u64.to_le_bytes());
    write_fixed_string(&mut bytes, "USB3", 8);
    bytes.push(rgb_codec);
    bytes.push(0);
    bytes.push(23);
    bytes.push(3);
    bytes.extend(std::iter::repeat(0u8).take(128));
    assert_eq!(bytes.len(), FILE_HEADER_SIZE);
    bytes
}

fn recording(frames: &[Vec<u8>], fps: u32, rgb_codec: u8) -> Vec<u8> {
    let mut bytes = header_bytes(rgb_codec);
    let frame_duration_us = 1_000_000u64 / fps as u64;
    let mut offsets = Vec::new();
    for (frame_idx, h264) in frames.iter().enumerate() {
        offsets.push(bytes.len() as u64);
        let block_size = (36 + h264.len()) as u32;
        bytes.extend_from_slice(&FRAME_MAGIC.to_le_bytes());
        bytes.extend_from_slice(&block_size.to_le_bytes());
        bytes.extend_from_slice(&(frame_idx as u64 * frame_duration_us).to_le_bytes());
        bytes.extend_from_slice(&(frame_idx as u64).to_le_bytes());
        bytes.extend_from_slice(&(h264.len() as u32).to_le_bytes());
        bytes.extend_from_slice(&0u32.to_le_bytes());
        bytes.extend_from_slice(&0u16.to_le_bytes());
        bytes.extend_from_slice(&0u16.to_le_bytes());
        bytes.extend_from_slice(h264);
    }
    let index_offset = bytes.len() as u64;
    for (frame_idx, offset) in offsets.iter().enumerate() {
        bytes.extend_from_slice(&(frame_idx as u64 * frame_duration_us).to_le_bytes());
        bytes.extend_from_slice(&offset.to_le_bytes());
        bytes.extend_from_slice(&(frame_idx as u64).to_le_bytes());
    }
    let num_frames = frames.len() as u32;
    bytes.extend_from_slice(&INDEX_MAGIC.to_le_bytes());
    bytes.extend_from_slice(&index_offset.to_le_bytes());
    bytes.extend_from_slice(&num_frames.to_le_bytes());
    bytes.extend_from_slice(&(num_frames as u64).to_le_bytes());
    bytes.extend_from_slice(&(num_frames as u64 * frame_duration_us).to_le_bytes());
    bytes.extend_from_slice(&FOOTER_MAGIC.to_le_bytes());
    bytes
}

fn create_test_egorec(num_frames: u32, fps: u32, rgb_codec: u8) -> Vec<u8> {
    let frames: Vec<Vec<u8>> = (0..num_frames)
        .map(|i| if i % fps == 0 { make_keyframe_h264() } else { make_pframe_h264() })
        .collect();
    recording(&frames, fps, rgb_codec)
}

fn create_pframe_only_egorec(num_frames: u32, fps: u32) -> Vec<u8> {
    let frames: Vec<Vec<u8>> = (0..num_frames).map(|_| make_pframe_h264()).collect();
    recording(&frames, fps, STREAMABLE_RGB_CODEC)
}

fn find_box(data: &[u8], target: &[u8; 4]) -> Option<usize> {
    find_box_recursive(data, target, 0, data.len())
}

fn find_box_recursive(data: &[u8], target: &[u8; 4], start: usize, end: usize) -> Option<usize> {
    let mut offset = start;
    while offset + 8 <= end {
        let size = u32::from_be_bytes([data[offset], data[offset + 1], data[offset + 2], data[offset + 3]])
            as usize;
        if size < 8 || offset + size > end {
            break;
        }
        let box_type = &data[offset + 4..offset + 8];
        if box_type == target {
            return Some(offset);
        }
        let containers: &[&[u8]] =
            &[b"moov", b"trak", b"mdia", b"minf", b"stbl", b"dinf", b"mvex", b"moof", b"traf"];
        if containers.iter().any(|c| box_type == *c) {
            if let Some(found) = find_box_recursive(data, target, offset + 8, offset + size) {
                return Some(found);
            }
        }
        offset += size;
    }
    None
}

fn be32(data: &[u8], at: usize) -> u32 {
    u32::from_be_bytes([data[at], data[at + 1], data[at + 2], data[at + 3]])
}

#[test]
fn convert_egorec_to_mp4_produces_valid_mp4() {
    let egorec = create_test_egorec(90, 30, STREAMABLE_RGB_CODEC);
    let mp4 = egorec_to_mp4(&egorec, timescale(&egorec)).unwrap();
    assert_eq!(&mp4[4..8], b"ftyp");
    assert!(find_box(&mp4, b"moov").is_some());
    assert!(find_box(&mp4, b"mdat").is_some());
    assert!(find_box(&mp4, b"stss").is_some());
}

#[test]
fn convert_egorec_to_mp4_keyframes_match() {
    let egorec = create_test_egorec(60, 30, STREAMABLE_RGB_CODEC);
    let mp4 = egorec_to_mp4(&egorec, timescale(&egorec)).unwrap();
    let stss_pos = find_box(&mp4, b"stss").expect("stss box not found");
    let entry_count_offset = stss_pos + 12;
    let count = be32(&mp4, entry_count_offset);
    assert_eq!(count, 2);
}

#[test]
fn egorec_to_fmp4_init_produces_fragmented_metadata() {
    let egorec = create_test_egorec(60, 30, STREAMABLE_RGB_CODEC);
    let init = egorec_to_fmp4_init(&egorec, 30_000, 1000).unwrap();
    assert_eq!(&init[4..8], b"ftyp");
    assert!(find_box(&init, b"moov").is_some());
    assert!(find_box(&init, b"mvex").is_some());
    assert!(find_box(&init, b"trex").is_some());
    assert!(find_box(&init, b"mdat").is_none());
}

#[test]
fn egorec_to_fmp4_segment_produces_media_fragment() {
    let egorec = create_test_egorec(60, 30, STREAMABLE_RGB_CODEC);
    let segment = egorec_to_fmp4_segment(&egorec, 30_000, 1000, 1, 0).unwrap();
    assert_eq!(&segment[4..8], b"moof");
    assert!(find_box(&segment, b"mfhd").is_some());
    assert!(find_box(&segment, b"tfdt").is_some());
    assert!(find_box(&segment, b"trun").is_some());
    assert!(find_box(&segment, b"mdat").is_some());
}

#[test]
fn egorec_to_mp4_rejects_unsupported_codec() {
    let egorec = create_test_egorec(10, 30, 1);
    let err = egorec_to_mp4(&egorec, timescale(&egorec)).unwrap_err();
    assert!(matches!(err, ConvertError::UnsupportedCodec(1)));
    assert_eq!(err.exit_code(), 2);
}

#[test]
fn segment_without_keyframes_succeeds() {
    let egorec = create_pframe_only_egorec(30, 30);
    assert!(egorec_to_mp4(&egorec, timescale(&egorec)).is_err());
    assert!(egorec_to_fmp4_init(&egorec, 30_000, 1000).is_err());
    let segment = egorec_to_fmp4_segment(&egorec, 30_000, 1000, 2, 30_000).unwrap();
    assert_eq!(&segment[4..8], b"moof");
    assert!(find_box(&segment, b"trun").is_some());
    assert!(find_box(&segment, b"mdat").is_some());
}

#[test]
fn mp4_timescale_is_thousand_times_frame_rate() {
    let egorec = create_test_egorec(90, 30, STREAMABLE_RGB_CODEC);
    let mp4 = egorec_to_mp4(&egorec, timescale(&egorec)).unwrap();
    let mdhd = find_box(&mp4, b"mdhd").expect("mdhd");
    // version 0 mdhd: size, type, version/flags, creation, modification, timescale
    assert_eq!(be32(&mp4, mdhd + 20), 30_000);
    let stsz = find_box(&mp4, b"stsz").expect("stsz");
    assert_eq!(be32(&mp4, stsz + 16), 90);
}

#[test]
fn conversion_errors_name_the_problem() {
    let short = vec![0u8; 100];
    match egorec_to_mp4(&short, timescale(&short)) {
        Err(ConvertError::InvalidFormat(m)) => assert_eq!(m, "read header: failed to fill whole buffer"),
        _ => panic!("expected a format error"),
    }
    let mut bad_magic = create_test_egorec(3, 30, STREAMABLE_RGB_CODEC);
    bad_magic[0] = b'X';
    match egorec_to_mp4(&bad_magic, timescale(&bad_magic)) {
        Err(ConvertError::InvalidFormat(m)) => assert_eq!(m, "invalid .egorec magic"),
        _ => panic!("expected a format error"),
    }
    let mut bad_size = create_test_egorec(3, 30, STREAMABLE_RGB_CODEC);
    bad_size[8..12].copy_from_slice(&100u32.to_le_bytes());
    match egorec_to_mp4(&bad_size, timescale(&bad_size)) {
        Err(ConvertError::InvalidFormat(m)) => assert_eq!(m, "unexpected header size: 100"),
        _ => panic!("expected a format error"),
    }
    let mut bad_frame = create_test_egorec(3, 30, STREAMABLE_RGB_CODEC);
    bad_frame[FILE_HEADER_SIZE] = 0;
    match egorec_to_mp4(&bad_frame, timescale(&bad_frame)) {
        Err(e) => {
            assert_eq!(e.exit_code(), 1);
            match e {
                ConvertError::InvalidFormat(m) => assert_eq!(m, "invalid frame magic: 0x46524D00"),
                _ => panic!("expected a format error"),
            }
        }
        Ok(_) => panic!("expected an error"),
    }
    let empty = recording(&[], 30, STREAMABLE_RGB_CODEC);
    match egorec_to_mp4(&empty, timescale(&empty)) {
        Err(ConvertError::InvalidFormat(m)) => assert_eq!(m, "no frames in file"),
        _ => panic!("expected a format error"),
    }
}

#[test]
fn conversion_error_messages() {
    assert_eq!(ConvertError::UnsupportedCodec(1).message(), "rgb_codec=1 is not browser-streamable (need 2 for H.264)");
    assert_eq!(ConvertError::Io("disk".to_string()).message(), "disk");
    assert_eq!(ConvertError::InvalidFormat("bad".to_string()).message(), "bad");
    assert_eq!(ConvertError::Io("disk".to_string()).exit_code(), 1);
}

#[test]
fn mp4_timescale_is_the_one_given() {
    let mut egorec = create_test_egorec(90, 30, STREAMABLE_RGB_CODEC);
    let n = egorec.len();
    egorec[n - 20..n - 12].copy_from_slice(&7u64.to_le_bytes());
    egorec[n - 12..n - 4].copy_from_slice(&4_480_000u64.to_le_bytes());
    // The frame rate's f64 rounding gives 1562 here, not the exact 1562.5 rounded up.
    assert_eq!(timescale(&egorec), 1562);
    let mp4 = egorec_to_mp4(&egorec, timescale(&egorec)).unwrap();
    let mdhd = find_box(&mp4, b"mdhd").expect("mdhd");
    assert_eq!(be32(&mp4, mdhd + 20), 1562);
}
