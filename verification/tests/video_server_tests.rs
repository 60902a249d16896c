use egorec::format::FileHeader;
use egorec::video_server::{egorec_to_mp4, parse_range_header};
use egorec::writer::EgorecWriter;

/// A thousand times the footer's frame rate, rounded in f64 as the viewer does.
fn timescale(file: &[u8]) -> u32 {
    if file.len() < 36 {
        return 30000;
    }
    let n = file.len();
    let frames = u64::from_le_bytes(file[n - 20..n - 12].try_into().unwrap());
    let duration_us = u64::from_le_bytes(file[n - 12..n - 4].try_into().unwrap());
    let duration_s = duration_us as f64 / 1_000_000.0;
    let fps = if duration_s > 0.0 && frames > 0 { frames as f64 / duration_s } else { 30.0 };
    (fps * 1000.0).round() as u32
}


fn make_keyframe_h264() -> Vec<u8> {
    let mut data = Vec::new();
    data.extend_from_slice(&[0x00, 0x00, 0x00, 0x01]);
    data.extend_from_slice(&[0x67, 0x42, 0xC0, 0x1E, 0xD9, 0x00, 0xA0, 0x47, 0xFE, 0x88]);
    data.extend_from_slice(&[0x00, 0x00, 0x00, 0x01]);
    data.extend_from_slice(&[0x68, 0xCE, 0x38, 0x80]);
    data.extend_from_slice(&[0x00, 0x00, 0x00, 0x01]);
    data.extend_from_slice(&[0x65, 0x88, 0x80, 0x40, 0x00, 0xFF, 0xAA, 0x55]);
    data
}

fn make_pframe_h264() -> Vec<u8> {
    let mut data = Vec::new();
    data.extend_from_slice(&[0x00, 0x00, 0x00, 0x01]);
    data.extend_from_slice(&[0x41, 0x9A, 0x24, 0x6C, 0x41, 0xFF]);
    data
}

fn test_header(rgb_codec: u8) -> FileHeader {
    FileHeader {
        magic: vec![b'E', b'G', b'O', b'R', b'E', b'C', 0x02, 0x00],
        header_size: 472,
        flags: 0,
        serial_number: vec![0; 32],
        depth_scale: 0.001f32.to_bits(),
        depth_width: 0,
        depth_height: 0,
        depth_fx: 0,
        depth_fy: 0,
        depth_ppx: 0,
        depth_ppy: 0,
        depth_distortion_model: 0,
        depth_distortion_coeffs: vec![0; 5],
        color_width: 640,
        color_height: 480,
        color_fx: 600.0f32.to_bits(),
        color_fy: 600.0f32.to_bits(),
        color_ppx: 320.0f32.to_bits(),
        color_ppy: 240.0f32.to_bits(),
        color_distortion_model: 0,
        color_distortion_coeffs: vec![0; 5],
        extrinsic_rotation: vec![1.0f32.to_bits(), 0, 0, 0, 1.0f32.to_bits(), 0, 0, 0, 1.0f32.to_bits()],
        extrinsic_translation: vec![0; 3],
        session_name: vec![0; 128],
        start_timestamp_us: 0,
        usb_type: vec![0; 8],
        rgb_codec,
        depth_codec: 0,
        rgb_quality: 23,
        zstd_level: 3,
        reserved: vec![0; 128],
    }
}

fn create_test_egorec(num_frames: u32, fps: u32) -> Vec<u8> {
    let mut writer = EgorecWriter::create(&test_header(2));
    let frame_duration_us = 1_000_000 / fps as u64;
    for i in 0..num_frames {
        let is_keyframe = i % fps == 0;
        let h264_data = if is_keyframe { make_keyframe_h264() } else { make_pframe_h264() };
        writer.write_frame(i as u64 * frame_duration_us, i as u64, is_keyframe, &h264_data, &[]);
    }
    writer.finalize()
}

fn be32(data: &[u8], at: usize) -> u32 {
    u32::from_be_bytes([data[at], data[at + 1], data[at + 2], data[at + 3]])
}

fn find_box(data: &[u8], target: &[u8; 4]) -> Option<usize> {
    find_box_recursive(data, target, 0, data.len())
}

fn find_box_recursive(data: &[u8], target: &[u8; 4], start: usize, end: usize) -> Option<usize> {
    let mut offset = start;
    while offset + 8 <= end {
        let size = be32(data, offset) as usize;
        if size < 8 || offset + size > end {
            break;
        }
        let box_type = &data[offset + 4..offset + 8];
        if box_type == target {
            return Some(offset);
        }
        let containers: &[&[u8]] = &[b"moov", b"trak", b"mdia", b"minf", b"stbl", b"dinf"];
        if containers.iter().any(|c| box_type == *c) {
            if let Some(found) = find_box_recursive(data, target, offset + 8, offset + size) {
                return Some(found);
            }
        }
        offset += size;
    }
    None
}

#[test]
fn video_server_egorec_to_mp4_produces_valid_mp4() {
    let egorec = create_test_egorec(90, 30);
    let mp4 = egorec_to_mp4(&egorec, timescale(&egorec)).unwrap();
    assert_eq!(&mp4[4..8], b"ftyp");
    let mut offset = 0;
    let mut found_ftyp = false;
    let mut found_moov = false;
    let mut found_mdat = false;
    while offset < mp4.len() {
        let size = be32(&mp4, offset) as usize;
        let box_type = &mp4[offset + 4..offset + 8];
        match box_type {
            b"ftyp" => found_ftyp = true,
            b"moov" => found_moov = true,
            b"mdat" => found_mdat = true,
            _ => panic!("Unexpected box: {:?}", std::str::from_utf8(box_type)),
        }
        assert!(size >= 8);
        offset += size;
    }
    assert_eq!(offset, mp4.len(), "Box sizes don't sum to file size");
    assert!(found_ftyp, "Missing ftyp");
    assert!(found_moov, "Missing moov");
    assert!(found_mdat, "Missing mdat");
}

#[test]
fn video_server_egorec_to_mp4_keyframes_match() {
    let egorec = create_test_egorec(60, 30);
    let mp4 = egorec_to_mp4(&egorec, timescale(&egorec)).unwrap();
    let stss_pos = find_box(&mp4, b"stss").expect("stss box not found");
    let entry_count_offset = stss_pos + 8 + 4;
    assert_eq!(be32(&mp4, entry_count_offset), 2, "Expected 2 keyframes (at frame 0 and 30)");
    assert_eq!(be32(&mp4, entry_count_offset + 4), 1);
    assert_eq!(be32(&mp4, entry_count_offset + 8), 31);
}

#[test]
fn range_header_parsing() {
    assert_eq!(parse_range_header("bytes=0-499", 1000), Some((0, 499)));
    assert_eq!(parse_range_header("bytes=500-", 1000), Some((500, 999)));
    assert_eq!(parse_range_header("bytes=0-0", 1000), Some((0, 0)));
    assert_eq!(parse_range_header("bytes=999-999", 1000), Some((999, 999)));
    assert_eq!(parse_range_header("bytes=1000-", 1000), None);
    assert_eq!(parse_range_header("bytes=500-200", 1000), None);
    assert_eq!(parse_range_header("notbytes=0-10", 1000), None);
}

#[test]
fn range_header_edge_cases() {
    // The end is clamped to the last byte.
    assert_eq!(parse_range_header("bytes=10-5000", 1000), Some((10, 999)));
    // An explicit plus sign is accepted, as `u64::from_str` does.
    assert_eq!(parse_range_header("bytes=+5-+7", 1000), Some((5, 7)));
    // Missing start, missing dash, junk and empty resources.
    assert_eq!(parse_range_header("bytes=-5", 1000), None);
    assert_eq!(parse_range_header("bytes=5", 1000), None);
    assert_eq!(parse_range_header("bytes=a-5", 1000), None);
    assert_eq!(parse_range_header("bytes=0-", 0), None);
    assert_eq!(parse_range_header("bytes=99999999999999999999-", 1000), None);
}

#[test]
fn streaming_conversion_errors() {
    assert_eq!(egorec_to_mp4(&[0u8; 10], timescale(&[0u8; 10])).unwrap_err(), "read header: failed to fill whole buffer");
    let mut writer = EgorecWriter::create(&test_header(1));
    writer.write_frame(0, 0, true, &make_keyframe_h264(), &[]);
    let mjpeg = writer.finalize();
    assert_eq!(egorec_to_mp4(&mjpeg, timescale(&mjpeg)).unwrap_err(), "Not H.264 \u{2014} not streamable");
    let empty = EgorecWriter::create(&test_header(2)).finalize();
    assert_eq!(egorec_to_mp4(&empty, timescale(&empty)).unwrap_err(), "No frames in file");
    let mut writer = EgorecWriter::create(&test_header(2));
    writer.write_frame(0, 0, false, &make_pframe_h264(), &[]);
    let no_sps = writer.finalize();
    assert_eq!(egorec_to_mp4(&no_sps, timescale(&no_sps)).unwrap_err(), "No SPS found in H.264 stream");
}

#[test]
fn streaming_conversion_keeps_trailing_data() {
    let mut writer = EgorecWriter::create(&test_header(2));
    writer.write_frame(0, 0, true, &make_keyframe_h264(), &[]);
    let mut file = writer.finalize();
    // Declare no index entries beyond the first and move the index back by
    // inserting an extra P-frame NAL between the frame and the index.
    let footer_start = file.len() - 36;
    let index_offset = u64::from_le_bytes(file[footer_start + 4..footer_start + 12].try_into().unwrap()) as usize;
    let trailing = make_pframe_h264();
    let mut patched = file[..index_offset].to_vec();
    patched.extend_from_slice(&trailing);
    patched.extend_from_slice(&file[index_offset..footer_start]);
    let mut footer = file[footer_start..].to_vec();
    footer[4..12].copy_from_slice(&((index_offset + trailing.len()) as u64).to_le_bytes());
    patched.extend_from_slice(&footer);
    file = patched;
    let mp4 = egorec_to_mp4(&file, timescale(&file)).unwrap();
    let stsz = find_box(&mp4, b"stsz").expect("stsz");
    assert_eq!(be32(&mp4, stsz + 16), 2);
}
