use egorec::format::{
    FileFooter, FileHeader, FrameBlockHeader, IndexEntry, FILE_HEADER_SIZE, FOOTER_MAGIC, FRAME_MAGIC,
    IMU_SAMPLE_SIZE, INDEX_MAGIC,
};

fn fixed(text: &str, width: usize) -> Vec<u8> {
    let mut v = text.as_bytes().to_vec();
    v.resize(width, 0);
    v
}

fn sample_header() -> FileHeader {
    FileHeader {
        magic: vec![b'E', b'G', b'O', b'R', b'E', b'C', 0x02, 0x00],
        header_size: 472,
        flags: 1,
        serial_number: fixed("SERIAL-123", 32),
        depth_scale: 0.001f32.to_bits(),
        depth_width: 848,
        depth_height: 480,
        depth_fx: 421.5f32.to_bits(),
        depth_fy: 421.5f32.to_bits(),
        depth_ppx: 424.0f32.to_bits(),
        depth_ppy: 240.0f32.to_bits(),
        depth_distortion_model: 4,
        depth_distortion_coeffs: vec![0; 5],
        color_width: 1280,
        color_height: 720,
        color_fx: 900.0f32.to_bits(),
        color_fy: 900.0f32.to_bits(),
        color_ppx: 640.0f32.to_bits(),
        color_ppy: 360.0f32.to_bits(),
        color_distortion_model: 2,
        color_distortion_coeffs: vec![1, 2, 3, 4, 5],
        extrinsic_rotation: vec![1.0f32.to_bits(), 0, 0, 0, 1.0f32.to_bits(), 0, 0, 0, 1.0f32.to_bits()],
        extrinsic_translation: vec![7, 8, 9],
        session_name: fixed("session-001", 128),
        start_timestamp_us: 1_700_000_000_000_000,
        usb_type: fixed("3.2", 8),
        rgb_codec: 2,
        depth_codec: 2,
        rgb_quality: 23,
        zstd_level: 3,
        reserved: vec![0; 128],
    }
}

#[test]
fn test_frame_block_header_size() {
    assert_eq!(FrameBlockHeader::SIZE, 36);
}

#[test]
fn test_imu_sample_size() {
    assert_eq!(IMU_SAMPLE_SIZE, 32);
}

#[test]
fn test_index_entry_size() {
    assert_eq!(IndexEntry::SIZE, 24);
}

#[test]
fn test_file_footer_size() {
    assert_eq!(FileFooter::SIZE, 36);
}

#[test]
fn file_header_round_trips_through_bytes() {
    let h = sample_header();
    let mut out = Vec::new();
    h.write_to(&mut out);
    assert_eq!(out.len(), FILE_HEADER_SIZE);
    assert_eq!(&out[0..8], b"EGOREC\x02\x00");
    // A prefix before the header must not disturb the read.
    let mut shifted = vec![0xAAu8; 5];
    shifted.extend_from_slice(&out);
    let back = FileHeader::read_from(&shifted, 5).unwrap();
    assert_eq!(back.header_size, 472);
    assert_eq!(back.color_width, 1280);
    assert_eq!(back.color_height, 720);
    assert_eq!(back.depth_fx, 421.5f32.to_bits());
    assert_eq!(back.color_distortion_coeffs, vec![1, 2, 3, 4, 5]);
    assert_eq!(back.extrinsic_translation, vec![7, 8, 9]);
    assert_eq!(back.start_timestamp_us, 1_700_000_000_000_000);
    assert_eq!(back.rgb_codec, 2);
    assert_eq!(back.zstd_level, 3);
    assert_eq!(back.session_name, fixed("session-001", 128));
    assert!(back.has_imu());
}

#[test]
fn file_header_read_needs_all_bytes() {
    let h = sample_header();
    let mut out = Vec::new();
    h.write_to(&mut out);
    out.pop();
    assert!(FileHeader::read_from(&out, 0).is_none());
}

#[test]
fn header_text_fields_stop_at_nul() {
    let h = sample_header();
    assert_eq!(h.session_name_str(), "session-001");
    assert_eq!(h.serial_number_str(), "SERIAL-123");
    assert_eq!(h.usb_type_str(), "3.2");
    let mut bad = sample_header();
    bad.session_name = vec![0xFF; 128];
    assert_eq!(bad.session_name_str(), "");
}

#[test]
fn block_header_entry_and_footer_round_trip() {
    let b = FrameBlockHeader {
        magic: FRAME_MAGIC,
        block_size: 36 + 10 + 4,
        timestamp_us: 33_333,
        frame_number: 1,
        rgb_compressed_size: 10,
        depth_compressed_size: 4,
        imu_sample_count: 2,
        flags: 1,
    };
    let e = IndexEntry { timestamp_us: 33_333, file_offset: 508, frame_number: 1 };
    let f = FileFooter {
        index_magic: INDEX_MAGIC,
        index_offset: 1000,
        index_entry_count: 3,
        total_frames: 3,
        total_duration_us: 66_666,
        footer_magic: FOOTER_MAGIC,
    };
    let mut out = Vec::new();
    b.write_to(&mut out);
    e.write_to(&mut out);
    f.write_to(&mut out);
    assert_eq!(out.len(), 36 + 24 + 36);
    assert_eq!(&out[0..4], b"EMRF");
    let b2 = FrameBlockHeader::read_from(&out, 0).unwrap();
    assert_eq!(b2.block_size, 50);
    assert_eq!(b2.imu_sample_count, 2);
    let e2 = IndexEntry::read_from(&out, 36).unwrap();
    assert_eq!(e2.file_offset, 508);
    let f2 = FileFooter::read_from(&out, 60).unwrap();
    assert_eq!(f2.index_offset, 1000);
    assert_eq!(f2.total_duration_us, 66_666);
    assert_eq!(f2.footer_magic, FOOTER_MAGIC);
    assert!(FileFooter::read_from(&out, 61).is_none());
}
