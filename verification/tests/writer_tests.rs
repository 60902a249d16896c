use egorec::convert::egorec_to_mp4;
use egorec::format::{FileFooter, FileHeader, IndexEntry, FOOTER_MAGIC, INDEX_MAGIC};
use egorec::scanner::{EgorecScanner, FrameInfo};
use egorec::writer::EgorecWriter;

/// A thousand times the footer's frame rate, rounded in f64 as the converter does.
fn timescale(file: &[u8]) -> u32 {
    if file.len() < 36 {
        return 30000;
    }
    let n = file.len();
    let frames = u64::from_le_bytes(file[n - 20..n - 12].try_into().unwrap());
    let duration_us = u64::from_le_bytes(file[n - 12..n - 4].try_into().unwrap());
    let duration_s = duration_us as f64 / 1_000_000.0;
    let fps = if duration_s > 0.0 { frames as f64 / duration_s } else { 30.0 };
    (fps * 1000.0).round() as u32
}


fn header(rgb_codec: u8) -> FileHeader {
    FileHeader {
        magic: vec![b'E', b'G', b'O', b'R', b'E', b'C', 0x02, 0x00],
        header_size: 472,
        flags: 0,
        serial_number: vec![0; 32],
        depth_scale: 0,
        depth_width: 0,
        depth_height: 0,
        depth_fx: 0,
        depth_fy: 0,
        depth_ppx: 0,
        depth_ppy: 0,
        depth_distortion_model: 0,
        depth_distortion_coeffs: vec![0; 5],
        color_width: 320,
        color_height: 240,
        color_fx: 0,
        color_fy: 0,
        color_ppx: 0,
        color_ppy: 0,
        color_distortion_model: 0,
        color_distortion_coeffs: vec![0; 5],
        extrinsic_rotation: vec![0; 9],
        extrinsic_translation: vec![0; 3],
        session_name: vec![0; 128],
        start_timestamp_us: 0,
        usb_type: vec![0; 8],
        rgb_codec,
        depth_codec: 0,
        rgb_quality: 23,
        zstd_level: 3,
        reserved: vec![0; 128],
    }
}

fn keyframe() -> Vec<u8> {
    vec![0, 0, 0, 1, 0x67, 0x42, 0, 0, 0, 1, 0x68, 0xCE, 0, 0, 0, 1, 0x65, 0x88]
}

#[test]
fn written_file_layout() {
    let mut w = EgorecWriter::create(&header(2));
    w.write_frame(10, 0, true, &[1, 2, 3], &[4, 5]);
    w.write_frame(25, 1, false, &[6], &[]);
    let file = w.finalize();
    // header + two blocks + two index entries + footer
    assert_eq!(file.len(), 472 + (36 + 5) + (36 + 1) + 2 * 24 + 36);
    let footer = FileFooter::read_from(&file, file.len() - 36).unwrap();
    assert_eq!(footer.index_magic, INDEX_MAGIC);
    assert_eq!(footer.footer_magic, FOOTER_MAGIC);
    assert_eq!(footer.index_offset, 472 + 41 + 37);
    assert_eq!(footer.index_entry_count, 2);
    assert_eq!(footer.total_frames, 2);
    assert_eq!(footer.total_duration_us, 15);
    let e0 = IndexEntry::read_from(&file, footer.index_offset as usize).unwrap();
    let e1 = IndexEntry::read_from(&file, footer.index_offset as usize + 24).unwrap();
    assert_eq!((e0.timestamp_us, e0.file_offset, e0.frame_number), (10, 472, 0));
    assert_eq!((e1.timestamp_us, e1.file_offset, e1.frame_number), (25, 513, 1));
    assert_eq!(&file[472 + 36..472 + 39], &[1, 2, 3]);
}

#[test]
fn duration_saturates_when_timestamps_go_back() {
    let mut w = EgorecWriter::create(&header(2));
    w.write_frame(100, 0, true, &[1], &[]);
    w.write_frame(40, 1, false, &[1], &[]);
    let file = w.finalize();
    let footer = FileFooter::read_from(&file, file.len() - 36).unwrap();
    assert_eq!(footer.total_duration_us, 0);
}

#[test]
fn written_recording_converts() {
    let mut w = EgorecWriter::create(&header(2));
    for i in 0..4 {
        w.write_frame(i * 33_333, i, i == 0, &keyframe(), &[]);
    }
    let file = w.finalize();
    let mp4 = egorec_to_mp4(&file, timescale(&file)).unwrap();
    assert_eq!(&mp4[4..8], b"ftyp");
}

#[test]
fn copy_span_moves_blocks_and_rebases_offsets() {
    let mut src = EgorecWriter::create(&header(2));
    src.write_frame(0, 0, true, &[1, 1], &[]);
    src.write_frame(100, 1, false, &[2, 2, 2], &[7]);
    src.write_frame(200, 2, false, &[3], &[]);
    let source = src.finalize();
    let infos = vec![
        FrameInfo {
            frame_number: 1,
            timestamp_us: 100,
            rgb_compressed_size: 3,
            depth_compressed_size: 1,
            file_offset: 472 + 38,
            block_size: 40,
            is_expected_keyframe: false,
        },
        FrameInfo {
            frame_number: 2,
            timestamp_us: 200,
            rgb_compressed_size: 1,
            depth_compressed_size: 0,
            file_offset: 472 + 38 + 40,
            block_size: 37,
            is_expected_keyframe: false,
        },
    ];
    let mut dst = EgorecWriter::create(&header(2));
    dst.copy_span(&source, &infos);
    let clip = dst.finalize();
    assert_eq!(&clip[472..472 + 77], &source[510..587]);
    let footer = FileFooter::read_from(&clip, clip.len() - 36).unwrap();
    assert_eq!(footer.total_frames, 2);
    assert_eq!(footer.total_duration_us, 100);
    let e1 = IndexEntry::read_from(&clip, footer.index_offset as usize + 24).unwrap();
    assert_eq!(e1.file_offset, 472 + 40);
    assert!(EgorecScanner::validate(&clip).valid);
}

#[test]
fn copied_span_equals_rewritten_frames() {
    let h = header(2);
    let frames: Vec<(u64, u64, bool, Vec<u8>, Vec<u8>)> = vec![
        (1000, 0, true, vec![0, 0, 0, 1, 0x65], vec![1, 2]),
        (2000, 1, false, vec![0, 0, 0, 1, 0x41], vec![]),
        (3000, 2, false, vec![9], vec![3]),
    ];
    let mut w = EgorecWriter::create(&h);
    for f in &frames {
        w.write_frame(f.0, f.1, f.2, &f.3, &f.4);
    }
    let source = w.finalize();
    let scan = EgorecScanner::scan_frames(&source).unwrap();
    let mut copy = EgorecWriter::create(&h);
    copy.copy_span(&source, &scan.frame_infos[1..3]);
    let copied = copy.finalize();
    let mut fresh = EgorecWriter::create(&h);
    for f in &frames[1..3] {
        fresh.write_frame(f.0, f.1, f.2, &f.3, &f.4);
    }
    assert_eq!(copied, fresh.finalize());
}
