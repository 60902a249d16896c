use egorec::format::FileHeader;
use egorec::scanner::{compute_segments, count_p_frames, fused_mask, window_bounds, EgorecScanner, FrameInfo, ScanError};
use egorec::writer::EgorecWriter;

fn mask(pattern: &[(bool, usize)]) -> Vec<bool> {
    let mut m = Vec::new();
    for &(b, n) in pattern {
        m.extend(std::iter::repeat(b).take(n));
    }
    m
}

fn header() -> FileHeader {
    FileHeader {
        magic: vec![b'E', b'G', b'O', b'R', b'E', b'C', 0x02, 0x00],
        header_size: 472,
        flags: 0,
        serial_number: vec![0; 32],
        depth_scale: 0,
        depth_width: 0,
        depth_height: 0,
        depth_fx: 0,
        depth_fy: 0,
        depth_ppx: 0,
        depth_ppy: 0,
        depth_distortion_model: 0,
        depth_distortion_coeffs: vec![0; 5],
        color_width: 640,
        color_height: 480,
        color_fx: 0,
        color_fy: 0,
        color_ppx: 0,
        color_ppy: 0,
        color_distortion_model: 0,
        color_distortion_coeffs: vec![0; 5],
        extrinsic_rotation: vec![0; 9],
        extrinsic_translation: vec![0; 3],
        session_name: vec![0; 128],
        start_timestamp_us: 0,
        usb_type: vec![0; 8],
        rgb_codec: 2,
        depth_codec: 0,
        rgb_quality: 23,
        zstd_level: 3,
        reserved: vec![0; 128],
    }
}

#[test]
fn bursts_count_runs_at_least_min_len() {
    let m = mask(&[(true, 3), (false, 2), (true, 1), (false, 1), (true, 5)]);
    assert_eq!(EgorecScanner::count_bursts(&m, 1), 3);
    assert_eq!(EgorecScanner::count_bursts(&m, 3), 2);
    assert_eq!(EgorecScanner::count_bursts(&m, 6), 0);
    assert_eq!(EgorecScanner::count_bursts(&[], 1), 0);
    // With no minimum every inactive frame closes a (possibly empty) run.
    assert_eq!(EgorecScanner::count_bursts(&[false, false], 0), 3);
}

#[test]
fn segments_snap_to_keyframe_grid() {
    // 300 frames, active 100..160.
    let m = mask(&[(false, 100), (true, 60), (false, 140)]);
    let segs = compute_segments(&m, 30, 30, 15);
    assert_eq!(segs.len(), 1);
    assert_eq!(segs[0].start_frame, 60);
    assert_eq!(segs[0].end_frame, 180);
    assert_eq!(segs[0].total_frames, 120);
    assert_eq!(segs[0].active_frames, 60);
}

#[test]
fn segments_merge_short_gaps_and_drop_short_runs() {
    // Two runs separated by a 10-frame gap merge; a 5-frame run is dropped.
    let m = mask(&[(true, 40), (false, 10), (true, 40), (false, 200), (true, 5), (false, 105)]);
    let segs = compute_segments(&m, 20, 30, 0);
    assert_eq!(segs.len(), 1);
    assert_eq!(segs[0].start_frame, 0);
    assert_eq!(segs[0].end_frame, 90);
    assert_eq!(segs[0].active_frames, 80);
    let none = compute_segments(&m, 20, 100, 0);
    assert!(none.is_empty());
}

#[test]
fn segments_that_overlap_after_snapping_merge() {
    // Runs 0..40 and 70..100 stay apart (gap 30 >= 20) but overlap once padded.
    let m = mask(&[(true, 40), (false, 30), (true, 30), (false, 20)]);
    let segs = compute_segments(&m, 20, 10, 10);
    assert_eq!(segs.len(), 1);
    assert_eq!(segs[0].start_frame, 0);
    assert_eq!(segs[0].end_frame, 120);
    assert_eq!(segs[0].active_frames, 70);
}

#[test]
fn segments_end_at_the_last_frame() {
    let m = mask(&[(false, 50), (true, 45)]);
    let segs = compute_segments(&m, 10, 10, 0);
    assert_eq!(segs.len(), 1);
    assert_eq!(segs[0].start_frame, 30);
    assert_eq!(segs[0].end_frame, 95);
    assert!(compute_segments(&[], 1, 1, 1).is_empty());
    assert!(compute_segments(&[false; 40], 1, 1, 1).is_empty());
}

#[test]
fn validate_accepts_written_recording() {
    let mut w = EgorecWriter::create(&header());
    w.write_frame(1000, 0, true, &[0, 0, 1, 0x65], &[9, 9]);
    w.write_frame(2000, 1, false, &[0, 0, 1, 0x41], &[]);
    let file = w.finalize();
    let v = EgorecScanner::validate(&file);
    assert!(v.valid, "{:?}", v.errors);
    assert!(v.errors.is_empty());
    assert!(v.warnings.is_empty());
    assert!(v.has_footer);
    assert!(v.has_index);
    assert_eq!(v.index_entries, 2);
    assert_eq!(v.total_frames, 2);
    assert_eq!(v.duration_us, 1000);
}

#[test]
fn validate_reports_problems() {
    let v = EgorecScanner::validate(&[0u8; 100]);
    assert!(!v.valid);
    assert_eq!(v.errors, vec!["cannot read file header: failed to fill whole buffer".to_string()]);

    let mut w = EgorecWriter::create(&header());
    w.write_frame(2000, 0, true, &[1], &[]);
    w.write_frame(1000, 1, false, &[2], &[]);
    let mut file = w.finalize();
    file[6] = 1;
    let v = EgorecScanner::validate(&file);
    assert!(!v.valid);
    assert_eq!(v.errors, vec!["unsupported version: 1".to_string()]);
    assert!(!v.has_index);

    file[6] = 2;
    let v = EgorecScanner::validate(&file);
    assert!(v.valid);
    assert_eq!(v.warnings, vec!["index entry 1: non-monotonic timestamp".to_string()]);

    let n = file.len();
    file[n - 1] = 0;
    let v = EgorecScanner::validate(&file);
    assert!(v.valid);
    assert!(!v.has_footer);
    assert_eq!(v.warnings, vec!["no valid footer \u{2014} file may be truncated".to_string()]);

    let mut short = vec![0u8; 480];
    short[..8].copy_from_slice(b"EGOREC\x02\x00");
    let v = EgorecScanner::validate(&short);
    assert_eq!(v.errors, vec!["file too small for header + footer".to_string()]);
}

#[test]
fn scan_frames_reads_block_headers() {
    let mut w = EgorecWriter::create(&header());
    w.write_frame(1000, 0, true, &[0, 0, 1, 0x65], &[9, 9]);
    w.write_frame(2000, 31, false, &[0, 0, 1, 0x41], &[]);
    let file = w.finalize();
    let scan = EgorecScanner::scan_frames(&file).unwrap();
    assert_eq!(scan.total_frames, 2);
    assert_eq!(scan.duration_us, 1000);
    assert_eq!(scan.start_timestamp_us, 0);
    assert_eq!(scan.frame_infos.len(), 2);
    let a = scan.frame_infos[0];
    assert_eq!((a.frame_number, a.timestamp_us, a.file_offset, a.block_size), (0, 1000, 472, 42));
    assert_eq!((a.rgb_compressed_size, a.depth_compressed_size), (4, 2));
    assert!(a.is_expected_keyframe);
    let b = scan.frame_infos[1];
    assert_eq!((b.frame_number, b.timestamp_us, b.file_offset, b.block_size), (31, 2000, 514, 40));
    assert!(!b.is_expected_keyframe);

    match EgorecScanner::scan_frames(&[0u8; 10]) {
        Err(ScanError::Format(m)) => assert_eq!(m, "cannot read header: failed to fill whole buffer"),
        _ => panic!("short input must fail to read the header"),
    }
    let mut bad = file.clone();
    bad[6] = 1;
    match EgorecScanner::scan_frames(&bad) {
        Err(ScanError::Format(m)) => assert_eq!(m, "bad magic or version"),
        _ => panic!("wrong version must be refused"),
    }
}

#[test]
fn windows_start_every_stride_and_stop_at_the_end() {
    assert_eq!(window_bounds(100, 30, 15), vec![(0, 30), (15, 45), (30, 60), (45, 75), (60, 90), (75, 100), (90, 100)]);
    assert_eq!(window_bounds(0, 30, 15), vec![]);
    assert_eq!(window_bounds(10, 30, 30), vec![(0, 10)]);
}

#[test]
fn fused_mask_and_p_frame_counts() {
    let depth = [true, false, false, true];
    let rgb = [false, true, false, true];
    assert_eq!(fused_mask(&depth, &rgb, false), vec![true, true, false, true]);
    assert_eq!(fused_mask(&depth, &rgb, true), vec![true, false, false, true]);
    let info = |frame_number: u64| FrameInfo {
        frame_number,
        timestamp_us: 0,
        rgb_compressed_size: 0,
        depth_compressed_size: 0,
        file_offset: 0,
        block_size: 0,
        is_expected_keyframe: frame_number % 30 == 0,
    };
    let infos = [info(0), info(1), info(2), info(3)];
    assert_eq!(count_p_frames(&infos, &[true, true, false, true]), (3, 2));
    assert_eq!(count_p_frames(&[], &[]), (0, 0));
}
