use egorec::format::FileHeader;
use egorec::reader::{EgorecError, FrameAction, FrameCursor, RecordingLayout, ZdepthError};
use egorec::viewer::ConversionStatus;
use egorec::writer::EgorecWriter;

fn header() -> FileHeader {
    FileHeader {
        magic: vec![b'E', b'G', b'O', b'R', b'E', b'C', 0x02, 0x00],
        header_size: 472,
        flags: 0,
        serial_number: vec![0; 32],
        depth_scale: 0,
        depth_width: 0,
        depth_height: 0,
        depth_fx: 0,
        depth_fy: 0,
        depth_ppx: 0,
        depth_ppy: 0,
        depth_distortion_model: 0,
        depth_distortion_coeffs: vec![0; 5],
        color_width: 320,
        color_height: 240,
        color_fx: 0,
        color_fy: 0,
        color_ppx: 0,
        color_ppy: 0,
        color_distortion_model: 0,
        color_distortion_coeffs: vec![0; 5],
        extrinsic_rotation: vec![0; 9],
        extrinsic_translation: vec![0; 3],
        session_name: vec![0; 128],
        start_timestamp_us: 0,
        usb_type: vec![0; 8],
        rgb_codec: 2,
        depth_codec: 0,
        rgb_quality: 23,
        zstd_level: 3,
        reserved: vec![0; 128],
    }
}

#[test]
fn open_reads_footer_index_and_trailing_offset() {
    let mut w = EgorecWriter::create(&header());
    w.write_frame(5, 0, true, &[1, 2], &[3]);
    w.write_frame(9, 1, false, &[4], &[]);
    let file = w.finalize();
    let layout = RecordingLayout::open(&file).unwrap_or_else(|e| panic!("{}", e.message()));
    assert!(layout.footer.is_some());
    assert_eq!(layout.index.len(), 2);
    assert_eq!(layout.index[1].file_offset, 472 + 39);
    assert_eq!(layout.trailing_data_offset, 472 + 39 + 37);
    assert_eq!(layout.total_frames, 2);
    assert_eq!(layout.total_duration_us, 4);
}

#[test]
fn open_without_footer_trails_at_end_of_file() {
    let mut w = EgorecWriter::create(&header());
    w.write_frame(5, 0, true, &[1, 2], &[]);
    let mut file = w.finalize();
    let n = file.len();
    file[n - 1] ^= 0xFF;
    let layout = RecordingLayout::open(&file).unwrap_or_else(|e| panic!("{}", e.message()));
    assert!(layout.footer.is_none());
    assert!(layout.index.is_empty());
    assert_eq!(layout.trailing_data_offset, n as u64);
    assert_eq!(layout.total_frames, 0);
}

#[test]
fn open_rejects_bad_headers() {
    let mut file = EgorecWriter::create(&header()).finalize();
    file[0] = b'X';
    let e = RecordingLayout::open(&file).err().unwrap();
    assert!(matches!(e, EgorecError::BadMagic));
    assert_eq!(e.message(), "invalid .egorec file: bad magic bytes");
    file[0] = b'E';
    file[6] = 1;
    let e = RecordingLayout::open(&file).err().unwrap();
    assert_eq!(e.message(), "V1 .egorec files are not supported by export tools");
    let e = RecordingLayout::open(&[0u8; 8]).err().unwrap();
    assert_eq!(e.message(), "I/O error: failed to fill whole buffer");
}

#[test]
fn error_messages() {
    assert_eq!(EgorecError::BadFrameMagic(7).message(), "invalid frame magic at frame 7");
    assert_eq!(EgorecError::BadFooter.message(), "failed to read footer");
    assert_eq!(EgorecError::H264("boom".to_string()).message(), "H.264 decoder error: boom");
    assert_eq!(
        EgorecError::Zdepth(ZdepthError::DecompressFailed(-3)).message(),
        "zdepth error: zdepth decompression failed (code -3)"
    );
    assert_eq!(ZdepthError::CompressFailed(2).message(), "zdepth compression failed (code 2)");
    assert_eq!(ZdepthError::NullDecompressor.message(), "null decompressor");
    assert_eq!(ZdepthError::NullCompressor.message(), "null compressor");
}

#[test]
fn streamable_only_for_h264() {
    assert_eq!(ConversionStatus::for_rgb_codec(2), ConversionStatus::Streamable);
    assert_eq!(ConversionStatus::for_rgb_codec(1), ConversionStatus::Idle);
}

fn two_frame_file() -> Vec<u8> {
    let mut w = EgorecWriter::create(&header());
    w.write_frame(5, 0, true, &[1, 2], &[3]);
    w.write_frame(9, 1, false, &[4], &[]);
    w.finalize()
}

#[test]
fn frame_loop_walks_blocks_then_flushes() {
    let file = two_frame_file();
    let layout = RecordingLayout::open(&file).unwrap_or_else(|e| panic!("{}", e.message()));
    let mut c = FrameCursor::start();
    match layout.next_action(&file, &mut c, false) {
        FrameAction::Frame { rgb_start, rgb_len, depth_start, depth_len, pop_queued, feed_rgb, timestamp_us, frame_number } => {
            assert_eq!((rgb_start, rgb_len, depth_start, depth_len), (508, 2, 510, 1));
            assert!(!pop_queued && feed_rgb);
            assert_eq!((timestamp_us, frame_number), (5, 0));
        }
        _ => panic!("expected the first frame"),
    }
    match layout.next_action(&file, &mut c, true) {
        FrameAction::Frame { rgb_start, rgb_len, depth_start, depth_len, pop_queued, feed_rgb, timestamp_us, frame_number } => {
            assert_eq!((rgb_start, rgb_len, depth_start, depth_len), (547, 1, 548, 0));
            assert!(pop_queued && feed_rgb);
            assert_eq!((timestamp_us, frame_number), (9, 1));
        }
        _ => panic!("expected the second frame"),
    }
    assert_eq!(c, FrameCursor { current_frame: 2, position: 548, trailing_flushed: false });
    match layout.next_action(&file, &mut c, false) {
        FrameAction::Flush { trailing, flush_decoder } => {
            assert_eq!(trailing, None);
            assert!(flush_decoder);
        }
        _ => panic!("expected the flush"),
    }
    assert!(c.trailing_flushed);
    match layout.next_action(&file, &mut c, true) {
        FrameAction::Queued { frame_number } => assert_eq!(frame_number, 2),
        _ => panic!("expected a queued picture"),
    }
    match layout.next_action(&file, &mut c, false) {
        FrameAction::End => {}
        _ => panic!("expected the end"),
    }
}

#[test]
fn frame_loop_flushes_data_after_the_last_indexed_frame() {
    let mut file = two_frame_file();
    let n = file.len();
    file[n - 24..n - 20].copy_from_slice(&1u32.to_le_bytes());
    file[n - 20..n - 12].copy_from_slice(&1u64.to_le_bytes());
    let layout = RecordingLayout::open(&file).unwrap_or_else(|e| panic!("{}", e.message()));
    let mut c = FrameCursor::start();
    assert!(matches!(layout.next_action(&file, &mut c, false), FrameAction::Frame { .. }));
    match layout.next_action(&file, &mut c, false) {
        FrameAction::Flush { trailing, flush_decoder } => {
            assert_eq!(trailing, Some((511, 37)));
            assert!(flush_decoder);
        }
        _ => panic!("expected the flush"),
    }
}

#[test]
fn frame_loop_reports_a_bad_block() {
    let mut file = two_frame_file();
    file[511] = 0;
    let layout = RecordingLayout::open(&file).unwrap_or_else(|e| panic!("{}", e.message()));
    let mut c = FrameCursor::start();
    assert!(matches!(layout.next_action(&file, &mut c, false), FrameAction::Frame { .. }));
    match layout.next_action(&file, &mut c, false) {
        FrameAction::Fail(e) => assert_eq!(e.message(), "invalid frame magic at frame 1"),
        _ => panic!("expected a failure"),
    }
    assert_eq!(c.current_frame, 1);
}
