use egorec::format::FileHeader;
use egorec::proxy::{proxy_input_fits, proxy_stream, ProxyError};
use egorec::writer::EgorecWriter;

fn header(rgb_codec: u8) -> FileHeader {
    FileHeader {
        magic: vec![b'E', b'G', b'O', b'R', b'E', b'C', 0x02, 0x00],
        header_size: 472,
        flags: 0,
        serial_number: vec![0; 32],
        depth_scale: 0,
        depth_width: 0,
        depth_height: 0,
        depth_fx: 0,
        depth_fy: 0,
        depth_ppx: 0,
        depth_ppy: 0,
        depth_distortion_model: 0,
        depth_distortion_coeffs: vec![0; 5],
        color_width: 320,
        color_height: 240,
        color_fx: 0,
        color_fy: 0,
        color_ppx: 0,
        color_ppy: 0,
        color_distortion_model: 0,
        color_distortion_coeffs: vec![0; 5],
        extrinsic_rotation: vec![0; 9],
        extrinsic_translation: vec![0; 3],
        session_name: vec![0; 128],
        start_timestamp_us: 0,
        usb_type: vec![0; 8],
        rgb_codec,
        depth_codec: 0,
        rgb_quality: 23,
        zstd_level: 3,
        reserved: vec![0; 128],
    }
}

fn two_frames(rgb_codec: u8) -> Vec<u8> {
    let mut w = EgorecWriter::create(&header(rgb_codec));
    w.write_frame(1000, 0, true, &[0, 0, 1, 0x65], &[9, 9]);
    w.write_frame(2000, 1, false, &[0, 0, 1, 0x41], &[]);
    w.finalize()
}

fn set_le64(file: &mut [u8], pos: usize, v: u64) {
    file[pos..pos + 8].copy_from_slice(&v.to_le_bytes());
}

#[test]
fn proxy_stream_joins_rgb_payloads() {
    let file = two_frames(2);
    assert_eq!(proxy_stream(&file).unwrap(), vec![0, 0, 1, 0x65, 0, 0, 1, 0x41]);
}

#[test]
fn proxy_stream_keeps_data_before_the_index() {
    let mut file = two_frames(2);
    let n = file.len();
    set_le64(&mut file, n - 20, 1);
    let mut expected = vec![0, 0, 1, 0x65];
    expected.extend_from_slice(&file[514..554]);
    assert_eq!(proxy_stream(&file).unwrap(), expected);
}

#[test]
fn proxy_stream_errors() {
    assert_eq!(proxy_stream(&[0u8; 100]), Err(ProxyError::Truncated));
    assert_eq!(proxy_stream(&two_frames(1)), Err(ProxyError::UnsupportedCodec(1)));

    let mut file = two_frames(2);
    file[6] = 1;
    assert_eq!(proxy_stream(&file), Err(ProxyError::NotEgorecV2));

    let mut file = two_frames(2);
    let n = file.len();
    file[n - 1] = 0;
    assert_eq!(proxy_stream(&file), Err(ProxyError::MissingFooter));

    let mut file = two_frames(2);
    file[514] = 0;
    assert_eq!(proxy_stream(&file), Err(ProxyError::BadFrameMagic(514)));

    let mut file = two_frames(2);
    let n = file.len();
    set_le64(&mut file, n - 20, 3);
    assert_eq!(proxy_stream(&file), Err(ProxyError::BadFrameMagic(554)));

    let mut file = two_frames(2);
    let n = file.len();
    set_le64(&mut file, n - 32, n as u64 + 1);
    assert_eq!(proxy_stream(&file), Err(ProxyError::Truncated));
}

#[test]
fn proxy_error_messages() {
    assert_eq!(ProxyError::NotEgorecV2.message("a.egorec"), "a.egorec: not a valid .egorec v2 file");
    assert_eq!(
        ProxyError::UnsupportedCodec(1).message("a.egorec"),
        "a.egorec: rgb_codec=1 (need 2 for H.264 remux)"
    );
    assert_eq!(
        ProxyError::MissingFooter.message("a.egorec"),
        "a.egorec: missing footer \u{2014} file may be truncated"
    );
    assert_eq!(ProxyError::BadFrameMagic(514).message("a.egorec"), "bad frame magic at offset 514");
    assert_eq!(ProxyError::Truncated.message("a.egorec"), "failed to fill whole buffer");
}

#[test]
fn proxy_input_fits_refuses_unallocatable_trailing_data() {
    let file = two_frames(2);
    assert!(proxy_input_fits(&file));
    assert!(proxy_input_fits(&[0u8; 10]));
    let mut huge = file.clone();
    let n = huge.len();
    set_le64(&mut huge, n - 32, u64::MAX);
    assert!(!proxy_input_fits(&huge));
    let mut big = file.clone();
    set_le64(&mut big, n - 32, 1 << 62);
    assert!(proxy_input_fits(&big));
    assert_eq!(proxy_stream(&big), Err(ProxyError::Truncated));
}
