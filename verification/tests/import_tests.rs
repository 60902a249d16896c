use egorec::format::FileHeader;
use egorec::import::{build_header, import_frame, ImportFrame};

#[test]
fn imported_header_has_defaults_and_session_name() {
    let h = build_header(640, 480, "kitchen");
    assert_eq!(h.magic, b"EGOREC\x02\x00".to_vec());
    assert_eq!(h.header_size, 472);
    assert_eq!((h.color_width, h.color_height, h.depth_width, h.depth_height), (640, 480, 640, 480));
    assert_eq!(h.depth_scale, 0.001f32.to_bits());
    assert_eq!(h.color_fx, 602.73f32.to_bits());
    assert_eq!(h.color_fy, 602.65f32.to_bits());
    assert_eq!(h.depth_ppx, 647.43f32.to_bits());
    assert_eq!(h.depth_ppy, 374.61f32.to_bits());
    let one = 1.0f32.to_bits();
    assert_eq!(h.extrinsic_rotation, vec![one, 0, 0, 0, one, 0, 0, 0, one]);
    assert_eq!(h.extrinsic_translation, vec![0, 0, 0]);
    assert_eq!((h.rgb_codec, h.depth_codec, h.rgb_quality, h.zstd_level), (2, 2, 23, 0));
    assert_eq!(&h.session_name[..7], b"kitchen");
    assert!(h.session_name[7..].iter().all(|&b| b == 0));
    assert_eq!(h.session_name.len(), 128);
    assert_eq!(h.session_name_str(), "kitchen");
    assert!(!h.has_imu());

    let mut bytes = Vec::new();
    h.write_to(&mut bytes);
    assert_eq!(bytes.len(), 472);
    let back = FileHeader::read_from(&bytes, 0).unwrap();
    assert_eq!(back.session_name, h.session_name);
}

#[test]
fn long_session_names_keep_a_terminating_zero() {
    let name = "x".repeat(200);
    let h = build_header(1, 1, &name);
    assert_eq!(h.session_name.len(), 128);
    assert!(h.session_name[..127].iter().all(|&b| b == b'x'));
    assert_eq!(h.session_name[127], 0);
}

#[test]
fn import_frames_follow_depth_images() {
    assert_eq!(
        import_frame(0, 3, 30),
        Some(ImportFrame { depth_image: 1, timestamp_us: 0, is_keyframe: true })
    );
    assert_eq!(
        import_frame(2, 3, 30),
        Some(ImportFrame { depth_image: 3, timestamp_us: 66_666, is_keyframe: false })
    );
    assert_eq!(import_frame(3, 3, 30), None);
    assert_eq!(import_frame(60, 100, 7).unwrap().timestamp_us, 60 * 142_857);
    assert!(import_frame(60, 100, 7).unwrap().is_keyframe);
}
