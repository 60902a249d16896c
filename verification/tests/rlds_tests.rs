use egorec::format::FileHeader;
use egorec::rlds::{build_step_example, RldsError};
use egorec::tfrecord::{encode_example, Feature};
use image::codecs::jpeg::JpegEncoder;
use image::codecs::png::PngEncoder;
use image::{ExtendedColorType, ImageEncoder};

fn header(color: (u32, u32), depth: (u32, u32)) -> FileHeader {
    FileHeader {
        magic: vec![b'E', b'G', b'O', b'R', b'E', b'C', 0x02, 0x00],
        header_size: 472,
        flags: 0,
        serial_number: vec![0; 32],
        depth_scale: 0,
        depth_width: depth.0,
        depth_height: depth.1,
        depth_fx: 1.5f32.to_bits(),
        depth_fy: 2.5f32.to_bits(),
        depth_ppx: 3.5f32.to_bits(),
        depth_ppy: 4.5f32.to_bits(),
        depth_distortion_model: 0,
        depth_distortion_coeffs: vec![0; 5],
        color_width: color.0,
        color_height: color.1,
        color_fx: 10.0f32.to_bits(),
        color_fy: 20.0f32.to_bits(),
        color_ppx: 30.0f32.to_bits(),
        color_ppy: 40.0f32.to_bits(),
        color_distortion_model: 0,
        color_distortion_coeffs: vec![0; 5],
        extrinsic_rotation: (1..=9).map(|i| (i as f32).to_bits()).collect(),
        extrinsic_translation: vec![0.1f32.to_bits(), 0.2f32.to_bits(), 0.3f32.to_bits()],
        session_name: vec![0; 128],
        start_timestamp_us: 0,
        usb_type: vec![0; 8],
        rgb_codec: 2,
        depth_codec: 0,
        rgb_quality: 23,
        zstd_level: 3,
        reserved: vec![0; 128],
    }
}

#[test]
fn step_example_holds_images_calibration_and_flags() {
    let h = header((2, 2), (2, 2));
    let rgb: Vec<u8> = (0..12).map(|i| (i * 20) as u8).collect();
    let depth: Vec<u16> = vec![1000, 0, 500, 65535];
    let ts = 0.5f32.to_bits();
    let example = build_step_example(&rgb, &depth, &h, ts, 2, 3).unwrap();

    let mut jpeg = Vec::new();
    JpegEncoder::new_with_quality(&mut jpeg, 95)
        .write_image(&rgb, 2, 2, ExtendedColorType::Rgb8)
        .unwrap();
    let depth_bytes: Vec<u8> = depth.iter().flat_map(|v| v.to_le_bytes()).collect();
    let mut png = Vec::new();
    PngEncoder::new(&mut png)
        .write_image(&depth_bytes, 2, 2, ExtendedColorType::L16)
        .unwrap();
    assert_eq!(&jpeg[..2], &[0xFF, 0xD8]);
    assert_eq!(&png[..4], &[0x89, b'P', b'N', b'G']);

    let features = vec![
        ("steps/is_first".to_string(), Feature::Int64(vec![0])),
        ("steps/is_last".to_string(), Feature::Int64(vec![1])),
        ("steps/is_terminal".to_string(), Feature::Int64(vec![1])),
        (
            "steps/observation/color_intrinsics".to_string(),
            Feature::Float(vec![h.color_fx, h.color_fy, h.color_ppx, h.color_ppy]),
        ),
        ("steps/observation/depth".to_string(), Feature::Bytes(vec![png])),
        (
            "steps/observation/depth_intrinsics".to_string(),
            Feature::Float(vec![h.depth_fx, h.depth_fy, h.depth_ppx, h.depth_ppy]),
        ),
        ("steps/observation/extrinsic_R".to_string(), Feature::Float(h.extrinsic_rotation.clone())),
        ("steps/observation/extrinsic_t".to_string(), Feature::Float(h.extrinsic_translation.clone())),
        ("steps/observation/image".to_string(), Feature::Bytes(vec![jpeg])),
        ("steps/timestamp".to_string(), Feature::Float(vec![ts])),
    ];
    assert_eq!(example, encode_example(&features));
}

#[test]
fn first_step_is_flagged_first() {
    let h = header((1, 1), (1, 1));
    let first = build_step_example(&[1, 2, 3], &[7], &h, 0, 0, 2).unwrap();
    let second = build_step_example(&[1, 2, 3], &[7], &h, 0, 1, 2).unwrap();
    assert_ne!(first, second);
    assert_eq!(first.len(), second.len());
}

#[test]
fn step_example_reports_image_errors() {
    let h = header((0, 2), (1, 1));
    let mut sink = Vec::new();
    let expected = JpegEncoder::new_with_quality(&mut sink, 95)
        .write_image(&[], 0, 2, ExtendedColorType::Rgb8)
        .unwrap_err();
    match build_step_example(&[], &[7], &h, 0, 0, 1) {
        Err(e @ RldsError::Image(_)) => {
            assert_eq!(e.message(), format!("image encoding error: {}", expected));
        }
        _ => panic!("a zero-width image cannot be encoded"),
    }
    assert_eq!(RldsError::Io("x".to_string()).message(), "I/O error: x");
    assert_eq!(RldsError::Json("y".to_string()).message(), "JSON error: y");
}
