use egorec::h264_annex_b::{extract_sps_pps, is_keyframe, nals_to_avcc, parse_annex_b};

#[test]
fn parse_multiple_nals_keyframe() {
    let mut data = Vec::new();
    data.extend_from_slice(&[0x00, 0x00, 0x00, 0x01]);
    data.extend_from_slice(&[0x67, 0x42, 0x00, 0x1E]);
    data.extend_from_slice(&[0x00, 0x00, 0x01]);
    data.extend_from_slice(&[0x68, 0xCE, 0x38, 0x80]);
    data.extend_from_slice(&[0x00, 0x00, 0x00, 0x01]);
    data.extend_from_slice(&[0x65, 0x88, 0x80]);

    let nals = parse_annex_b(&data);
    assert_eq!(nals.len(), 3);
    assert_eq!(nals[0].nal_type, 7);
    assert_eq!(nals[1].nal_type, 8);
    assert_eq!(nals[2].nal_type, 5);
    assert!(is_keyframe(&nals));
}

#[test]
fn avcc_prefixes_each_nal_with_its_length() {
    let data = [0, 0, 1, 0x41, 0xAA, 0, 0, 0, 1, 0x41, 0xBB, 0xCC];
    let nals = parse_annex_b(&data);
    assert_eq!(nals.len(), 2);
    assert!(!is_keyframe(&nals));
    let avcc = nals_to_avcc(&nals);
    assert_eq!(avcc, vec![0, 0, 0, 2, 0x41, 0xAA, 0, 0, 0, 3, 0x41, 0xBB, 0xCC]);
}

#[test]
fn sps_and_pps_are_the_first_of_their_type() {
    let data = [0, 0, 1, 0x67, 1, 0, 0, 1, 0x67, 2, 0, 0, 1, 0x68, 3];
    let nals = parse_annex_b(&data);
    let (sps, pps) = extract_sps_pps(&nals).unwrap();
    assert_eq!(sps, vec![0x67, 1]);
    assert_eq!(pps, vec![0x68, 3]);
    let only_sps = parse_annex_b(&[0, 0, 1, 0x67, 1]);
    assert!(extract_sps_pps(&only_sps).is_none());
}

#[test]
fn stream_without_start_code_has_no_nals() {
    assert!(parse_annex_b(&[]).is_empty());
    assert!(parse_annex_b(&[1, 2, 3, 4]).is_empty());
}

#[test]
fn joined_payloads_parse_back() {
    let ds: Vec<Vec<u8>> = vec![vec![0x67, 0x42, 0x00, 0x1F], vec![0x68, 0xCE], vec![0x65, 0x88, 0x00, 0x84, 0x01]];
    let mut stream = Vec::new();
    for d in &ds {
        stream.extend_from_slice(&[0, 0, 0, 1]);
        stream.extend_from_slice(d);
    }
    let nals = egorec::h264_annex_b::parse_annex_b(&stream);
    let back: Vec<Vec<u8>> = nals.iter().map(|n| n.data.clone()).collect();
    assert_eq!(back, ds);
    assert_eq!(nals.iter().map(|n| n.nal_type).collect::<Vec<_>>(), vec![7, 8, 5]);
    let mut avcc = Vec::new();
    for d in &ds {
        avcc.extend_from_slice(&(d.len() as u32).to_be_bytes());
        avcc.extend_from_slice(d);
    }
    assert_eq!(egorec::h264_annex_b::nals_to_avcc(&nals), avcc);
}
