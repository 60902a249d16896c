use egorec::tfrecord::{encode_example, masked_crc32c, write_record, Feature};

#[test]
fn test_encode_empty_example() {
    let features: Vec<(String, Feature)> = Vec::new();
    let encoded = encode_example(&features);
    assert!(!encoded.is_empty());
    // Example { features: Features {} }: field 1, empty message.
    assert_eq!(encoded, vec![0x0A, 0x00]);
}

#[test]
fn test_encode_bytes_feature() {
    let features = vec![("test".to_string(), Feature::Bytes(vec![b"hello".to_vec()]))];
    let encoded = encode_example(&features);
    assert!(!encoded.is_empty());
}

#[test]
fn test_encode_float_feature() {
    let features = vec![(
        "vals".to_string(),
        Feature::Float(vec![1.0f32.to_bits(), 2.0f32.to_bits(), 3.0f32.to_bits()]),
    )];
    let encoded = encode_example(&features);
    assert!(!encoded.is_empty());
}

#[test]
fn test_encode_int64_feature() {
    let features = vec![("ids".to_string(), Feature::Int64(vec![1, 0, 1]))];
    let encoded = encode_example(&features);
    assert!(!encoded.is_empty());
}

#[test]
fn encode_bytes_feature_exact_bytes() {
    let features = vec![("test".to_string(), Feature::Bytes(vec![b"hello".to_vec()]))];
    let encoded = encode_example(&features);
    // BytesList { value: "hello" } = 0a 05 68 65 6c 6c 6f
    // Feature { bytes_list } = 0a 07 <bytes list>
    // map entry { key: "test", value } = 0a 04 74 65 73 74 12 09 <feature>
    // Features { feature: entry } = 0a 11 <entry>
    // Example { features } = 0a 13 <features>
    let expected = vec![
        0x0A, 0x13, 0x0A, 0x11, 0x0A, 0x04, b't', b'e', b's', b't', 0x12, 0x09, 0x0A, 0x07, 0x0A, 0x05, b'h',
        b'e', b'l', b'l', b'o',
    ];
    assert_eq!(encoded, expected);
}

#[test]
fn encode_int64_feature_uses_varints() {
    let features = vec![("n".to_string(), Feature::Int64(vec![300, -1]))];
    let encoded = encode_example(&features);
    // Int64List packed: 0a <len> 300 -> ac 02, -1 -> ten bytes ff..ff 01
    let mut list = vec![0x0A, 12, 0xAC, 0x02];
    list.extend_from_slice(&[0xFF; 9]);
    list.push(0x01);
    let mut feature = vec![0x1A, list.len() as u8];
    feature.extend_from_slice(&list);
    let mut entry = vec![0x0A, 0x01, b'n', 0x12, feature.len() as u8];
    entry.extend_from_slice(&feature);
    let mut features_msg = vec![0x0A, entry.len() as u8];
    features_msg.extend_from_slice(&entry);
    let mut expected = vec![0x0A, features_msg.len() as u8];
    expected.extend_from_slice(&features_msg);
    assert_eq!(encoded, expected);
}

#[test]
fn encode_float_feature_is_packed_le() {
    let features = vec![("f".to_string(), Feature::Float(vec![1.0f32.to_bits()]))];
    let encoded = encode_example(&features);
    let tail = &encoded[encoded.len() - 4..];
    assert_eq!(tail, &1.0f32.to_le_bytes());
}

#[test]
fn test_masked_crc32c_known_value() {
    let data = b"hello";
    let crc = crc32c::crc32c(data);
    let masked = masked_crc32c(data);
    assert_ne!(crc, masked);
    let expected = ((crc >> 15) | (crc << 17)).wrapping_add(0xa282ead8);
    assert_eq!(masked, expected);
}

#[test]
fn test_write_record() {
    let mut buf = Vec::new();
    write_record(&mut buf, b"test data");
    assert_eq!(buf.len(), 25);
    assert_eq!(&buf[0..8], &9u64.to_le_bytes());
}

#[test]
fn write_record_checksums_and_appends() {
    let mut buf = vec![0xEE];
    write_record(&mut buf, b"abc");
    assert_eq!(buf[0], 0xEE);
    assert_eq!(&buf[1..9], &3u64.to_le_bytes());
    assert_eq!(&buf[9..13], &masked_crc32c(&3u64.to_le_bytes()).to_le_bytes());
    assert_eq!(&buf[13..16], b"abc");
    assert_eq!(&buf[16..20], &masked_crc32c(b"abc").to_le_bytes());
}
