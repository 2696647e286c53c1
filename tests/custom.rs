use wit_names::custom::{encoding_size, write_leb128, CustomSection};

#[test]
fn test_custom_section() {
    let custom = CustomSection {
        name: "test".to_string(),
        data: vec![11, 22, 33, 44],
    };

    let mut encoded = Vec::<u8>::new();
    custom.encode(&mut encoded);

    let mut compare_to = Vec::<u8>::new();
    compare_to.extend(&[9, 4, b't', b'e', b's', b't', 11, 22, 33, 44]);
    assert_eq!(encoded, compare_to);
}

#[test]
fn custom_section_appends_to_existing_bytes() {
    let custom = CustomSection {
        name: String::new(),
        data: vec![7],
    };
    let mut encoded = vec![0xff];
    custom.encode(&mut encoded);
    assert_eq!(encoded, vec![0xff, 2, 0, 7]);
}

#[test]
fn custom_section_with_long_payload() {
    let custom = CustomSection {
        name: "n".to_string(),
        data: vec![5; 200],
    };
    let mut encoded = Vec::new();
    custom.encode(&mut encoded);
    // 1 (name length) + 1 (name) + 200 (data) = 202 = 0xca 0x01
    assert_eq!(&encoded[..4], &[0xca, 0x01, 1, b'n']);
    assert_eq!(encoded.len(), 2 + 2 + 200);
}

#[test]
fn custom_section_id_is_zero() {
    let custom = CustomSection {
        name: "x".to_string(),
        data: Vec::new(),
    };
    assert_eq!(custom.id(), 0);
}

#[test]
fn leb128_sizes_and_bytes() {
    assert_eq!(encoding_size(0), 1);
    assert_eq!(encoding_size(127), 1);
    assert_eq!(encoding_size(128), 2);
    assert_eq!(encoding_size(u32::MAX), 5);
    let mut out = Vec::new();
    write_leb128(300, &mut out);
    assert_eq!(out, vec![0xac, 0x02]);
    let mut out = Vec::new();
    write_leb128(u32::MAX, &mut out);
    assert_eq!(out, vec![0xff, 0xff, 0xff, 0xff, 0x0f]);
}
