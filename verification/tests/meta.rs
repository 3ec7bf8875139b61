use ape::{Meta, MetaPosition};

fn push_u32_le(data: &mut Vec<u8>, x: u32) {
    data.extend_from_slice(&x.to_le_bytes());
}

#[test]
fn found_at_end() {
    let mut data = Vec::<u8>::new();
    let size = 40;
    let item_count = 4;
    let flags = 0;
    data.extend_from_slice(&[0; 100]);
    data.extend_from_slice(b"APETAGEX");
    push_u32_le(&mut data, 2000);
    push_u32_le(&mut data, size);
    push_u32_le(&mut data, item_count);
    push_u32_le(&mut data, flags);
    data.extend_from_slice(&[0; 8]);
    let meta = Meta::read(&data).unwrap();
    assert_eq!(size, meta.size);
    assert_eq!(item_count, meta.item_count);
    assert_eq!(meta.position, MetaPosition::Footer);
    assert!(!meta.has_header);
    assert_eq!(92, meta.start_pos);
    assert_eq!(100, meta.end_pos);
}

#[test]
fn found_at_start() {
    let mut data = Vec::<u8>::new();
    let size = 50;
    let item_count = 5;
    let flags: u32 = 1 << 31 | 1 << 29 | 1 << 30;
    data.extend_from_slice(b"APETAGEX");
    push_u32_le(&mut data, 2000);
    push_u32_le(&mut data, size);
    push_u32_le(&mut data, item_count);
    push_u32_le(&mut data, flags);
    data.extend_from_slice(&[0; 8]);
    data.extend_from_slice(&[0; 200]);
    let meta = Meta::read(&data).unwrap();
    assert_eq!(size, meta.size);
    assert_eq!(item_count, meta.item_count);
    assert_eq!(meta.position, MetaPosition::Header);
    assert!(meta.has_header);
    assert_eq!(32, meta.start_pos);
    assert_eq!(82, meta.end_pos);
}

#[test]
fn found_before_id3v1() {
    let mut data = Vec::<u8>::new();
    let size = 62;
    let item_count = 3;
    let flags = 0;
    data.extend_from_slice(&[0; 300]);
    data.extend_from_slice(b"APETAGEX");
    push_u32_le(&mut data, 2000);
    push_u32_le(&mut data, size);
    push_u32_le(&mut data, item_count);
    push_u32_le(&mut data, flags);
    data.extend_from_slice(&[0; 8]);
    data.extend_from_slice(b"TAG");
    data.extend_from_slice(&[0; 125]);
    let meta = Meta::read(&data).unwrap();
    assert_eq!(size, meta.size);
    assert_eq!(item_count, meta.item_count);
    assert_eq!(meta.position, MetaPosition::Footer);
    assert!(!meta.has_header);
    assert_eq!(270, meta.start_pos);
    assert_eq!(300, meta.end_pos);
}

#[test]
fn found_before_lyrics3v2() {
    let mut data = Vec::<u8>::new();
    let size = 70;
    let item_count = 2;
    let flags = 0;
    data.extend_from_slice(&[0; 600]);
    data.extend_from_slice(b"APETAGEX");
    push_u32_le(&mut data, 2000);
    push_u32_le(&mut data, size);
    push_u32_le(&mut data, item_count);
    push_u32_le(&mut data, flags);
    data.extend_from_slice(&[0; 8]);
    data.extend_from_slice(&[0; 120]);
    data.extend_from_slice(b"000120LYRICS200");
    data.extend_from_slice(b"TAG");
    data.extend_from_slice(&[0; 125]);
    let meta = Meta::read(&data).unwrap();
    assert_eq!(size, meta.size);
    assert_eq!(item_count, meta.item_count);
    assert_eq!(meta.position, MetaPosition::Footer);
    assert!(!meta.has_header);
    assert_eq!(562, meta.start_pos);
    assert_eq!(600, meta.end_pos);
}

#[test]
fn not_found() {
    let data = (1..200).collect::<Vec<u8>>();
    let err = Meta::read(&data).unwrap_err().to_string();
    assert_eq!(err, "APE tag does not exist");
}

#[test]
fn invalid_ape_version() {
    let mut data = Vec::<u8>::new();
    data.extend_from_slice(b"APETAGEX");
    push_u32_le(&mut data, 1000);
    data.extend_from_slice(&[0; 20]);
    let err = Meta::read(&data).unwrap_err().to_string();
    assert_eq!(err, "invalid APE version");
}
