use ape::{read_from, remove_from, write_to, Item, ItemType, Tag};

/// Writing a tag and reading it back yields the same item set, for a host
/// file with plain content.
#[test]
fn round_trip_plain_file() {
    let mut data = (0..200u8).map(|b| b / 2).collect::<Vec<u8>>();
    let original = data.clone();
    let mut tag = Tag::new();
    tag.set_item(Item::new("aa".to_string(), ItemType::Text, vec![0x58; 40]).unwrap());
    tag.set_item(Item::new("bb".to_string(), ItemType::Binary, vec![7]).unwrap());
    tag.set_item(Item::new("cc".to_string(), ItemType::Locator, vec![0x2f; 10]).unwrap());
    write_to(&tag, &mut data).unwrap();

    let back = read_from(&data).unwrap();
    assert_eq!(3, back.iter().len());
    assert_eq!(vec![0x58; 40], back.item("aa").unwrap().value_bytes());
    assert_eq!(vec![7], back.item("bb").unwrap().value_bytes());
    assert_eq!(vec![0x2f; 10], back.item("cc").unwrap().value_bytes());
    assert_eq!(ItemType::Text, back.item("aa").unwrap().get_type());
    assert_eq!(ItemType::Binary, back.item("bb").unwrap().get_type());
    assert_eq!(ItemType::Locator, back.item("cc").unwrap().get_type());
    // shortest record first
    assert_eq!("bb", back.iter()[0].key);

    remove_from(&mut data).unwrap();
    assert_eq!(original, data);
}

/// A second removal succeeds and leaves the file exactly as the first one
/// left it.
#[test]
fn remove_twice() {
    let mut data = vec![0u8; 300];
    let mut tag = Tag::new();
    tag.set_item(Item::new("zz".to_string(), ItemType::Text, vec![0x41; 9]).unwrap());
    write_to(&tag, &mut data).unwrap();

    remove_from(&mut data).unwrap();
    let after_first = data.clone();
    remove_from(&mut data).unwrap();
    assert_eq!(after_first, data);
    assert_eq!(300, data.len());
}

/// Writing preserves the fixed and variable legacy blocks byte for byte.
#[test]
fn legacy_blocks_preserved() {
    let mut data = Vec::<u8>::new();
    data.extend_from_slice(&[0x11; 50]);
    data.extend_from_slice(&[0x22; 120]);
    data.extend_from_slice(b"000120LYRICS200");
    data.extend_from_slice(b"TAG");
    data.extend_from_slice(&[0x33; 125]);
    let tail = data[50..].to_vec();

    let mut tag = Tag::new();
    tag.set_item(Item::new("ab".to_string(), ItemType::Text, vec![0x59; 30]).unwrap());
    write_to(&tag, &mut data).unwrap();
    assert_eq!(tail, data[data.len() - tail.len()..].to_vec());

    // write again with a larger tag: the tail must still round-trip
    let mut tag = Tag::new();
    tag.set_item(Item::new("ab".to_string(), ItemType::Text, vec![0x5a; 500]).unwrap());
    write_to(&tag, &mut data).unwrap();
    assert_eq!(tail, data[data.len() - tail.len()..].to_vec());

    // and the tag before the legacy blocks still reads back
    let back = read_from(&data).unwrap();
    assert_eq!(vec![0x5a; 500], back.item("ab").unwrap().value_bytes());
}

/// Corrupting the declared size by one must fail the read with the size
/// error, never silently succeed.
#[test]
fn corrupt_size_fails_read() {
    let mut data = vec![0u8; 100];
    let mut tag = Tag::new();
    tag.set_item(Item::new("ab".to_string(), ItemType::Text, vec![0x41; 12]).unwrap());
    write_to(&tag, &mut data).unwrap();
    assert!(read_from(&data).is_ok());
    let at = data.len() - 20;
    data[at] = data[at].wrapping_add(1);
    let err = read_from(&data).unwrap_err().to_string();
    assert_eq!(err, "APE header contains invalid tag size");
}

/// Removing a leading tag from a file much larger than the 64 KiB shift
/// buffer keeps every following byte and shrinks the file by exactly the
/// erased region.
#[test]
fn bounded_shift_large_file() {
    let body: Vec<u8> = (0..200_000u32).map(|i| (i % 251) as u8).collect();
    let mut data = Vec::<u8>::new();
    data.extend_from_slice(b"APETAGEX");
    data.extend_from_slice(&2000u32.to_le_bytes());
    data.extend_from_slice(&0u32.to_le_bytes()); // size
    data.extend_from_slice(&0u32.to_le_bytes()); // item count
    let flags: u32 = 1 << 31 | 1 << 30 | 1 << 29; // leading block, no trailing one
    data.extend_from_slice(&flags.to_le_bytes());
    data.extend_from_slice(&[0; 8]);
    data.extend_from_slice(&body);
    assert_eq!(200_032, data.len());

    remove_from(&mut data).unwrap();
    assert_eq!(body, data);
}

/// A 200-byte all-zero file; one text item `artist`; the new length is
/// exactly the old one plus the record and the trailing control block;
/// reading yields the item back; removal restores the original bytes.
#[test]
fn scenario_artist() {
    let mut data = vec![0u8; 200];
    let mut tag = Tag::new();
    tag.set_item(
        Item::new(
            "artist".to_string(),
            ItemType::Text,
            "Artist Name".as_bytes().to_vec(),
        )
        .unwrap(),
    );
    write_to(&tag, &mut data).unwrap();
    assert_eq!(258, data.len());

    let back = read_from(&data).unwrap();
    assert_eq!(1, back.iter().len());
    assert_eq!("Artist Name", back.item("artist").unwrap().value_str().unwrap());

    remove_from(&mut data).unwrap();
    assert_eq!(vec![0u8; 200], data);
}
