use ape::{read_from, Error, Item, ItemType, Meta, Tag};

/// A record whose key bytes are not UTF-8 fails the read with a key parse
/// error.
#[test]
fn read_failed_with_bad_key_bytes() {
    let mut data = Vec::<u8>::new();
    data.extend_from_slice(&0u32.to_le_bytes()); // value length
    data.extend_from_slice(&0u32.to_le_bytes()); // flags
    data.extend_from_slice(&[0xff, 0xfe, 0x00]); // key bytes, not UTF-8
    let record_len = data.len() as u32;
    data.extend_from_slice(b"APETAGEX");
    data.extend_from_slice(&2000u32.to_le_bytes());
    data.extend_from_slice(&(record_len + 32).to_le_bytes());
    data.extend_from_slice(&1u32.to_le_bytes());
    data.extend_from_slice(&0u32.to_le_bytes());
    data.extend_from_slice(&[0; 8]);
    let err = read_from(&data).unwrap_err();
    assert!(matches!(err, Error::ParseItemKey(_)));
}

/// A text value that is not UTF-8 cannot be read as a string.
#[test]
fn value_not_utf8() {
    let item = Item::new("ab".to_string(), ItemType::Text, vec![0xff, 0xfe]).unwrap();
    assert!(matches!(item.value_str().unwrap_err(), Error::ParseItemValue(_)));
    assert!(matches!(
        item.value_strings().unwrap_err(),
        Error::ParseItemValue(_)
    ));
}

/// A variable legacy block whose size digits are not UTF-8 is a data
/// error, not a negative probe.
#[test]
fn lyrics_size_not_utf8() {
    let mut data = Vec::<u8>::new();
    data.extend_from_slice(&[0x22; 120]);
    data.extend_from_slice(&[0xff; 6]);
    data.extend_from_slice(b"LYRICS200");
    data.extend_from_slice(b"TAG");
    data.extend_from_slice(&[0x33; 125]);
    let err = Meta::read(&data).unwrap_err();
    assert!(matches!(err, Error::ParseLyrics3V2SizeStr(_)));
}

/// A variable legacy block whose size digits are no decimal number is a
/// data error, not a negative probe.
#[test]
fn lyrics_size_not_a_number() {
    let mut data = Vec::<u8>::new();
    data.extend_from_slice(&[0x22; 120]);
    data.extend_from_slice(b"ABCDEF");
    data.extend_from_slice(b"LYRICS200");
    data.extend_from_slice(b"TAG");
    data.extend_from_slice(&[0x33; 125]);
    let err = Meta::read(&data).unwrap_err();
    assert!(matches!(err, Error::ParseLyrics3V2SizeInt(_)));
}

/// Key lookup ignores ASCII case.
#[test]
fn key_lookup_ignores_case() {
    let mut tag = Tag::new();
    tag.set_item(Item::new("Artist".to_string(), ItemType::Text, vec![0x41]).unwrap());
    assert!(tag.item("aRTIST").is_some());
    assert_eq!(1, tag.items("ARTIST").len());
    tag.set_item(Item::new("ARTIST".to_string(), ItemType::Text, vec![0x42]).unwrap());
    assert_eq!(1, tag.iter().len());
    assert_eq!(vec![0x42], tag.item("artist").unwrap().value_bytes());
    assert_eq!(1, tag.remove_items("artISt"));
    assert_eq!(0, tag.iter().len());
}
