use ape::{read_from, remove_from, write_to, Error, Item, ItemType, Tag};

#[test]
fn items() {
    let mut tag = Tag::new();
    assert_eq!(0, tag.iter().len());

    let item = Item::new("key".to_string(), ItemType::Text, "value".as_bytes().to_vec()).unwrap();
    let item_duplicate = Item::new(
        "key".to_string(),
        ItemType::Text,
        "value-added".as_bytes().to_vec(),
    )
    .unwrap();
    let item_replace = Item::new(
        "key".to_string(),
        ItemType::Text,
        "value-replaced".as_bytes().to_vec(),
    )
    .unwrap();
    let item_unchanged = Item::new(
        "key1".to_string(),
        ItemType::Text,
        "value-unchanged".as_bytes().to_vec(),
    )
    .unwrap();

    tag.set_item(item);
    assert_eq!(tag.items("key").len(), 1);
    assert_eq!(1, tag.iter().len());

    tag.set_item(item_replace);
    assert_eq!(tag.items("key").len(), 1);
    assert_eq!(1, tag.iter().len());

    tag.set_item(item_unchanged);
    assert_eq!(tag.items("key").len(), 1);
    assert_eq!(2, tag.iter().len());

    tag.set_item(item_duplicate);
    assert_eq!(tag.items("key").len(), 1);
    assert_eq!(2, tag.iter().len());

    let value = tag.item("key").unwrap().value_str().unwrap();
    assert_eq!("value-added", value);
    assert_eq!(tag.remove_items("key"), 1);
    assert_eq!(tag.items("key").len(), 0);
    assert_eq!(1, tag.iter().len());
}

#[test]
fn read_write_remove() {
    let mut data = vec![0u8; 200];

    let mut tag = Tag::new();
    tag.set_item(
        Item::new("key1".to_string(), ItemType::Text, "value1".as_bytes().to_vec()).unwrap(),
    );
    tag.set_item(
        Item::new(
            "key2".to_string(),
            ItemType::Text,
            String::from("value2").into_bytes(),
        )
        .unwrap(),
    );
    let mut text_multiple = Item::new(
        "key3".to_string(),
        ItemType::Text,
        String::from("value3-1").into_bytes(),
    )
    .unwrap();
    text_multiple.add_value(String::from("value3-2").as_ref());
    tag.set_item(text_multiple);
    tag.set_item(
        Item::new("key4".to_string(), ItemType::Locator, "value4".as_bytes().to_vec()).unwrap(),
    );
    tag.set_item(Item::new("key5".to_string(), ItemType::Binary, vec![0, 0, 0]).unwrap());
    write_to(&tag, &mut data).unwrap();

    let tag = read_from(&data).unwrap();
    assert_eq!(5, tag.iter().len());
    let value = tag.item("key1").unwrap().value_str().unwrap();
    assert_eq!("value1", value);

    let value: Vec<u8> = tag.item("key1").unwrap().value_bytes();
    assert_eq!(vec![118, 97, 108, 117, 101, 49], value);
    let value: Vec<u8> = tag.item("key1").unwrap().clone().value_bytes();
    assert_eq!(vec![118, 97, 108, 117, 101, 49], value);

    let value: String = tag.item("key2").unwrap().value_string().unwrap();
    assert_eq!("value2", value);

    let value = tag.item("key3").unwrap().value_str().unwrap();
    assert_eq!("value3-1\0value3-2", value);

    let value: Vec<String> = tag.item("key3").unwrap().value_strings().unwrap();
    assert_eq!(
        vec!["value3-1".to_string(), "value3-2".to_string()],
        value
    );

    let value: Vec<String> = tag.item("key4").unwrap().value_strings().unwrap();
    assert_eq!(vec!["value4".to_string()], value);

    let value: Vec<u8> = tag.item("key5").unwrap().value_bytes();
    assert_eq!(vec![0, 0, 0], value);

    let result: Result<Vec<String>, Error> = tag.item("key5").unwrap().value_strings();
    assert!(matches!(result.unwrap_err(), Error::ParseItemBinary));

    remove_from(&mut data).unwrap();
    match read_from(&data) {
        Err(_) => {}
        Ok(_) => panic!("The tag wasn't removed!"),
    };
    assert_eq!(vec![0u8; 200], data);
}

#[test]
fn read_with_empty_tag() {
    let mut data = Vec::<u8>::new();
    write_to(&Tag::new(), &mut data).unwrap();
    assert!(read_from(&data).is_ok());
}

#[test]
fn write_with_empty_tag() {
    let mut data = Vec::<u8>::new();
    assert!(write_to(&Tag::new(), &mut data).is_ok());
}

#[test]
fn read_with_multiple_values_item() {
    let mut data = Vec::<u8>::new();
    let mut item =
        Item::new("key".to_string(), ItemType::Text, "v1".as_bytes().to_vec()).unwrap();
    item.add_value("v2".as_bytes());
    let mut tag = Tag::new();
    tag.set_item(item);
    write_to(&tag, &mut data).unwrap();

    let tag = read_from(&data).unwrap();
    assert_eq!(tag.iter().len(), 1);
    let values: Vec<String> = tag.item("key").unwrap().value_strings().unwrap();
    assert_eq!(values, vec!["v1".to_string(), "v2".to_string()]);
}

#[test]
fn read_failed_with_invalid_item_type() {
    // one record whose flags carry the unknown kind code 3
    let mut data = Vec::<u8>::new();
    data.extend_from_slice(&1u32.to_le_bytes()); // value length
    data.extend_from_slice(&6u32.to_le_bytes()); // flags: kind code 3
    data.extend_from_slice(b"ke\0");
    data.push(0x7f);
    let record_len = data.len() as u32;
    data.extend_from_slice(b"APETAGEX");
    data.extend_from_slice(&2000u32.to_le_bytes());
    data.extend_from_slice(&(record_len + 32).to_le_bytes());
    data.extend_from_slice(&1u32.to_le_bytes());
    data.extend_from_slice(&0u32.to_le_bytes());
    data.extend_from_slice(&[0; 8]);
    let err = read_from(&data).unwrap_err().to_string();
    assert_eq!(err, "invalid item type: 3");
}

#[test]
fn read_failed_with_invalid_tag_size() {
    let mut data = vec![0u8; 64];
    let mut tag = Tag::new();
    tag.set_item(
        Item::new("key1".to_string(), ItemType::Text, "value1".as_bytes().to_vec()).unwrap(),
    );
    write_to(&tag, &mut data).unwrap();
    // corrupt the declared size, one byte, in the footer's size field
    let at = data.len() - 20;
    data[at] = data[at].wrapping_add(1);
    let err = read_from(&data).unwrap_err().to_string();
    assert_eq!(err, "APE header contains invalid tag size");
}

#[test]
fn remove_for_no_tag_is_ok() {
    let mut data = (0..200u8).collect::<Vec<u8>>();
    remove_from(&mut data).unwrap();
    assert_eq!((0..200u8).collect::<Vec<u8>>(), data);
}
