use ape::{Item, ItemType};

#[test]
fn new_failed_with_bad_key_len() {
    let err = Item::new("k".to_string(), ItemType::Text, "val".as_bytes().to_vec())
        .unwrap_err()
        .to_string();
    assert_eq!(err, "item keys can have a length of 2 up to 255 characters");
}

#[test]
fn new_failed_with_denied_key() {
    let msg = "not allowed are the following keys: ID3, TAG, OggS and MP+";
    for key in ["ID3", "TAG", "OggS", "MP+"] {
        match Item::new(key.to_string(), ItemType::Text, "val".as_bytes().to_vec()) {
            Err(err) => {
                assert_eq!(msg, format!("{}", err.to_string()));
            }
            Ok(_) => {
                panic!("Unexpected item");
            }
        };
    }
}

#[test]
fn new_failed_with_bad_key_val() {
    let err = Item::new(
        "Недопустимые символы".to_string(),
        ItemType::Text,
        "val".as_bytes().to_vec(),
    )
    .unwrap_err()
    .to_string();
    assert_eq!(err, "item key contains non-ascii characters");
}

#[test]
fn construct() {
    let initial_value: Vec<u8> = vec![1];
    let mut item = Item::new("key".to_string(), ItemType::Binary, initial_value.clone()).unwrap();
    assert_eq!("key", item.key);
    assert_eq!(ItemType::Binary, item.get_type());
    assert_eq!(item.get_type(), ItemType::Binary);
    assert_eq!(initial_value, item.value_bytes());
    item.add_value(String::from("x").as_ref());
    assert_eq!(vec![1, 0, 120], item.value_bytes());

    let new_value = String::from("test");
    let item = item
        .with_type(ItemType::Text)
        .with_value(new_value.clone().into_bytes());
    assert_eq!(ItemType::Text, item.get_type());
    assert_eq!(Vec::from(new_value), item.value_bytes());
}

fn read_u32_le(data: &[u8], at: usize) -> u32 {
    u32::from_le_bytes([data[at], data[at + 1], data[at + 2], data[at + 3]])
}

#[test]
fn to_vec() {
    let data = Item::new("cover".to_string(), ItemType::Binary, vec![1, 2, 3])
        .unwrap()
        .to_vec()
        .unwrap();
    let item_size = read_u32_le(&data, 0);
    assert_eq!(3, item_size);
    let item_flags = read_u32_le(&data, 4);
    assert_eq!(ItemType::Binary.as_u32(), (item_flags & 6) >> 1);
    let mut item_key = Vec::<u8>::new();
    let mut at = 8;
    while data[at] != 0 {
        item_key.push(data[at]);
        at += 1;
    }
    assert_eq!(
        "cover",
        item_key.iter().map(|&c| c as char).collect::<String>()
    );
    let item_value = data[at + 1..at + 1 + item_size as usize].to_vec();
    assert_eq!(vec![1, 2, 3], item_value);

    let data = Item::new("artist".to_string(), ItemType::Text, "Artist".as_bytes().to_vec())
        .unwrap()
        .to_vec()
        .unwrap();
    let item_size = read_u32_le(&data, 0);
    assert_eq!(6, item_size);
    let item_flags = read_u32_le(&data, 4);
    assert_eq!(ItemType::Text.as_u32(), (item_flags & 6) >> 1);

    let data = Item::new(
        "url".to_string(),
        ItemType::Locator,
        "http://test.com".as_bytes().to_vec(),
    )
    .unwrap()
    .to_vec()
    .unwrap();
    let item_size = read_u32_le(&data, 0);
    assert_eq!(15, item_size);
    let item_flags = read_u32_le(&data, 4);
    assert_eq!(ItemType::Locator.as_u32(), (item_flags & 6) >> 1);
}
