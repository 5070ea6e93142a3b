use schemajs::item::{ShardItem, ShardItemType};

fn fresh_id() -> [u8; 16] {
    *uuid::Uuid::new_v4().as_bytes()
}

#[test]
fn test_item_deserialization() {
    let shard_id = fresh_id();
    let offset = 20;
    let item = ShardItem::new(b"Hello", fresh_id(), shard_id, offset);
    assert_eq!(
        item.data,
        &[72, 101, 108, 108, 111, 0, 0, 0, 0, 0, 0, 0, 0, 0, 0, 0, 0, 0, 0, 0]
    );
    let to_vec = item.to_vec();
    let from_vec = ShardItem::from(to_vec);
    assert_eq!(
        from_vec.data,
        &[72, 101, 108, 108, 111, 0, 0, 0, 0, 0, 0, 0, 0, 0, 0, 0, 0, 0, 0, 0]
    );
    assert_eq!(from_vec.used_size, item.used_size);
    assert_eq!(from_vec.max_size, item.max_size);
    assert_eq!(from_vec.moved_offset, item.moved_offset);
    assert_eq!(from_vec.moved_shard_id, item.moved_shard_id);
    assert_eq!(from_vec.shard_item_type, item.shard_item_type);
    assert_eq!(from_vec.current_shard_id, item.current_shard_id);
    assert_eq!(from_vec.current_offset, item.current_offset);
    assert_eq!(from_vec.get_used_data(), b"Hello");
}

#[test]
fn test_item_moved_with_offset_0() {
    let shard_id = fresh_id();
    let offset = 30;
    let mut item = ShardItem::new(b"Hello", fresh_id(), shard_id, offset);
    let id = fresh_id();
    item.moved_offset = Some(0);
    item.moved_shard_id = Some(id);
    let vec = item.to_vec();
    let new_item = ShardItem::from(vec);
    assert_eq!(new_item.moved_offset.unwrap(), 0);
}

#[test]
fn test_item_moved() {
    let mut item = ShardItem::new(b"Hello", fresh_id(), fresh_id(), 27);
    let id = uuid::Uuid::new_v4();
    item.moved_offset = Some(1);
    item.moved_shard_id = Some(*id.as_bytes());
    let vec = item.to_vec();
    let new_item = ShardItem::from(vec);
    assert_eq!(
        uuid::Uuid::from_bytes(new_item.moved_shard_id.unwrap()).to_string(),
        id.to_string()
    );
    assert_eq!(new_item.moved_offset.unwrap(), 1);
    assert_eq!(item.get_used_data(), b"Hello");
}

#[test]
fn test_item_serialization() {
    let item = ShardItem::new(b"Hello", fresh_id(), fresh_id(), 33);
    let original_uuid = uuid::Uuid::from_bytes(item.current_item_id);
    let to_vec = item.to_vec();

    let item_type = &to_vec[0..1];
    assert_eq!(item_type.len(), 1);
    let item_type = ShardItemType::from_le_bytes(item_type[0]).unwrap();
    assert!(item_type.is_raw());

    let uuid_bytes: [u8; 16] = to_vec[1..17].try_into().unwrap();
    assert_eq!(original_uuid, uuid::Uuid::from_bytes_le(uuid_bytes));

    let item_metadata_le_bytes_input: [u8; 8] = to_vec[17..25].try_into().unwrap();
    let item_metadata_usize = usize::from_le_bytes(item_metadata_le_bytes_input);
    assert_eq!(item_metadata_usize, 64);

    let inner_metadata = &to_vec[25..25 + item_metadata_usize];
    let item_len = &inner_metadata[24..32];
    let max_size = &inner_metadata[32..40];
    let moved_id_and_offset = &inner_metadata[40..64];

    let item_len_le_bytes: [u8; 8] = item_len.try_into().unwrap();
    let max_size_le_bytes: [u8; 8] = max_size.try_into().unwrap();
    assert_eq!(u64::from_le_bytes(item_len_le_bytes), 5);
    assert_eq!(u64::from_le_bytes(max_size_le_bytes), 20);
    assert_eq!(moved_id_and_offset, &[0u8; 24]);
    let item = &to_vec[89..109];
    assert_eq!(
        item,
        &[72, 101, 108, 108, 111, 0, 0, 0, 0, 0, 0, 0, 0, 0, 0, 0, 0, 0, 0, 0]
    );
    assert!(to_vec.get(110).is_none());
    assert_eq!(to_vec.len(), 89 + 20);
}

#[test]
fn item_type_bytes_round_trip() {
    for t in [ShardItemType::Raw, ShardItemType::Deleted, ShardItemType::Moved] {
        let b = t.get_le_identifier();
        assert_eq!(ShardItemType::from_le_bytes(b[0]), Ok(t));
    }
    assert_eq!(ShardItemType::Raw.get_le_identifier(), [0]);
    assert_eq!(ShardItemType::Deleted.get_le_identifier(), [1]);
    assert_eq!(ShardItemType::Moved.get_le_identifier(), [2]);
    assert!(ShardItemType::from_le_bytes(3).is_err());
}

#[test]
fn item_update_in_place_and_moved() {
    let mut item = ShardItem::new(b"Hello", fresh_id(), fresh_id(), 0);
    item.update(b"Hi");
    assert_eq!(item.get_used_data(), b"Hi");
    assert!(item.shard_item_type.is_raw());
    let mut big = ShardItem::new(b"ab", fresh_id(), fresh_id(), 0);
    // Two bytes get six bytes of extra room: eight fit, nine do not.
    big.update(b"123456789");
    assert!(big.shard_item_type.is_moved());
    assert_eq!(big.get_used_data(), b"ab");
}

#[test]
fn item_extra_room_is_capped() {
    let data = vec![7u8; 1000];
    let item = ShardItem::new(&data, fresh_id(), fresh_id(), 0);
    assert_eq!(item.max_size, 1000 + 2048);
    assert_eq!(ShardItem::calculate_size(b"abc"), 89 + 3);
}

#[test]
fn decoding_gives_back_the_item_id() {
    let item_id = *uuid::Uuid::from_u128(1).as_bytes();
    let shard_id = *uuid::Uuid::from_u128(2).as_bytes();
    let item = ShardItem::new(b"Hello", item_id, shard_id, 33);
    let r = ShardItem::from(item.to_vec());
    assert_eq!(uuid::Uuid::from_bytes(r.current_item_id), uuid::Uuid::from_u128(1));
    assert_eq!(uuid::Uuid::from_bytes(r.current_shard_id), uuid::Uuid::from_u128(2));
    assert_eq!(r.current_offset, 33);
    assert_eq!(r.get_used_data(), b"Hello");
}

#[test]
fn encoded_items_are_as_long_as_calculated() {
    for data in [b"".as_slice(), b"Hello".as_slice(), &[7u8; 300]] {
        let item = ShardItem::new(data, fresh_id(), fresh_id(), 5);
        assert_eq!(item.to_vec().len(), ShardItem::calculate_size(&item.data));
        assert_eq!(ShardItem::calculate_size(data), 89 + data.len());
    }
}
