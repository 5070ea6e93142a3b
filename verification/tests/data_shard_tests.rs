use schemajs::config::DataShardConfig;
use schemajs::data_shard::{DataShard, InsertItem};
use schemajs::errors::ShardErrors;
use schemajs::map_shard::MapShard;
use schemajs::shard::{AvailableSpace, Shard};

fn fresh_id() -> [u8; 16] {
    *uuid::Uuid::new_v4().as_bytes()
}

fn new_shard(max: Option<u64>) -> DataShard {
    DataShard::new(
        "/tmp/shard.bin".to_string(),
        Vec::new(),
        DataShardConfig { max_offsets: max },
        None,
    )
}

#[test]
fn test_err() {
    assert!(ShardErrors::FailedDeletion.is_failed_deletion());
    assert!(!ShardErrors::FlushingError.is_failed_deletion());
}

#[test]
fn test_data_shard() {
    let mut data_shard = new_shard(Some(10));
    let strs = [
        "Hello World",
        "Cats are cute",
        "Venezuela",
        "Roses",
        "Cars",
        "1",
        "true",
        "false",
        "------Divider-----",
        "String",
    ];
    let rows: Vec<InsertItem> = strs
        .iter()
        .map(|i| InsertItem::new(i.as_bytes(), fresh_id()))
        .collect();
    data_shard.insert_item(&rows).unwrap();

    let item = data_shard.read_item_from_index(0).unwrap();
    assert_eq!(item.get_used_data(), "Hello World".as_bytes().to_vec());
    let item = data_shard.read_item_from_index(9).unwrap();
    assert_eq!(item.get_used_data(), "String".as_bytes().to_vec());
    let item = data_shard.read_item_from_index(5).unwrap();
    assert_eq!(item.get_used_data(), "1".as_bytes().to_vec());

    let item = data_shard.insert_item(&[InsertItem::new(&vec![1, 2, 3], fresh_id())]);
    assert!(item.is_err());
    assert!(item.err().unwrap().is_out_of_positions());
}

#[test]
fn test_delete_from_shard() {
    let mut data_shard = new_shard(Some(4));
    let strs = ["A", "B", "C", "D"];
    let rows: Vec<InsertItem> = strs
        .iter()
        .map(|i| InsertItem::new(i.as_bytes(), fresh_id()))
        .collect();
    data_shard.insert_item(&rows).unwrap();

    let item1 = data_shard.read_item_from_index(0).unwrap();
    let item2 = data_shard.read_item_from_index(1).unwrap();
    let item3 = data_shard.read_item_from_index(2).unwrap();
    let item4 = data_shard.read_item_from_index(3).unwrap();
    assert!(item1.shard_item_type.is_raw());
    assert!(item2.shard_item_type.is_raw());
    assert!(item3.shard_item_type.is_raw());
    assert!(item4.shard_item_type.is_raw());

    data_shard.remove_items(&[1, 2]).unwrap();
    let item2 = data_shard.read_item_from_index(1).unwrap();
    let item3 = data_shard.read_item_from_index(2).unwrap();
    assert!(item2.shard_item_type.is_deleted());
    assert!(item3.shard_item_type.is_deleted());
    assert!(data_shard.read_item_from_index(0).unwrap().shard_item_type.is_raw());
}

#[test]
fn test_data_shard_from_file() {
    let mut data_shard = new_shard(Some(10));
    let strs = [
        "Hello World",
        "Cats are cute",
        "Venezuela",
        "Roses",
        "Cars",
        "1",
        "true",
        "false",
        "------Divider-----",
        "String",
    ];
    for data in strs.into_iter() {
        data_shard
            .insert_item(&[InsertItem::new(&data.as_bytes().to_vec(), fresh_id())])
            .unwrap();
    }
    let reopened = DataShard::new(
        "/tmp/shard.bin".to_string(),
        data_shard.data.clone(),
        DataShardConfig { max_offsets: Some(10) },
        None,
    );
    assert_eq!(reopened.id, data_shard.id);
    assert_eq!(reopened.header.max_offsets, 10);
    assert_eq!(reopened.data, data_shard.data);
    // The index of the last used slot is kept in memory only: the file still
    // holds the -1 it was made with.
    assert_eq!(reopened.get_last_index(), -1);
    assert_eq!(data_shard.get_last_index(), 9);
}

#[test]
fn test_data_shard_threads() {
    let mut data_shard = new_shard(Some(2));
    data_shard
        .insert_item(&[InsertItem::new(b"Hello World", fresh_id())])
        .unwrap();
    data_shard
        .insert_item(&[InsertItem::new(b"Cats are beautiful", fresh_id())])
        .unwrap();
    assert_eq!(data_shard.get_last_index(), 1);
}

#[test]
fn test_data_shard_threads_read_() {
    let mut data_shard = new_shard(Some(2));
    let a = data_shard.read_item_from_index(0);
    assert!(a.is_err());
    data_shard
        .insert_item(&[InsertItem::new(b"Hello World", fresh_id())])
        .unwrap();
    let a = data_shard.read_item_from_index(0);
    assert!(a.is_ok());
    assert_eq!(a.unwrap().get_used_data(), b"Hello World");
}

#[test]
fn new_shard_layout() {
    let id = fresh_id();
    let shard = DataShard::new("/x/a.data".to_string(), Vec::new(), DataShardConfig { max_offsets: Some(3) }, Some(id));
    assert_eq!(shard.id, id);
    assert_eq!(shard.data.len(), 32 + 8 * 3);
    assert_eq!(&shard.data[0..8], &3u64.to_le_bytes());
    assert_eq!(&shard.data[8..16], &(-1i64).to_le_bytes());
    assert_eq!(shard.get_last_index(), -1);
    assert!(shard.has_space());
    assert_eq!(shard.available_space(), AvailableSpace::Fixed(3));
    assert_eq!(shard.breaking_point(), Some(3));
    assert_eq!(shard.get_path(), "/x/a.data");
    assert_eq!(shard.get_id(), uuid::Uuid::from_bytes(id).to_string());
    let default = new_shard(None);
    assert_eq!(default.breaking_point(), Some(100));
}

#[test]
fn read_past_used_slots_is_unknown_offset() {
    let shard = new_shard(Some(3));
    assert_eq!(DataShard::read_item_from_index(&shard, 0).err(), Some(ShardErrors::UnknownOffset));
    assert!(DataShard::read_item_from_index(&shard, 0).err().unwrap().is_unknown_offset());
    assert_eq!(
        <DataShard as Shard<DataShardConfig>>::read_item_from_index(&shard, 7).err(),
        Some(ShardErrors::UnknownOffset)
    );
}

#[test]
fn trait_insert_reads_back_in_order() {
    let mut shard = new_shard(Some(3));
    let r = <DataShard as Shard<DataShardConfig>>::insert_item(&mut shard, &[b"x".as_slice(), b"yy".as_slice()]);
    assert_eq!(r, Ok(1));
    let r = <DataShard as Shard<DataShardConfig>>::insert_item(&mut shard, &[b"zzz".as_slice()]);
    assert_eq!(r, Ok(2));
    assert_eq!(<DataShard as Shard<DataShardConfig>>::read_item_from_index(&shard, 0).unwrap(), b"x");
    assert_eq!(<DataShard as Shard<DataShardConfig>>::read_item_from_index(&shard, 1).unwrap(), b"yy");
    assert_eq!(<DataShard as Shard<DataShardConfig>>::read_item_from_index(&shard, 2).unwrap(), b"zzz");
    assert_eq!(shard.available_space(), AvailableSpace::Fixed(0));
    assert!(!shard.has_space());
}

#[test]
fn prepared_item_is_fresh_item_encoding() {
    let shard = new_shard(Some(1));
    let id = fresh_id();
    let bytes = shard.prepare_item_insert(b"abc", id, 500);
    assert_eq!(bytes.len(), 89 + 3 + 9);
    let item = schemajs::item::ShardItem::from(bytes);
    assert_eq!(item.current_offset, 500);
    assert_eq!(item.current_shard_id, shard.id);
    assert_eq!(item.get_used_data(), b"abc");
}

#[test]
fn update_items_in_place_and_moves() {
    let mut shard = new_shard(Some(4));
    shard
        .insert_item(&[
            InsertItem::new(b"ab", fresh_id()),
            InsertItem::new(b"cd", fresh_id()),
        ])
        .unwrap();
    let mut chain = MapShard::<DataShard, DataShardConfig>::new(
        "/data".to_string(),
        "data_",
        DataShardConfig { max_offsets: Some(2) },
        Vec::new(),
    );
    let r = shard.update_items(vec![(0, b"xyz".as_slice()), (1, b"0123456789".as_slice()), (7, b"q".as_slice())], &mut chain);
    assert_eq!(r, Ok(()));
    let first = shard.read_item_from_index(0).unwrap();
    assert_eq!(first.get_used_data(), b"xyz");
    assert!(first.shard_item_type.is_raw());
    let second = shard.read_item_from_index(1).unwrap();
    assert!(second.shard_item_type.is_moved());
    assert_eq!(second.get_used_data(), b"cd");
    assert_eq!(second.moved_offset, Some(0));
    assert_eq!(
        second.moved_shard_id.map(|b| uuid::Uuid::from_bytes(b).to_string()),
        Some(chain.current_master_shard.get_id())
    );
    assert_eq!(chain.get_element(0).unwrap(), b"0123456789");
    // A moved item is not updated again.
    let r = shard.update_items(vec![(1, b"z".as_slice())], &mut chain);
    assert_eq!(r, Ok(()));
    assert!(shard.read_item_from_index(1).unwrap().shard_item_type.is_moved());
    assert_eq!(chain.current_master_shard.get_last_index(), 0);
}

#[test]
fn inserted_rows_read_back_as_raw_items_of_the_shard() {
    let mut shard = new_shard(Some(4));
    let first = fresh_id();
    let second = fresh_id();
    assert_eq!(
        shard.insert_item(&[InsertItem::new(b"one", first), InsertItem::new(b"two", second)]),
        Ok(1)
    );
    for (index, id, data) in [(0usize, first, b"one"), (1usize, second, b"two")] {
        let item = shard.read_item_from_index(index).unwrap();
        assert_eq!(item.shard_item_type, schemajs::item::ShardItemType::Raw);
        assert_eq!(item.current_item_id, id);
        assert_eq!(item.current_shard_id, shard.id);
        assert_eq!(item.get_used_data(), data.to_vec());
        assert_eq!(item.get_internal_pos(), Some(item.current_offset));
        assert!(item.moved_shard_id.is_none());
    }
}
