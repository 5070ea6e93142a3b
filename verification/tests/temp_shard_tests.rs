use schemajs::config::{DataShardConfig, TempDataShardConfig, TempOffsetTypes};
use schemajs::data_shard::DataShard;
use schemajs::errors::ShardErrors;
use schemajs::map_shard::MapShard;
use schemajs::shard::Shard;
use schemajs::temp_map_shard::TempMapShard;

fn temp_map(slots: TempOffsetTypes) -> TempMapShard<DataShard, DataShardConfig, TempDataShardConfig> {
    let data_path = "./test_cases/data/x".to_string();
    let ctx = MapShard::<DataShard, DataShardConfig>::new(
        data_path.clone(),
        "localdata_",
        DataShardConfig { max_offsets: None },
        Vec::new(),
    );
    TempMapShard::<DataShard, DataShardConfig, TempDataShardConfig>::new(
        data_path,
        "tempdata_",
        ctx,
        TempDataShardConfig { max_offsets: slots },
    )
}

#[test]
fn test_temp_shard() {
    let mut shard = temp_map(TempOffsetTypes::Custom(Some(2)));

    shard.raw_insert_rows(&[&"0:Hello world".as_bytes().to_vec()]).unwrap();

    let curr_shard_id = {
        assert_eq!(shard.temp_shards.len(), 1);
        shard.temp_shards.first().unwrap().get_id().clone()
    };
    // Not reconciled yet: the parent holds no row.
    let parent_items_len = shard.parent_shard.current_master_shard.header.get_last_offset_index();
    assert_eq!(parent_items_len, -1);

    let does_shard_still_exist = shard.temp_shards.iter().any(|i| i.get_id() == curr_shard_id);
    assert!(does_shard_still_exist);

    shard.raw_insert_rows(&[&"1:Hello Cats".as_bytes().to_vec()]).unwrap();
    // The temporary shard holds two rows at most: this one reconciles it.
    let _a = shard.raw_insert_rows(&[&"2:Hello Dogs".as_bytes().to_vec()]).unwrap();

    let does_shard_still_exist = shard.temp_shards.iter().any(|i| i.get_id() == curr_shard_id);
    assert!(!does_shard_still_exist);

    assert_eq!(shard.temp_shards.len(), 1);
    let temp_shard = shard.temp_shards.first().unwrap();
    let item = temp_shard.read_item_from_index(0).unwrap();
    assert_eq!("2:Hello Dogs".as_bytes().to_vec(), item.get_used_data());

    let parent_items_len = shard.parent_shard.current_master_shard.header.get_last_offset_index();
    assert_eq!(parent_items_len, 1);

    let parent_item_1 = shard.parent_shard.current_master_shard.read_item_from_index(0).unwrap();
    let parent_item_2 = shard.parent_shard.current_master_shard.read_item_from_index(1).unwrap();
    assert_eq!("0:Hello world".as_bytes().to_vec(), parent_item_1.get_used_data());
    assert_eq!("1:Hello Cats".as_bytes().to_vec(), parent_item_2.get_used_data());
}

#[test]
fn reconciled_rows_are_handed_on_with_positions() {
    let mut shard = temp_map(TempOffsetTypes::WALBased);
    assert_eq!(shard.raw_insert_rows(&[b"a".as_slice()]), Ok(0));
    assert_eq!(shard.raw_insert_rows(&[b"b".as_slice()]), Ok(0));
    let batches = shard.take_reconciled();
    assert_eq!(batches.len(), 1);
    assert_eq!(batches[0].len(), 1);
    assert_eq!(batches[0][0].data, b"a".to_vec());
    assert_eq!(batches[0][0].index, 0);
    assert!(shard.take_reconciled().is_empty());
    shard.reconcile_all().unwrap();
    assert!(shard.temp_shards.is_empty());
    let batches = shard.take_reconciled();
    assert_eq!(batches.len(), 1);
    assert_eq!(batches[0][0].data, b"b".to_vec());
    assert_eq!(batches[0][0].index, 1);
    assert_eq!(shard.parent_shard.get_element(1).unwrap(), b"b");
}

#[test]
fn rows_past_the_free_slots_are_written_but_not_recorded() {
    let mut shard = temp_map(TempOffsetTypes::Custom(Some(1)));
    assert_eq!(
        shard.raw_insert_rows(&[b"a".as_slice(), b"b".as_slice()]),
        Err(ShardErrors::OutOfPositions)
    );
    assert_eq!(shard.temp_shards.len(), 1);
    // The one free slot records the first row; the second is written but not
    // recorded. The last slot is read up to the end of the file, and an item
    // takes its data from the end of what is read: the second row's.
    assert_eq!(shard.temp_shards[0].get_last_index(), 0);
    let item = shard.temp_shards[0].read_item_from_index(0).unwrap();
    assert_eq!(item.get_used_data(), b"b".to_vec());
}

#[test]
fn reconcile_specific_positions() {
    let mut shard = temp_map(TempOffsetTypes::Custom(Some(5)));
    shard.raw_insert_rows(&[b"a".as_slice()]).unwrap();
    assert_eq!(shard.reconcile_specific(Some(3)), Ok(()));
    assert_eq!(shard.temp_shards.len(), 1);
    assert_eq!(shard.reconcile_specific(None), Ok(()));
    assert!(shard.temp_shards.is_empty());
    assert_eq!(shard.reconcile_specific(None), Ok(()));
    assert_eq!(shard.parent_shard.get_element(0).unwrap(), b"a");
}

#[test]
fn reconciled_positions_follow_the_chain_shards() {
    // A chain whose shards take two rows: the positions count the rows of
    // the shards behind the one that took each row.
    let ctx = MapShard::<DataShard, DataShardConfig>::new(
        "/tmp/positions".to_string(),
        "localdata_",
        DataShardConfig { max_offsets: Some(2) },
        Vec::new(),
    );
    let mut shard = TempMapShard::<DataShard, DataShardConfig, TempDataShardConfig>::new(
        "/tmp/positions".to_string(),
        "tempdata_",
        ctx,
        TempDataShardConfig { max_offsets: TempOffsetTypes::Custom(Some(5)) },
    );
    for row in [b"a", b"b", b"c", b"d", b"e"] {
        shard.raw_insert_rows(&[row.as_slice()]).unwrap();
    }
    shard.reconcile_all().unwrap();
    let batches = shard.take_reconciled();
    assert_eq!(batches.len(), 1);
    let positions: Vec<u64> = batches[0].iter().map(|d| d.index).collect();
    assert_eq!(positions, vec![0, 1, 2, 3, 4]);
    assert_eq!(shard.parent_shard.past_master_shards.len(), 2);
    assert_eq!(shard.parent_shard.current_master_shard.get_last_index(), 0);
}
