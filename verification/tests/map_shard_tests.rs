use schemajs::config::{DataShardConfig, KvShardConfig};
use schemajs::kv_shard::KvShard;
use schemajs::data_shard::DataShard;
use schemajs::errors::ShardErrors;
use schemajs::map_shard::{extract_shard_signature, generate_shard_name, MapShard};
use schemajs::shard::Shard;

fn chain(folder: &str, max: Option<u64>, files: Vec<(String, Vec<u8>)>) -> MapShard<DataShard, DataShardConfig> {
    MapShard::<DataShard, DataShardConfig>::new(folder.to_string(), "data_", DataShardConfig { max_offsets: max }, files)
}

fn file_name(p: &str) -> &str {
    p.rsplit('/').next().unwrap()
}

#[test]
fn test_context_creation_empty_table() {
    let folder = "./test_cases/fake-db-folder/fake-empty-table";
    let context = chain(
        folder,
        None,
        vec![(format!("{}/data_c222a11d-c80f-4d6e-8c8a-7b83f79f9ef2_0.data", folder), Vec::new())],
    );
    assert!(context.past_master_shards.is_empty());
    assert_eq!(
        file_name(&context.current_master_shard.get_path()),
        "data_c222a11d-c80f-4d6e-8c8a-7b83f79f9ef2_0.data"
    );
}

#[test]
fn test_context_creation_partial_table() {
    let folder = "./test_cases/fake-db-folder/fake-partial-folder";
    let context = chain(
        folder,
        None,
        vec![
            (format!("{}/data_38af2223-d339-4f45-994e-eef41a69fcaa_2.data", folder), Vec::new()),
            (format!("{}/data_0b6b8cf3-3d0c-4a34-9e6e-0c2d1b4a8f10_0.data", folder), Vec::new()),
            (format!("{}/data_5d1e6a2c-7a55-4c1b-9d2f-3f0e8c9b7a21_1.data", folder), Vec::new()),
            (format!("{}/notes.txt", folder), Vec::new()),
        ],
    );
    assert!(!context.past_master_shards.is_empty());
    assert_eq!(
        file_name(&context.current_master_shard.get_path()),
        "data_38af2223-d339-4f45-994e-eef41a69fcaa_2.data"
    );
    assert_eq!(context.past_master_shards.len(), 2);
    assert_eq!(context.past_master_shards[0].0, "0b6b8cf3-3d0c-4a34-9e6e-0c2d1b4a8f10");
    assert_eq!(context.past_master_shards[1].0, "5d1e6a2c-7a55-4c1b-9d2f-3f0e8c9b7a21");
}

#[test]
fn test_shard_automatic_creation() {
    let mut context = chain("/tmp/chain", Some(1), Vec::new());
    context.insert_rows(&[&b"1".to_vec()]);
    context.insert_rows(&[&b"2".to_vec()]);
    assert_eq!(context.past_master_shards.len(), 1);
    let item1 = context.past_master_shards[0].1.read_item_from_index(0).unwrap().get_used_data().to_vec();
    let item2 = context.current_master_shard.read_item_from_index(0).unwrap().get_used_data().to_vec();
    let mut items = vec![item1, item2];
    items.sort();
    assert_eq!(items, vec![b"1".to_vec(), b"2".to_vec()]);
}

#[test]
fn test_global_get_element() {
    let mut context = chain("/tmp/chain", Some(1), Vec::new());
    context.insert_rows(&[&b"1".to_vec(), &b"2".to_vec(), &b"3".to_vec(), &b"4".to_vec()]);
    context.get_element(3).unwrap();
}

#[test]
fn get_element_reads_past_masters_last_first() {
    let mut context = chain("/tmp/chain", Some(1), Vec::new());
    context.insert_rows(&[&b"1".to_vec(), &b"2".to_vec(), &b"3".to_vec(), &b"4".to_vec()]);
    assert_eq!(context.past_master_shards.len(), 3);
    assert_eq!(context.get_element(0).unwrap(), b"3");
    assert_eq!(context.get_element(1).unwrap(), b"2");
    assert_eq!(context.get_element(2).unwrap(), b"1");
    assert_eq!(context.get_element(3).unwrap(), b"4");
    assert_eq!(context.get_element(4), Err(ShardErrors::OutOfRange));
}

#[test]
fn insert_rows_positions() {
    let mut context = chain("/tmp/chain", Some(2), Vec::new());
    // Two rows fit in the first master: the last one is at index 1.
    assert_eq!(context.insert_rows(&[b"a".as_slice(), b"b".as_slice()]), 1);
    // The master is full: a new one takes the row, behind one past master.
    assert_eq!(context.insert_rows(&[b"c".as_slice()]), 2);
    // One row fits; the other goes to a new master: 3 + (2 * 2 + 0).
    assert_eq!(context.insert_rows(&[b"d".as_slice(), b"e".as_slice()]), 7);
    assert_eq!(context.past_master_shards.len(), 2);
    assert_eq!(context.current_master_shard.get_last_index(), 0);
}

#[test]
fn new_masters_are_numbered_in_turn() {
    let mut context = chain("/tmp/chain", Some(1), Vec::new());
    context.insert_rows(&[b"a".as_slice(), b"b".as_slice(), b"c".as_slice()]);
    let (n0, id0, _) = extract_shard_signature(context.past_master_shards[0].1.get_path()).unwrap();
    let (n1, _, _) = extract_shard_signature(context.past_master_shards[1].1.get_path()).unwrap();
    let (n2, id2, _) = extract_shard_signature(context.current_master_shard.get_path()).unwrap();
    assert_eq!((n0, n1, n2), (0, 1, 2));
    assert_eq!(id0, context.past_master_shards[0].0);
    assert_eq!(id2, context.current_master_shard.get_id());
}

#[test]
fn shard_names_read_back() {
    let id = uuid::Uuid::new_v4();
    let name = generate_shard_name("data_", id.as_bytes(), 12);
    assert_eq!(name, format!("data_{}_12.data", id));
    let sig = extract_shard_signature(format!("/a/b/{}", name)).unwrap();
    assert_eq!(sig.0, 12);
    assert_eq!(sig.1, id.to_string());
    assert_eq!(sig.2, format!("/a/b/{}", name));
    assert!(extract_shard_signature("/a/b/data_12.data".to_string()).is_none());
    assert!(extract_shard_signature("/a/b/".to_string()).is_none());
    assert!(extract_shard_signature("/a/x_y_z.data".to_string()).is_none());
    assert_eq!(extract_shard_signature("x_y_+7.tar.gz".to_string()).map(|s| (s.0, s.1)), Some((7, "y".to_string())));
}

#[test]
fn shard_names_read_back_under_a_prefix_with_folders() {
    let id = uuid::Uuid::new_v4();
    let name = generate_shard_name("x.y/local_", id.as_bytes(), 3);
    let path = schemajs::text::join_path("/a/b", &name);
    assert_eq!(path, format!("/a/b/x.y/local_{}_3.data", id));
    let sig = extract_shard_signature(path.clone()).unwrap();
    assert_eq!(sig.0, 3);
    assert_eq!(sig.1, id.to_string());
    assert_eq!(sig.2, path);
}

#[test]
fn try_new_refuses_unreadable_ids() {
    let files = vec![
        ("/d/data_nope_0.data".to_string(), Vec::new()),
        ("/d/data_0b6b8cf3-3d0c-4a34-9e6e-0c2d1b4a8f10_1.data".to_string(), Vec::new()),
    ];
    let r = MapShard::<DataShard, DataShardConfig>::try_new("/d".to_string(), "data_", DataShardConfig { max_offsets: None }, files);
    assert!(r.is_none());
    let files = vec![("/d/data_nope_3.data".to_string(), Vec::new())];
    let r = MapShard::<DataShard, DataShardConfig>::try_new("/d".to_string(), "data_", DataShardConfig { max_offsets: None }, files);
    assert!(r.is_some());
}

#[test]
fn new_chain_without_files_makes_master_zero() {
    let context = chain("/tmp/x", None, Vec::new());
    let (n, id, _) = extract_shard_signature(context.current_master_shard.get_path()).unwrap();
    assert_eq!(n, 0);
    assert_eq!(id, context.current_master_shard.get_id());
    assert!(context.current_master_shard.get_path().starts_with("/tmp/x/data_"));
}

#[test]
fn reopened_chains_hold_the_rows_their_files_count() {
    let mut context = chain("/tmp/reopen", Some(2), Vec::new());
    context.insert_rows(&[&b"a".to_vec(), &b"b".to_vec(), &b"c".to_vec()]);
    assert_eq!(context.past_master_shards.len(), 1);
    let past_path = context.past_master_shards[0].1.get_path();
    let past_bytes = context.past_master_shards[0].1.data.clone();
    let master_path = context.current_master_shard.get_path();
    let master_bytes = context.current_master_shard.data.clone();

    // Inserting keeps the count of used slots in memory only: the files
    // still count none, and so do the shards opened on them.
    let reopened = chain("/tmp/reopen", Some(2), vec![
        (past_path.clone(), past_bytes.clone()),
        (master_path.clone(), master_bytes.clone()),
    ]);
    assert_eq!(reopened.past_master_shards.len(), 1);
    assert_eq!(reopened.past_master_shards[0].0, context.past_master_shards[0].0);
    assert_eq!(reopened.past_master_shards[0].1.get_last_index(), -1);
    assert_eq!(reopened.current_master_shard.get_path(), master_path);

    // A file whose header counts its used slots gives those rows back.
    let mut counted = past_bytes.clone();
    counted[8..16].copy_from_slice(&1i64.to_le_bytes());
    let reopened = chain("/tmp/reopen", Some(2), vec![(past_path, counted), (master_path, master_bytes)]);
    let past = &reopened.past_master_shards[0].1;
    assert_eq!(past.get_last_index(), 1);
    assert_eq!(past.read_item_from_index(0).unwrap().get_used_data().to_vec(), b"a".to_vec());
    assert_eq!(past.read_item_from_index(1).unwrap().get_used_data().to_vec(), b"b".to_vec());
}

#[test]
fn shard_files_are_checked_before_opening() {
    let mut context = chain("/tmp/checked", Some(2), Vec::new());
    context.insert_rows(&[&b"a".to_vec()]);
    let path = context.current_master_shard.get_path();
    let mut good = context.current_master_shard.data.clone();
    // The file records its one used slot.
    good[8..16].copy_from_slice(&0i64.to_le_bytes());
    let config = DataShardConfig { max_offsets: Some(2) };
    assert!(<DataShard as Shard<DataShardConfig>>::file_openable(&good, config));
    assert!(<DataShard as Shard<DataShardConfig>>::file_openable(&[], config));
    // More used slots than the file has room for.
    let mut bad = good.clone();
    bad[8..16].copy_from_slice(&5i64.to_le_bytes());
    assert!(!<DataShard as Shard<DataShardConfig>>::file_openable(&bad, config));
    assert!(!<DataShard as Shard<DataShardConfig>>::file_openable(&good[0..20], config));
    let opened = MapShard::<DataShard, DataShardConfig>::try_new("/tmp/checked".to_string(), "data_", config, vec![(path.clone(), good)]);
    assert_eq!(opened.unwrap().current_master_shard.get_last_index(), 0);
    let refused = MapShard::<DataShard, DataShardConfig>::try_new("/tmp/checked".to_string(), "data_", config, vec![(path, bad)]);
    assert!(refused.is_none());
}

#[test]
fn past_files_sharing_an_id_are_kept_once() {
    let folder = "./test_cases/fake-db-folder/dup";
    let context = chain(
        folder,
        None,
        vec![
            (format!("{}/data_0b6b8cf3-3d0c-4a34-9e6e-0c2d1b4a8f10_0.data", folder), Vec::new()),
            (format!("{}/data_5d1e6a2c-7a55-4c1b-9d2f-3f0e8c9b7a21_1.data", folder), Vec::new()),
            (format!("{}/data_0b6b8cf3-3d0c-4a34-9e6e-0c2d1b4a8f10_2.data", folder), Vec::new()),
            (format!("{}/data_38af2223-d339-4f45-994e-eef41a69fcaa_3.data", folder), Vec::new()),
        ],
    );
    assert_eq!(context.past_master_shards.len(), 2);
    assert_eq!(context.past_master_shards[0].0, "0b6b8cf3-3d0c-4a34-9e6e-0c2d1b4a8f10");
    assert_eq!(
        file_name(&context.past_master_shards[0].1.get_path()),
        "data_0b6b8cf3-3d0c-4a34-9e6e-0c2d1b4a8f10_2.data"
    );
    assert_eq!(context.past_master_shards[1].0, "5d1e6a2c-7a55-4c1b-9d2f-3f0e8c9b7a21");
    assert_eq!(
        file_name(&context.current_master_shard.get_path()),
        "data_38af2223-d339-4f45-994e-eef41a69fcaa_3.data"
    );
}

#[test]
fn try_new_refuses_a_master_past_its_capacity() {
    let config = KvShardConfig { value_size: 4, max_capacity: Some(1) };
    let mut file = vec![0u8; 52];
    file[0..8].copy_from_slice(&1u64.to_le_bytes());
    file[8..16].copy_from_slice(&3u64.to_le_bytes());
    file[24..32].copy_from_slice(&4u64.to_le_bytes());
    let id = uuid::Uuid::new_v4();
    let path = format!("/k/idx_{}_0.data", id);
    let over = MapShard::<KvShard, KvShardConfig>::try_new("/k".to_string(), "idx_", config, vec![(path.clone(), file.clone())]);
    assert!(over.is_none());
    file[0..8].copy_from_slice(&3u64.to_le_bytes());
    let fits = MapShard::<KvShard, KvShardConfig>::try_new("/k".to_string(), "idx_", config, vec![(path, file)]);
    assert!(fits.is_some());
}
