use schemajs::config::KvShardConfig;
use schemajs::errors::ShardErrors;
use schemajs::kv_shard::{get_element_offset, KvShard, KvShardHeader};
use schemajs::shard::{AvailableSpace, Shard};

fn new_kv(value_size: usize, max_capacity: Option<u64>) -> KvShard {
    KvShard::new("/tmp/a.index".to_string(), Vec::new(), KvShardConfig { value_size, max_capacity }, None)
}

#[test]
fn test_kv_shard() {
    let mut kv_shard = new_kv(1, None);
    kv_shard
        .insert_item(&[
            &"a".to_string().into_bytes(),
            &"b".to_string().into_bytes(),
            &"c".to_string().into_bytes(),
        ])
        .unwrap();
    assert_eq!(kv_shard.header.items_len, 3);
    assert_eq!(kv_shard.get_element(1).unwrap(), "b".to_string().into_bytes());
    assert_eq!(kv_shard.get_element(2).unwrap(), "c".to_string().into_bytes());
    assert_eq!(kv_shard.get_element(0).unwrap(), "a".to_string().into_bytes());
    assert!(kv_shard.get_element(3).is_none());
}

#[test]
fn kv_header_and_offsets() {
    assert_eq!(KvShardHeader::header_size(), 40);
    assert_eq!(get_element_offset(0, 4), 40);
    assert_eq!(get_element_offset(3, 4), 52);
    let kv = new_kv(2, Some(5));
    assert_eq!(kv.data.len(), 40);
    assert_eq!(&kv.data[0..8], &5u64.to_le_bytes());
    assert_eq!(&kv.data[8..16], &0u64.to_le_bytes());
    assert_eq!(&kv.data[16..24], &2u64.to_le_bytes());
    assert_eq!(kv.breaking_point(), Some(5));
    assert_eq!(kv.available_space(), AvailableSpace::Fixed(5));
    assert_eq!(kv.get_last_index(), -1);
    assert!(kv.has_space());
    let unlimited = new_kv(2, None);
    assert_eq!(unlimited.breaking_point(), None);
    assert_eq!(unlimited.available_space(), AvailableSpace::Unlimited);
}

#[test]
fn kv_insert_counts_and_reads() {
    let mut kv = new_kv(2, Some(3));
    assert_eq!(kv.insert_item(&[b"ab".as_slice(), b"cd".as_slice()]), Ok(2));
    assert_eq!(kv.insert_item(&[b"ef".as_slice()]), Ok(3));
    assert_eq!(&kv.data[8..16], &3u64.to_le_bytes());
    assert_eq!(kv.read_item_from_index(2).unwrap(), b"ef");
    assert_eq!(kv.read_item_from_index(3), Err(ShardErrors::UnknownEntry));
    assert_eq!(kv.available_space(), AvailableSpace::Fixed(0));
    assert!(!kv.has_space());
    assert_eq!(kv.get_last_index(), 2);
}

#[test]
fn kv_insert_past_capacity_is_counted() {
    let mut kv = new_kv(2, Some(1));
    assert_eq!(kv.insert_item(&[b"ab".as_slice(), b"cd".as_slice()]), Ok(2));
    assert_eq!(&kv.data[8..16], &2u64.to_le_bytes());
    assert_eq!(kv.get_last_index(), 1);
    assert!(!kv.has_space());
    assert_eq!(kv.read_item_from_index(1).unwrap(), b"cd");
}

#[test]
fn kv_files_past_their_capacity_open() {
    let config = KvShardConfig { value_size: 4, max_capacity: Some(1) };
    // Laid out as the header is read: capacity 1, count 3, value size at
    // bytes 24..32, and the values from byte 40 on.
    let mut file = vec![0u8; 52];
    file[0..8].copy_from_slice(&1u64.to_le_bytes());
    file[8..16].copy_from_slice(&3u64.to_le_bytes());
    file[24..32].copy_from_slice(&4u64.to_le_bytes());
    file[48..52].copy_from_slice(b"wxyz");
    assert!(<KvShard as Shard<KvShardConfig>>::file_openable(&file, config));
    assert!(!<KvShard as Shard<KvShardConfig>>::file_within_capacity(&file, config));
    let reopened = KvShard::new("/tmp/a.index".to_string(), file.clone(), config, None);
    assert_eq!(reopened.get_last_index(), 2);
    assert_eq!(reopened.get_element(2).unwrap(), b"wxyz".to_vec());
    file[0..8].copy_from_slice(&3u64.to_le_bytes());
    assert!(<KvShard as Shard<KvShardConfig>>::file_within_capacity(&file, config));
}

#[test]
fn kv_swap_elements() {
    let mut kv = new_kv(2, None);
    kv.insert_item(&[b"ab".as_slice(), b"cd".as_slice()]).unwrap();
    let first = kv.get_element(0).unwrap();
    let second = kv.get_element(1).unwrap();
    kv.swap_elements(1, &second, &first).unwrap();
    assert_eq!(kv.get_element(0).unwrap(), b"cd");
    assert_eq!(kv.get_element(1).unwrap(), b"ab");
}

#[test]
fn kv_increment_len_in_file() {
    let mut file = Vec::new();
    let mut header = KvShardHeader::new_from_file(&mut file, None, None, Some(9), 4);
    assert_eq!(header.items_len, 0);
    assert_eq!(header.increment_len(None, &mut file), 1);
    assert_eq!(header.increment_len(Some(4), &mut file), 5);
    assert_eq!(&file[8..16], &5u64.to_le_bytes());
}

#[test]
fn kv_files_are_checked_before_opening() {
    let config = KvShardConfig { value_size: 4, max_capacity: None };
    // A file laid out as the header is read: capacity, count, value size at
    // bytes 24..32, id at 32..48, and the values from byte 40 on.
    let mut file = vec![0u8; 52];
    file[8..16].copy_from_slice(&3u64.to_le_bytes());
    file[24..32].copy_from_slice(&4u64.to_le_bytes());
    file[44..48].copy_from_slice(b"efgh");
    assert!(<KvShard as Shard<KvShardConfig>>::file_openable(&file, config));
    let reopened = KvShard::new("/tmp/a.index".to_string(), file.clone(), config, None);
    assert_eq!(reopened.get_element(1).unwrap(), b"efgh".to_vec());
    assert!(!<KvShard as Shard<KvShardConfig>>::file_openable(&file[0..51], config));
    assert!(<KvShard as Shard<KvShardConfig>>::file_openable(&[], config));
    assert!(!<KvShard as Shard<KvShardConfig>>::file_openable(&[], KvShardConfig { value_size: 0, max_capacity: None }));
    // The header is written with the value size at bytes 16..24, where it
    // is not read back, so a written file is refused.
    let mut kv = new_kv(4, None);
    kv.insert_item(&[&b"abcd".to_vec(), &b"efgh".to_vec(), &b"ijkl".to_vec()]).unwrap();
    assert!(!<KvShard as Shard<KvShardConfig>>::file_openable(&kv.data, config));
}

#[test]
fn fresh_header_ids_are_version_four() {
    for _ in 0..8 {
        let header = schemajs::kv_shard::KvShardHeader::new(0, None, 2, None);
        assert_eq!(header.id[6] >> 4, 4);
        assert_eq!(header.id[8] >> 6, 2);
    }
}
