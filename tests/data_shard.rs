use schemajs::data_shard::DataShard;
use schemajs::errors::ShardErrors;
use schemajs::header::DataShardHeader;

fn u64_at(b: &[u8], pos: usize) -> u64 {
    u64::from_le_bytes(b[pos..pos + 8].try_into().unwrap())
}

#[test]
fn open_empty_write_one_reopen() {
    let mut shard = DataShard::from_file(Vec::new(), Some(4), None).unwrap();
    assert_eq!(shard.insert_row(&b"hello".to_vec()), Ok(0));
    let image = shard.file().clone();
    let reopened = DataShard::from_file(image, None, None).unwrap();
    assert_eq!(reopened.get_last_index(), 0);
    assert_eq!(reopened.read_item_from_index(0).unwrap(), b"hello".to_vec());
    assert_eq!(reopened.available_space(), 3);
    assert_eq!(reopened.id(), shard.id());
}

#[test]
fn first_insert_goes_to_slot_zero_at_header_size() {
    let mut shard = DataShard::new(4);
    assert_eq!(shard.get_last_index(), -1);
    let header_size = DataShardHeader::calculate_header_size(4);
    assert_eq!(header_size, 8 + 8 + 16 + 4 * 8);
    assert_eq!(shard.file().len(), header_size);
    assert_eq!(u64_at(shard.file(), 8), u64::MAX);
    shard.insert_row(&vec![7u8, 8, 9]).unwrap();
    assert_eq!(shard.get_last_index(), 0);
    assert_eq!(u64_at(shard.file(), 0), 4);
    assert_eq!(u64_at(shard.file(), 8), 0);
    assert_eq!(u64_at(shard.file(), DataShardHeader::calculate_offset_pos(0)), header_size as u64);
    assert_eq!(u64_at(shard.file(), DataShardHeader::calculate_offset_pos(1)), 0);
}

#[test]
fn capacity_is_respected() {
    let mut shard = DataShard::new(2);
    assert_eq!(shard.insert_row(&vec![1]), Ok(0));
    assert_eq!(shard.breaking_point(), None);
    assert_eq!(shard.insert_row(&vec![2]), Ok(1));
    assert!(!shard.has_space());
    assert_eq!(shard.breaking_point(), Some(1));
    let before = shard.file().clone();
    assert_eq!(shard.insert_row(&vec![3]), Err(ShardErrors::OutOfPositions));
    assert_eq!(shard.file(), &before);
}

#[test]
fn insert_rows_is_all_or_nothing() {
    let mut shard = DataShard::new(3);
    assert_eq!(shard.insert_rows(&vec![vec![1], vec![2, 2]]), Ok(0));
    assert_eq!(
        shard.insert_rows(&vec![vec![3], vec![4]]),
        Err(ShardErrors::OutOfPositions)
    );
    assert_eq!(shard.len(), 2);
    assert_eq!(shard.insert_rows(&vec![vec![5, 5, 5]]), Ok(2));
    assert_eq!(shard.read_all(), vec![vec![1], vec![2, 2], vec![5, 5, 5]]);
}

#[test]
fn reading_an_unused_slot_fails() {
    let mut shard = DataShard::new(3);
    shard.insert_row(&vec![1]).unwrap();
    assert_eq!(shard.read_item_from_index(1), Err(ShardErrors::UnknownEntry));
    assert_eq!(shard.read_item_from_index(99), Err(ShardErrors::UnknownEntry));
}

#[test]
fn appended_bytes_read_back() {
    let mut shard = DataShard::new(8);
    let rows: Vec<Vec<u8>> = vec![vec![], vec![0], b"abc".to_vec(), vec![255; 40]];
    for row in &rows {
        let slot = shard.insert_row(row).unwrap();
        assert_eq!(&shard.read_item_from_index(slot as usize).unwrap(), row);
    }
}

#[test]
fn corrupt_header_is_refused() {
    assert_eq!(
        DataShard::from_file(vec![1, 2, 3], None, None).err(),
        Some(ShardErrors::InvalidHeader)
    );
    let mut image = DataShard::new(2).file().clone();
    image[8..16].copy_from_slice(&5u64.to_le_bytes());
    assert_eq!(DataShard::from_file(image, None, None).err(), Some(ShardErrors::InvalidHeader));
    let mut shard = DataShard::new(2);
    shard.insert_row(&vec![1, 2]).unwrap();
    let mut image = shard.file().clone();
    let pos = DataShardHeader::calculate_offset_pos(1);
    image[pos..pos + 8].copy_from_slice(&40u64.to_le_bytes());
    assert_eq!(DataShard::from_file(image, None, None).err(), Some(ShardErrors::InvalidHeader));
}

#[test]
fn swapping_exchanges_equal_records() {
    let mut shard = DataShard::new(4);
    shard.insert_rows(&vec![vec![1, 1], vec![2, 2], vec![3, 3]]).unwrap();
    shard.swap_elements(2);
    assert_eq!(shard.read_all(), vec![vec![1, 1], vec![3, 3], vec![2, 2]]);
}

#[test]
fn reset_empties_the_shard_and_keeps_its_identity() {
    let mut shard = DataShard::new(4);
    let id = shard.id().clone();
    shard.insert_row(&vec![1, 2, 3]).unwrap();
    shard.reset();
    assert_eq!(shard.len(), 0);
    assert_eq!(shard.id(), &id);
    assert_eq!(shard.get_max_offsets(), 4);
    assert_eq!(shard.file().len(), DataShardHeader::calculate_header_size(4));
}

#[test]
fn fresh_shards_get_distinct_identifiers() {
    let a = DataShard::new(1);
    let b = DataShard::new(1);
    assert_eq!(a.id().len(), 16);
    assert_ne!(a.id(), b.id());
    assert_eq!(&a.file()[16..32], a.id().as_slice());
}

#[test]
fn given_identifier_is_kept() {
    let id: Vec<u8> = (0u8..16).collect();
    let shard = DataShard::from_file(Vec::new(), Some(3), Some(id.clone())).unwrap();
    assert_eq!(shard.id(), &id);
    assert_eq!(shard.get_max_offsets(), 3);
}

#[test]
fn default_capacity_applies() {
    let shard = DataShard::from_file(Vec::new(), None, None).unwrap();
    assert_eq!(shard.get_max_offsets(), schemajs::header::DEFAULT_MAX_OFFSETS);
    assert_eq!(shard.available_space(), 100);
}
