use schemajs::errors::ShardErrors;
use schemajs::map_shard::MapShard;

fn images(m: &MapShard) -> Vec<Vec<u8>> {
    let mut out: Vec<Vec<u8>> = m.past_master_shards.iter().map(|s| s.file().clone()).collect();
    out.push(m.current_master_shard.file().clone());
    out
}

#[test]
fn rollover_scenario() {
    let mut m = MapShard::new(vec![], Some(2)).unwrap();
    assert_eq!(m.insert_row(&b"a".to_vec()), 0);
    assert_eq!(m.insert_row(&b"b".to_vec()), 1);
    assert_eq!(m.past_master_shards.len(), 0);
    assert_eq!(m.insert_row(&b"c".to_vec()), 2);
    assert_eq!(m.past_master_shards.len(), 1);
    assert_eq!(m.get_element_from_master(0).unwrap(), b"c".to_vec());
    assert_eq!(m.get_element(0).unwrap(), b"a".to_vec());
    assert_eq!(m.get_element(1).unwrap(), b"b".to_vec());
    assert_eq!(m.get_element(2).unwrap(), b"c".to_vec());
    assert_eq!(m.get_element(3), Err(ShardErrors::UnknownEntry));
    assert_eq!(m.total_used_slots(), 3);
}

#[test]
fn capacity_row_fits_and_next_rolls_over() {
    let mut m = MapShard::new(vec![], Some(3)).unwrap();
    m.insert_rows(&vec![vec![1], vec![2], vec![3]]);
    assert_eq!(m.past_master_shards.len(), 0);
    assert_eq!(m.current_master_shard.len(), 3);
    m.insert_row(&vec![4]);
    assert_eq!(m.past_master_shards.len(), 1);
    assert_eq!(m.current_master_shard.len(), 1);
    assert_ne!(m.current_master_shard.id(), m.past_master_shards[0].id());
}

#[test]
fn reopen_gives_same_enumeration() {
    let mut m = MapShard::new(vec![], Some(2)).unwrap();
    let first = m.insert_rows(&(0u8..7).map(|i| vec![i; (i + 1) as usize]).collect());
    assert_eq!(first, 0);
    let reopened = MapShard::new(images(&m), Some(2)).unwrap();
    assert_eq!(reopened.past_master_shards.len(), m.past_master_shards.len());
    for (a, b) in reopened.past_master_shards.iter().zip(m.past_master_shards.iter()) {
        assert_eq!(a.id(), b.id());
    }
    for i in 0..7 {
        assert_eq!(reopened.get_element(i).unwrap(), m.get_element(i).unwrap());
    }
    assert!(reopened.get_element(7).is_err());
}

#[test]
fn zero_capacity_is_refused() {
    assert_eq!(MapShard::new(vec![], Some(0)).err(), Some(ShardErrors::OutOfPositions));
}

#[test]
fn malformed_image_is_refused() {
    assert_eq!(MapShard::new(vec![vec![9; 40]], None).err(), Some(ShardErrors::InvalidHeader));
}

#[test]
fn insert_rows_returns_first_global_index() {
    let mut m = MapShard::new(vec![], Some(2)).unwrap();
    m.insert_row(&vec![0]);
    assert_eq!(m.insert_rows(&vec![vec![1], vec![2], vec![3]]), 1);
    assert_eq!(m.get_element(3).unwrap(), vec![3]);
    assert_eq!(m.past_master_shards.len(), 1);
}
