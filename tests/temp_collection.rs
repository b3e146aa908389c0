use schemajs::errors::ShardErrors;
use schemajs::map_shard::MapShard;
use schemajs::temp_collection::TempCollection;

#[test]
fn ring_distributes_and_reconciles() {
    let target = MapShard::new(vec![], Some(50)).unwrap();
    let mut ring = TempCollection::new(target, 3, Some(1000));
    for i in 0..100u32 {
        let a = format!("a{}", i).into_bytes();
        let b = format!("b{}", i).into_bytes();
        ring.insert(&vec![a]).unwrap();
        ring.insert(&vec![b]).unwrap();
    }
    let used: Vec<u64> = ring.temps.iter().map(|t| t.data.len()).collect();
    assert_eq!(used.iter().sum::<u64>(), 200);
    assert!(used.iter().all(|&n| n > 0));
    let moved = ring.reconcile_all();
    assert_eq!(ring.target_shard.total_used_slots(), 200);
    assert_eq!(moved.len(), 200);
    for (k, row) in moved.iter().enumerate() {
        assert_eq!(row.index, k as u64);
        assert_eq!(ring.target_shard.get_element(k).unwrap(), row.data);
    }
    let mut seen: Vec<Vec<u8>> = moved.iter().map(|r| r.data.clone()).collect();
    seen.sort();
    seen.dedup();
    assert_eq!(seen.len(), 200);
    assert!(ring.temps.iter().all(|t| t.data.len() == 0));
}

#[test]
fn reconcile_of_empty_ring_changes_nothing() {
    let target = MapShard::new(vec![], Some(5)).unwrap();
    let mut ring = TempCollection::new(target, 2, None);
    let before: Vec<Vec<u8>> = ring.temps.iter().map(|t| t.data.file().clone()).collect();
    let moved = ring.reconcile_all();
    assert!(moved.is_empty());
    assert_eq!(ring.target_shard.total_used_slots(), 0);
    let after: Vec<Vec<u8>> = ring.temps.iter().map(|t| t.data.file().clone()).collect();
    assert_eq!(before, after);
}

#[test]
fn rows_within_one_temp_keep_their_order() {
    let target = MapShard::new(vec![], Some(5)).unwrap();
    let mut ring = TempCollection::new(target, 1, None);
    ring.insert(&vec![vec![1], vec![2]]).unwrap();
    ring.insert(&vec![vec![3]]).unwrap();
    let moved = ring.reconcile_all();
    let data: Vec<Vec<u8>> = moved.iter().map(|r| r.data.clone()).collect();
    assert_eq!(data, vec![vec![1], vec![2], vec![3]]);
}

#[test]
fn empty_ring_refuses_inserts() {
    let target = MapShard::new(vec![], Some(5)).unwrap();
    let mut ring = TempCollection::new(target, 0, None);
    assert_eq!(ring.insert(&vec![vec![1]]), Err(ShardErrors::OutOfPositions));
}

#[test]
fn full_temp_refuses_and_keeps_its_rows() {
    let target = MapShard::new(vec![], Some(5)).unwrap();
    let mut ring = TempCollection::new(target, 1, Some(2));
    assert_eq!(ring.insert(&vec![vec![1], vec![2]]), Ok(0));
    assert_eq!(ring.insert(&vec![vec![3]]), Err(ShardErrors::OutOfPositions));
    assert_eq!(ring.temps[0].data.len(), 2);
    let moved = ring.reconcile_temp(0);
    assert_eq!(moved.len(), 2);
    assert_eq!(ring.insert(&vec![vec![3]]), Ok(0));
}

#[test]
fn counter_selects_temps_in_turn() {
    let target = MapShard::new(vec![], Some(5)).unwrap();
    let mut ring = TempCollection::new(target, 2, None);
    ring.insert(&vec![vec![1]]).unwrap();
    ring.insert(&vec![vec![2]]).unwrap();
    ring.insert(&vec![vec![3]]).unwrap();
    assert_eq!(ring.temps[0].data.read_all(), vec![vec![1], vec![3]]);
    assert_eq!(ring.temps[1].data.read_all(), vec![vec![2]]);
    assert_eq!(ring.counter, 3);
}
