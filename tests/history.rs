use process_monitor::history::RingHistory;

#[test]
fn fewer_pushes_than_capacity_keep_all() {
    let mut h = RingHistory::new(5);
    for v in [3u64, 1, 4] {
        h.push(v);
    }
    assert_eq!(h.len(), 3);
    assert_eq!(h.to_vec(), vec![3, 1, 4]);
}

#[test]
fn more_pushes_than_capacity_keep_most_recent() {
    let mut h = RingHistory::new(3);
    for v in 1u64..=7 {
        h.push(v);
        assert!(h.len() <= 3);
    }
    assert_eq!(h.len(), 3);
    assert_eq!(h.to_vec(), vec![5, 6, 7]);
    assert_eq!(h.get(0), 5);
}

#[test]
fn filled_history_shifts_one_per_push() {
    let mut h = RingHistory::filled(60, 0);
    assert_eq!(h.len(), 60);
    h.push(9);
    let v = h.to_vec();
    assert_eq!(v.len(), 60);
    assert_eq!(v[59], 9);
    assert_eq!(v[0], 0);
    assert_eq!(h.capacity(), 60);
}

#[test]
fn zero_capacity_stays_empty() {
    let mut h = RingHistory::new(0);
    h.push(1);
    assert_eq!(h.len(), 0);
}

#[test]
fn snapshot_is_independent_of_later_pushes() {
    let mut h = RingHistory::new(2);
    h.push(1);
    h.push(2);
    let copy = h.snapshot();
    h.push(3);
    assert_eq!(copy.to_vec(), vec![1, 2]);
    assert_eq!(h.to_vec(), vec![2, 3]);
}
