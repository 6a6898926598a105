use process_monitor::aggregate::aggregate_usage;
use process_monitor::forest::{build_forest, first_positions};
use process_monitor::record::{ProcessKind, ProcessRecord, ThreadKind};

fn rec(id: u32, parent_id: Option<u32>, cpu: u64) -> ProcessRecord {
    ProcessRecord {
        id,
        parent_id,
        name: format!("proc{id}"),
        executable_path: String::from("Unknown"),
        owner_name: String::from("system"),
        cpu,
        memory_bytes: 1024,
        kind: ProcessKind::Process,
    }
}

fn ids(records: &[ProcessRecord], positions: &[usize]) -> Vec<u32> {
    positions.iter().map(|&i| records[i].id).collect()
}

fn example() -> Vec<ProcessRecord> {
    vec![rec(1, None, 500), rec(2, Some(1), 1000), rec(3, Some(1), 0), rec(4, Some(99), 700)]
}

#[test]
fn example_roots_and_children() {
    let records = example();
    let f = build_forest(&records);
    assert_eq!(ids(&records, &f.roots), vec![1, 4]);
    assert_eq!(ids(&records, &f.children[0]), vec![2, 3]);
    assert!(f.children[1].is_empty());
    assert!(f.children[3].is_empty());
    assert_eq!(f.parent, vec![None, Some(0), Some(0), None]);
}

#[test]
fn example_aggregation_sums_subtrees() {
    let mut records = example();
    let f = build_forest(&records);
    aggregate_usage(&mut records, &f);
    let cpus: Vec<u64> = records.iter().map(|r| r.cpu).collect();
    assert_eq!(cpus, vec![1500, 1000, 0, 700]);
    assert_eq!(records[0].name, "proc1");
}

#[test]
fn ghost_parent_becomes_root() {
    let records = vec![rec(10, Some(7), 0), rec(11, Some(10), 0)];
    let f = build_forest(&records);
    assert_eq!(ids(&records, &f.roots), vec![10]);
    assert_eq!(ids(&records, &f.children[0]), vec![11]);
}

#[test]
fn parent_listed_after_child_is_still_attached() {
    let records = vec![rec(5, Some(3), 0), rec(6, Some(3), 0), rec(3, None, 0)];
    let f = build_forest(&records);
    assert_eq!(ids(&records, &f.roots), vec![3]);
    assert_eq!(ids(&records, &f.children[2]), vec![5, 6]);
}

#[test]
fn every_record_is_placed_exactly_once() {
    let records = vec![
        rec(1, None, 0),
        rec(2, Some(1), 0),
        rec(3, Some(2), 0),
        rec(4, Some(42), 0),
        rec(5, Some(1), 0),
        rec(6, Some(3), 0),
    ];
    let f = build_forest(&records);
    let mut seen = vec![0u32; records.len()];
    for &r in &f.roots {
        seen[r] += 1;
    }
    for list in &f.children {
        for &c in list {
            seen[c] += 1;
        }
    }
    assert_eq!(seen, vec![1; records.len()]);
}

#[test]
fn empty_list_gives_empty_forest() {
    let records: Vec<ProcessRecord> = Vec::new();
    let f = build_forest(&records);
    assert!(f.roots.is_empty() && f.children.is_empty() && f.parent.is_empty());
}

#[test]
fn deep_chain_accumulates_to_the_top() {
    let records: Vec<ProcessRecord> =
        (1..=50u32).map(|i| rec(i, if i == 1 { None } else { Some(i - 1) }, 1)).collect();
    let mut records = records;
    let f = build_forest(&records);
    aggregate_usage(&mut records, &f);
    assert_eq!(records[0].cpu, 50);
    assert_eq!(records[49].cpu, 1);
    assert_eq!(records[24].cpu, 26);
}

#[test]
fn cyclic_links_still_terminate() {
    let mut records = vec![rec(1, Some(2), 1), rec(2, Some(1), 1), rec(3, None, 4)];
    let f = build_forest(&records);
    assert_eq!(ids(&records, &f.roots), vec![3]);
    aggregate_usage(&mut records, &f);
    assert_eq!(records[2].cpu, 4);
}

#[test]
fn position_lookup_finds_first_match() {
    let records = vec![rec(8, None, 0), rec(9, None, 0), rec(8, Some(9), 0)];
    let first = first_positions(&records);
    assert_eq!(first.get(&9), Some(&1));
    assert_eq!(first.get(&8), Some(&0));
    assert_eq!(first.get(&7), None);
    assert_eq!(first.len(), 2);
}

#[test]
fn threads_are_not_listed() {
    let mut t = rec(3, None, 0);
    t.kind = ProcessKind::Thread(ThreadKind::Userland);
    assert!(!t.is_listed());
    assert!(rec(1, None, 0).is_listed());
}
