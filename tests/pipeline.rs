use std::sync::mpsc::channel;

use process_monitor::order::sort_by_cpu_desc;
use process_monitor::record::{ProcessKind, ProcessRecord};
use process_monitor::sample::{owner_label, path_label, per_core_usage, share_of};
use process_monitor::snapshot::{accept, publish, tick, HistoryTracker, HostInfo, Snapshot};

fn rec(id: u32, parent_id: Option<u32>, cpu: u64) -> ProcessRecord {
    ProcessRecord {
        id,
        parent_id,
        name: format!("proc{id}"),
        executable_path: String::from("/bin/p"),
        owner_name: String::from("root"),
        cpu,
        memory_bytes: 0,
        kind: ProcessKind::Process,
    }
}

fn host(cpu: u64, used_memory: u64, total_memory: u64) -> HostInfo {
    HostInfo {
        host_name: Some(String::from("box")),
        system_name: None,
        os_version: None,
        kernel_version: None,
        cpu_architecture: String::from("x86_64"),
        cores: 4,
        global_cpu: cpu,
        used_memory,
        total_memory,
        used_swap: 0,
        total_swap: 0,
        uptime: 10,
    }
}

#[test]
fn memory_share_of_zero_total_is_zero() {
    assert_eq!(share_of(123, 0), 0);
    assert_eq!(share_of(0, 0), 0);
}

#[test]
fn memory_share_in_hundredths_of_a_percent() {
    assert_eq!(share_of(50, 200), 2500);
    assert_eq!(share_of(1, 3), 3333);
    assert_eq!(share_of(u64::MAX, 1), u64::MAX);
}

#[test]
fn usage_divided_by_cores() {
    assert_eq!(per_core_usage(10000, 4), 2500);
    assert_eq!(per_core_usage(10000, 0), 0);
}

#[test]
fn owner_and_path_fallbacks() {
    assert_eq!(owner_label(false, None), "system");
    assert_eq!(owner_label(true, None), "Unknown");
    assert_eq!(owner_label(true, Some(String::from("alice"))), "alice");
    assert_eq!(path_label(None), "Unknown");
    assert_eq!(path_label(Some(String::from("/usr/bin/x"))), "/usr/bin/x");
}

#[test]
fn sort_is_descending_and_stable() {
    let records = vec![rec(1, None, 5), rec(2, None, 9), rec(3, None, 5), rec(4, None, 0)];
    let sorted = sort_by_cpu_desc(records);
    let ids: Vec<u32> = sorted.iter().map(|r| r.id).collect();
    assert_eq!(ids, vec![2, 1, 3, 4]);
}

#[test]
fn tick_updates_histories_and_orders_records() {
    let mut tracker = HistoryTracker::new();
    let records = vec![rec(1, None, 500), rec(2, Some(1), 1000), rec(3, Some(1), 0)];
    let snap = tick(records, host(4200, 1, 4), &mut tracker, false);
    let ids: Vec<u32> = snap.records.iter().map(|r| r.id).collect();
    assert_eq!(ids, vec![2, 1, 3]);
    let cpu = snap.stats.cpu_history.to_vec();
    assert_eq!(cpu.len(), 60);
    assert_eq!(cpu[59], 4200);
    assert_eq!(snap.stats.memory_history.to_vec()[59], 2500);
    assert_eq!(snap.stats.swap_history.to_vec()[59], 0);
    assert_eq!(tracker.cpu.to_vec()[59], 4200);
}

#[test]
fn tick_with_aggregation_raises_parents() {
    let mut tracker = HistoryTracker::new();
    let records = vec![rec(1, None, 500), rec(2, Some(1), 1000), rec(3, Some(1), 0), rec(4, Some(99), 700)];
    let snap = tick(records, host(0, 0, 0), &mut tracker, true);
    let pairs: Vec<(u32, u64)> = snap.records.iter().map(|r| (r.id, r.cpu)).collect();
    assert_eq!(pairs, vec![(1, 1500), (2, 1000), (4, 700), (3, 0)]);
}

#[test]
fn accepted_snapshot_carries_its_forest() {
    let tracker = HistoryTracker::new();
    let snap = publish(vec![rec(7, None, 1), rec(8, Some(7), 2)], tracker.stats(host(0, 0, 0)));
    let view = accept(snap);
    let roots: Vec<u32> = view.forest.roots.iter().map(|&i| view.snapshot.records[i].id).collect();
    assert_eq!(roots, vec![7]);
}

#[test]
fn three_snapshots_arrive_in_send_order() {
    let (tx, rx) = channel::<Snapshot>();
    let mut tracker = HistoryTracker::new();
    for k in 1..=3u64 {
        let snap = tick(vec![rec(k as u32, None, k)], host(k, 0, 0), &mut tracker, false);
        assert!(tx.send(snap).is_ok());
    }
    let mut got = Vec::new();
    while let Ok(s) = rx.try_recv() {
        got.push(s.stats.info.global_cpu);
    }
    assert_eq!(got, vec![1, 2, 3]);
}
