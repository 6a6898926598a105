//! One tick's published state, the producer's per-tick step, and the
//! consumer's view of the latest snapshot.
use vstd::prelude::*;
use crate::aggregate::{acyclic, aggregate_usage, same_but_cpu, subtree_usage, totals_fit};
use crate::forest::{build_forest, is_forest_of, ProcessForest};
use crate::history::{pushed, RingHistory};
use crate::order::{is_cpu_order, sort_by_cpu_desc};
use crate::record::ProcessRecord;
use crate::sample::{share, share_of};

verus! {

/// How many samples each rolling history keeps.
pub const HISTORY_LEN: usize = 60;

/// The host's identity and global counters at one tick. `global_cpu` is in
/// hundredths of a percent; memory and swap are in bytes; `uptime` in seconds.
pub struct HostInfo {
    pub host_name: Option<String>,
    pub system_name: Option<String>,
    pub os_version: Option<String>,
    pub kernel_version: Option<String>,
    pub cpu_architecture: String,
    pub cores: u32,
    pub global_cpu: u64,
    pub used_memory: u64,
    pub total_memory: u64,
    pub used_swap: u64,
    pub total_swap: u64,
    pub uptime: u64,
}

/// The producer's rolling histories of CPU, memory and swap utilisation.
pub struct HistoryTracker {
    pub cpu: RingHistory,
    pub memory: RingHistory,
    pub swap: RingHistory,
}

impl HistoryTracker {
    pub open spec fn wf(&self) -> bool {
        &&& self.cpu.wf()
        &&& self.memory.wf()
        &&& self.swap.wf()
    }

    /// Three histories of `HISTORY_LEN` zero samples each.
    pub fn new() -> (r: HistoryTracker)
        ensures
            r.wf(),
            r.cpu@ == Seq::new(HISTORY_LEN as nat, |i: int| 0u64),
            r.memory@ == Seq::new(HISTORY_LEN as nat, |i: int| 0u64),
            r.swap@ == Seq::new(HISTORY_LEN as nat, |i: int| 0u64),
            r.cpu.cap() == HISTORY_LEN && r.memory.cap() == HISTORY_LEN && r.swap.cap()
                == HISTORY_LEN,
    {
        HistoryTracker {
            cpu: RingHistory::filled(HISTORY_LEN, 0),
            memory: RingHistory::filled(HISTORY_LEN, 0),
            swap: RingHistory::filled(HISTORY_LEN, 0),
        }
    }

    /// Pushes one tick's global CPU usage and memory and swap shares.
    pub fn record(&mut self, info: &HostInfo)
        requires
            old(self).wf(),
        ensures
            final(self).wf(),
            final(self).cpu.cap() == old(self).cpu.cap(),
            final(self).memory.cap() == old(self).memory.cap(),
            final(self).swap.cap() == old(self).swap.cap(),
            final(self).cpu@ == pushed(old(self).cpu@, old(self).cpu.cap(), info.global_cpu),
            final(self).memory@ == pushed(
                old(self).memory@,
                old(self).memory.cap(),
                share(info.used_memory, info.total_memory),
            ),
            final(self).swap@ == pushed(
                old(self).swap@,
                old(self).swap.cap(),
                share(info.used_swap, info.total_swap),
            ),
    {
        self.cpu.push(info.global_cpu);
        self.memory.push(share_of(info.used_memory, info.total_memory));
        self.swap.push(share_of(info.used_swap, info.total_swap));
    }

    /// The tick's statistics, with copies of the histories that later pushes
    /// leave untouched.
    pub fn stats(&self, info: HostInfo) -> (r: SystemStats)
        requires
            self.wf(),
        ensures
            r.info == info,
            r.cpu_history@ == self.cpu@,
            r.memory_history@ == self.memory@,
            r.swap_history@ == self.swap@,
            r.cpu_history.wf() && r.memory_history.wf() && r.swap_history.wf(),
    {
        SystemStats {
            info,
            cpu_history: self.cpu.snapshot(),
            memory_history: self.memory.snapshot(),
            swap_history: self.swap.snapshot(),
        }
    }
}

/// One tick's host statistics with the three histories as they stood then.
pub struct SystemStats {
    pub info: HostInfo,
    pub cpu_history: RingHistory,
    pub memory_history: RingHistory,
    pub swap_history: RingHistory,
}

/// Everything one tick produced; the only value handed from producer to consumer.
pub struct Snapshot {
    pub records: Vec<ProcessRecord>,
    pub stats: SystemStats,
}

/// `r` holds the records of `s` in the default order.
pub open spec fn in_cpu_order(s: Seq<ProcessRecord>, r: Seq<ProcessRecord>) -> bool {
    exists|ord: Seq<usize>| is_cpu_order(s, ord) && r == ord.map_values(|i: usize| s[i as int])
}

/// Packages a tick's records, in the default order, with its statistics.
pub fn publish(records: Vec<ProcessRecord>, stats: SystemStats) -> (r: Snapshot)
    ensures
        in_cpu_order(records@, r.records@),
        r.stats == stats,
{
    Snapshot { records: sort_by_cpu_desc(records), stats }
}

/// `t` is what a tick makes of the sampled records `s` before ordering them:
/// `s` itself, or `s` with every usage raised to its subtree's usage.
pub open spec fn tick_records(s: Seq<ProcessRecord>, t: Seq<ProcessRecord>, aggregate: bool) -> bool {
    if !aggregate {
        t == s
    } else {
        &&& t.len() == s.len()
        &&& forall|i: int| 0 <= i < s.len() ==> same_but_cpu(#[trigger] t[i], s[i])
        &&& acyclic(s) && totals_fit(s) ==> forall|i: int|
            0 <= i < s.len() ==> #[trigger] t[i].cpu == subtree_usage(s, i)
    }
}

/// The producer's work for one tick once the source has been read: updates
/// the histories, optionally aggregates usage up the forest, orders the
/// records and packages the snapshot.
pub fn tick(
    records: Vec<ProcessRecord>,
    info: HostInfo,
    tracker: &mut HistoryTracker,
    aggregate: bool,
) -> (r: Snapshot)
    requires
        old(tracker).wf(),
    ensures
        final(tracker).wf(),
        final(tracker).cpu.cap() == old(tracker).cpu.cap(),
        final(tracker).memory.cap() == old(tracker).memory.cap(),
        final(tracker).swap.cap() == old(tracker).swap.cap(),
        final(tracker).cpu@ == pushed(old(tracker).cpu@, old(tracker).cpu.cap(), info.global_cpu),
        final(tracker).memory@ == pushed(
            old(tracker).memory@,
            old(tracker).memory.cap(),
            share(info.used_memory, info.total_memory),
        ),
        final(tracker).swap@ == pushed(
            old(tracker).swap@,
            old(tracker).swap.cap(),
            share(info.used_swap, info.total_swap),
        ),
        r.stats.info == info,
        r.stats.cpu_history@ == final(tracker).cpu@,
        r.stats.memory_history@ == final(tracker).memory@,
        r.stats.swap_history@ == final(tracker).swap@,
        exists|t: Seq<ProcessRecord>|
            tick_records(records@, t, aggregate) && in_cpu_order(t, r.records@),
{
    tracker.record(&info);
    let ghost s = records@;
    let mut records = records;
    if aggregate {
        let forest = build_forest(&records);
        aggregate_usage(&mut records, &forest);
    }
    let ghost t = records@;
    assert(tick_records(s, t, aggregate));
    let stats = tracker.stats(info);
    publish(records, stats)
}

/// What the consumer keeps of the latest snapshot: the snapshot and the
/// forest of its records.
pub struct ConsumerView {
    pub snapshot: Snapshot,
    pub forest: ProcessForest,
}

/// Takes in a newly received snapshot, building the forest of its records.
pub fn accept(snapshot: Snapshot) -> (r: ConsumerView)
    ensures
        r.snapshot == snapshot,
        is_forest_of(r.snapshot.records@, r.forest),
{
    let forest = build_forest(&snapshot.records);
    ConsumerView { snapshot, forest }
}

} // verus!
