//! One process (or thread) as sampled at a tick.
use vstd::prelude::*;

verus! {

/// Which kind of thread a record stands for, where the source tells threads apart.
#[derive(Clone, Copy, Debug, PartialEq, Eq, Structural)]
pub enum ThreadKind {
    Kernel,
    Userland,
}

/// A process proper, or a thread that the list view filters out.
#[derive(Clone, Copy, Debug, PartialEq, Eq, Structural)]
pub enum ProcessKind {
    Process,
    Thread(ThreadKind),
}

/// One process at one tick.
///
/// `cpu` is in hundredths of a percent, already divided by the number of
/// logical cores; the aggregator may raise it to include descendants.
pub struct ProcessRecord {
    pub id: u32,
    pub parent_id: Option<u32>,
    pub name: String,
    pub executable_path: String,
    pub owner_name: String,
    pub cpu: u64,
    pub memory_bytes: u64,
    pub kind: ProcessKind,
}

impl ProcessRecord {
    /// Whether the list view shows this record (threads are left out).
    pub fn is_listed(&self) -> (r: bool)
        ensures
            r == (self.kind == ProcessKind::Process),
    {
        match self.kind {
            ProcessKind::Process => true,
            ProcessKind::Thread(_) => false,
        }
    }
}

} // verus!
