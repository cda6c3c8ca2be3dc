//! The guards of the process: shutting down, disk space, cache budget.

use vstd::prelude::*;
use crate::error::PiramidError;

verus! {

/// How far an index rebuild has come.
#[derive(Debug, Clone, Copy, PartialEq, Eq, Structural)]
pub enum RebuildState {
    Running,
    Completed,
    Failed,
}

/// The state of one index rebuild.
#[derive(Debug, Clone)]
pub struct RebuildJobStatus {
    pub status: RebuildState,
    /// When the rebuild started, in seconds since the Unix epoch.
    pub started_at: u64,
    /// When it ended, if it has.
    pub finished_at: Option<u64>,
    /// Why it failed, if it did.
    pub error: Option<String>,
    /// How long it took, in milliseconds, once it has ended.
    pub elapsed_ms: Option<u128>,
}

impl RebuildJobStatus {
    /// The state of a rebuild that starts at `now`.
    pub fn started(now: u64) -> (r: Self)
        ensures
            r.status == RebuildState::Running,
            r.started_at == now,
            r.finished_at is None,
            r.error is None,
            r.elapsed_ms is None,
    {
        RebuildJobStatus {
            status: RebuildState::Running,
            started_at: now,
            finished_at: None,
            error: None,
            elapsed_ms: None,
        }
    }

    /// The state of this rebuild once it has ended at `now`, with an error or
    /// without. The elapsed time is that between start and end, 0 where the
    /// clock went backwards.
    pub fn finished(self, now: u64, error: Option<String>) -> (r: Self)
        ensures
            r.status == if error is Some {
                RebuildState::Failed
            } else {
                RebuildState::Completed
            },
            r.started_at == self.started_at,
            r.finished_at == Some(now),
            r.error == error,
            r.elapsed_ms == Some(
                if now >= self.started_at {
                    ((now - self.started_at) * 1000) as u128
                } else {
                    0u128
                },
            ),
    {
        let status = if error.is_some() { RebuildState::Failed } else { RebuildState::Completed };
        let seconds: u64 = if now >= self.started_at { now - self.started_at } else { 0 };
        let elapsed: u128 = (seconds as u128) * 1000;
        RebuildJobStatus {
            status,
            started_at: self.started_at,
            finished_at: Some(now),
            error,
            elapsed_ms: Some(elapsed),
        }
    }
}

/// What the guards say to a write.
#[derive(Debug, Clone, Copy, PartialEq, Eq, Structural)]
pub enum WriteDecision {
    /// The write may go on.
    Allow,
    /// The write may go on, though the disk is short of space.
    AllowWithWarning,
    /// The write is rejected.
    Reject,
    /// The write is rejected, and so is every write from now on.
    RejectAndLock,
}

/// What the guards say to a write. A process that is shutting down or
/// read-only rejects it. Where a minimum of free disk space is set and the
/// free space is known to be below it, the write is rejected and the process
/// becomes read-only if it is configured to, and goes on with a warning if
/// it is not.
pub open spec fn write_decision(
    shutting_down: bool,
    read_only: bool,
    disk_min_free_bytes: Option<u64>,
    disk_free_bytes: Option<u64>,
    disk_readonly_on_low_space: bool,
) -> WriteDecision {
    if shutting_down || read_only {
        WriteDecision::Reject
    } else if disk_min_free_bytes is Some && disk_free_bytes is Some && disk_free_bytes->0
        < disk_min_free_bytes->0 {
        if disk_readonly_on_low_space {
            WriteDecision::RejectAndLock
        } else {
            WriteDecision::AllowWithWarning
        }
    } else {
        WriteDecision::Allow
    }
}

/// What the guards say to a write.
pub fn ensure_write_allowed(
    shutting_down: bool,
    read_only: bool,
    disk_min_free_bytes: Option<u64>,
    disk_free_bytes: Option<u64>,
    disk_readonly_on_low_space: bool,
) -> (r: WriteDecision)
    ensures
        r == write_decision(
            shutting_down,
            read_only,
            disk_min_free_bytes,
            disk_free_bytes,
            disk_readonly_on_low_space,
        ),
{
    if shutting_down || read_only {
        return WriteDecision::Reject;
    }
    match (disk_min_free_bytes, disk_free_bytes) {
        (Some(min_free), Some(free)) => {
            if free < min_free {
                if disk_readonly_on_low_space {
                    WriteDecision::RejectAndLock
                } else {
                    WriteDecision::AllowWithWarning
                }
            } else {
                WriteDecision::Allow
            }
        },
        _ => WriteDecision::Allow,
    }
}

/// The error that a rejected write is answered with.
pub fn rejection(decision: WriteDecision) -> (r: Option<PiramidError>)
    ensures
        r == match decision {
            WriteDecision::Allow => None,
            WriteDecision::AllowWithWarning => None,
            _ => Some(PiramidError::ServiceUnavailable),
        },
{
    match decision {
        WriteDecision::Allow => None,
        WriteDecision::AllowWithWarning => None,
        _ => Some(PiramidError::ServiceUnavailable),
    }
}

/// The free space of a file system of `available_blocks` blocks of
/// `block_size` bytes, and never more than 64 bits can say.
pub fn disk_free_bytes(available_blocks: u64, block_size: u64) -> (r: u64)
    ensures
        r == if available_blocks * block_size > u64::MAX {
            u64::MAX as int
        } else {
            available_blocks * block_size
        },
{
    match available_blocks.checked_mul(block_size) {
        Some(b) => b,
        None => u64::MAX,
    }
}

/// The sum of the numbers, and never more than 64 bits can say.
pub open spec fn capped_sum(usage: Seq<u64>) -> int
    decreases usage.len(),
{
    if usage.len() == 0 {
        0
    } else {
        let sum = capped_sum(usage.drop_last()) + usage.last();
        if sum > u64::MAX {
            u64::MAX as int
        } else {
            sum
        }
    }
}

/// Whether the caches of all collections together take more than the
/// budget allows, so that they have to be cleared. Without a budget they
/// never do.
pub fn enforce_cache_budget(cache_max_bytes: Option<u64>, usage: &Vec<u64>) -> (clear: bool)
    ensures
        clear == (cache_max_bytes is Some && capped_sum(usage@) > cache_max_bytes->0),
{
    let max_bytes = match cache_max_bytes {
        Some(v) => v,
        None => { return false; },
    };
    let mut total: u64 = 0;
    let mut i: usize = 0;
    assert(usage@.take(0) =~= Seq::<u64>::empty());
    while i < usage.len()
        invariant
            i <= usage.len(),
            total == capped_sum(usage@.take(i as int)),
        decreases usage.len() - i,
    {
        proof {
            let next = usage@.take(i + 1);
            assert(next.drop_last() =~= usage@.take(i as int));
            assert(next.last() == usage@[i as int]);
        }
        total = total.saturating_add(usage[i]);
        i += 1;
    }
    assert(usage@.take(usage.len() as int) =~= usage@);
    total > max_bytes
}

} // verus!
