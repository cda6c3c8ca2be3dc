//! Checkpoints: when one is due, and what it does.

use vstd::prelude::*;
use crate::config::wal::WalConfig;
use crate::error::PiramidError;
use crate::index::ann::AnnIndex;
use crate::index::hnsw::snapshot::graph_decoded;
use crate::index::ivf::snapshot::{centroids_decoded, vector_views};
use crate::storage::collection::storage::Collection;
use crate::storage::persistence::index::table_decoded;
use crate::storage::persistence::metadata::{parse_collection_metadata, save_metadata as save_meta};
use crate::storage::recovery::lemma_agrees_empty;
use crate::storage::wal::entry::WalEntryView;
use crate::storage::wal::log::{
    flush_due, lemma_replay_nothing, FlushAction, Wal, WalLineView, WAL_VERSION,
};

verus! {

/// The log of a collection and the bookkeeping of its checkpoints.
#[derive(Debug)]
pub struct PersistenceService {
    /// The write-ahead log.
    pub wal: Wal,
    /// Write operations since the last checkpoint.
    pub operation_count: usize,
    /// When the last checkpoint was taken (`None`: never).
    pub last_checkpoint_ts: Option<u64>,
}

/// One write to the files of a collection.
#[derive(Debug, Clone, Copy, PartialEq, Eq, Structural)]
pub enum DurableWrite {
    /// Append the new lines of the log to its file.
    LogAppend,
    /// Write the data region.
    Region,
    /// Write the snapshot of the entry-pointer table.
    TableSnapshot,
    /// Write the snapshot of the index.
    IndexSnapshot,
    /// Write the snapshot of the metadata.
    MetadataSnapshot,
    /// Write the sequence number of the last checkpoint, atomically.
    LastCheckpoint,
    /// Write the log file anew from the lines of the log.
    LogRewrite,
}

/// The order in which the files of a collection are written after an
/// operation. What was logged reaches the log's file before the region and
/// the snapshots are written. After a checkpoint has started the log
/// afresh (`rotated`), the region and the snapshots are written first, then
/// the sequence number of the checkpoint, and only then the log's file is
/// written anew. Without a log only the region and the snapshots are
/// written.
pub open spec fn write_plan(wal_enabled: bool, rotated: bool) -> Seq<DurableWrite> {
    if !wal_enabled {
        seq![
            DurableWrite::Region,
            DurableWrite::TableSnapshot,
            DurableWrite::IndexSnapshot,
            DurableWrite::MetadataSnapshot,
        ]
    } else if rotated {
        seq![
            DurableWrite::Region,
            DurableWrite::TableSnapshot,
            DurableWrite::IndexSnapshot,
            DurableWrite::MetadataSnapshot,
            DurableWrite::LastCheckpoint,
            DurableWrite::LogRewrite,
        ]
    } else {
        seq![
            DurableWrite::LogAppend,
            DurableWrite::Region,
            DurableWrite::TableSnapshot,
            DurableWrite::IndexSnapshot,
            DurableWrite::MetadataSnapshot,
            DurableWrite::LastCheckpoint,
        ]
    }
}

/// The order in which the files of a collection are written after an
/// operation.
pub fn write_order(wal_enabled: bool, rotated: bool) -> (r: Vec<DurableWrite>)
    ensures
        r@ == write_plan(wal_enabled, rotated),
{
    let mut r: Vec<DurableWrite> = Vec::new();
    if wal_enabled && !rotated {
        r.push(DurableWrite::LogAppend);
    }
    r.push(DurableWrite::Region);
    r.push(DurableWrite::TableSnapshot);
    r.push(DurableWrite::IndexSnapshot);
    r.push(DurableWrite::MetadataSnapshot);
    if wal_enabled {
        r.push(DurableWrite::LastCheckpoint);
        if rotated {
            r.push(DurableWrite::LogRewrite);
        }
    }
    assert(r@ =~= write_plan(wal_enabled, rotated));
    r
}

/// Whether a checkpoint is due after one more write operation: the log is
/// enabled and either the operations since the last checkpoint, this one
/// included, have reached the configured frequency, or the configured
/// interval has passed since the last checkpoint.
pub open spec fn checkpoint_due(
    cfg: WalConfig,
    operation_count: usize,
    last_checkpoint_ts: Option<u64>,
    now: u64,
) -> bool {
    cfg.enabled && (operation_count + 1 >= cfg.checkpoint_frequency || (
    cfg.checkpoint_interval_secs matches Some(interval) && last_checkpoint_ts matches Some(last)
        && now >= last && now - last >= interval))
}

impl PersistenceService {
    pub fn new(wal: Wal) -> (r: Self)
        ensures
            r.wal == wal,
            r.operation_count == 0,
            r.last_checkpoint_ts is None,
    {
        Self { wal, operation_count: 0, last_checkpoint_ts: None }
    }

    /// Count one write operation and say whether a checkpoint is due. With
    /// the log disabled nothing is counted and none is ever due.
    pub fn should_checkpoint(&mut self, cfg: &WalConfig, now: u64) -> (r: bool)
        ensures
            r == checkpoint_due(*cfg, old(self).operation_count, old(self).last_checkpoint_ts, now),
            final(self).wal == old(self).wal,
            final(self).last_checkpoint_ts == old(self).last_checkpoint_ts,
            final(self).operation_count == if !cfg.enabled {
                old(self).operation_count as int
            } else if old(self).operation_count == usize::MAX {
                usize::MAX as int
            } else {
                old(self).operation_count + 1
            },
    {
        if !cfg.enabled {
            return false;
        }
        let by_count: bool = self.operation_count >= cfg.checkpoint_frequency
            || self.operation_count + 1 >= cfg.checkpoint_frequency;
        if self.operation_count < usize::MAX {
            self.operation_count += 1;
        }
        let by_time: bool = match (cfg.checkpoint_interval_secs, self.last_checkpoint_ts) {
            (Some(interval), Some(last)) => now >= last && now - last >= interval,
            _ => false,
        };
        by_count || by_time
    }

    pub fn reset_counter(&mut self)
        ensures
            final(self).operation_count == 0,
            final(self).wal == old(self).wal,
            final(self).last_checkpoint_ts == old(self).last_checkpoint_ts,
    {
        self.operation_count = 0;
    }

    pub fn record_checkpoint(&mut self, ts: u64)
        ensures
            final(self).last_checkpoint_ts == Some(ts),
            final(self).wal == old(self).wal,
            final(self).operation_count == old(self).operation_count,
    {
        self.last_checkpoint_ts = Some(ts);
    }

    pub fn last_checkpoint(&self) -> (r: Option<u64>)
        ensures
            r == self.last_checkpoint_ts,
    {
        self.last_checkpoint_ts
    }
}

/// The sequence number of the last checkpoint, given what the file that
/// records it held (`None`: no such file).
pub fn load_wal_meta(recorded: Option<u64>) -> (r: u64)
    ensures
        r == match recorded {
            Some(seq) => seq,
            None => 0,
        },
{
    match recorded {
        Some(seq) => seq,
        None => 0,
    }
}

/// Bring the snapshot of the entry-pointer table up to date.
pub fn save_index(storage: &mut Collection)
    requires
        old(storage).store.index.wf(),
    ensures
        table_decoded(final(storage).sidecars.index_db@) == Some(old(storage).store.index@),
        final(storage).store == old(storage).store,
        final(storage).vector_index == old(storage).vector_index,
        final(storage).vector_cache == old(storage).vector_cache,
        final(storage).metadata_cache == old(storage).metadata_cache,
        final(storage).config == old(storage).config,
        final(storage).metadata == old(storage).metadata,
        final(storage).persistence == old(storage).persistence,
        final(storage).read_only == old(storage).read_only,
        final(storage).sidecars.ann_db == old(storage).sidecars.ann_db,
        final(storage).sidecars.metadata_db == old(storage).sidecars.metadata_db,
        final(storage).sidecars.wal_meta == old(storage).sidecars.wal_meta,
{
    storage.sidecars.index_db = storage.store.index.encode();
}

/// Bring the snapshot of the index up to date. A flat index has none.
pub fn save_vector_index(storage: &mut Collection)
    requires
        old(storage).vector_index.wf(),
    ensures
        match old(storage).vector_index {
            AnnIndex::Flat(_) => final(storage).sidecars.ann_db is None,
            AnnIndex::Hnsw(h) => final(storage).sidecars.ann_db is Some && graph_decoded(
                final(storage).sidecars.ann_db->0@,
            ) == Some(h@),
            AnnIndex::Ivf(i) => final(storage).sidecars.ann_db is Some && centroids_decoded(
                final(storage).sidecars.ann_db->0@,
            ) == Some(vector_views(i.centroids@)),
        },
        final(storage).store == old(storage).store,
        final(storage).vector_index == old(storage).vector_index,
        final(storage).vector_cache == old(storage).vector_cache,
        final(storage).metadata_cache == old(storage).metadata_cache,
        final(storage).config == old(storage).config,
        final(storage).metadata == old(storage).metadata,
        final(storage).persistence == old(storage).persistence,
        final(storage).read_only == old(storage).read_only,
        final(storage).sidecars.index_db == old(storage).sidecars.index_db,
        final(storage).sidecars.metadata_db == old(storage).sidecars.metadata_db,
        final(storage).sidecars.wal_meta == old(storage).sidecars.wal_meta,
{
    storage.sidecars.ann_db = storage.vector_index.encode();
}

/// Bring the snapshot of the collection's metadata up to date.
pub fn save_metadata(storage: &mut Collection)
    ensures
        parse_collection_metadata(final(storage).sidecars.metadata_db@) == Some(
            old(storage).metadata@,
        ),
        final(storage).store == old(storage).store,
        final(storage).vector_index == old(storage).vector_index,
        final(storage).vector_cache == old(storage).vector_cache,
        final(storage).metadata_cache == old(storage).metadata_cache,
        final(storage).config == old(storage).config,
        final(storage).metadata == old(storage).metadata,
        final(storage).persistence == old(storage).persistence,
        final(storage).read_only == old(storage).read_only,
        final(storage).sidecars.ann_db == old(storage).sidecars.ann_db,
        final(storage).sidecars.index_db == old(storage).sidecars.index_db,
        final(storage).sidecars.wal_meta == old(storage).sidecars.wal_meta,
{
    storage.sidecars.metadata_db = save_meta(&storage.metadata);
}

/// Take a checkpoint at `timestamp`: bring the snapshots of the table, of
/// the index and of the metadata up to date, then, with the log enabled,
/// log a checkpoint
/// record, record its sequence number as that of the last checkpoint, and
/// start the log file afresh. The live documents stay what they are.
///
/// Fails with `Io`, changing nothing but the snapshots, exactly where the
/// log is enabled and its sequence numbers are used up.
pub fn checkpoint(storage: &mut Collection, timestamp: u64) -> (r: Result<(), PiramidError>)
    requires
        old(storage).wf(),
    ensures
        final(storage).wf(),
        final(storage).live() == old(storage).live(),
        final(storage).store == old(storage).store,
        final(storage).vector_index == old(storage).vector_index,
        final(storage).vector_cache == old(storage).vector_cache,
        final(storage).metadata_cache == old(storage).metadata_cache,
        final(storage).config == old(storage).config,
        final(storage).metadata == old(storage).metadata,
        final(storage).read_only == old(storage).read_only,
        final(storage).persistence.operation_count == old(storage).persistence.operation_count,
        parse_collection_metadata(final(storage).sidecars.metadata_db@) == Some(
            old(storage).metadata@,
        ),
        match old(storage).vector_index {
            AnnIndex::Flat(_) => final(storage).sidecars.ann_db is None,
            AnnIndex::Hnsw(h) => final(storage).sidecars.ann_db is Some && graph_decoded(
                final(storage).sidecars.ann_db->0@,
            ) == Some(h@),
            AnnIndex::Ivf(i) => final(storage).sidecars.ann_db is Some && centroids_decoded(
                final(storage).sidecars.ann_db->0@,
            ) == Some(vector_views(i.centroids@)),
        },
        match r {
            Ok(_) => if old(storage).config.wal.enabled {
                &&& old(storage).next_seq() < u64::MAX
                &&& final(storage).next_seq() == old(storage).next_seq() + 1
                &&& final(storage).sidecars.wal_meta == old(storage).next_seq()
                &&& final(storage).persistence.last_checkpoint_ts == Some(timestamp)
                &&& final(storage).persistence.wal@.lines == seq![
                    WalLineView::Header { version: WAL_VERSION },
                ]
                &&& final(storage).pending() == Ok::<Seq<WalEntryView>, PiramidError>(
                    Seq::<WalEntryView>::empty(),
                )
            } else {
                &&& final(storage).persistence == old(storage).persistence
                &&& final(storage).sidecars.wal_meta == old(storage).sidecars.wal_meta
            },
            Err(e) => {
                &&& e == PiramidError::Io
                &&& old(storage).config.wal.enabled
                &&& old(storage).next_seq() == u64::MAX
                &&& final(storage).persistence == old(storage).persistence
                &&& final(storage).sidecars.wal_meta == old(storage).sidecars.wal_meta
            },
        },
{
    save_index(storage);
    save_vector_index(storage);
    save_metadata(storage);
    if storage.config.wal.enabled {
        let seq = match storage.persistence.wal.checkpoint(timestamp) {
            Ok(seq) => seq,
            Err(e) => { return Err(e); },
        };
        storage.persistence.record_checkpoint(timestamp);
        storage.sidecars.wal_meta = seq;
        storage.persistence.wal.rotate();
        proof {
            let lines = storage.persistence.wal@.lines;
            lemma_replay_nothing(lines, seq);
            lemma_agrees_empty(storage.live());
        }
    }
    Ok(())
}

/// What flushing the log of this collection takes.
pub fn flush(storage: &Collection) -> (r: FlushAction)
    ensures
        r == flush_due(storage.persistence.wal.enabled, storage.config.wal.sync_on_write),
{
    storage.persistence.wal.flush(storage.config.wal.sync_on_write)
}

} // verus!
