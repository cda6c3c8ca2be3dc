//! The log itself: a header line, then one record per line, in the order of
//! their sequence numbers.
//!
//! The log in memory is the image of the log file. The host reads the file
//! into lines when a collection is opened and writes every line that is
//! appended here; how a record looks as text is the host's business.

use vstd::prelude::*;
use crate::error::{Corruption, PiramidError};
use crate::storage::wal::entry::{wal_views, WalEntry, WalEntryView};

verus! {

/// The version of the log format, as the header line states it.
pub const WAL_VERSION: u32 = 1;

/// One line of the log file, as the host has read it.
#[derive(Debug)]
pub enum WalLine {
    /// An empty line.
    Blank,
    /// The header: the version of the log format.
    Header { version: u32 },
    /// A record.
    Record(WalEntry),
    /// A line that is neither empty, nor a header, nor a record.
    Malformed,
}

/// What a `WalLine` holds.
pub enum WalLineView {
    Blank,
    Header { version: u32 },
    Record(WalEntryView),
    Malformed,
}

impl View for WalLine {
    type V = WalLineView;

    open spec fn view(&self) -> WalLineView {
        match self {
            WalLine::Blank => WalLineView::Blank,
            WalLine::Header { version } => WalLineView::Header { version: *version },
            WalLine::Record(e) => WalLineView::Record(e@),
            WalLine::Malformed => WalLineView::Malformed,
        }
    }
}

/// The views of a sequence of lines.
pub open spec fn line_views(s: Seq<WalLine>) -> Seq<WalLineView> {
    Seq::new(s.len(), |i: int| s[i]@)
}

/// What replaying `lines` gives: the records with a sequence number above
/// `min_seq`, in file order. Empty lines and headers of the right version
/// are passed over. The first line that is a header of another version, or
/// that is no record at all, fails the replay.
pub open spec fn replayed(lines: Seq<WalLineView>, min_seq: u64) -> Result<
    Seq<WalEntryView>,
    PiramidError,
>
    decreases lines.len(),
{
    if lines.len() == 0 {
        Ok(Seq::<WalEntryView>::empty())
    } else {
        match replayed(lines.drop_last(), min_seq) {
            Err(e) => Err(e),
            Ok(records) => match lines.last() {
                WalLineView::Blank => Ok(records),
                WalLineView::Header { version } => if version == WAL_VERSION {
                    Ok(records)
                } else {
                    Err(PiramidError::CorruptedData(Corruption::WalHeader))
                },
                WalLineView::Record(e) => if e.seq() > min_seq {
                    Ok(records.push(e))
                } else {
                    Ok(records)
                },
                WalLineView::Malformed => Err(PiramidError::CorruptedData(Corruption::WalRecord)),
            },
        }
    }
}

/// Whether every record among `lines` has a sequence number below `bound`.
pub open spec fn seqs_below(lines: Seq<WalLineView>, bound: int) -> bool {
    forall|i: int|
        0 <= i < lines.len() ==> ((#[trigger] lines[i]) matches WalLineView::Record(e) ==> e.seq()
            < bound)
}

/// The lines of records.
pub open spec fn record_lines(records: Seq<WalEntryView>) -> Seq<WalLineView> {
    Seq::new(records.len(), |i: int| WalLineView::Record(records[i]))
}

/// Lines whose records lie below a bound stay so when a record below the
/// bound is appended.
pub proof fn lemma_seqs_below_push(lines: Seq<WalLineView>, e: WalEntryView, bound: int)
    requires
        seqs_below(lines, bound),
        e.seq() < bound,
    ensures
        seqs_below(lines.push(WalLineView::Record(e)), bound),
        lines + record_lines(seq![e]) == lines.push(WalLineView::Record(e)),
{
    let after = lines.push(WalLineView::Record(e));
    assert forall|i: int| 0 <= i < after.len() implies ((#[trigger] after[i]) matches WalLineView::Record(
        x,
    ) ==> x.seq() < bound) by {
        if i < lines.len() {
            assert(after[i] == lines[i]);
        }
    }
    assert(lines + record_lines(seq![e]) =~= after);
}

/// Lines whose records lie below a bound lie below every greater one.
pub proof fn lemma_seqs_below_more(lines: Seq<WalLineView>, bound: int, more: int)
    requires
        seqs_below(lines, bound),
        bound <= more,
    ensures
        seqs_below(lines, more),
{
}

/// The greatest sequence number among the records, and `floor` at least.
pub open spec fn greatest_seq(records: Seq<WalEntryView>, floor: u64) -> u64
    decreases records.len(),
{
    if records.len() == 0 {
        floor
    } else if records.last().seq() > greatest_seq(records.drop_last(), floor) {
        records.last().seq()
    } else {
        greatest_seq(records.drop_last(), floor)
    }
}

/// No record has a sequence number above the greatest, nor is `floor`
/// above it.
pub proof fn lemma_greatest_bounds(records: Seq<WalEntryView>, floor: u64)
    ensures
        floor <= greatest_seq(records, floor),
        forall|i: int| 0 <= i < records.len() ==> (#[trigger] records[i]).seq() <= greatest_seq(
            records,
            floor,
        ),
    decreases records.len(),
{
    if records.len() > 0 {
        let init = records.drop_last();
        lemma_greatest_bounds(init, floor);
        assert forall|i: int| 0 <= i < records.len() implies (#[trigger] records[i]).seq()
            <= greatest_seq(records, floor) by {
            if i < init.len() {
                assert(init[i] == records[i]);
            }
        }
    }
}

/// Every record of lines that replay lies at or below the greatest of the
/// replayed records and of `min_seq`.
pub proof fn lemma_replayed_below(lines: Seq<WalLineView>, min_seq: u64)
    requires
        replayed(lines, min_seq) is Ok,
    ensures
        seqs_below(lines, greatest_seq(replayed(lines, min_seq)->Ok_0, min_seq) + 1),
    decreases lines.len(),
{
    if lines.len() > 0 {
        let init = lines.drop_last();
        lemma_replayed_below(init, min_seq);
        let before = replayed(init, min_seq)->Ok_0;
        let all = replayed(lines, min_seq)->Ok_0;
        lemma_greatest_bounds(before, min_seq);
        lemma_greatest_bounds(all, min_seq);
        assert(greatest_seq(before, min_seq) <= greatest_seq(all, min_seq)) by {
            if all != before {
                assert(all.drop_last() =~= before);
            }
        }
        assert forall|i: int| 0 <= i < lines.len() implies ((
        #[trigger] lines[i]) matches WalLineView::Record(e) ==> e.seq() < greatest_seq(all, min_seq)
            + 1) by {
            if i < init.len() {
                assert(init[i] == lines[i]);
            } else {
                assert(lines[i] == lines.last());
                match lines.last() {
                    WalLineView::Record(e) => {
                        if e.seq() > min_seq {
                            assert(all.last() == e);
                        }
                    },
                    _ => {},
                }
            }
        }
    }
}

/// Where every record of the lines lies below `bound`, and `min_seq` does,
/// so does the greatest of the replayed records.
pub proof fn lemma_pending_below(lines: Seq<WalLineView>, min_seq: u64, bound: int)
    requires
        replayed(lines, min_seq) is Ok,
        seqs_below(lines, bound),
        min_seq < bound,
    ensures
        greatest_seq(replayed(lines, min_seq)->Ok_0, min_seq) < bound,
    decreases lines.len(),
{
    if lines.len() > 0 {
        let init = lines.drop_last();
        assert forall|i: int| 0 <= i < init.len() implies ((#[trigger] init[i]) matches WalLineView::Record(
            e,
        ) ==> e.seq() < bound) by {
            assert(init[i] == lines[i]);
        }
        lemma_pending_below(init, min_seq, bound);
        assert(lines.last() == lines[lines.len() - 1]);
        let before = replayed(init, min_seq)->Ok_0;
        let all = replayed(lines, min_seq)->Ok_0;
        if all != before {
            assert(all.drop_last() =~= before);
        }
    }
}

/// The greatest sequence number among the records, and `floor` at least.
pub fn greatest(records: &Vec<WalEntry>, floor: u64) -> (r: u64)
    ensures
        r == greatest_seq(wal_views(records@), floor),
{
    let mut top: u64 = floor;
    let mut i: usize = 0;
    assert(wal_views(records@).take(0) =~= Seq::<WalEntryView>::empty());
    while i < records.len()
        invariant
            i <= records.len(),
            top == greatest_seq(wal_views(records@).take(i as int), floor),
        decreases records.len() - i,
    {
        proof {
            let next = wal_views(records@).take(i + 1);
            assert(next.drop_last() =~= wal_views(records@).take(i as int));
            assert(next.last() == records@[i as int]@);
        }
        if records[i].seq() > top {
            top = records[i].seq();
        }
        i += 1;
    }
    assert(wal_views(records@).take(records.len() as int) =~= wal_views(records@));
    top
}

/// Whether the lines are what this library writes: headers of its own
/// version and records.
pub open spec fn clean(lines: Seq<WalLineView>) -> bool {
    forall|i: int|
        0 <= i < lines.len() ==> match #[trigger] lines[i] {
            WalLineView::Header { version } => version == WAL_VERSION,
            WalLineView::Record(_) => true,
            _ => false,
        }
}

/// What the host has to do to the log file after a write.
#[derive(Debug, Clone, Copy, PartialEq, Eq, Structural)]
pub enum FlushAction {
    /// The log is disabled: nothing.
    Nothing,
    /// Flush the buffered lines.
    Flush,
    /// Flush the buffered lines and sync the file to disk.
    FlushAndSync,
}

/// What flushing a log takes: nothing where it is disabled, a sync as well
/// where every write is to reach the disk.
pub open spec fn flush_due(enabled: bool, sync_on_write: bool) -> FlushAction {
    if !enabled {
        FlushAction::Nothing
    } else if sync_on_write {
        FlushAction::FlushAndSync
    } else {
        FlushAction::Flush
    }
}

/// The log of one collection.
#[derive(Debug)]
pub struct Wal {
    /// Whether anything is written at all.
    pub enabled: bool,
    /// The lines of the log file.
    pub lines: Vec<WalLine>,
    /// The sequence number that the next record gets.
    pub next_seq: u64,
}

/// What a `Wal` holds.
pub struct WalView {
    pub enabled: bool,
    pub lines: Seq<WalLineView>,
    pub next_seq: u64,
}

impl View for Wal {
    type V = WalView;

    open spec fn view(&self) -> WalView {
        WalView { enabled: self.enabled, lines: line_views(self.lines@), next_seq: self.next_seq }
    }
}

impl WalView {
    /// What replaying this log gives: nothing where it is disabled.
    pub open spec fn replay(self, min_seq: u64) -> Result<Seq<WalEntryView>, PiramidError> {
        if self.enabled {
            replayed(self.lines, min_seq)
        } else {
            Ok(Seq::<WalEntryView>::empty())
        }
    }
}

/// Replaying lines that hold no record above `min_seq`, and nothing
/// malformed, gives nothing.
pub proof fn lemma_replay_nothing(lines: Seq<WalLineView>, min_seq: u64)
    requires
        clean(lines),
        seqs_below(lines, min_seq + 1),
    ensures
        replayed(lines, min_seq) == Ok::<Seq<WalEntryView>, PiramidError>(
            Seq::<WalEntryView>::empty(),
        ),
    decreases lines.len(),
{
    if lines.len() > 0 {
        let init = lines.drop_last();
        assert forall|i: int| 0 <= i < init.len() implies match #[trigger] init[i] {
            WalLineView::Header { version } => version == WAL_VERSION,
            WalLineView::Record(_) => true,
            _ => false,
        } by {
            assert(init[i] == lines[i]);
        }
        assert forall|i: int| 0 <= i < init.len() implies ((#[trigger] init[i]) matches WalLineView::Record(
            e,
        ) ==> e.seq() < min_seq + 1) by {
            assert(init[i] == lines[i]);
        }
        lemma_replay_nothing(init, min_seq);
        assert(lines.last() == lines[lines.len() - 1]);
    }
}

/// A log that was just started afresh holds nothing to replay, whatever the
/// last checkpoint was.
pub proof fn lemma_fresh_log_replays_nothing(min_seq: u64)
    ensures
        replayed(seq![WalLineView::Header { version: WAL_VERSION }], min_seq) == Ok::<
            Seq<WalEntryView>,
            PiramidError,
        >(Seq::<WalEntryView>::empty()),
{
    let header = seq![WalLineView::Header { version: WAL_VERSION }];
    assert(header.drop_last() =~= Seq::<WalLineView>::empty());
    assert(header.last() == WalLineView::Header { version: WAL_VERSION });
    assert(replayed(header.drop_last(), min_seq) == Ok::<Seq<WalEntryView>, PiramidError>(
        Seq::<WalEntryView>::empty(),
    ));
}

/// Records logged before a checkpoint are never replayed after it: a log
/// whose records all have sequence numbers up to that of the checkpoint
/// replays to nothing.
pub proof fn lemma_checkpointed_log_replays_nothing(lines: Seq<WalLineView>, checkpoint_seq: u64)
    requires
        clean(lines),
        seqs_below(lines, checkpoint_seq + 1),
    ensures
        replayed(lines, checkpoint_seq) == Ok::<Seq<WalEntryView>, PiramidError>(
            Seq::<WalEntryView>::empty(),
        ),
{
    lemma_replay_nothing(lines, checkpoint_seq);
}

/// Appending a record to lines that replay appends it to what the replay
/// gives where its sequence number is above `min_seq`, and changes nothing
/// where it is not.
pub proof fn lemma_replay_push(lines: Seq<WalLineView>, e: WalEntryView, min_seq: u64)
    requires
        replayed(lines, min_seq) is Ok,
    ensures
        replayed(lines.push(WalLineView::Record(e)), min_seq) == Ok::<
            Seq<WalEntryView>,
            PiramidError,
        >(
            if e.seq() > min_seq {
                replayed(lines, min_seq)->Ok_0.push(e)
            } else {
                replayed(lines, min_seq)->Ok_0
            },
        ),
{
    let after = lines.push(WalLineView::Record(e));
    assert(after.drop_last() =~= lines);
    assert(after.last() == WalLineView::Record(e));
}

impl Wal {
    /// A log over the lines of an existing log file, to be continued at
    /// `next_seq`. An empty file gets its header.
    pub fn new(lines: Vec<WalLine>, next_seq: u64) -> (r: Self)
        ensures
            r.enabled,
            r.next_seq == next_seq,
            r@.lines == if lines@.len() == 0 {
                seq![WalLineView::Header { version: WAL_VERSION }]
            } else {
                line_views(lines@)
            },
    {
        let mut wal = Wal { enabled: true, lines, next_seq };
        wal.ensure_header();
        wal
    }

    /// A log that records nothing, with a sequence counter all the same.
    pub fn disabled(next_seq: u64) -> (r: Self)
        ensures
            !r.enabled,
            r.next_seq == next_seq,
            r@.lines == Seq::<WalLineView>::empty(),
    {
        let r = Wal { enabled: false, lines: Vec::new(), next_seq };
        assert(r@.lines =~= Seq::<WalLineView>::empty());
        r
    }

    /// Write the header where the log file is empty.
    fn ensure_header(&mut self)
        ensures
            final(self).enabled == old(self).enabled,
            final(self).next_seq == old(self).next_seq,
            final(self)@.lines == if old(self).enabled && old(self)@.lines.len() == 0 {
                seq![WalLineView::Header { version: WAL_VERSION }]
            } else {
                old(self)@.lines
            },
    {
        if self.enabled && self.lines.len() == 0 {
            self.lines.push(WalLine::Header { version: WAL_VERSION });
            assert(self@.lines =~= seq![WalLineView::Header { version: WAL_VERSION }]);
        }
    }

    /// The records with a sequence number above `min_seq`, in file order.
    pub fn replay(&self, min_seq: u64) -> (r: Result<Vec<WalEntry>, PiramidError>)
        ensures
            match r {
                Ok(records) => self@.replay(min_seq) == Ok::<Seq<WalEntryView>, PiramidError>(
                    wal_views(records@),
                ),
                Err(e) => self@.replay(min_seq) == Err::<Seq<WalEntryView>, PiramidError>(e),
            },
    {
        let mut entries: Vec<WalEntry> = Vec::new();
        assert(wal_views(entries@) =~= Seq::<WalEntryView>::empty());
        if !self.enabled {
            return Ok(entries);
        }
        let ghost all = self@.lines;
        let mut i: usize = 0;
        assert(all.take(0) =~= Seq::<WalLineView>::empty());
        while i < self.lines.len()
            invariant
                i <= self.lines.len(),
                self.enabled,
                all == self@.lines,
                all.len() == self.lines.len(),
                replayed(all.take(i as int), min_seq) == Ok::<Seq<WalEntryView>, PiramidError>(
                    wal_views(entries@),
                ),
            decreases self.lines.len() - i,
        {
            proof {
                let next = all.take(i + 1);
                assert(next.drop_last() =~= all.take(i as int));
                assert(next.last() == self.lines[i as int]@);
            }
            match &self.lines[i] {
                WalLine::Blank => {},
                WalLine::Header { version } => {
                    if *version != WAL_VERSION {
                        proof {
                            lemma_replay_fails(all, i as int, min_seq);
                        }
                        return Err(PiramidError::CorruptedData(Corruption::WalHeader));
                    }
                },
                WalLine::Record(e) => {
                    if e.seq() > min_seq {
                        let ghost before = wal_views(entries@);
                        entries.push(e.duplicate());
                        assert(wal_views(entries@) =~= before.push(e@));
                    }
                },
                WalLine::Malformed => {
                    proof {
                        lemma_replay_fails(all, i as int, min_seq);
                    }
                    return Err(PiramidError::CorruptedData(Corruption::WalRecord));
                },
            }
            i += 1;
        }
        assert(all.take(self.lines.len() as int) =~= all);
        Ok(entries)
    }

    /// Give `entry` the next sequence number and append it to the log. On a
    /// disabled log the entry is numbered and the counter moves, but nothing
    /// is appended. Fails with `Io`, changing nothing, exactly where the
    /// sequence numbers are used up.
    pub fn log(&mut self, entry: &mut WalEntry) -> (r: Result<(), PiramidError>)
        ensures
            match r {
                Ok(_) => {
                    &&& old(self).next_seq < u64::MAX
                    &&& final(entry)@ == old(entry)@.with_seq(old(self).next_seq)
                    &&& final(self).next_seq == old(self).next_seq + 1
                    &&& final(self).enabled == old(self).enabled
                    &&& final(self)@.lines == if old(self).enabled {
                        old(self)@.lines.push(WalLineView::Record(final(entry)@))
                    } else {
                        old(self)@.lines
                    }
                },
                Err(e) => {
                    &&& e == PiramidError::Io
                    &&& old(self).next_seq == u64::MAX
                    &&& *final(self) == *old(self)
                    &&& *final(entry) == *old(entry)
                },
            },
    {
        if self.next_seq == u64::MAX {
            return Err(PiramidError::Io);
        }
        entry.set_seq(self.next_seq);
        if self.enabled {
            let ghost before = self@.lines;
            self.lines.push(WalLine::Record(entry.duplicate()));
            assert(self@.lines =~= before.push(WalLineView::Record(entry@)));
        }
        self.next_seq += 1;
        Ok(())
    }

    /// Log a checkpoint record taken at `timestamp`. Returns the sequence
    /// number it was logged under.
    pub fn checkpoint(&mut self, timestamp: u64) -> (r: Result<u64, PiramidError>)
        ensures
            match r {
                Ok(seq) => {
                    &&& seq == old(self).next_seq
                    &&& old(self).next_seq < u64::MAX
                    &&& final(self).next_seq == old(self).next_seq + 1
                    &&& final(self).enabled == old(self).enabled
                    &&& final(self)@.lines == if old(self).enabled {
                        old(self)@.lines.push(
                            WalLineView::Record(WalEntryView::Checkpoint { timestamp, seq }),
                        )
                    } else {
                        old(self)@.lines
                    }
                },
                Err(e) => {
                    &&& e == PiramidError::Io
                    &&& old(self).next_seq == u64::MAX
                    &&& *final(self) == *old(self)
                },
            },
    {
        let mut entry = WalEntry::Checkpoint { timestamp, seq: 0 };
        match self.log(&mut entry) {
            Ok(_) => Ok(entry.seq()),
            Err(e) => Err(e),
        }
    }

    /// Start the log file afresh: it holds the header and nothing else. The
    /// sequence counter goes on. A disabled log stays as it is.
    pub fn rotate(&mut self)
        ensures
            final(self).enabled == old(self).enabled,
            final(self).next_seq == old(self).next_seq,
            final(self)@.lines == if old(self).enabled {
                seq![WalLineView::Header { version: WAL_VERSION }]
            } else {
                old(self)@.lines
            },
    {
        if self.enabled {
            self.lines.clear();
            self.lines.push(WalLine::Header { version: WAL_VERSION });
            assert(self@.lines =~= seq![WalLineView::Header { version: WAL_VERSION }]);
        }
    }

    /// What flushing the log takes.
    pub fn flush(&self, sync_on_write: bool) -> (r: FlushAction)
        ensures
            r == flush_due(self.enabled, sync_on_write),
    {
        if !self.enabled {
            FlushAction::Nothing
        } else if sync_on_write {
            FlushAction::FlushAndSync
        } else {
            FlushAction::Flush
        }
    }

    /// How many lines the log file holds.
    pub fn line_count(&self) -> (r: usize)
        ensures
            r == self@.lines.len(),
    {
        self.lines.len()
    }
}

/// A replay that fails at one line fails on every longer log, with the same
/// error.
pub proof fn lemma_replay_fails(lines: Seq<WalLineView>, at: int, min_seq: u64)
    requires
        0 <= at < lines.len(),
        replayed(lines.take(at), min_seq) is Ok,
        match lines[at] {
            WalLineView::Header { version } => version != WAL_VERSION,
            WalLineView::Malformed => true,
            _ => false,
        },
    ensures
        replayed(lines, min_seq) == Err::<Seq<WalEntryView>, PiramidError>(
            match lines[at] {
                WalLineView::Header { .. } => PiramidError::CorruptedData(Corruption::WalHeader),
                _ => PiramidError::CorruptedData(Corruption::WalRecord),
            },
        ),
{
    let first = lines.take(at + 1);
    assert(first.drop_last() =~= lines.take(at));
    assert(first.last() == lines[at]);
    lemma_replay_error_stays(lines, at + 1, min_seq);
}

/// Once a prefix fails to replay, every longer prefix fails in the same way.
pub proof fn lemma_replay_error_stays(lines: Seq<WalLineView>, k: int, min_seq: u64)
    requires
        0 <= k <= lines.len(),
        replayed(lines.take(k), min_seq) is Err,
    ensures
        replayed(lines, min_seq) == replayed(lines.take(k), min_seq),
    decreases lines.len() - k,
{
    if k == lines.len() {
        assert(lines.take(k) =~= lines);
    } else {
        let next = lines.take(k + 1);
        assert(next.drop_last() =~= lines.take(k));
        lemma_replay_error_stays(lines, k + 1, min_seq);
    }
}

} // verus!
