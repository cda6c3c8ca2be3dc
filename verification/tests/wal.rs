use piramid::config::wal::WalConfig;
use piramid::error::{Corruption, PiramidError};
use piramid::metadata::Metadata;
use piramid::quantization::QuantizedVector;
use piramid::storage::collection::persistence::{load_wal_meta, PersistenceService};
use piramid::storage::document::Document;
use piramid::storage::wal::entry::WalEntry;
use piramid::storage::wal::log::{FlushAction, Wal, WalLine, WAL_VERSION};

fn doc(id: u128) -> Document {
    Document::with_id(id, QuantizedVector::new(vec![1, 2], 0, 0), b"t".to_vec(), Metadata::new())
}

fn seqs(entries: &[WalEntry]) -> Vec<u64> {
    entries.iter().map(|e| e.seq()).collect()
}

#[test]
fn a_new_log_holds_its_header() {
    let wal = Wal::new(Vec::new(), 1);
    assert!(wal.enabled);
    assert_eq!(wal.next_seq, 1);
    assert_eq!(wal.line_count(), 1);
    assert!(matches!(wal.lines[0], WalLine::Header { version: 1 }));
    assert_eq!(WAL_VERSION, 1);
    let existing = Wal::new(vec![WalLine::Blank, WalLine::Header { version: 1 }], 9);
    assert_eq!(existing.line_count(), 2);
    assert_eq!(existing.next_seq, 9);
}

#[test]
fn sequence_numbers_grow_by_one() {
    let mut wal = Wal::new(Vec::new(), 1);
    let mut a = WalEntry::insert_of(&doc(1));
    let mut b = WalEntry::Delete { id: 1, seq: 0 };
    let mut c = WalEntry::update_of(&doc(2));
    assert_eq!(wal.log(&mut a), Ok(()));
    assert_eq!(wal.log(&mut b), Ok(()));
    assert_eq!(wal.log(&mut c), Ok(()));
    assert_eq!((a.seq(), b.seq(), c.seq()), (1, 2, 3));
    assert_eq!(wal.next_seq, 4);
    assert_eq!(wal.checkpoint(77), Ok(4));
    assert_eq!(wal.next_seq, 5);
    assert_eq!(wal.line_count(), 5);
    match &wal.lines[4] {
        WalLine::Record(WalEntry::Checkpoint { timestamp, seq }) => {
            assert_eq!((*timestamp, *seq), (77, 4));
        }
        _ => panic!("the last line is the checkpoint"),
    }
}

#[test]
fn replay_gives_what_follows_the_checkpoint() {
    let mut wal = Wal::new(Vec::new(), 1);
    for id in 1..=5u128 {
        let mut e = WalEntry::insert_of(&doc(id));
        wal.log(&mut e).unwrap();
    }
    assert_eq!(seqs(&wal.replay(0).unwrap()), vec![1, 2, 3, 4, 5]);
    assert_eq!(seqs(&wal.replay(3).unwrap()), vec![4, 5]);
    assert_eq!(seqs(&wal.replay(5).unwrap()), Vec::<u64>::new());
    assert_eq!(seqs(&wal.replay(u64::MAX).unwrap()), Vec::<u64>::new());
    let seq = wal.checkpoint(10).unwrap();
    assert_eq!(seq, 6);
    assert!(wal.replay(seq).unwrap().is_empty());
    wal.rotate();
    assert_eq!(wal.line_count(), 1);
    assert!(wal.replay(0).unwrap().is_empty());
    assert_eq!(wal.next_seq, 7);
}

#[test]
fn replay_passes_over_blank_lines_and_headers() {
    let lines = vec![
        WalLine::Header { version: 1 },
        WalLine::Blank,
        WalLine::Record(WalEntry::Delete { id: 4, seq: 2 }),
        WalLine::Header { version: 1 },
        WalLine::Record(WalEntry::Delete { id: 5, seq: 1 }),
        WalLine::Blank,
    ];
    let wal = Wal::new(lines, 3);
    let entries = wal.replay(0).unwrap();
    assert_eq!(seqs(&entries), vec![2, 1]);
    assert!(matches!(entries[0], WalEntry::Delete { id: 4, .. }));
}

#[test]
fn replay_fails_on_the_first_bad_line() {
    let other_version = Wal::new(
        vec![WalLine::Header { version: 2 }, WalLine::Malformed],
        1,
    );
    assert_eq!(
        other_version.replay(0).err(),
        Some(PiramidError::CorruptedData(Corruption::WalHeader))
    );
    let malformed = Wal::new(
        vec![
            WalLine::Header { version: 1 },
            WalLine::Record(WalEntry::Delete { id: 4, seq: 1 }),
            WalLine::Malformed,
            WalLine::Header { version: 3 },
        ],
        1,
    );
    assert_eq!(
        malformed.replay(0).err(),
        Some(PiramidError::CorruptedData(Corruption::WalRecord))
    );
    // A bad line counts even where its neighbours are not replayed.
    assert_eq!(
        malformed.replay(100).err(),
        Some(PiramidError::CorruptedData(Corruption::WalRecord))
    );
}

#[test]
fn a_disabled_log_counts_and_keeps_nothing() {
    let mut wal = Wal::disabled(5);
    assert!(!wal.enabled);
    let mut e = WalEntry::Delete { id: 1, seq: 0 };
    assert_eq!(wal.log(&mut e), Ok(()));
    assert_eq!(e.seq(), 5);
    assert_eq!(wal.next_seq, 6);
    assert_eq!(wal.line_count(), 0);
    assert!(wal.replay(0).unwrap().is_empty());
    wal.rotate();
    assert_eq!(wal.line_count(), 0);
}

#[test]
fn a_log_out_of_sequence_numbers_fails() {
    let mut wal = Wal::new(Vec::new(), u64::MAX);
    let mut e = WalEntry::Delete { id: 1, seq: 0 };
    assert_eq!(wal.log(&mut e), Err(PiramidError::Io));
    assert_eq!(e.seq(), 0);
    assert_eq!(wal.next_seq, u64::MAX);
    assert_eq!(wal.line_count(), 1);
    assert_eq!(wal.checkpoint(1), Err(PiramidError::Io));
}

#[test]
fn records_carry_their_documents() {
    let d = doc(9);
    let mut e = WalEntry::insert_of(&d);
    e.set_seq(12);
    assert_eq!(e.seq(), 12);
    let copy = e.duplicate();
    assert_eq!(copy.seq(), 12);
    let carried = copy.document().unwrap();
    assert_eq!(carried.id, 9);
    assert_eq!(carried.text, b"t".to_vec());
    assert_eq!(carried.vector.values, vec![1, 2]);
    assert!(WalEntry::Delete { id: 1, seq: 3 }.document().is_none());
    assert!(WalEntry::Checkpoint { timestamp: 1, seq: 3 }.document().is_none());
}

#[test]
fn a_checkpoint_is_due_by_count_or_by_time() {
    let mut cfg = WalConfig::default();
    cfg.checkpoint_frequency = 3;
    let mut p = PersistenceService::new(Wal::new(Vec::new(), 1));
    assert!(!p.should_checkpoint(&cfg, 0));
    assert!(!p.should_checkpoint(&cfg, 0));
    assert!(p.should_checkpoint(&cfg, 0));
    assert_eq!(p.operation_count, 3);
    p.reset_counter();
    assert_eq!(p.operation_count, 0);
    assert_eq!(p.last_checkpoint(), None);

    cfg.checkpoint_frequency = 1000;
    cfg.checkpoint_interval_secs = Some(60);
    // Without an earlier checkpoint there is nothing to measure from.
    assert!(!p.should_checkpoint(&cfg, 10_000));
    p.record_checkpoint(100);
    assert_eq!(p.last_checkpoint(), Some(100));
    assert!(!p.should_checkpoint(&cfg, 159));
    assert!(p.should_checkpoint(&cfg, 160));
    assert!(!p.should_checkpoint(&cfg, 50));

    let disabled = WalConfig::disabled();
    let before = p.operation_count;
    assert!(!p.should_checkpoint(&disabled, 1_000_000));
    assert_eq!(p.operation_count, before);
    assert_eq!(load_wal_meta(None), 0);
    assert_eq!(load_wal_meta(Some(41)), 41);
}

#[test]
fn flushing_syncs_where_every_write_is_to_reach_the_disk() {
    let wal = Wal::new(Vec::new(), 1);
    assert_eq!(wal.flush(false), FlushAction::Flush);
    assert_eq!(wal.flush(true), FlushAction::FlushAndSync);
    assert_eq!(Wal::disabled(1).flush(true), FlushAction::Nothing);
}
