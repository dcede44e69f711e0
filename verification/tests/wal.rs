//! The durable log over a directory in memory: every file operation the log asks
//! for is performed on it, and reopening reads it back.
use std::collections::BTreeMap;

use arachne::consensus::raft_storage::RaftStorage;
use arachne::storage::meta::decode_meta;
use arachne::storage::record::{encode_entry, encode_record, RecordType};
use arachne::storage::replay::SegmentFile;
use arachne::storage::wal::{
    DataDir, DiskOp, ForceRecoveryReport, SnapshotFile, WalConfig, WalOptions, WalStorage,
};
use arachne::storage::FsyncPolicy;
use arachne::types::Fault;
use arachne::{
    ConfState, EntryType, HardState, LogEntry, LogIndex, Snapshot, SnapshotMeta, StorageError, Term,
};

/// A data directory in memory.
#[derive(Default)]
struct Dir {
    segments: BTreeMap<u64, Vec<u8>>,
    snapshots: BTreeMap<(u64, u64), Vec<u8>>,
    meta: Option<Vec<u8>>,
    /// The segments and the highest entry that syncs were reported for.
    synced: Vec<(u64, u64)>,
}

impl Dir {
    fn perform(&mut self, ops: Vec<DiskOp>) {
        for op in ops {
            match op {
                DiskOp::CreateSegment { first_index } => {
                    self.segments.entry(first_index).or_default();
                }
                DiskOp::WriteSegment { first_index, bytes } => self
                    .segments
                    .get_mut(&first_index)
                    .expect("only a segment that is there is written")
                    .extend(bytes),
                DiskOp::SyncSegment { first_index } => {
                    assert!(self.segments.contains_key(&first_index))
                }
                DiskOp::NotifySynced {
                    first_index,
                    max_entry,
                } => self.synced.push((first_index, max_entry)),
                DiskOp::CutSegment { first_index, len } => self
                    .segments
                    .get_mut(&first_index)
                    .expect("only a segment that is there is cut")
                    .truncate(len as usize),
                DiskOp::ReplaceSegment { first_index, bytes } => {
                    self.segments.insert(first_index, bytes);
                }
                DiskOp::RemoveSegment { first_index } => {
                    self.segments.remove(&first_index);
                }
                DiskOp::SyncDir => {}
                DiskOp::SaveSnapshot { index, term, bytes } => {
                    self.snapshots.insert((index, term), bytes);
                }
                DiskOp::RemoveSnapshot { index, term } => {
                    self.snapshots.remove(&(index, term));
                }
                DiskOp::SaveMeta { bytes } => self.meta = Some(bytes),
            }
        }
    }

    fn segment_files(&self) -> Vec<SegmentFile> {
        self.segments
            .iter()
            .map(|(first_index, bytes)| SegmentFile {
                first_index: *first_index,
                bytes: bytes.clone(),
            })
            .collect()
    }

    fn snapshot_names(&self) -> Vec<(u64, u64)> {
        self.snapshots.keys().copied().collect()
    }

    fn contents(&self) -> DataDir {
        DataDir {
            segments: self.segment_files(),
            snapshots: self
                .snapshots
                .iter()
                .map(|((index, term), bytes)| SnapshotFile {
                    index: *index,
                    term: *term,
                    bytes: bytes.clone(),
                })
                .collect(),
            meta: self.meta.clone(),
        }
    }

    fn segment_indices(&self) -> Vec<u64> {
        self.segments.keys().copied().collect()
    }

    fn snapshot_indices(&self) -> Vec<u64> {
        self.snapshots.keys().map(|(index, _)| *index).collect()
    }
}

fn open(dir: &mut Dir, opts: &WalOptions) -> Result<WalStorage, StorageError> {
    let (ops, result) = WalStorage::open(&dir.contents(), opts);
    dir.perform(ops);
    result
}

fn append(
    dir: &mut Dir,
    wal: &mut WalStorage,
    entries: Vec<LogEntry>,
) -> Result<(), StorageError> {
    let segments = if wal.overwrites(&entries) {
        dir.segment_files()
    } else {
        vec![]
    };
    let (ops, result) = wal.append(&entries, &segments);
    dir.perform(ops);
    result
}

fn sync(dir: &mut Dir, wal: &mut WalStorage) {
    let ops = wal.sync_entries();
    dir.perform(ops);
}

fn set_hard_state(dir: &mut Dir, wal: &mut WalStorage, hs: HardState) {
    let ops = wal.set_hard_state(hs);
    dir.perform(ops);
}

fn save_snapshot(dir: &mut Dir, wal: &mut WalStorage, snapshot: &Snapshot) {
    let ops = wal.save_snapshot(snapshot, &dir.snapshot_names());
    dir.perform(ops);
}

fn install_snapshot(
    dir: &mut Dir,
    wal: &mut WalStorage,
    snapshot: &Snapshot,
) -> Result<(), StorageError> {
    let (ops, result) = wal.install_snapshot(snapshot, &dir.snapshot_names(), &dir.segment_files());
    dir.perform(ops);
    result
}

fn compact(dir: &mut Dir, wal: &mut WalStorage, compact_to: u64) -> Result<(), StorageError> {
    let (ops, result) = wal.compact(compact_to, &dir.segment_files());
    dir.perform(ops);
    result
}

fn force_recovery(
    dir: &mut Dir,
    node_id: &str,
    new_cluster_id: Option<String>,
    config: WalConfig,
    created_at_millis: u64,
) -> Result<ForceRecoveryReport, StorageError> {
    let (ops, result) = WalStorage::force_recovery(
        &dir.contents(),
        node_id,
        new_cluster_id,
        config,
        created_at_millis,
    );
    dir.perform(ops);
    result
}

fn test_opts() -> WalOptions {
    WalOptions {
        cluster_id: "test-cluster".into(),
        node_id: "node-1".into(),
        config: WalConfig::default(),
        created_at_millis: 1_700_000_000_000,
    }
}

fn test_opts_with_policy(policy: FsyncPolicy) -> WalOptions {
    WalOptions {
        config: WalConfig {
            fsync_policy: policy,
            ..WalConfig::default()
        },
        ..test_opts()
    }
}

fn test_opts_with_segment_bytes(bytes: u64) -> WalOptions {
    WalOptions {
        config: WalConfig {
            segment_bytes: bytes,
            ..WalConfig::default()
        },
        ..test_opts()
    }
}

fn make_entry(index: u64, term: u64, data: &[u8]) -> LogEntry {
    LogEntry {
        index,
        term,
        entry_type: EntryType::Entry,
        data: data.to_vec(),
    }
}

fn make_snapshot(index: LogIndex, term: Term, data: &[u8]) -> Snapshot {
    Snapshot {
        meta: SnapshotMeta {
            index,
            term,
            conf_state: ConfState {
                voters: vec![1, 2, 3],
                learners: vec![],
            },
        },
        data: data.to_vec(),
    }
}

#[test]
fn open_empty_dir_creates_meta() {
    let mut dir = Dir::default();
    let opts = test_opts();
    let storage = open(&mut dir, &opts).unwrap();
    assert!(dir.meta.is_some());
    assert_eq!(storage.first_index(), 1);
    assert_eq!(storage.last_index(), 0);
}

#[test]
fn reopen_recovers_empty_log() {
    let mut dir = Dir::default();
    let opts = test_opts();
    {
        let _storage = open(&mut dir, &opts).unwrap();
    }
    let storage = open(&mut dir, &opts).unwrap();
    assert_eq!(storage.first_index(), 1);
    assert_eq!(storage.last_index(), 0);
}

#[test]
fn append_sync_reopen_entries_survive() {
    let mut dir = Dir::default();
    let opts = test_opts();
    {
        let mut storage = open(&mut dir, &opts).unwrap();
        append(
            &mut dir,
            &mut storage,
            vec![
                make_entry(1, 1, b"hello"),
                make_entry(2, 1, b"world"),
            ],
        )
        .unwrap();
        sync(&mut dir, &mut storage);
        set_hard_state(&mut dir, &mut storage, HardState { term: 1, vote: Some(1), commit: 2 });
    }
    let storage = open(&mut dir, &opts).unwrap();
    assert_eq!(storage.first_index(), 1);
    assert_eq!(storage.last_index(), 2);
    let entries = storage.entries(1, 3, None).unwrap();
    assert_eq!(entries.len(), 2);
    assert_eq!(entries[0].data, b"hello");
    assert_eq!(entries[1].data, b"world");
    let state = storage.initial_state();
    assert_eq!(state.hard_state.term, 1);
    assert_eq!(state.hard_state.vote, Some(1));
    assert_eq!(state.hard_state.commit, 2);
}

#[test]
fn i1_hard_state_fsync_always_policy() {
    let mut dir = Dir::default();
    let opts = test_opts_with_policy(FsyncPolicy::Always);
    let mut storage = open(&mut dir, &opts).unwrap();
    assert_eq!(storage.stats().hard_state_fsyncs, 0);
    set_hard_state(&mut dir, &mut storage, HardState { term: 1, vote: Some(1), commit: 0 });
    assert_eq!(storage.stats().hard_state_fsyncs, 1);
    set_hard_state(&mut dir, &mut storage, HardState { term: 2, vote: Some(2), commit: 1 });
    assert_eq!(storage.stats().hard_state_fsyncs, 2);
}

#[test]
fn i1_hard_state_fsync_batch_policy() {
    let mut dir = Dir::default();
    let opts = test_opts_with_policy(FsyncPolicy::BatchMs(100));
    let mut storage = open(&mut dir, &opts).unwrap();
    set_hard_state(&mut dir, &mut storage, HardState { term: 1, vote: Some(1), commit: 0 });
    assert_eq!(storage.stats().hard_state_fsyncs, 1);
    set_hard_state(&mut dir, &mut storage, HardState { term: 2, vote: Some(2), commit: 1 });
    assert_eq!(storage.stats().hard_state_fsyncs, 2);
}

#[test]
fn always_policy_each_sync_fsyncs() {
    let mut dir = Dir::default();
    let opts = test_opts_with_policy(FsyncPolicy::Always);
    let mut storage = open(&mut dir, &opts).unwrap();
    append(&mut dir, &mut storage, vec![make_entry(1, 1, b"a")]).unwrap();
    sync(&mut dir, &mut storage);
    assert_eq!(storage.stats().entry_fsyncs, 1);
    assert_eq!(storage.stats().entry_sync_batches, 1);
    append(&mut dir, &mut storage, vec![make_entry(2, 1, b"b")]).unwrap();
    sync(&mut dir, &mut storage);
    assert_eq!(storage.stats().entry_fsyncs, 2);
    assert_eq!(storage.stats().entry_sync_batches, 2);
}

#[test]
fn batch_ms_coalesces_fsyncs() {
    let mut dir = Dir::default();
    let opts = test_opts_with_policy(FsyncPolicy::BatchMs(100));
    let mut storage = open(&mut dir, &opts).unwrap();
    append(&mut dir, &mut storage, vec![make_entry(1, 1, b"a")]).unwrap();
    append(&mut dir, &mut storage, vec![make_entry(2, 1, b"b")]).unwrap();
    append(&mut dir, &mut storage, vec![make_entry(3, 1, b"c")]).unwrap();
    sync(&mut dir, &mut storage);
    assert_eq!(storage.stats().entry_fsyncs, 1);
    assert_eq!(storage.stats().entry_sync_batches, 1);
    sync(&mut dir, &mut storage);
    assert_eq!(storage.stats().entry_fsyncs, 1);
    assert_eq!(storage.stats().entry_sync_batches, 1);
    append(&mut dir, &mut storage, vec![make_entry(4, 1, b"d")]).unwrap();
    sync(&mut dir, &mut storage);
    assert_eq!(storage.stats().entry_fsyncs, 2);
    assert_eq!(storage.stats().entry_sync_batches, 2);
    set_hard_state(&mut dir, &mut storage, HardState { term: 1, vote: Some(1), commit: 4 });
    assert_eq!(storage.stats().hard_state_fsyncs, 1);
}

#[test]
fn recovery_truncates_structural_tear_beyond_commit() {
    let mut dir = Dir::default();
    let opts = test_opts();
    {
        let mut storage = open(&mut dir, &opts).unwrap();
        append(
            &mut dir,
            &mut storage,
            vec![
                make_entry(1, 1, b"committed"),
                make_entry(2, 1, b"uncommitted"),
                make_entry(3, 1, b"also-uncommitted"),
            ],
        )
        .unwrap();
        sync(&mut dir, &mut storage);
        set_hard_state(&mut dir, &mut storage, HardState { term: 1, vote: Some(1), commit: 1 });
    }
    let buf = dir.segments[&1].clone();
    let truncated_len = buf.len() - 3;
    let mut truncated = buf;
    truncated.truncate(truncated_len);
    dir.segments.insert(1, truncated);

    let storage = open(&mut dir, &opts).unwrap();
    assert_eq!(storage.last_index(), 3);
    assert_eq!(storage.stats().wal_truncated_records, 1);
}

#[test]
fn recovery_failstart_corrupt_hardstate() {
    let mut dir = Dir::default();
    let opts = test_opts();
    {
        let mut storage = open(&mut dir, &opts).unwrap();
        append(&mut dir, &mut storage, vec![make_entry(1, 1, b"x")]).unwrap();
        sync(&mut dir, &mut storage);
        set_hard_state(&mut dir, &mut storage, HardState { term: 1, vote: Some(1), commit: 1 });
    }
    let mut buf = dir.segments[&1].clone();
    let idx = buf.len() - 5;
    buf[idx] ^= 0xFF;
    dir.segments.insert(1, buf);

    match open(&mut dir, &opts) {
        Err(StorageError::Unrecoverable(_)) => {}
        Err(e) => panic!("expected Unrecoverable, got: {e:?}"),
        Ok(_) => panic!("expected error, got Ok"),
    }
}

#[test]
fn recovery_failstart_flipped_type_byte() {
    let mut dir = Dir::default();
    let opts = test_opts();
    {
        let mut storage = open(&mut dir, &opts).unwrap();
        append(&mut dir, &mut storage, vec![make_entry(1, 1, b"x")]).unwrap();
        sync(&mut dir, &mut storage);
        set_hard_state(&mut dir, &mut storage, HardState { term: 1, vote: Some(1), commit: 1 });
    }
    let mut buf = dir.segments[&1].clone();
    let hs_record_start = buf.len() - 34;
    let type_byte_pos = hs_record_start + 8;
    buf[type_byte_pos] = 0x01;
    dir.segments.insert(1, buf);

    match open(&mut dir, &opts) {
        Err(StorageError::Unrecoverable(_)) => {}
        Err(e) => panic!("expected Unrecoverable, got: {e:?}"),
        Ok(_) => panic!("expected error, got Ok"),
    }
}

#[test]
fn recovery_failstart_corrupt_len_committed_tail() {
    let mut dir = Dir::default();
    let opts = test_opts();
    {
        let mut storage = open(&mut dir, &opts).unwrap();
        append(
            &mut dir,
            &mut storage,
            vec![
                make_entry(1, 1, b"a"),
                make_entry(2, 1, b"b"),
            ],
        )
        .unwrap();
        sync(&mut dir, &mut storage);
        set_hard_state(&mut dir, &mut storage, HardState { term: 1, vote: Some(1), commit: 2 });
    }
    let mut buf = dir.segments[&1].clone();
    let second_entry_offset = 27;
    let original_len = u32::from_le_bytes([
        buf[second_entry_offset],
        buf[second_entry_offset + 1],
        buf[second_entry_offset + 2],
        buf[second_entry_offset + 3],
    ]);
    let bad_len = original_len.saturating_sub(1);
    buf[second_entry_offset..second_entry_offset + 4]
        .copy_from_slice(&bad_len.to_le_bytes());
    dir.segments.insert(1, buf);
    match open(&mut dir, &opts) {
        Err(StorageError::Unrecoverable(_)) => {}
        Err(e) => panic!("expected Unrecoverable, got: {e:?}"),
        Ok(_) => panic!("expected error, got Ok"),
    }
}

#[test]
fn recovery_failstart_index_gap() {
    let mut dir = Dir::default();
    let opts = test_opts();
    {
        let mut storage = open(&mut dir, &opts).unwrap();
        append(&mut dir, &mut storage, vec![make_entry(1, 1, b"a")]).unwrap();
        sync(&mut dir, &mut storage);
    }
    let mut buf = Vec::new();
    let payload1 = encode_entry(1, 1, 0, b"a");
    buf.extend_from_slice(&encode_record(RecordType::Entry, &payload1));
    let payload3 = encode_entry(3, 1, 0, b"c");
    buf.extend_from_slice(&encode_record(RecordType::Entry, &payload3));
    dir.segments.insert(1, buf);

    match open(&mut dir, &opts) {
        Err(StorageError::Unrecoverable(_)) => {}
        Err(e) => panic!("expected Unrecoverable for index gap, got: {e:?}"),
        Ok(_) => panic!("expected error, got Ok"),
    }
}

#[test]
fn meta_mismatch_fails() {
    let mut dir = Dir::default();
    let opts = test_opts();
    {
        let _storage = open(&mut dir, &opts).unwrap();
    }
    let bad_opts = WalOptions {
        cluster_id: "wrong-cluster".into(),
        node_id: "node-1".into(),
        config: WalConfig::default(),
        created_at_millis: 1_700_000_000_000,
    };
    let result = open(&mut dir, &bad_opts);
    assert!(result.is_err());
}

#[test]
fn multi_segment_rollover_and_recovery() {
    let mut dir = Dir::default();
    let opts = test_opts_with_segment_bytes(80);
    {
        let mut storage = open(&mut dir, &opts).unwrap();
        for i in 1..=6u64 {
            append(&mut dir, &mut storage, vec![make_entry(i, 1, &[b'x'; 4])]).unwrap();
        }
        sync(&mut dir, &mut storage);
        set_hard_state(&mut dir, &mut storage, HardState { term: 1, vote: Some(1), commit: 6 });
    }
    let segs = dir.segment_indices();
    assert!(segs.len() >= 2, "expected >= 2 segments, got {}", segs.len());
    let storage = open(&mut dir, &opts).unwrap();
    assert_eq!(storage.last_index(), 6);
    let entries = storage.entries(1, 7, None).unwrap();
    assert_eq!(entries.len(), 6);
    assert_eq!(entries[0].index, 1);
    assert_eq!(entries[5].index, 6);
}

#[test]
fn reopen_continues_existing_segment() {
    let mut dir = Dir::default();
    let opts = test_opts();
    let num_segments_before;
    {
        let mut storage = open(&mut dir, &opts).unwrap();
        append(&mut dir, &mut storage, vec![make_entry(1, 1, b"hello")]).unwrap();
        sync(&mut dir, &mut storage);
        num_segments_before = dir.segments.len();
    }
    {
        let mut storage = open(&mut dir, &opts).unwrap();
        append(&mut dir, &mut storage, vec![make_entry(2, 1, b"world")]).unwrap();
        sync(&mut dir, &mut storage);
    }
    let num_segments_after = dir.segments.len();
    assert_eq!(
        num_segments_before, num_segments_after,
        "reopen should not create a new empty segment"
    );
    let storage = open(&mut dir, &opts).unwrap();
    assert_eq!(storage.last_index(), 2);
}

#[test]
fn compact_returns_unrecoverable() {
    let mut dir = Dir::default();
    let opts = test_opts();
    let mut storage = open(&mut dir, &opts).unwrap();
    assert!(matches!(compact(&mut dir, &mut storage, 1), Err(StorageError::Unrecoverable(_))));
}

#[test]
fn snapshot_returns_none() {
    let mut dir = Dir::default();
    let opts = test_opts();
    let storage = open(&mut dir, &opts).unwrap();
    assert_eq!(storage.snapshot(), None);
}

#[test]
fn save_snapshot_survives_reopen_and_raises_the_watermark() {
    let mut dir = Dir::default();
    let opts = test_opts();
    {
        let mut storage = open(&mut dir, &opts).unwrap();
        append(
            &mut dir,
            &mut storage,
            vec![
                make_entry(1, 1, b"a"),
                make_entry(2, 1, b"b"),
                make_entry(3, 1, b"c"),
                make_entry(4, 1, b"d"),
                make_entry(5, 1, b"e"),
            ],
        )
        .unwrap();
        sync(&mut dir, &mut storage);
        save_snapshot(&mut dir, &mut storage, &make_snapshot(3, 1, b"state@3"));

        assert_eq!(dir.snapshot_indices(), vec![3]);
        assert_eq!(storage.snapshot().unwrap().data, b"state@3");
    }
    let storage = open(&mut dir, &opts).unwrap();
    let snapshot = storage.snapshot().expect("snapshot survives reopen");
    assert_eq!(snapshot.meta.index, 3);
    assert_eq!(snapshot.data, b"state@3");
    assert_eq!(storage.first_index(), 4);
    assert_eq!(storage.last_index(), 5);
    assert_eq!(storage.term(3).unwrap(), 1);
    assert!(matches!(storage.term(2), Err(StorageError::Compacted)));
    assert!(matches!(
        storage.entries(1, 4, None),
        Err(StorageError::Compacted)
    ));
    let replayed = storage.entries(4, 6, None).unwrap();
    assert_eq!(
        replayed.iter().map(|e| e.index).collect::<Vec<_>>(),
        vec![4, 5]
    );
}

#[test]
fn compact_drops_entries_and_answers_term_at_the_snapshot_index() {
    let mut dir = Dir::default();
    let opts = test_opts();
    let mut storage = open(&mut dir, &opts).unwrap();
    append(
        &mut dir,
        &mut storage,
        vec![
            make_entry(1, 1, b"a"),
            make_entry(2, 1, b"b"),
            make_entry(3, 1, b"c"),
            make_entry(4, 1, b"d"),
        ],
    )
    .unwrap();
    sync(&mut dir, &mut storage);
    save_snapshot(&mut dir, &mut storage, &make_snapshot(3, 1, b"state@3"));
    compact(&mut dir, &mut storage, 3).unwrap();

    assert_eq!(storage.first_index(), 4);
    assert_eq!(storage.last_index(), 4);
    assert_eq!(storage.term(3).unwrap(), 1);
    assert!(matches!(
        storage.term(2),
        Err(StorageError::Compacted)
    ));
    assert!(matches!(
        storage.entries(3, 5, None),
        Err(StorageError::Compacted)
    ));
    let kept = storage.entries(4, 5, None).unwrap();
    assert_eq!(kept.len(), 1);
    assert_eq!(kept[0].index, 4);
    compact(&mut dir, &mut storage, 3).unwrap();
    compact(&mut dir, &mut storage, 1).unwrap();
    assert_eq!(storage.first_index(), 4);
}

#[test]
fn compact_after_restart_uses_the_reloaded_snapshot() {
    let mut dir = Dir::default();
    let opts = test_opts();
    {
        let mut storage = open(&mut dir, &opts).unwrap();
        append(
            &mut dir,
            &mut storage,
            vec![
                make_entry(1, 1, b"a"),
                make_entry(2, 1, b"b"),
                make_entry(3, 1, b"c"),
            ],
        )
        .unwrap();
        sync(&mut dir, &mut storage);
        save_snapshot(&mut dir, &mut storage, &make_snapshot(2, 1, b"state@2"));
    }
    let mut storage = open(&mut dir, &opts).unwrap();
    compact(&mut dir, &mut storage, 2).unwrap();
    assert_eq!(storage.first_index(), 3);
    assert_eq!(storage.term(2).unwrap(), 1);
    drop(storage);
    let storage = open(&mut dir, &opts).unwrap();
    assert_eq!(storage.first_index(), 3);
    assert_eq!(storage.last_index(), 3);
}

#[test]
fn compact_requires_a_covering_snapshot() {
    let mut dir = Dir::default();
    let opts = test_opts();
    let mut storage = open(&mut dir, &opts).unwrap();
    append(
        &mut dir,
        &mut storage,
        vec![
            make_entry(1, 1, b"a"),
            make_entry(2, 1, b"b"),
        ],
    )
    .unwrap();
    sync(&mut dir, &mut storage);
    assert!(matches!(
        compact(&mut dir, &mut storage, 1),
        Err(StorageError::Unrecoverable(_))
    ));
    save_snapshot(&mut dir, &mut storage, &make_snapshot(1, 1, b"state@1"));
    assert!(matches!(
        compact(&mut dir, &mut storage, 2),
        Err(StorageError::Unrecoverable(_))
    ));
    assert!(matches!(
        compact(&mut dir, &mut storage, 9),
        Err(StorageError::Unrecoverable(_))
    ));
    assert_eq!(storage.first_index(), 1);
}

#[test]
fn save_snapshot_never_moves_backwards() {
    let mut dir = Dir::default();
    let opts = test_opts();
    let mut storage = open(&mut dir, &opts).unwrap();
    append(
        &mut dir,
        &mut storage,
        vec![
            make_entry(1, 1, b"a"),
            make_entry(2, 1, b"b"),
            make_entry(3, 1, b"c"),
        ],
    )
    .unwrap();
    sync(&mut dir, &mut storage);
    save_snapshot(&mut dir, &mut storage, &make_snapshot(2, 1, b"state@2"));
    save_snapshot(&mut dir, &mut storage, &make_snapshot(1, 1, b"state@1"));

    let snapshot = storage.snapshot().unwrap();
    assert_eq!(snapshot.meta.index, 2);
    assert_eq!(snapshot.data, b"state@2");
    assert_eq!(dir.snapshot_indices(), vec![2]);
}

#[test]
fn compact_deletes_only_segments_wholly_below_the_watermark() {
    let mut dir = Dir::default();
    let opts = test_opts_with_segment_bytes(1);
    let mut storage = open(&mut dir, &opts).unwrap();
    for index in 1..=6 {
        append(&mut dir, &mut storage, vec![make_entry(index, 1, b"x")]).unwrap();
        sync(&mut dir, &mut storage);
    }
    let before = dir.segment_indices();
    assert!(before.len() > 2, "expected several segments, got {before:?}");

    save_snapshot(&mut dir, &mut storage, &make_snapshot(4, 1, b"state@4"));
    compact(&mut dir, &mut storage, 4).unwrap();
    let after = dir.segment_indices();
    assert_eq!(after, vec![5, 6]);
    assert!(before.len() > after.len());
    assert_eq!(storage.last_index(), 6);
    let kept = storage.entries(5, 7, None).unwrap();
    assert_eq!(kept.len(), 2);
    drop(storage);
    let storage = open(&mut dir, &test_opts_with_segment_bytes(1)).unwrap();
    assert_eq!(storage.first_index(), 5);
    assert_eq!(storage.last_index(), 6);
}

#[test]
fn save_snapshot_prunes_all_but_the_newest_two() {
    let mut dir = Dir::default();
    let opts = test_opts();
    let mut storage = open(&mut dir, &opts).unwrap();
    append(
        &mut dir,
        &mut storage,
        vec![
            make_entry(1, 1, b"a"),
            make_entry(2, 1, b"b"),
            make_entry(3, 1, b"c"),
            make_entry(4, 1, b"d"),
            make_entry(5, 1, b"e"),
        ],
    )
    .unwrap();
    sync(&mut dir, &mut storage);
    for index in [2, 3, 4, 5] {
        save_snapshot(&mut dir, &mut storage, &make_snapshot(index, 1, b"state"));
    }
    assert_eq!(dir.snapshot_indices(), vec![4, 5]);
    assert_eq!(storage.snapshot().unwrap().meta.index, 5);
}

#[test]
fn install_snapshot_replaces_the_local_log() {
    let mut dir = Dir::default();
    let opts = test_opts();
    let mut storage = open(&mut dir, &opts).unwrap();
    append(
        &mut dir,
        &mut storage,
        vec![
            make_entry(1, 1, b"a"),
            make_entry(2, 1, b"b"),
            make_entry(3, 1, b"c"),
        ],
    )
    .unwrap();
    sync(&mut dir, &mut storage);
    let installed = make_snapshot(8, 3, b"state@8");
    install_snapshot(&mut dir, &mut storage, &installed).unwrap();

    assert_eq!(storage.last_index(), 8);
    assert_eq!(storage.first_index(), 9);
    assert_eq!(storage.snapshot().unwrap().meta.index, 8);
    assert!(matches!(
        storage.entries(1, 9, None),
        Err(StorageError::Compacted)
    ));
    let state = storage.initial_state();
    assert_eq!(state.conf_state.voters, vec![1, 2, 3]);
    append(&mut dir, &mut storage, vec![make_entry(9, 3, b"d")]).unwrap();
    sync(&mut dir, &mut storage);
    assert_eq!(storage.last_index(), 9);
    drop(storage);
    let storage = open(&mut dir, &opts).unwrap();
    assert_eq!(storage.first_index(), 9);
    assert_eq!(storage.last_index(), 9);
    assert_eq!(storage.term(8).unwrap(), 3);
    let replayed = storage.entries(9, 10, None).unwrap();
    assert_eq!(replayed.len(), 1);
    assert_eq!(replayed[0].data, b"d");
}

#[test]
fn install_snapshot_discards_a_diverged_tail() {
    let mut dir = Dir::default();
    let opts = test_opts();
    let mut storage = open(&mut dir, &opts).unwrap();
    append(
        &mut dir,
        &mut storage,
        vec![
            make_entry(1, 1, b"a"),
            make_entry(2, 1, b"b"),
            make_entry(3, 2, b"local-1"),
            make_entry(4, 2, b"local-2"),
            make_entry(5, 2, b"local-3"),
        ],
    )
    .unwrap();
    sync(&mut dir, &mut storage);

    install_snapshot(&mut dir, &mut storage, &make_snapshot(4, 3, b"state@4"))
        .unwrap();
    assert_eq!(storage.last_index(), 4);
    assert_eq!(storage.first_index(), 5);
    assert!(storage.entries(3, 6, None).is_err());
    append(&mut dir, &mut storage, vec![make_entry(5, 3, b"remote")]).unwrap();
    sync(&mut dir, &mut storage);
    assert_eq!(storage.term(5).unwrap(), 3);
}

#[test]
fn install_snapshot_rejects_a_stale_snapshot() {
    let mut dir = Dir::default();
    let opts = test_opts();
    let mut storage = open(&mut dir, &opts).unwrap();
    install_snapshot(&mut dir, &mut storage, &make_snapshot(6, 2, b"state@6"))
        .unwrap();
    assert!(matches!(
        install_snapshot(&mut dir, &mut storage, &make_snapshot(5, 2, b"state@5")),
        Err(StorageError::Unrecoverable(_))
    ));
    assert_eq!(storage.last_index(), 6);
}

#[test]
fn corrupt_newest_snapshot_falls_back_to_the_previous_one() {
    let mut dir = Dir::default();
    let opts = test_opts();
    {
        let mut storage = open(&mut dir, &opts).unwrap();
        append(
            &mut dir,
            &mut storage,
            vec![
                make_entry(1, 1, b"a"),
                make_entry(2, 1, b"b"),
                make_entry(3, 1, b"c"),
            ],
        )
        .unwrap();
        sync(&mut dir, &mut storage);
        save_snapshot(&mut dir, &mut storage, &make_snapshot(1, 1, b"state@1"));
        save_snapshot(&mut dir, &mut storage, &make_snapshot(3, 1, b"state@3"));
    }
    let mut bytes = dir.snapshots[&(3, 1)].clone();
    let last = bytes.len() - 1;
    bytes[last] ^= 0xFF;
    dir.snapshots.insert((3, 1), bytes);

    let mut storage = open(&mut dir, &opts).unwrap();
    let snapshot = storage.snapshot().expect("falls back");
    assert_eq!(snapshot.meta.index, 1);
    assert_eq!(snapshot.data, b"state@1");
    compact(&mut dir, &mut storage, 1).unwrap();
    assert_eq!(storage.first_index(), 2);
}

#[test]
fn entries_bounds_semantics() {
    let mut dir = Dir::default();
    let opts = test_opts();
    let mut storage = open(&mut dir, &opts).unwrap();
    append(
        &mut dir,
        &mut storage,
        vec![
            make_entry(1, 1, b"a"),
            make_entry(2, 1, b"b"),
            make_entry(3, 1, b"c"),
        ],
    )
    .unwrap();
    sync(&mut dir, &mut storage);
    assert_eq!(storage.entries(1, 4, None).unwrap().len(), 3);
    assert_eq!(storage.entries(2, 4, None).unwrap().len(), 2);
    assert!(storage.entries(2, 2, None).unwrap().is_empty());
    assert!(matches!(storage.entries(0, 2, None), Err(StorageError::Compacted)));
    assert!(matches!(storage.entries(1, 5, None), Err(StorageError::Compacted)));
}

#[test]
fn term_bounds_semantics() {
    let mut dir = Dir::default();
    let opts = test_opts();
    let mut storage = open(&mut dir, &opts).unwrap();
    append(
        &mut dir,
        &mut storage,
        vec![
            make_entry(1, 7, b"a"),
            make_entry(2, 9, b"b"),
        ],
    )
    .unwrap();
    sync(&mut dir, &mut storage);
    assert_eq!(storage.term(1).unwrap(), 7);
    assert_eq!(storage.term(2).unwrap(), 9);
    assert!(matches!(storage.term(0), Err(StorageError::Compacted)));
    assert!(matches!(storage.term(3), Err(StorageError::Compacted)));
}

#[test]
fn dir_fsyncs_counts_segment_creation() {
    let mut dir = Dir::default();
    let opts = test_opts_with_segment_bytes(80);
    let mut storage = open(&mut dir, &opts).unwrap();
    assert_eq!(
        storage.stats().dir_fsyncs, 2,
        "fresh dir: META + initial segment = 2 dir fsyncs, got {}",
        storage.stats().dir_fsyncs
    );
    let before_rollover = storage.stats().dir_fsyncs;
    for i in 1..=6u64 {
        append(&mut dir, &mut storage, vec![make_entry(i, 1, &[b'x'; 4])]).unwrap();
    }
    sync(&mut dir, &mut storage);
    assert!(
        storage.stats().dir_fsyncs > before_rollover,
        "expected dir_fsyncs > {before_rollover} after rollover, got {}",
        storage.stats().dir_fsyncs
    );
}

#[test]
fn straddling_rollover_durability() {
    let mut dir = Dir::default();
    let opts = test_opts_with_segment_bytes(60);
    {
        let mut storage = open(&mut dir, &opts).unwrap();
        append(
            &mut dir,
            &mut storage,
            vec![
                make_entry(1, 1, b"aaaa"),
                make_entry(2, 1, b"bbbb"),
                make_entry(3, 1, b"cccc"),
                make_entry(4, 1, b"dddd"),
            ],
        )
        .unwrap();
        sync(&mut dir, &mut storage);
        assert_eq!(
            storage.stats().entry_fsyncs,
            2,
            "expected a rollover fsync AND a barrier fsync"
        );
    }
    let storage = open(&mut dir, &opts).unwrap();
    assert_eq!(storage.first_index(), 1);
    assert_eq!(storage.last_index(), 4);
    let entries = storage.entries(1, 5, None).unwrap();
    assert_eq!(entries.len(), 4);
    assert_eq!(entries[0].data, b"aaaa");
    assert_eq!(entries[1].data, b"bbbb");
    assert_eq!(entries[2].data, b"cccc");
    assert_eq!(entries[3].data, b"dddd");
}

#[test]
fn meta_only_dir_reopens_as_empty_log() {
    let mut dir = Dir::default();
    let opts = test_opts();
    {
        let _storage = open(&mut dir, &opts).unwrap();
    }
    dir.segments.clear();
    let storage = open(&mut dir, &opts).unwrap();
    assert_eq!(storage.first_index(), 1);
    assert_eq!(storage.last_index(), 0);
    assert!(matches!(
        storage.entries(1, 2, None),
        Err(StorageError::Compacted)
    ));
}

#[test]
fn recovery_failstart_tear_within_commit_window() {
    let mut dir = Dir::default();
    let opts = test_opts();
    {
        let mut storage = open(&mut dir, &opts).unwrap();
        append(
            &mut dir,
            &mut storage,
            vec![
                make_entry(1, 1, b"a"),
                make_entry(2, 1, b"b"),
            ],
        )
        .unwrap();
        sync(&mut dir, &mut storage);
        set_hard_state(&mut dir, &mut storage, HardState { term: 1, vote: Some(1), commit: 2 });
        append(&mut dir, &mut storage, vec![make_entry(3, 1, b"c")]).unwrap();
        sync(&mut dir, &mut storage);
    }
    let buf = dir.segments[&1].clone();
    let truncated_len = 27 + 27 + 34 + 5;
    let mut truncated = buf;
    truncated.truncate(truncated_len);
    dir.segments.insert(1, truncated);

    match open(&mut dir, &opts) {
        Err(StorageError::Unrecoverable(_)) => {}
        Err(e) => panic!("expected Unrecoverable, got: {e:?}"),
        Ok(_) => panic!("expected fail-start, got Ok"),
    }
}

#[test]
fn recovery_failstart_malformed_non_last_segment() {
    let mut dir = Dir::default();
    let opts = test_opts_with_segment_bytes(80);
    {
        let mut storage = open(&mut dir, &opts).unwrap();
        for i in 1..=6u64 {
            append(&mut dir, &mut storage, vec![make_entry(i, 1, &[b'x'; 4])]).unwrap();
        }
        sync(&mut dir, &mut storage);
        set_hard_state(&mut dir, &mut storage, HardState { term: 1, vote: Some(1), commit: 6 });
    }
    let segs: Vec<u64> = dir.segment_indices();
    assert!(
        segs.len() >= 2,
        "expected >= 2 segments for this test, got {}",
        segs.len()
    );
    let mut buf = dir.segments[&segs[0]].clone();
    buf[10] ^= 0xFF;
    dir.segments.insert(segs[0], buf);

    match open(&mut dir, &opts) {
        Err(StorageError::Unrecoverable(_)) => {}
        Err(e) => panic!("expected Unrecoverable for non-last segment corruption, got: {e:?}"),
        Ok(_) => panic!("expected fail-start, got Ok"),
    }
}
#[test]
fn force_recovery_discards_uncommitted_tail_and_rotates_cluster_id() {
    let mut dir = Dir::default();
    let opts = test_opts();
    {
        let mut wal = open(&mut dir, &opts).unwrap();
        append(
            &mut dir,
            &mut wal,
            vec![
                make_entry(1, 1, b"a"),
                make_entry(2, 1, b"b"),
                make_entry(3, 1, b"c"),
            ],
        )
        .unwrap();
        set_hard_state(&mut dir, &mut wal, HardState { term: 0, vote: None, commit: 2 });
        sync(&mut dir, &mut wal);
    }

    let report = force_recovery(
        &mut dir,
        "node-1",
        Some("recovered-cluster".into()),
        WalConfig::default(),
        1_700_000_000_000,
    )
    .expect("force-recovery must succeed");

    assert_eq!(report.previous_cluster_id, "test-cluster");
    assert_eq!(report.cluster_id, "recovered-cluster");
    assert_eq!(report.term, 1, "term must be bumped by one");
    assert_eq!(report.commit, 2, "commit must be kept (== applied)");
    assert_eq!(report.discarded_entries, 1, "entry 3 must be discarded");
    let mut new_opts = opts.clone();
    new_opts.cluster_id = "recovered-cluster".into();
    let wal = open(&mut dir, &new_opts).expect("reopen with new cluster id");
    assert_eq!(wal.last_index(), 2, "uncommitted tail must be gone");
    let hs = wal.initial_state().hard_state;
    assert_eq!(hs.term, 1);
    assert_eq!(hs.vote, Some(1), "force-recovery votes for self");
    assert_eq!(hs.commit, 2);
    match open(&mut dir, &opts) {
        Err(StorageError::Unrecoverable(_)) => {}
        Err(e) => panic!("expected a META mismatch with the old cluster id, got error: {e:?}"),
        Ok(_) => panic!("expected a META mismatch with the old cluster id, got Ok"),
    }
}
#[test]
fn force_recovery_keeps_the_cluster_id_when_not_rotating() {
    let mut dir = Dir::default();
    let opts = test_opts();
    {
        let mut wal = open(&mut dir, &opts).unwrap();
        append(&mut dir, &mut wal, vec![make_entry(1, 1, b"a")]).unwrap();
        set_hard_state(&mut dir, &mut wal, HardState { term: 3, vote: Some(2), commit: 1 });
        sync(&mut dir, &mut wal);
    }

    let report = force_recovery(
        &mut dir,
        "node-1",
        None,
        WalConfig::default(),
        1_700_000_000_000,
    )
    .expect("force-recovery must succeed");
    assert_eq!(report.cluster_id, "test-cluster");
    assert_eq!(report.discarded_entries, 0, "a fully committed log is untouched");
    assert_eq!(report.term, 4);

    let wal = open(&mut dir, &opts).expect("reopen");
    assert_eq!(wal.last_index(), 1);
    let hs = wal.initial_state().hard_state;
    assert_eq!(hs.term, 4);
    assert_eq!(hs.vote, Some(1), "the vote is reset to self");
    assert_eq!(hs.commit, 1);
}
#[test]
fn force_recovery_with_zero_commit_discards_every_entry() {
    let mut dir = Dir::default();
    let opts = test_opts();
    {
        let mut wal = open(&mut dir, &opts).unwrap();
        append(
            &mut dir,
            &mut wal,
            vec![
                make_entry(1, 5, b"x"),
                make_entry(2, 5, b"y"),
            ],
        )
        .unwrap();
        sync(&mut dir, &mut wal);
    }

    let report = force_recovery(
        &mut dir,
        "node-1",
        None,
        WalConfig::default(),
        1_700_000_000_000,
    )
    .expect("force-recovery must succeed");
    assert_eq!(report.commit, 0);
    assert_eq!(report.discarded_entries, 2);

    let wal = open(&mut dir, &opts).expect("reopen");
    assert_eq!(wal.last_index(), 0, "the log must be empty");
    let hs = wal.initial_state().hard_state;
    assert_eq!(hs.commit, 0);
    drop(wal);
    let mut wal = open(&mut dir, &test_opts()).expect("reopen for append");
    append(&mut dir, &mut wal, vec![make_entry(1, 6, b"z")]).unwrap();
    sync(&mut dir, &mut wal);
    assert_eq!(wal.last_index(), 1);
}
#[test]
fn force_recovery_refuses_a_node_id_mismatch() {
    let mut dir = Dir::default();
    let opts = test_opts();
    drop(open(&mut dir, &opts).unwrap());

    match force_recovery(
        &mut dir,
        "someone-else",
        None,
        WalConfig::default(),
        1_700_000_000_000,
    ) {
        Err(StorageError::Unrecoverable(fault)) => {
            let detail = fault.message();
            assert!(detail.contains("does not match"), "unexpected detail: {detail}");
        }
        Err(e) => panic!("expected a node_id mismatch, got error: {e:?}"),
        Ok(_) => panic!("expected a node_id mismatch, got Ok"),
    }
}
#[test]
fn append_overwrites_a_conflicting_suffix() {
    let mut dir = Dir::default();
    let opts = test_opts();
    {
        let mut wal = open(&mut dir, &opts).unwrap();
        append(
            &mut dir,
            &mut wal,
            vec![
                make_entry(1, 1, b"a"),
                make_entry(2, 1, b"b"),
                make_entry(3, 1, b"c"),
            ],
        )
        .unwrap();
        sync(&mut dir, &mut wal);
    }
    {
        let mut wal = open(&mut dir, &opts).unwrap();
        append(
            &mut dir,
            &mut wal,
            vec![
                make_entry(2, 2, b"B"),
                make_entry(3, 2, b"C"),
            ],
        )
        .unwrap();
        sync(&mut dir, &mut wal);
        let got = wal.entries(1, 4, None).unwrap();
        let idx_term: Vec<(u64, u64)> = got.iter().map(|e| (e.index, e.term)).collect();
        assert_eq!(idx_term, vec![(1, 1), (2, 2), (3, 2)]);
        let data: Vec<&[u8]> = got.iter().map(|e| e.data.as_slice()).collect();
        assert_eq!(data, vec![b"a".as_slice(), b"B", b"C"]);
    }
    let wal = open(&mut dir, &opts).unwrap();
    let got = wal.entries(1, 4, None).unwrap();
    let idx_term: Vec<(u64, u64)> = got.iter().map(|e| (e.index, e.term)).collect();
    assert_eq!(idx_term, vec![(1, 1), (2, 2), (3, 2)]);
}
#[test]
fn append_overwrites_from_index_one() {
    let mut dir = Dir::default();
    let opts = test_opts();
    let mut wal = open(&mut dir, &opts).unwrap();
    append(
        &mut dir,
        &mut wal,
        vec![
            make_entry(1, 1, b"a"),
            make_entry(2, 1, b"b"),
        ],
    )
    .unwrap();
    append(&mut dir, &mut wal, vec![make_entry(1, 2, b"A")]).unwrap();
    sync(&mut dir, &mut wal);
    let got = wal.entries(1, 2, None).unwrap();
    assert_eq!(got.len(), 1, "the conflicting suffix must be discarded");
    assert_eq!(
        (got[0].index, got[0].term, got[0].data.as_slice()),
        (1, 2, b"A".as_slice())
    );
    drop(wal);
    let wal = open(&mut dir, &opts).unwrap();
    assert_eq!(wal.last_index(), 1);
}
#[test]
fn append_refuses_to_overwrite_committed_entries() {
    let mut dir = Dir::default();
    let opts = test_opts();
    let mut wal = open(&mut dir, &opts).unwrap();
    append(
        &mut dir,
        &mut wal,
        vec![
            make_entry(1, 1, b"a"),
            make_entry(2, 1, b"b"),
        ],
    )
    .unwrap();
    set_hard_state(&mut dir, &mut wal, HardState { term: 1, vote: None, commit: 2 });
    match append(&mut dir, &mut wal, vec![make_entry(2, 2, b"B")]) {
        Err(StorageError::Unrecoverable(fault)) => {
            let detail = fault.message();
            assert!(detail.contains("committed"), "unexpected detail: {detail}");
        }
        other => {
            panic!("expected a fail-stop on overwriting committed entries, got {other:?}")
        }
    }
}

fn fault(result: Result<(), StorageError>) -> Fault {
    match result {
        Err(StorageError::Unrecoverable(fault)) => fault,
        other => panic!("expected a fault, got {other:?}"),
    }
}

#[test]
fn syncs_are_reported_with_the_highest_entry() {
    let mut dir = Dir::default();
    let mut wal = open(&mut dir, &test_opts()).unwrap();
    append(&mut dir, &mut wal, vec![make_entry(1, 1, b"a"), make_entry(2, 1, b"b")]).unwrap();
    sync(&mut dir, &mut wal);
    assert_eq!(dir.synced, [(1, 2)]);
}

#[test]
fn a_faulty_append_is_named() {
    let mut dir = Dir::default();
    let mut wal = open(&mut dir, &test_opts()).unwrap();
    assert_eq!(
        fault(append(&mut dir, &mut wal, vec![make_entry(3, 1, b"c")])),
        Fault::AppendGap { last: 0, found: 3 }
    );
    assert_eq!(
        fault(append(&mut dir, &mut wal, vec![make_entry(1, 1, b"a"), make_entry(3, 1, b"c")])),
        Fault::AppendGap { last: 1, found: 3 }
    );
    assert_eq!(wal.last_index(), 1);
    save_snapshot(&mut dir, &mut wal, &make_snapshot(1, 1, b"s"));
    compact(&mut dir, &mut wal, 1).unwrap();
    assert_eq!(
        fault(append(&mut dir, &mut wal, vec![make_entry(1, 2, b"A")])),
        Fault::AppendCompacted {
            index: 1,
            compacted_to: 1
        }
    );
}

#[test]
fn an_installed_snapshot_at_the_watermark_changes_nothing() {
    let mut dir = Dir::default();
    let mut wal = open(&mut dir, &test_opts()).unwrap();
    let snapshot = make_snapshot(6, 2, b"s");
    install_snapshot(&mut dir, &mut wal, &snapshot).unwrap();
    let before = dir.segments.clone();
    install_snapshot(&mut dir, &mut wal, &snapshot).unwrap();
    assert_eq!(dir.segments, before);
    assert_eq!(
        fault(install_snapshot(&mut dir, &mut wal, &make_snapshot(5, 2, b"s"))),
        Fault::StaleSnapshot {
            index: 5,
            compacted_to: 6
        }
    );
}

#[test]
fn a_missing_snapshot_is_fatal_once_the_log_is_cut() {
    let mut dir = Dir::default();
    let opts = test_opts_with_segment_bytes(1);
    let mut wal = open(&mut dir, &opts).unwrap();
    for index in 1..=4 {
        append(&mut dir, &mut wal, vec![make_entry(index, 1, b"x")]).unwrap();
    }
    save_snapshot(&mut dir, &mut wal, &make_snapshot(3, 1, b"s"));
    compact(&mut dir, &mut wal, 3).unwrap();
    dir.snapshots.clear();
    match open(&mut dir, &opts) {
        Err(StorageError::Unrecoverable(fault)) => {
            assert_eq!(
                fault,
                Fault::SnapshotMissing {
                    snapshot_index: 3,
                    first: 4
                }
            );
            assert_eq!(
                fault.message(),
                "META names a snapshot at index 3 but no valid snapshot file could be \
                 loaded and the WAL starts at index 4"
            );
        }
        other => panic!("expected a fault, got {:?}", other.err()),
    }
}

#[test]
fn a_size_limit_cuts_the_range() {
    let mut dir = Dir::default();
    let mut wal = open(&mut dir, &test_opts()).unwrap();
    append(
        &mut dir,
        &mut wal,
        vec![
            make_entry(1, 1, &[b'x'; 100]),
            make_entry(2, 1, &[b'x'; 100]),
            make_entry(3, 1, &[b'x'; 100]),
        ],
    )
    .unwrap();
    assert_eq!(wal.entries(1, 4, Some(99)).unwrap().len(), 0);
    assert_eq!(wal.entries(1, 4, Some(100)).unwrap().len(), 1);
    assert_eq!(wal.entries(1, 4, Some(299)).unwrap().len(), 2);
    assert_eq!(wal.entries(1, 4, Some(u64::MAX)).unwrap().len(), 3);
}

#[test]
fn log_bytes_is_the_sum_of_the_segments() {
    assert_eq!(WalStorage::log_bytes(&vec![]), 0);
    assert_eq!(WalStorage::log_bytes(&vec![3, 4, 5]), 12);
    assert_eq!(WalStorage::log_bytes(&vec![u64::MAX, 1]), u64::MAX);
}

#[test]
fn a_recovery_rewrite_is_refused_without_an_identity() {
    let mut dir = Dir::default();
    let config = WalConfig::default();
    assert_eq!(
        force_recovery(&mut dir, "node-1", None, config, 0).unwrap_err(),
        StorageError::Unrecoverable(Fault::MetaMissing)
    );
    open(&mut dir, &test_opts()).unwrap();
    assert_eq!(
        force_recovery(&mut dir, "node-1", Some(String::new()), config, 0).unwrap_err(),
        StorageError::Unrecoverable(Fault::EmptyClusterId)
    );
    let meta = decode_meta(&dir.meta.unwrap()).unwrap();
    assert_eq!(meta.cluster_id, "test-cluster");
    assert_eq!(meta.created_at, 1_700_000_000_000);
}

#[test]
fn every_entry_type_survives_a_reopen() {
    let mut dir = Dir::default();
    let mut wal = open(&mut dir, &test_opts()).unwrap();
    let mut entries = vec![make_entry(1, 1, b"a"), make_entry(2, 1, b"b"), make_entry(3, 1, b"")];
    entries[1].entry_type = EntryType::ConfChange;
    entries[2].entry_type = EntryType::ConfChangeV2;
    append(&mut dir, &mut wal, entries.clone()).unwrap();
    let wal = open(&mut dir, &test_opts()).unwrap();
    assert_eq!(wal.entries(1, 4, None).unwrap(), entries);
}

#[test]
fn a_log_cut_back_to_its_snapshot_starts_over_in_segment_one() {
    let mut dir = Dir::default();
    let mut wal = open(&mut dir, &test_opts()).unwrap();
    install_snapshot(&mut dir, &mut wal, &make_snapshot(3, 1, b"state@3")).unwrap();
    append(&mut dir, &mut wal, vec![make_entry(4, 1, b"old"), make_entry(5, 1, b"old")]).unwrap();
    assert_eq!(dir.segment_indices(), vec![4]);
    append(&mut dir, &mut wal, vec![make_entry(4, 2, b"new")]).unwrap();
    assert_eq!(dir.segment_indices(), vec![1]);
    let wal = open(&mut dir, &test_opts()).unwrap();
    assert_eq!((wal.first_index(), wal.last_index()), (4, 4));
    assert_eq!(wal.entries(4, 5, None).unwrap(), vec![make_entry(4, 2, b"new")]);
}

#[test]
fn a_directory_without_segments_gets_segment_one() {
    let mut dir = Dir::default();
    let mut wal = open(&mut dir, &test_opts()).unwrap();
    install_snapshot(&mut dir, &mut wal, &make_snapshot(3, 1, b"state@3")).unwrap();
    dir.segments.clear();
    let wal = open(&mut dir, &test_opts()).unwrap();
    assert_eq!(dir.segment_indices(), vec![1]);
    assert_eq!((wal.first_index(), wal.last_index()), (4, 3));
}

const VOTED: HardState = HardState {
    term: 5,
    vote: Some(2),
    commit: 0,
};

/// Performs the operations one by one, and asks after each that a reopening
/// still finds the vote.
fn perform_with_crashes(dir: &mut Dir, ops: Vec<DiskOp>) {
    for op in ops {
        dir.perform(vec![op]);
        let mut after = Dir {
            segments: dir.segments.clone(),
            snapshots: dir.snapshots.clone(),
            meta: dir.meta.clone(),
            synced: vec![],
        };
        let wal = open(&mut after, &test_opts()).unwrap();
        assert_eq!(wal.hard_state(), VOTED);
    }
}

#[test]
fn a_vote_survives_an_installed_snapshot() {
    let mut dir = Dir::default();
    let mut wal = open(&mut dir, &test_opts()).unwrap();
    set_hard_state(&mut dir, &mut wal, VOTED);
    let (ops, result) = wal.install_snapshot(
        &make_snapshot(8, 5, b"x"),
        &dir.snapshot_names(),
        &dir.segment_files(),
    );
    result.unwrap();
    perform_with_crashes(&mut dir, ops);
    assert_eq!((wal.first_index(), wal.last_index()), (9, 8));
    let wal = open(&mut dir, &test_opts()).unwrap();
    assert_eq!(wal.initial_state().hard_state, VOTED);
    assert_eq!((wal.first_index(), wal.last_index()), (9, 8));
}

#[test]
fn a_vote_behind_the_cut_survives_it() {
    let mut dir = Dir::default();
    let mut wal = open(&mut dir, &test_opts()).unwrap();
    append(&mut dir, &mut wal, vec![make_entry(1, 1, b"a"), make_entry(2, 1, b"b")]).unwrap();
    set_hard_state(&mut dir, &mut wal, VOTED);
    let (ops, result) = wal.append(&vec![make_entry(2, 5, b"c")], &dir.segment_files());
    result.unwrap();
    perform_with_crashes(&mut dir, ops);
    let wal = open(&mut dir, &test_opts()).unwrap();
    assert_eq!(wal.hard_state(), VOTED);
    assert_eq!(wal.entries(1, 3, None).unwrap()[1].data, b"c");
}

#[test]
fn a_vote_survives_when_every_entry_is_cut() {
    let mut dir = Dir::default();
    let mut wal = open(&mut dir, &test_opts()).unwrap();
    append(&mut dir, &mut wal, vec![make_entry(1, 1, b"a")]).unwrap();
    set_hard_state(&mut dir, &mut wal, VOTED);
    append(&mut dir, &mut wal, vec![make_entry(1, 5, b"b")]).unwrap();
    let wal = open(&mut dir, &test_opts()).unwrap();
    assert_eq!(wal.hard_state(), VOTED);
    assert_eq!(wal.entries(1, 2, None).unwrap(), vec![make_entry(1, 5, b"b")]);
}

#[test]
fn a_vote_in_a_compacted_segment_survives() {
    let mut dir = Dir::default();
    let opts = test_opts_with_segment_bytes(1);
    let mut wal = open(&mut dir, &opts).unwrap();
    set_hard_state(&mut dir, &mut wal, VOTED);
    for index in 1..=4 {
        append(&mut dir, &mut wal, vec![make_entry(index, 5, b"x")]).unwrap();
    }
    save_snapshot(&mut dir, &mut wal, &make_snapshot(3, 5, b"state@3"));
    let before = dir.segment_indices().len();
    let (ops, result) = wal.compact(3, &dir.segment_files());
    result.unwrap();
    perform_with_crashes(&mut dir, ops);
    assert!(dir.segment_indices().len() < before);
    assert_eq!(open(&mut dir, &opts).unwrap().hard_state(), VOTED);
}

#[test]
fn what_a_cycle_persists_is_read_back() {
    let mut dir = Dir::default();
    let mut store = RaftStorage::new(open(&mut dir, &test_opts()).unwrap());
    let hs = HardState {
        term: 3,
        vote: Some(2),
        commit: 1,
    };
    let entries = vec![make_entry(1, 3, b"a"), make_entry(2, 3, b"b")];
    let (ops, result) = store.persist_ready_records(&entries, Some(hs.clone()), &vec![]);
    dir.perform(ops);
    result.unwrap();
    // A conflicting suffix.
    let newer = vec![make_entry(2, 4, b"B")];
    let (ops, result) = store.persist_ready_records(&newer, Some(hs.clone()), &dir.segment_files());
    dir.perform(ops);
    result.unwrap();

    let wal = open(&mut dir, &test_opts()).unwrap();
    let terms: Vec<u64> = wal.entries(1, 3, None).unwrap().iter().map(|e| e.term).collect();
    assert_eq!(terms, [3, 4]);
    assert_eq!(wal.initial_state().hard_state, hs);
}

#[test]
fn a_snapshot_is_durable_before_the_log_is_released() {
    let mut dir = Dir::default();
    let mut store = RaftStorage::new(open(&mut dir, &test_opts_with_segment_bytes(1)).unwrap());
    for index in 1..=4 {
        let (ops, result) =
            store.persist_ready_records(&vec![make_entry(index, 1, b"x")], None, &vec![]);
        dir.perform(ops);
        result.unwrap();
    }
    let (ops, result) = store.create_snapshot(
        &make_snapshot(3, 1, b"state"),
        &dir.snapshot_names(),
        &dir.segment_files(),
    );
    result.unwrap();
    assert!(matches!(ops[0], DiskOp::SaveSnapshot { index: 3, .. }));
    assert!(matches!(ops[1], DiskOp::SaveMeta { .. }));
    let first_removal = ops
        .iter()
        .position(|op| matches!(op, DiskOp::RemoveSegment { .. }));
    assert!(first_removal.is_some_and(|k| k > 1));
    dir.perform(ops);
    assert_eq!(dir.segment_indices(), [4]);
}

#[test]
fn faults_are_described() {
    for (fault, text) in [
        (
            Fault::FormatVersionMismatch { version: 7 },
            "META format_version mismatch: expected 1, got 7",
        ),
        (
            Fault::RecordTooLarge {
                index: 3,
                size: 70_000_000,
            },
            "entry at index 3 produces a record of 70000000 bytes, exceeding \
             MAX_RECORD_BYTES (67108864)",
        ),
        (
            Fault::EmptyClusterId,
            "force-recovery: cluster_id must be non-empty",
        ),
        (
            Fault::IndexGap { last: 4, found: 9 },
            "log index gap: expected 5, got 9",
        ),
        (
            Fault::AppendGap { last: 4, found: 9 },
            "append continuity violation: expected 5, got 9",
        ),
        (
            Fault::AppendGap {
                last: u64::MAX,
                found: 9,
            },
            "append continuity violation: expected none, got 9",
        ),
        (Fault::NodeIdMismatch, "META node_id mismatch"),
        (
            Fault::RewriteNodeIdMismatch,
            "force-recovery: data dir node_id does not match",
        ),
    ] {
        assert_eq!(fault.message(), text);
    }
}
