//! The protection pipeline end to end: checker verdicts, repair runs, the
//! status guard and the debouncer.

use rs_guard::checker::run_check;
use rs_guard::checksum::checksum;
use rs_guard::codec::RSEncoder;
use rs_guard::chunking::split;
use rs_guard::ingest::Debouncer;
use rs_guard::metadata::ChunkRecord;
use rs_guard::repair::run_repair;
use rs_guard::status::{AppStatus, ServiceStatus};
use rs_guard::GuardError;

fn sample_data(len: usize) -> Vec<u8> {
    (0..len).map(|i| ((i * 31 + 7) % 256) as u8).collect()
}

/// Encodes one file into per-chunk records and shard sets.
fn protect(
    path: &[u8],
    data: &[u8],
    chunk_size: usize,
    n: usize,
    m: usize,
) -> (Vec<ChunkRecord>, Vec<Vec<Vec<u8>>>) {
    let enc = RSEncoder::new(n, m).unwrap();
    let mut records = Vec::new();
    let mut shard_sets = Vec::new();
    for (idx, chunk) in split(data, chunk_size).into_iter().enumerate() {
        let shards = enc.encode(&chunk).unwrap();
        let sums: Vec<u64> = shards.iter().map(|s| checksum(s)).collect();
        records.push(ChunkRecord {
            file_path: path.to_vec(),
            chunk_index: idx as u64,
            original_length: chunk.len() as u64,
            data_shards: n as u64,
            parity_shards: m as u64,
            shard_checksums: sums,
        });
        shard_sets.push(shards);
    }
    (records, shard_sets)
}

fn observe_all(shard_sets: &[Vec<Vec<u8>>]) -> Vec<Vec<Option<Vec<u8>>>> {
    shard_sets
        .iter()
        .map(|set| set.iter().map(|s| Some(s.clone())).collect())
        .collect()
}

#[test]
fn checksum_known_values() {
    assert_eq!(checksum(b""), 0xcbf29ce484222325);
    assert_eq!(checksum(b"a"), 0xaf63dc4c8601ec8c);
    assert_eq!(checksum(b"hello"), 0xa430d84680aabd0b);
}

#[test]
fn corruption_detection_single_byte_flip() {
    // flipping any single byte in any one shard changes that shard's
    // checksum and yields exactly one repair task for the chunk
    let (records, shard_sets) = protect(b"data/file.bin", &sample_data(5000), 2048, 4, 2);
    for shard in 0..6usize {
        let mut observed = observe_all(&shard_sets);
        let victim = observed[1][shard].as_mut().unwrap();
        let pos = victim.len() / 2;
        let old_sum = checksum(victim);
        victim[pos] ^= 0x01;
        assert_ne!(checksum(observed[1][shard].as_ref().unwrap()), old_sum);

        let mut status = AppStatus::default();
        let report = run_check(&mut status, &records, &observed).unwrap();
        assert_eq!(report.checked_chunks, records.len() as u64);
        assert_eq!(report.corrupted_chunks, 1);
        assert_eq!(report.unrecoverable_chunks, 0);
        assert_eq!(report.tasks.len(), 1);
        assert_eq!(report.tasks[0].file_path, b"data/file.bin".to_vec());
        assert_eq!(report.tasks[0].chunk_index, 1);
        assert_eq!(report.tasks[0].bad_shards, vec![shard]);
    }
}

#[test]
fn check_is_idempotent() {
    let (records, shard_sets) = protect(b"data/file.bin", &sample_data(9000), 2048, 4, 2);
    let mut observed = observe_all(&shard_sets);
    observed[2][0] = None;
    observed[3][4].as_mut().unwrap()[0] ^= 0xff;

    let mut status = AppStatus::default();
    let first = run_check(&mut status, &records, &observed).unwrap();
    let second = run_check(&mut status, &records, &observed).unwrap();
    assert_eq!(first.checked_chunks, second.checked_chunks);
    assert_eq!(first.corrupted_chunks, second.corrupted_chunks);
    assert_eq!(first.unrecoverable_chunks, second.unrecoverable_chunks);
    assert_eq!(first.tasks.len(), second.tasks.len());
    for (a, b) in first.tasks.iter().zip(second.tasks.iter()) {
        assert_eq!(a.file_path, b.file_path);
        assert_eq!(a.chunk_index, b.chunk_index);
        assert_eq!(a.bad_shards, b.bad_shards);
    }
}

#[test]
fn ten_megabyte_file_two_lost_shards_are_repaired() {
    // a 10 MB file, N=4, M=2: two shards of one chunk vanish from disk;
    // the check reports the chunk, the repair restores both shards and the
    // re-verified checksums match the originals
    let data = sample_data(10 * 1024 * 1024);
    let (records, shard_sets) = protect(b"data/big.bin", &data, 1024 * 1024, 4, 2);
    assert_eq!(records.len(), 10);
    let mut observed = observe_all(&shard_sets);
    observed[4][1] = None;
    observed[4][5] = None;

    let mut status = AppStatus::default();
    let report = run_check(&mut status, &records, &observed).unwrap();
    assert_eq!(report.corrupted_chunks, 1);
    assert_eq!(report.unrecoverable_chunks, 0);
    assert_eq!(report.tasks.len(), 1);
    assert_eq!(report.tasks[0].chunk_index, 4);
    assert_eq!(report.tasks[0].bad_shards, vec![1, 5]);

    let items: Vec<(ChunkRecord, Vec<Option<Vec<u8>>>)> = report
        .tasks
        .iter()
        .map(|t| {
            let idx = t.chunk_index as usize;
            (records[idx].clone(), observed[idx].clone())
        })
        .collect();
    let rep = run_repair(&mut status, &items).unwrap();
    assert_eq!(rep.attempted, 1);
    assert_eq!(rep.repaired.len(), 1);
    assert_eq!(rep.failed.len(), 0);
    let fixed = &rep.repaired[0];
    assert_eq!(fixed.chunk_index, 4);
    assert_eq!(fixed.shards.len(), 6);
    for (i, s) in fixed.shards.iter().enumerate() {
        assert_eq!(s, &shard_sets[4][i], "shard {} must be restored byte for byte", i);
        assert_eq!(checksum(s), records[4].shard_checksums[i]);
    }
    let off = 4 * 1024 * 1024;
    assert_eq!(fixed.chunk_data, data[off..off + 1024 * 1024].to_vec());
    assert_eq!(status.status, ServiceStatus::Idle);
}

#[test]
fn three_lost_shards_are_unrecoverable_and_not_retried() {
    // N=4, M=2: three shards of one chunk are gone; the check marks the
    // chunk unrecoverable and the repair reports the task as failed
    let data = sample_data(256 * 1024);
    let (records, shard_sets) = protect(b"data/doomed.bin", &data, 64 * 1024, 4, 2);
    let mut observed = observe_all(&shard_sets);
    observed[2][0] = None;
    observed[2][3] = None;
    observed[2][5] = None;

    let mut status = AppStatus::default();
    let report = run_check(&mut status, &records, &observed).unwrap();
    assert_eq!(report.corrupted_chunks, 1);
    assert_eq!(report.unrecoverable_chunks, 1);
    assert_eq!(report.tasks.len(), 0, "an unrecoverable chunk is not queued for repair");

    let items = vec![(records[2].clone(), observed[2].clone())];
    let rep = run_repair(&mut status, &items).unwrap();
    assert_eq!(rep.attempted, 1);
    assert_eq!(rep.repaired.len(), 0);
    assert_eq!(rep.failed.len(), 1);
    assert_eq!(rep.failed[0].chunk_index, 2);
    assert_eq!(rep.failed[0].bad_shards, vec![0, 3, 5]);
}

#[test]
fn repair_detects_poisoned_record() {
    // a present shard was corrupted and its recorded checksum forged to
    // match, so reconstruction produces a shard set that no longer verifies
    let (mut records, shard_sets) = protect(b"data/poison.bin", &sample_data(4096), 4096, 4, 2);
    let mut observed = observe_all(&shard_sets);
    let bad = observed[0][2].as_mut().unwrap();
    bad[0] ^= 0x55;
    records[0].shard_checksums[2] = checksum(bad);
    observed[0][4] = None;

    let mut status = AppStatus::default();
    let items = vec![(records[0].clone(), observed[0].clone())];
    let rep = run_repair(&mut status, &items).unwrap();
    assert_eq!(rep.repaired.len(), 0);
    assert_eq!(rep.failed.len(), 1);
}

#[test]
fn guard_serializes_check_and_repair() {
    // starting a repair while a check is active is rejected, not interleaved
    let mut status = AppStatus::default();
    assert_eq!(status.status, ServiceStatus::Idle);
    assert!(status.try_begin_check());
    assert_eq!(status.status, ServiceStatus::Checking);
    assert!(!status.try_begin_repair());
    assert_eq!(status.status, ServiceStatus::Checking, "a rejected trigger changes nothing");
    assert!(!status.try_begin_check());
    status.finish();
    assert_eq!(status.status, ServiceStatus::Idle);
    assert!(status.try_begin_repair());
    assert_eq!(status.status, ServiceStatus::Repairing);
    assert!(!status.try_begin_check());
    status.finish();

    // a run_check started while another operation holds the guard is rejected with
    // OperationInProgress and leaves the status untouched
    assert!(status.try_begin_repair());
    let records: Vec<ChunkRecord> = Vec::new();
    let observed: Vec<Vec<Option<Vec<u8>>>> = Vec::new();
    let r = run_check(&mut status, &records, &observed);
    assert!(matches!(r, Err(GuardError::OperationInProgress)));
    assert_eq!(status.status, ServiceStatus::Repairing);
}

#[test]
fn guard_reports_failure_mode() {
    let mut status = AppStatus::default();
    assert!(status.try_begin_check());
    status.fail(GuardError::Io);
    assert_eq!(status.status, ServiceStatus::Error(GuardError::Io));
    assert!(!status.try_begin_check(), "an errored service does not admit new operations");
}

#[test]
fn debounce_three_bursts_trigger_one_encode() {
    // three rapid events within the quiescence window collapse into one
    // release once the window has passed and the size is stable
    let mut d = Debouncer::new(500);
    d.record_event(b"dir/a.txt", 1000);
    d.record_event(b"dir/a.txt", 1200);
    d.record_event(b"dir/a.txt", 1400);
    d.observe_size(b"dir/a.txt", 77);
    d.observe_size(b"dir/a.txt", 77);

    // still within the window of the last event: nothing fires
    assert!(d.take_ready(1800).is_empty());
    // window passed: exactly one trigger
    let fired = d.take_ready(1900);
    assert_eq!(fired, vec![b"dir/a.txt".to_vec()]);
    // and it does not fire again
    assert!(d.take_ready(5000).is_empty());
}

#[test]
fn debounce_waits_for_stable_size() {
    let mut d = Debouncer::new(100);
    d.record_event(b"dir/b.txt", 50);
    d.observe_size(b"dir/b.txt", 10);
    // only one observation: size not yet known stable
    assert!(d.take_ready(1000).is_empty());
    d.observe_size(b"dir/b.txt", 20);
    // the size changed between polls: still not stable
    assert!(d.take_ready(2000).is_empty());
    d.observe_size(b"dir/b.txt", 20);
    let fired = d.take_ready(3000);
    assert_eq!(fired, vec![b"dir/b.txt".to_vec()]);
}

#[test]
fn debounce_new_event_resets_stability() {
    let mut d = Debouncer::new(100);
    d.record_event(b"dir/c.txt", 0);
    d.observe_size(b"dir/c.txt", 5);
    d.observe_size(b"dir/c.txt", 5);
    // another write arrives: the path must quiesce again
    d.record_event(b"dir/c.txt", 150);
    assert!(d.take_ready(200).is_empty());
    d.observe_size(b"dir/c.txt", 9);
    d.observe_size(b"dir/c.txt", 9);
    let fired = d.take_ready(400);
    assert_eq!(fired, vec![b"dir/c.txt".to_vec()]);
}

#[test]
fn config_validation_bounds() {
    let ok = rs_guard::config::AppConfig {
        watched_directories: vec!["./data".to_string()],
        data_shards: 4,
        parity_shards: 2,
    };
    assert!(ok.validate().is_ok());
    let zero_data = rs_guard::config::AppConfig {
        watched_directories: vec!["./data".to_string()],
        data_shards: 0,
        parity_shards: 2,
    };
    assert!(matches!(zero_data.validate(), Err(GuardError::Config)));
    let too_many = rs_guard::config::AppConfig {
        watched_directories: Vec::new(),
        data_shards: 200,
        parity_shards: 100,
    };
    assert!(matches!(too_many.validate(), Err(GuardError::Config)));
}
