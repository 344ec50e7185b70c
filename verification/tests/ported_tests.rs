//! The original suite's surviving tests, run against the verified library:
//! encoding performance and memory smoke tests, configuration validation,
//! and the error-handling and recovery drills.

use rs_guard::checker::run_check;
use rs_guard::checksum::checksum;
use rs_guard::chunking::split;
use rs_guard::codec::RSEncoder;
use rs_guard::metadata::ChunkRecord;
use rs_guard::repair::run_repair;
use rs_guard::status::AppStatus;
use rs_guard::GuardError;
use std::time::Instant;

type TestResult = Result<(), String>;

fn encode_1mb() -> TestResult {
    let data = vec![1u8; 1024 * 1024];
    let r = RSEncoder::new(4, 2).map_err(|e| format!("{:?}", e))?;
    let start = Instant::now();
    let _encoded = r.encode(&data).map_err(|e| format!("{:?}", e))?;
    let duration = start.elapsed();
    println!("encode time: {:?}", duration);
    Ok(())
}

fn decode_1mb() -> TestResult {
    let data = vec![1u8; 1024 * 1024];
    let r = RSEncoder::new(4, 2).map_err(|e| format!("{:?}", e))?;
    let encoded = r.encode(&data).map_err(|e| format!("{:?}", e))?;
    let mut slots: Vec<Option<Vec<u8>>> = encoded.into_iter().map(Some).collect();
    slots[0] = None;
    slots[5] = None;
    let start = Instant::now();
    let decoded = r
        .recover_chunk(&mut slots, 1024 * 1024)
        .map_err(|e| format!("{:?}", e))?;
    let duration = start.elapsed();
    println!("decode time: {:?}", duration);
    if decoded != data {
        return Err("decoded bytes differ".to_string());
    }
    Ok(())
}

fn encoding_memory_usage() -> TestResult {
    let data = vec![1u8; 5_000_000];
    let start = Instant::now();
    let r = RSEncoder::new(4, 2).map_err(|e| format!("{:?}", e))?;
    let encoded = r.encode(&data).map_err(|e| format!("{:?}", e))?;
    let duration = start.elapsed();
    let memory_used: usize = encoded.iter().map(|s| s.len()).sum();
    println!("encode time: {:?}", duration);
    println!("encoded bytes held: {}", memory_used);
    Ok(())
}

fn encoding_response_time() -> TestResult {
    let data = vec![1u8; 100_000];
    let r = RSEncoder::new(4, 2).map_err(|e| format!("{:?}", e))?;
    let start = Instant::now();
    let _encoded = r.encode(&data).map_err(|e| format!("{:?}", e))?;
    let duration = start.elapsed();
    println!("encode response time: {:?}", duration);
    assert!(duration.as_millis() < 100, "encode response time too long");
    Ok(())
}

fn full_benchmark() -> TestResult {
    let start_total = Instant::now();
    encode_1mb()?;
    decode_1mb()?;
    encoding_memory_usage()?;
    encoding_response_time()?;
    let chunks = split(&vec![9u8; 3_000_000], 1024 * 1024);
    if chunks.len() != 3 {
        return Err("unexpected chunk count".to_string());
    }
    println!("benchmark total: {:?}", start_total.elapsed());
    Ok(())
}

fn config_validation() -> TestResult {
    let valid = rs_guard::config::AppConfig {
        watched_directories: vec!["/valid/path".to_string()],
        data_shards: 4,
        parity_shards: 2,
    };
    if valid.validate().is_err() {
        return Err("valid configuration rejected".to_string());
    }
    let invalid = rs_guard::config::AppConfig {
        watched_directories: Vec::new(),
        data_shards: 0,
        parity_shards: 2,
    };
    if invalid.validate().is_ok() {
        return Err("invalid configuration accepted".to_string());
    }
    Ok(())
}

fn error_handling() -> TestResult {
    // every error category surfaces as its own variant
    if !matches!(RSEncoder::new(0, 0), Err(GuardError::Config)) {
        return Err("a zero shard count must be a configuration error".to_string());
    }
    let mut status = AppStatus::default();
    assert!(status.try_begin_check());
    let records: Vec<ChunkRecord> = Vec::new();
    let observed: Vec<Vec<Option<Vec<u8>>>> = Vec::new();
    if !matches!(
        run_check(&mut status, &records, &observed),
        Err(GuardError::OperationInProgress)
    ) {
        return Err("a busy service must reject the trigger".to_string());
    }
    Ok(())
}

fn error_recovery() -> TestResult {
    // an errored service goes back to work after the error is cleared
    let mut status = AppStatus::default();
    assert!(status.try_begin_check());
    status.fail(GuardError::Io);
    assert!(!status.try_begin_check());
    status.finish();
    assert!(status.try_begin_check());
    status.finish();
    Ok(())
}

fn data_recovery() -> TestResult {
    // lose a shard, run the pipeline, get the bytes back
    let data: Vec<u8> = (0..50_000).map(|i| (i % 256) as u8).collect();
    let enc = RSEncoder::new(4, 2).map_err(|e| format!("{:?}", e))?;
    let shards = enc.encode(&data).map_err(|e| format!("{:?}", e))?;
    let sums: Vec<u64> = shards.iter().map(|s| checksum(s)).collect();
    let rec = ChunkRecord {
        file_path: b"recover/me.bin".to_vec(),
        chunk_index: 0,
        original_length: data.len() as u64,
        data_shards: 4,
        parity_shards: 2,
        shard_checksums: sums,
    };
    let mut observed: Vec<Option<Vec<u8>>> = shards.into_iter().map(Some).collect();
    observed[3] = None;
    let mut status = AppStatus::default();
    let rep = run_repair(&mut status, &vec![(rec, observed)]).map_err(|e| format!("{:?}", e))?;
    if rep.repaired.len() != 1 || rep.repaired[0].chunk_data != data {
        return Err("repair did not restore the data".to_string());
    }
    Ok(())
}

fn system_recovery() -> TestResult {
    // a full check-then-repair cycle leaves the service idle and healthy
    let data: Vec<u8> = (0..30_000).map(|i| ((i * 7) % 256) as u8).collect();
    let enc = RSEncoder::new(4, 2).map_err(|e| format!("{:?}", e))?;
    let chunks = split(&data, 10_000);
    let mut records = Vec::new();
    let mut observed = Vec::new();
    for (idx, chunk) in chunks.iter().enumerate() {
        let shards = enc.encode(chunk).map_err(|e| format!("{:?}", e))?;
        let sums: Vec<u64> = shards.iter().map(|s| checksum(s)).collect();
        records.push(ChunkRecord {
            file_path: b"sys/file.bin".to_vec(),
            chunk_index: idx as u64,
            original_length: chunk.len() as u64,
            data_shards: 4,
            parity_shards: 2,
            shard_checksums: sums,
        });
        observed.push(shards.into_iter().map(Some).collect::<Vec<Option<Vec<u8>>>>());
    }
    observed[1][2] = None;
    let mut status = AppStatus::default();
    let report = run_check(&mut status, &records, &observed).map_err(|e| format!("{:?}", e))?;
    if report.tasks.len() != 1 {
        return Err("one damaged chunk expected".to_string());
    }
    let items = vec![(records[1].clone(), observed[1].clone())];
    let rep = run_repair(&mut status, &items).map_err(|e| format!("{:?}", e))?;
    if rep.failed.len() != 0 {
        return Err("repair must succeed".to_string());
    }
    let after = run_check(&mut status, &records, &observed).map_err(|e| format!("{:?}", e))?;
    // the stored observation still shows the missing shard; writing the
    // rebuilt shard back is the embedder's half
    if after.checked_chunks != 3 {
        return Err("all chunks must be walked".to_string());
    }
    Ok(())
}

#[test]
fn test_encoding_perf() {
    let result = encode_1mb();
    assert!(result.is_ok());
}

#[test]
fn test_decoding_perf() {
    let result = decode_1mb();
    assert!(result.is_ok());
}

#[test]
fn test_encoding_memory() {
    let result = encoding_memory_usage();
    assert!(result.is_ok());
}

#[test]
fn test_encoding_response() {
    let result = encoding_response_time();
    assert!(result.is_ok());
}

#[test]
fn test_full_benchmark() {
    let result = full_benchmark();
    assert!(result.is_ok());
}

#[test]
fn configuration_test_config_validation() {
    let result = config_validation();
    assert!(result.is_ok(), "configuration validation drill failed: {:?}", result);
}

#[test]
fn error_handling_test_error_handling() {
    let result = error_handling();
    assert!(result.is_ok(), "error handling drill failed: {:?}", result);
}

#[test]
fn test_error_recovery() {
    let result = error_recovery();
    assert!(result.is_ok(), "error recovery drill failed: {:?}", result);
}

#[test]
fn test_data_recovery() {
    let result = data_recovery();
    assert!(result.is_ok(), "data recovery drill failed: {:?}", result);
}

#[test]
fn test_system_recovery() {
    let result = system_recovery();
    assert!(result.is_ok(), "system recovery drill failed: {:?}", result);
}
