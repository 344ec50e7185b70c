//! The metadata store against a real (temporary) sled tree.

use rs_guard::metadata::{
    delete_file, encode_record, decode_record, get_file_chunks, get_file_metadata,
    list_all_files, store_file_metadata, store_file_record, get_file_record, ChunkRecord,
    FileRecord,
};

fn temp_db() -> sled::Db {
    sled::Config::new().temporary(true).open().expect("temporary tree")
}

fn record(path: &[u8], idx: u64) -> ChunkRecord {
    ChunkRecord {
        file_path: path.to_vec(),
        chunk_index: idx,
        original_length: 1000 + idx,
        data_shards: 4,
        parity_shards: 2,
        shard_checksums: (0..6).map(|i| 0x1000 * (idx + 1) + i).collect(),
    }
}

#[test]
fn record_bytes_round_trip() {
    let rec = record(b"dir/f.bin", 3);
    let bytes = encode_record(&rec);
    let back = decode_record(&bytes, b"dir/f.bin").expect("well-formed record must parse");
    assert_eq!(back.file_path, rec.file_path);
    assert_eq!(back.chunk_index, rec.chunk_index);
    assert_eq!(back.original_length, rec.original_length);
    assert_eq!(back.data_shards, rec.data_shards);
    assert_eq!(back.parity_shards, rec.parity_shards);
    assert_eq!(back.shard_checksums, rec.shard_checksums);
}

#[test]
fn malformed_record_bytes_are_rejected() {
    assert!(decode_record(b"short", b"dir/f.bin").is_none());
    let rec = record(b"dir/f.bin", 0);
    let mut bytes = encode_record(&rec);
    bytes.pop();
    assert!(decode_record(&bytes, b"dir/f.bin").is_none());
}

#[test]
fn store_and_get_one_chunk() {
    let mut db = temp_db();
    let rec = record(b"dir/a.bin", 7);
    store_file_metadata(&mut db, &rec).unwrap();
    let got = get_file_metadata(&db, b"dir/a.bin", 7).unwrap().expect("stored record");
    assert_eq!(got.shard_checksums, rec.shard_checksums);
    assert_eq!(got.original_length, 1007);
    assert!(get_file_metadata(&db, b"dir/a.bin", 8).unwrap().is_none());
    assert!(get_file_metadata(&db, b"dir/b.bin", 7).unwrap().is_none());
}

#[test]
fn chunks_stay_with_their_file() {
    let mut db = temp_db();
    for idx in 0..5u64 {
        store_file_metadata(&mut db, &record(b"dir/a.bin", idx)).unwrap();
    }
    store_file_metadata(&mut db, &record(b"dir/a.bin.extra", 0)).unwrap();
    store_file_metadata(&mut db, &record(b"dir/a", 9)).unwrap();
    let chunks = get_file_chunks(&db, b"dir/a.bin").unwrap();
    assert_eq!(chunks.len(), 5);
    let mut seen: Vec<u64> = chunks.iter().map(|r| r.chunk_index).collect();
    seen.sort();
    assert_eq!(seen, vec![0, 1, 2, 3, 4]);
    for r in &chunks {
        assert_eq!(r.file_path, b"dir/a.bin".to_vec());
    }
}

#[test]
fn overwrite_updates_the_record() {
    let mut db = temp_db();
    store_file_metadata(&mut db, &record(b"dir/a.bin", 0)).unwrap();
    let mut newer = record(b"dir/a.bin", 0);
    newer.original_length = 1;
    store_file_metadata(&mut db, &newer).unwrap();
    let got = get_file_metadata(&db, b"dir/a.bin", 0).unwrap().unwrap();
    assert_eq!(got.original_length, 1);
    assert_eq!(get_file_chunks(&db, b"dir/a.bin").unwrap().len(), 1);
}

#[test]
fn delete_file_removes_all_its_keys() {
    let mut db = temp_db();
    for idx in 0..4u64 {
        store_file_metadata(&mut db, &record(b"dir/a.bin", idx)).unwrap();
        store_file_metadata(&mut db, &record(b"dir/other.bin", idx)).unwrap();
    }
    store_file_record(
        &mut db,
        b"dir/a.bin",
        &FileRecord { size: 4000, chunk_count: 4, last_protected_at: 11 },
    )
    .unwrap();
    delete_file(&mut db, b"dir/a.bin").unwrap();
    assert!(get_file_chunks(&db, b"dir/a.bin").unwrap().is_empty());
    assert!(get_file_record(&db, b"dir/a.bin").unwrap().is_none());
    assert_eq!(get_file_chunks(&db, b"dir/other.bin").unwrap().len(), 4);
}

#[test]
fn file_records_and_listing() {
    let mut db = temp_db();
    store_file_record(
        &mut db,
        b"dir/a.bin",
        &FileRecord { size: 123, chunk_count: 1, last_protected_at: 99 },
    )
    .unwrap();
    store_file_record(
        &mut db,
        b"dir/b.bin",
        &FileRecord { size: 456, chunk_count: 2, last_protected_at: 100 },
    )
    .unwrap();
    let got = get_file_record(&db, b"dir/a.bin").unwrap().unwrap();
    assert_eq!(got.size, 123);
    assert_eq!(got.chunk_count, 1);
    assert_eq!(got.last_protected_at, 99);
    let mut files = list_all_files(&db).unwrap();
    files.sort();
    assert_eq!(files, vec![b"dir/a.bin".to_vec(), b"dir/b.bin".to_vec()]);
}
