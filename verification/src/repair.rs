//! Repair engine: rebuilds damaged chunks from their surviving shards.
//!
//! For each repair task the engine re-derives which shards are bad (never
//! trusting a stale queue), blanks exactly those slots, reconstructs the
//! missing shards through the codec, and re-verifies every checksum before
//! the result counts as repaired. A chunk whose bad shards outnumber its
//! parity is reported as a failed repair, not retried.

use vstd::prelude::*;
use crate::GuardError;
use crate::checker::{RepairTask, bad_indices, shard_bad};
use crate::checksum::{checksum, fnv1a};
use crate::codec::{
    RSEncoder, agrees, codeword_of_chunk, lemma_len_disjoint_union, lemma_present_finite,
    lemma_shard_capacity, obs_view, present_count, present_set, present_uniform, shard_size_of,
    shards_view, uniform, wrap_all,
};
use crate::metadata::{ChunkRecord, ChunkRecordView, bytes_to_vec};
use crate::status::{AppStatus, ServiceStatus};

verus! {

/// A record and observation on which repair is owed to restore the original
/// chunk: the record's checksums are those of the chunk's true codeword, and
/// every stored shard either still equals its codeword shard or fails its
/// checksum (so the engine blanks it).
pub open spec fn faithful_record(
    rec: ChunkRecordView,
    obs: Seq<Option<Seq<u8>>>,
    chunk: Seq<u8>,
) -> bool {
    let n = rec.data_shards as int;
    let m = rec.parity_shards as int;
    let cw = codeword_of_chunk(chunk, n, m);
    &&& chunk.len() == rec.original_length
    &&& obs.len() == n + m
    &&& cw.len() == n + m
    &&& uniform(cw, shard_size_of(rec.original_length as int, n))
    &&& (forall|i: int| 0 <= i < n + m ==> rec.shard_checksums[i] == fnv1a(#[trigger] cw[i]))
    &&& (forall|i: int|
        0 <= i < obs.len() && obs[i] is Some ==> ((#[trigger] obs[i])->0 == cw[i] || fnv1a(
            obs[i]->0,
        ) != fnv1a(cw[i])))
}

/// One chunk the engine rebuilt: the full shard set to write back and the
/// chunk's original bytes.
pub struct RepairedChunk {
    /// The path of the chunk's file.
    pub file_path: Vec<u8>,
    /// Which chunk of the file was rebuilt.
    pub chunk_index: u64,
    /// The full rebuilt shard set, every checksum re-verified.
    pub shards: Vec<Vec<u8>>,
    /// The chunk's bytes, padding trimmed.
    pub chunk_data: Vec<u8>,
}

/// The set of bad shard indices below `upto`.
pub open spec fn bad_set(rec: ChunkRecordView, obs: Seq<Option<Seq<u8>>>, upto: int) -> Set<int> {
    Set::new(|i: int| 0 <= i < upto && shard_bad(rec, obs, i))
}

/// The bad-index list and the bad-index set agree in size.
proof fn lemma_bad_card(rec: ChunkRecordView, obs: Seq<Option<Seq<u8>>>, upto: int)
    requires
        0 <= upto,
    ensures
        bad_set(rec, obs, upto).finite(),
        bad_set(rec, obs, upto).len() == bad_indices(rec, obs, upto).len(),
    decreases upto,
{
    if upto == 0 {
        assert(bad_set(rec, obs, 0) =~= Set::<int>::empty());
    } else {
        lemma_bad_card(rec, obs, upto - 1);
        if shard_bad(rec, obs, upto - 1) {
            assert(bad_set(rec, obs, upto) =~= bad_set(rec, obs, upto - 1).insert(upto - 1));
            assert(!bad_set(rec, obs, upto - 1).contains(upto - 1));
        } else {
            assert(bad_set(rec, obs, upto) =~= bad_set(rec, obs, upto - 1));
        }
    }
}

/// Rebuilds one chunk: blanks the bad shards, reconstructs them, and
/// re-verifies every checksum.
///
/// On a record whose bad shards outnumber its parity the result is
/// `InsufficientShards`, never a retry. On a faithful record and observation
/// with at most `m` bad shards, the result is owed: exactly the chunk's
/// codeword and its original bytes.
#[verifier::loop_isolation(false)]
#[verifier::rlimit(60)]
pub fn repair_chunk(rec: &ChunkRecord, obs: &Vec<Option<Vec<u8>>>) -> (r: Result<
    RepairedChunk,
    GuardError,
>)
    requires
        rec@.wf(),
        rec@.original_length <= usize::MAX,
        obs@.len() == rec@.shard_checksums.len(),
    ensures
        r matches Ok(out) ==> {
            &&& out.file_path@ == rec@.file_path
            &&& out.chunk_index == rec@.chunk_index
            &&& out.shards@.len() == rec@.shard_checksums.len()
            &&& (forall|i: int|
                0 <= i < out.shards@.len() ==> fnv1a(#[trigger] shards_view(out.shards@)[i])
                    == rec@.shard_checksums[i])
        },
        bad_indices(rec@, obs_view(obs@), obs@.len() as int).len() > rec@.parity_shards ==> (
        r matches Err(e) && e == GuardError::InsufficientShards),
        forall|chunk: Seq<u8>|
            #[trigger] faithful_record(rec@, obs_view(obs@), chunk) && bad_indices(
                rec@,
                obs_view(obs@),
                obs@.len() as int,
            ).len() <= rec@.parity_shards ==> (r matches Ok(out) && shards_view(out.shards@)
                == codeword_of_chunk(chunk, rec@.data_shards as int, rec@.parity_shards as int)
                && out.chunk_data@ == chunk),
{
    let ghost ov = obs_view(obs@);
    let total = obs.len();
    let bad = crate::checker::bad_shard_indices(rec, obs);
    if (bad.len() as u64) > rec.parity_shards {
        return Err(GuardError::InsufficientShards);
    }
    let n = rec.data_shards as usize;
    let m = rec.parity_shards as usize;
    let enc = match RSEncoder::new(n, m) {
        Ok(enc) => enc,
        Err(_) => {
            proof {
                assert(false);
            }
            return Err(GuardError::Config);
        },
    };
    let mut work: Vec<Option<Vec<u8>>> = Vec::new();
    let mut i: usize = 0;
    while i < total
        invariant
            i <= total,
            work@.len() == i,
            forall|k: int|
                0 <= k < i ==> #[trigger] obs_view(work@)[k] == (if shard_bad(rec@, ov, k) {
                    None
                } else {
                    ov[k]
                }),
        decreases total - i,
    {
        let ghost prev_work = work@;
        let slot: Option<Vec<u8>>;
        match &obs[i] {
            Some(sh) => {
                if checksum(sh.as_slice()) != rec.shard_checksums[i] {
                    slot = None;
                    proof {
                        assert(ov[i as int] == Some(sh@));
                        assert(shard_bad(rec@, ov, i as int));
                    }
                } else {
                    slot = Some(bytes_to_vec(sh.as_slice()));
                    proof {
                        assert(ov[i as int] == Some(sh@));
                        assert(!shard_bad(rec@, ov, i as int));
                        assert(obs_view(work@.push(slot))[i as int] == ov[i as int]);
                    }
                }
            },
            None => {
                slot = None;
                proof {
                    assert(ov[i as int] is None);
                    assert(shard_bad(rec@, ov, i as int));
                }
            },
        }
        work.push(slot);
        proof {
            assert(forall|k: int|
                0 <= k < i ==> work@[k] == #[trigger] prev_work[k]);
            assert(forall|k: int|
                0 <= k < i ==> #[trigger] obs_view(work@)[k] == obs_view(prev_work)[k]);
        }
        i += 1;
    }
    let ghost wv = obs_view(work@);
    proof {
        lemma_bad_card(rec@, ov, total as int);
        vstd::set_lib::lemma_int_range(0, total as int);
        assert(present_set(wv) =~= vstd::set_lib::set_int_range(0, total as int).difference(
            bad_set(rec@, ov, total as int),
        ));
        assert(vstd::set_lib::set_int_range(0, total as int) =~= present_set(wv).union(
            bad_set(rec@, ov, total as int),
        ));
        lemma_present_finite(wv);
        lemma_len_disjoint_union(present_set(wv), bad_set(rec@, ov, total as int));
        assert(present_count(wv) == total - bad_indices(rec@, ov, total as int).len());
        assert forall|chunk: Seq<u8>| #[trigger] faithful_record(rec@, ov, chunk) implies {
            &&& agrees(wv, codeword_of_chunk(chunk, enc.n() as int, enc.m() as int))
            &&& present_uniform(
                wv,
                shard_size_of(rec@.original_length as int, enc.n() as int),
            )
        } by {
            let cw = codeword_of_chunk(chunk, enc.n() as int, enc.m() as int);
            let s0 = shard_size_of(rec@.original_length as int, enc.n() as int);
            assert forall|q: int| 0 <= q < wv.len() && wv[q] is Some implies wv[q] == Some(
                #[trigger] cw[q],
            ) && wv[q]->0.len() == s0 by {
                assert(!shard_bad(rec@, ov, q));
                assert(ov[q] is Some && fnv1a(ov[q]->0) == rec@.shard_checksums[q]);
                assert(rec@.shard_checksums[q] == fnv1a(cw[q]));
                assert(ov[q]->0 == cw[q] || fnv1a(ov[q]->0) != fnv1a(cw[q]));
                assert(cw[q].len() == s0);
            };
        };
    }
    let original_length = rec.original_length as usize;
    let data = match enc.recover_chunk(&mut work, original_length) {
        Ok(data) => data,
        Err(e) => {
            proof {
                assert forall|chunk: Seq<u8>|
                    #[trigger] faithful_record(rec@, ov, chunk) && bad_indices(
                        rec@,
                        ov,
                        total as int,
                    ).len() <= rec@.parity_shards implies false by {
                    lemma_shard_capacity(rec@.original_length as int, enc.n() as int);
                    let s0 = shard_size_of(rec@.original_length as int, enc.n() as int);
                    assert(present_uniform(wv, s0) && 1 <= s0 && original_length as int <= enc.n()
                        * s0);
                    assert(present_count(wv) >= enc.n());
                };
            }
            return Err(e);
        },
    };
    let mut out_shards: Vec<Vec<u8>> = Vec::new();
    let mut i: usize = 0;
    while i < work.len()
        invariant
            work@.len() == total,
            forall|k: int|
                0 <= k < work@.len() ==> #[trigger] obs_view(work@)[k] is Some,
            i <= work@.len(),
            out_shards@.len() == i,
            forall|k: int|
                0 <= k < i ==> #[trigger] shards_view(out_shards@)[k] == obs_view(work@)[k]->0,
        decreases work@.len() - i,
    {
        let ghost prev_out = out_shards@;
        match &work[i] {
            Some(sh) => {
                out_shards.push(bytes_to_vec(sh.as_slice()));
            },
            None => {
                proof {
                    assert(obs_view(work@)[i as int] is Some);
                }
                out_shards.push(Vec::new());
            },
        }
        proof {
            assert(forall|k: int|
                0 <= k < i ==> #[trigger] shards_view(out_shards@)[k] == shards_view(prev_out)[k]);
        }
        i += 1;
    }
    let mut v: usize = 0;
    while v < out_shards.len()
        invariant
            out_shards@.len() == rec@.shard_checksums.len(),
            forall|k: int|
                0 <= k < out_shards@.len() ==> #[trigger] shards_view(out_shards@)[k] == obs_view(
                    work@,
                )[k]->0,
            v <= out_shards@.len(),
            forall|k: int|
                0 <= k < v ==> fnv1a(#[trigger] shards_view(out_shards@)[k])
                    == rec@.shard_checksums[k],
        decreases out_shards@.len() - v,
    {
        if checksum(out_shards[v].as_slice()) != rec.shard_checksums[v] {
            proof {
                assert forall|chunk: Seq<u8>|
                    #[trigger] faithful_record(rec@, ov, chunk) && bad_indices(
                        rec@,
                        ov,
                        total as int,
                    ).len() <= rec@.parity_shards implies false by {
                    let cw = codeword_of_chunk(chunk, enc.n() as int, enc.m() as int);
                    assert(obs_view(work@) == wrap_all(cw));
                    assert(obs_view(work@)[v as int] == Some(cw[v as int]));
                    assert(shards_view(out_shards@)[v as int] == cw[v as int]);
                    assert(rec@.shard_checksums[v as int] == fnv1a(cw[v as int]));
                };
            }
            return Err(GuardError::ChecksumMismatch);
        }
        v += 1;
    }
    let out = RepairedChunk {
        file_path: bytes_to_vec(rec.file_path.as_slice()),
        chunk_index: rec.chunk_index,
        shards: out_shards,
        chunk_data: data,
    };
    proof {
        assert forall|chunk: Seq<u8>|
            #[trigger] faithful_record(rec@, ov, chunk) && bad_indices(
                rec@,
                ov,
                total as int,
            ).len() <= rec@.parity_shards implies shards_view(out.shards@) == codeword_of_chunk(
            chunk,
            rec@.data_shards as int,
            rec@.parity_shards as int,
        ) && out.chunk_data@ == chunk by {
            let cw = codeword_of_chunk(chunk, enc.n() as int, enc.m() as int);
            assert(obs_view(work@) == wrap_all(cw));
            assert forall|k: int| 0 <= k < out.shards@.len() implies #[trigger] shards_view(
                out.shards@,
            )[k] == cw[k] by {
                assert(obs_view(work@)[k] == Some(cw[k]));
            };
            assert(shards_view(out.shards@) =~= cw);
        };
    }
    Ok(out)
}

/// Every rebuilt chunk matches some queued record, checksums re-verified.
pub open spec fn repaired_sound(
    items: Seq<(ChunkRecord, Vec<Option<Vec<u8>>>)>,
    repaired: Seq<RepairedChunk>,
) -> bool {
    forall|t: int|
        0 <= t < repaired.len() ==> exists|k: int|
            0 <= k < items.len() && repaired_matches(#[trigger] repaired[t], (#[trigger] items[k]).0@)
}

/// Every faithful item below `upto` with at most `m` bad shards was
/// restored.
pub open spec fn restored_complete(
    items: Seq<(ChunkRecord, Vec<Option<Vec<u8>>>)>,
    repaired: Seq<RepairedChunk>,
    upto: int,
) -> bool {
    forall|k: int, chunk: Seq<u8>|
        0 <= k < upto && #[trigger] faithful_record(
            (#[trigger] items[k]).0@,
            obs_view(items[k].1@),
            chunk,
        ) && bad_indices(items[k].0@, obs_view(items[k].1@), items[k].1@.len() as int).len()
            <= items[k].0@.parity_shards ==> exists|t: int|
            0 <= t < repaired.len() && restored(#[trigger] repaired[t], items[k].0@, chunk)
}

/// Every item below `upto` with more bad shards than parity is among the
/// failed tasks.
pub open spec fn failures_complete(
    items: Seq<(ChunkRecord, Vec<Option<Vec<u8>>>)>,
    failed: Seq<RepairTask>,
    upto: int,
) -> bool {
    forall|k: int|
        0 <= k < upto && bad_indices(
            (#[trigger] items[k]).0@,
            obs_view(items[k].1@),
            items[k].1@.len() as int,
        ).len() > items[k].0@.parity_shards ==> exists|f: int|
            0 <= f < failed.len() && (#[trigger] failed[f]).file_path@ == items[k].0@.file_path
                && failed[f].chunk_index == items[k].0@.chunk_index
}

/// Everything an admitted repair run promises of its report: every task was
/// attempted; each landed among the repaired chunks (re-verified against its
/// record) or the failed tasks; every faithful item with at most `m` bad
/// shards was restored; and every item with more bad shards than parity is
/// among the failed tasks.
pub open spec fn repair_outcome_ok(
    items: Seq<(ChunkRecord, Vec<Option<Vec<u8>>>)>,
    attempted: u64,
    repaired: Seq<RepairedChunk>,
    failed: Seq<RepairTask>,
) -> bool {
    &&& attempted == items.len()
    &&& repaired.len() + failed.len() == items.len()
    &&& repaired_sound(items, repaired)
    &&& restored_complete(items, repaired, items.len() as int)
    &&& failures_complete(items, failed, items.len() as int)
}

/// What one repair run reports.
pub struct RepairReport {
    /// How many tasks were attempted.
    pub attempted: u64,
    /// The chunks that were rebuilt and re-verified.
    pub repaired: Vec<RepairedChunk>,
    /// The tasks that failed: unrecoverable, or still failing verification.
    pub failed: Vec<RepairTask>,
}

/// Runs the repair engine over a freshly computed queue.
///
/// The status guard rejects the run unless the service is idle. Each item is a chunk
/// record with the shards as storage shows them now; each item lands either
/// among the repaired chunks, every checksum re-verified, or among the
/// failed tasks. On every faithful item with at most `m` bad shards the
/// rebuilt chunk is owed; every item with more bad shards than parity is
/// reported failed, not retried.
#[verifier::loop_isolation(false)]
#[verifier::rlimit(100)]
#[verifier::spinoff_prover]
pub fn run_repair(status: &mut AppStatus, items: &Vec<(ChunkRecord, Vec<Option<Vec<u8>>>)>) -> (r:
    Result<RepairReport, GuardError>)
    requires
        forall|k: int|
            0 <= k < items@.len() ==> {
                &&& (#[trigger] items@[k]).0@.wf()
                &&& items@[k].0@.original_length <= usize::MAX
                &&& items@[k].1@.len() == items@[k].0@.shard_checksums.len()
            },
        items@.len() <= u64::MAX,
    ensures
        old(status).status != ServiceStatus::Idle ==> (r matches Err(e) && e
            == GuardError::OperationInProgress && *final(status) == *old(status)),
        old(status).status == ServiceStatus::Idle ==> *final(status) == *old(status) && r is Ok,
        r matches Ok(rep) ==> repair_outcome_ok(items@, rep.attempted, rep.repaired@, rep.failed@),
{
    if !status.try_begin_repair() {
        return Err(GuardError::OperationInProgress);
    }
    let attempted = items.len() as u64;
    let (repaired, failed) = repair_all(items);
    let report = RepairReport { attempted, repaired, failed };
    proof {
        assert(repair_outcome_ok(items@, report.attempted, report.repaired@, report.failed@));
    }
    status.finish();
    Ok(report)
}

/// Attempts every queued item in order, splitting them into rebuilt chunks
/// and failed tasks.
#[verifier::loop_isolation(false)]
#[verifier::rlimit(100)]
#[verifier::spinoff_prover]
fn repair_all(items: &Vec<(ChunkRecord, Vec<Option<Vec<u8>>>)>) -> (r: (
    Vec<RepairedChunk>,
    Vec<RepairTask>,
))
    requires
        forall|k: int|
            0 <= k < items@.len() ==> {
                &&& (#[trigger] items@[k]).0@.wf()
                &&& items@[k].0@.original_length <= usize::MAX
                &&& items@[k].1@.len() == items@[k].0@.shard_checksums.len()
            },
    ensures
        r.0@.len() + r.1@.len() == items@.len(),
        repaired_sound(items@, r.0@),
        restored_complete(items@, r.0@, items@.len() as int),
        failures_complete(items@, r.1@, items@.len() as int),
{
    let mut repaired: Vec<RepairedChunk> = Vec::new();
    let mut failed: Vec<RepairTask> = Vec::new();
    let mut k: usize = 0;
    while k < items.len()
        invariant
            k <= items@.len(),
            repaired@.len() + failed@.len() == k,
            repaired_sound(items@, repaired@),
            restored_complete(items@, repaired@, k as int),
            failures_complete(items@, failed@, k as int),
        decreases items@.len() - k,
    {
        let ghost prev_repaired = repaired@;
        let ghost prev_failed = failed@;
        let item = &items[k];
        match repair_chunk(&item.0, &item.1) {
            Ok(out) => {
                proof {
                    assert(repaired_matches(out, items@[k as int].0@));
                }
                repaired.push(out);
            },
            Err(_) => {
                let task = RepairTask {
                    file_path: bytes_to_vec(item.0.file_path.as_slice()),
                    chunk_index: item.0.chunk_index,
                    bad_shards: crate::checker::bad_shard_indices(&item.0, &item.1),
                };
                failed.push(task);
            },
        }
        proof {
            assert(repaired_sound(items@, repaired@)) by {
                assert forall|t: int|
                    0 <= t < repaired@.len() implies exists|q: int|
                    0 <= q < items@.len() && repaired_matches(
                        #[trigger] repaired@[t],
                        (#[trigger] items@[q]).0@,
                    ) by {
                    if t < prev_repaired.len() {
                        let q = choose|q: int|
                            0 <= q < items@.len() && repaired_matches(
                                #[trigger] prev_repaired[t],
                                (#[trigger] items@[q]).0@,
                            );
                        assert(repaired_matches(repaired@[t], items@[q].0@));
                    } else {
                        assert(repaired_matches(repaired@[t], items@[k as int].0@));
                    }
                };
            };
            assert(restored_complete(items@, repaired@, k as int + 1)) by {
                assert forall|q: int, chunk: Seq<u8>|
                    0 <= q < k + 1 && #[trigger] faithful_record(
                        (#[trigger] items@[q]).0@,
                        obs_view(items@[q].1@),
                        chunk,
                    ) && bad_indices(
                        items@[q].0@,
                        obs_view(items@[q].1@),
                        items@[q].1@.len() as int,
                    ).len() <= items@[q].0@.parity_shards implies exists|t: int|
                    0 <= t < repaired@.len() && restored(
                        #[trigger] repaired@[t],
                        items@[q].0@,
                        chunk,
                    ) by {
                    if q < k {
                        let t = choose|t: int|
                            0 <= t < prev_repaired.len() && restored(
                                #[trigger] prev_repaired[t],
                                items@[q].0@,
                                chunk,
                            );
                        assert(restored(repaired@[t], items@[q].0@, chunk));
                    } else {
                        assert(restored(repaired@[repaired@.len() - 1], items@[q].0@, chunk));
                    }
                };
            };
            assert(failures_complete(items@, failed@, k as int + 1)) by {
                assert forall|q: int|
                    0 <= q < k + 1 && bad_indices(
                        (#[trigger] items@[q]).0@,
                        obs_view(items@[q].1@),
                        items@[q].1@.len() as int,
                    ).len() > items@[q].0@.parity_shards implies exists|f: int|
                    0 <= f < failed@.len() && (#[trigger] failed@[f]).file_path@
                        == items@[q].0@.file_path && failed@[f].chunk_index
                        == items@[q].0@.chunk_index by {
                    if q < k {
                        let f = choose|f: int|
                            0 <= f < prev_failed.len() && (#[trigger] prev_failed[f]).file_path@
                                == items@[q].0@.file_path && prev_failed[f].chunk_index
                                == items@[q].0@.chunk_index;
                        assert(failed@[f].file_path@ == items@[q].0@.file_path);
                    } else {
                        assert(failed@[failed@.len() - 1].file_path@ == items@[q].0@.file_path);
                    }
                };
            };
        }
        k += 1;
    }
    (repaired, failed)
}

/// A rebuilt chunk carries its record's identity and checksums./// A rebuilt chunk carries its record's identity and checksums.
pub open spec fn repaired_matches(out: RepairedChunk, rec: ChunkRecordView) -> bool {
    &&& out.file_path@ == rec.file_path
    &&& out.chunk_index == rec.chunk_index
    &&& out.shards@.len() == rec.shard_checksums.len()
    &&& (forall|i: int|
        0 <= i < out.shards@.len() ==> fnv1a(#[trigger] shards_view(out.shards@)[i])
            == rec.shard_checksums[i])
}

/// A rebuilt chunk restored the original: its shard set is the chunk's
/// codeword and its bytes are the chunk.
pub open spec fn restored(out: RepairedChunk, rec: ChunkRecordView, chunk: Seq<u8>) -> bool {
    &&& out.file_path@ == rec.file_path
    &&& out.chunk_index == rec.chunk_index
    &&& shards_view(out.shards@) == codeword_of_chunk(
        chunk,
        rec.data_shards as int,
        rec.parity_shards as int,
    )
    &&& out.chunk_data@ == chunk
}

} // verus!
