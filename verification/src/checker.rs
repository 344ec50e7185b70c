//! Integrity checker: walks chunk records against what storage shows,
//! re-derives per-shard checksums, and emits the repair queue.
//!
//! A shard is bad when its slot is missing or its current checksum differs
//! from the recorded one. A chunk with one to `m` bad shards yields one
//! repair task; a chunk with more than `m` bad shards is unrecoverable and
//! surfaced separately, never queued. The check itself is a pure function of
//! the records and the observed bytes, so repeated runs over unchanged
//! inputs report the same counts.

use vstd::prelude::*;
use crate::GuardError;
use crate::checksum::{checksum, fnv1a};
use crate::codec::obs_view;
use crate::metadata::{ChunkRecord, ChunkRecordView};
use crate::status::{AppStatus, ServiceStatus};

verus! {

/// Shard `i` of a chunk is bad: missing from storage, or its bytes no longer
/// hash to the recorded checksum.
pub open spec fn shard_bad(rec: ChunkRecordView, obs: Seq<Option<Seq<u8>>>, i: int) -> bool {
    obs[i] is None || fnv1a(obs[i]->0) != rec.shard_checksums[i]
}

/// The bad shard indices below `upto`, in ascending order.
pub open spec fn bad_indices(rec: ChunkRecordView, obs: Seq<Option<Seq<u8>>>, upto: int) -> Seq<
    usize,
>
    decreases upto,
{
    if upto <= 0 {
        Seq::empty()
    } else if shard_bad(rec, obs, upto - 1) {
        bad_indices(rec, obs, upto - 1).push((upto - 1) as usize)
    } else {
        bad_indices(rec, obs, upto - 1)
    }
}

/// What the checker concludes of one chunk.
#[derive(Clone, Copy, Debug, PartialEq, Eq, Structural)]
pub enum ChunkVerdict {
    /// Every shard is present with a matching checksum.
    Healthy,
    /// One to `m` shards are bad: queued for repair.
    Repairable,
    /// More than `m` shards are bad: repair would fail.
    Unrecoverable,
}

/// The verdict on one chunk.
pub open spec fn chunk_status(rec: ChunkRecordView, obs: Seq<Option<Seq<u8>>>) -> ChunkVerdict {
    let c = bad_indices(rec, obs, obs.len() as int).len();
    if c == 0 {
        ChunkVerdict::Healthy
    } else if c <= rec.parity_shards {
        ChunkVerdict::Repairable
    } else {
        ChunkVerdict::Unrecoverable
    }
}

/// One transient work item for the repair engine.
pub struct RepairTask {
    /// The path of the damaged chunk's file.
    pub file_path: Vec<u8>,
    /// Which chunk of the file is damaged.
    pub chunk_index: u64,
    /// The missing or corrupt shard indices, ascending.
    pub bad_shards: Vec<usize>,
}

/// The mathematical view of a repair task.
pub ghost struct TaskView {
    pub file_path: Seq<u8>,
    pub chunk_index: u64,
    pub bad_shards: Seq<usize>,
}

impl View for RepairTask {
    type V = TaskView;

    open spec fn view(&self) -> TaskView {
        TaskView {
            file_path: self.file_path@,
            chunk_index: self.chunk_index,
            bad_shards: self.bad_shards@,
        }
    }
}

/// The views of a record list.
pub open spec fn record_views(recs: Seq<ChunkRecord>) -> Seq<ChunkRecordView> {
    Seq::new(recs.len(), |j: int| recs[j]@)
}

/// The views of the per-chunk observations.
pub open spec fn observation_views(obs: Seq<Vec<Option<Vec<u8>>>>) -> Seq<Seq<Option<Seq<u8>>>> {
    Seq::new(obs.len(), |j: int| obs_view(obs[j]@))
}

/// The views of a task list.
pub open spec fn task_views(tasks: Seq<RepairTask>) -> Seq<TaskView> {
    Seq::new(tasks.len(), |j: int| tasks[j]@)
}

/// The repair queue of the first `upto` chunks: one task per repairable
/// chunk, in record order.
pub open spec fn tasks_of(
    recs: Seq<ChunkRecordView>,
    obs: Seq<Seq<Option<Seq<u8>>>>,
    upto: int,
) -> Seq<TaskView>
    decreases upto,
{
    if upto <= 0 {
        Seq::empty()
    } else {
        let rec = recs[upto - 1];
        let o = obs[upto - 1];
        let front = tasks_of(recs, obs, upto - 1);
        if chunk_status(rec, o) is Repairable {
            front.push(
                TaskView {
                    file_path: rec.file_path,
                    chunk_index: rec.chunk_index,
                    bad_shards: bad_indices(rec, o, o.len() as int),
                },
            )
        } else {
            front
        }
    }
}

/// How many of the first `upto` chunks have the given verdict.
pub open spec fn verdict_count(
    recs: Seq<ChunkRecordView>,
    obs: Seq<Seq<Option<Seq<u8>>>>,
    upto: int,
    which: ChunkVerdict,
) -> int
    decreases upto,
{
    if upto <= 0 {
        0
    } else {
        verdict_count(recs, obs, upto - 1, which) + (if chunk_status(recs[upto - 1], obs[upto - 1])
            == which {
            1int
        } else {
            0int
        })
    }
}

/// What one check run reports.
pub struct CheckReport {
    /// How many chunks were walked.
    pub checked_chunks: u64,
    /// How many chunks have at least one bad shard.
    pub corrupted_chunks: u64,
    /// How many chunks have more bad shards than parity can recover.
    pub unrecoverable_chunks: u64,
    /// The repair queue: one task per repairable chunk.
    pub tasks: Vec<RepairTask>,
}

/// Computes the bad shard indices of one chunk, ascending: exactly the slots
/// that are missing or fail their recorded checksum.
pub fn bad_shard_indices(rec: &ChunkRecord, obs: &Vec<Option<Vec<u8>>>) -> (r: Vec<usize>)
    requires
        obs@.len() == rec@.shard_checksums.len(),
    ensures
        r@ == bad_indices(rec@, obs_view(obs@), obs@.len() as int),
    decreases obs@.len(),
{
    let ghost ov = obs_view(obs@);
    let mut r: Vec<usize> = Vec::new();
    let mut i: usize = 0;
    proof {
        assert(r@ =~= bad_indices(rec@, ov, 0));
    }
    while i < obs.len()
        invariant
            obs@.len() == rec@.shard_checksums.len(),
            ov == obs_view(obs@),
            i <= obs@.len(),
            r@ == bad_indices(rec@, ov, i as int),
        decreases obs@.len() - i,
    {
        let bad: bool;
        match &obs[i] {
            Some(sh) => {
                bad = checksum(sh.as_slice()) != rec.shard_checksums[i];
                proof {
                    assert(ov[i as int] == Some(sh@));
                    assert(bad == shard_bad(rec@, ov, i as int));
                }
            },
            None => {
                bad = true;
                proof {
                    assert(ov[i as int] is None);
                }
            },
        }
        if bad {
            r.push(i);
        }
        i += 1;
    }
    r
}

/// Runs a full integrity check on all protected chunks.
///
/// The status guard rejects the run unless the service is idle; an admitted run
/// walks every record against its observation, and its report is a pure
/// function of those inputs, with the service idle again afterwards.
pub fn run_check(
    status: &mut AppStatus,
    records: &Vec<ChunkRecord>,
    observed: &Vec<Vec<Option<Vec<u8>>>>,
) -> (r: Result<CheckReport, GuardError>)
    requires
        observed@.len() == records@.len(),
        forall|j: int|
            0 <= j < records@.len() ==> (#[trigger] observed@[j])@.len() == records@[j]@.shard_checksums.len(),
        records@.len() <= u64::MAX,
    ensures
        old(status).status != ServiceStatus::Idle ==> (r matches Err(e) && e
            == GuardError::OperationInProgress && *final(status) == *old(status)),
        old(status).status == ServiceStatus::Idle ==> *final(status) == *old(status) && r is Ok,
        r matches Ok(rep) ==> {
            let recs = record_views(records@);
            let obs = observation_views(observed@);
            let upto = records@.len() as int;
            &&& rep.checked_chunks == records@.len()
            &&& rep.corrupted_chunks == verdict_count(recs, obs, upto, ChunkVerdict::Repairable)
                + verdict_count(recs, obs, upto, ChunkVerdict::Unrecoverable)
            &&& rep.unrecoverable_chunks == verdict_count(
                recs,
                obs,
                upto,
                ChunkVerdict::Unrecoverable,
            )
            &&& task_views(rep.tasks@) == tasks_of(recs, obs, upto)
        },
{
    if !status.try_begin_check() {
        return Err(GuardError::OperationInProgress);
    }
    let ghost recs = record_views(records@);
    let ghost obs = observation_views(observed@);
    let mut corrupted: u64 = 0;
    let mut unrecoverable: u64 = 0;
    let mut tasks: Vec<RepairTask> = Vec::new();
    let mut j: usize = 0;
    proof {
        assert(task_views(tasks@) =~= tasks_of(recs, obs, 0));
    }
    while j < records.len()
        invariant
            observed@.len() == records@.len(),
            forall|k: int|
                0 <= k < records@.len() ==> (#[trigger] observed@[k])@.len()
                    == records@[k]@.shard_checksums.len(),
            records@.len() <= u64::MAX,
            recs == record_views(records@),
            obs == observation_views(observed@),
            j <= records@.len(),
            corrupted == verdict_count(recs, obs, j as int, ChunkVerdict::Repairable)
                + verdict_count(recs, obs, j as int, ChunkVerdict::Unrecoverable),
            unrecoverable == verdict_count(recs, obs, j as int, ChunkVerdict::Unrecoverable),
            corrupted <= j,
            unrecoverable <= j,
            task_views(tasks@) == tasks_of(recs, obs, j as int),
        decreases records@.len() - j,
    {
        let ghost prev_tasks = tasks@;
        let rec = &records[j];
        let o = &observed[j];
        let bad = bad_shard_indices(rec, o);
        proof {
            assert(obs[j as int] == obs_view(o@));
            assert(recs[j as int] == rec@);
        }
        if bad.len() > 0 {
            corrupted = corrupted + 1;
            let m_u64 = rec.parity_shards;
            if bad.len() as u64 <= m_u64 {
                let task = RepairTask {
                    file_path: crate::metadata::bytes_to_vec(rec.file_path.as_slice()),
                    chunk_index: rec.chunk_index,
                    bad_shards: bad,
                };
                proof {
                    assert(chunk_status(recs[j as int], obs[j as int]) is Repairable);
                }
                tasks.push(task);
                proof {
                    assert(task_views(tasks@) =~= tasks_of(recs, obs, j as int + 1));
                }
            } else {
                unrecoverable = unrecoverable + 1;
                proof {
                    assert(chunk_status(recs[j as int], obs[j as int]) is Unrecoverable);
                    assert(task_views(tasks@) =~= tasks_of(recs, obs, j as int + 1));
                }
            }
        } else {
            proof {
                assert(chunk_status(recs[j as int], obs[j as int]) is Healthy);
                assert(task_views(tasks@) =~= tasks_of(recs, obs, j as int + 1));
            }
        }
        j += 1;
    }
    let report = CheckReport {
        checked_chunks: records.len() as u64,
        corrupted_chunks: corrupted,
        unrecoverable_chunks: unrecoverable,
        tasks,
    };
    status.finish();
    Ok(report)
}

/// Idempotent check: the report is a pure function of the records and the
/// observed bytes, so two runs with no intervening change — equal records,
/// equal observations — report identical counts and an identical queue.
pub proof fn lemma_check_idempotent(
    recs1: Seq<ChunkRecordView>,
    obs1: Seq<Seq<Option<Seq<u8>>>>,
    recs2: Seq<ChunkRecordView>,
    obs2: Seq<Seq<Option<Seq<u8>>>>,
    upto: int,
)
    requires
        recs1 == recs2,
        obs1 == obs2,
    ensures
        verdict_count(recs1, obs1, upto, ChunkVerdict::Repairable) == verdict_count(
            recs2,
            obs2,
            upto,
            ChunkVerdict::Repairable,
        ),
        verdict_count(recs1, obs1, upto, ChunkVerdict::Unrecoverable) == verdict_count(
            recs2,
            obs2,
            upto,
            ChunkVerdict::Unrecoverable,
        ),
        tasks_of(recs1, obs1, upto) == tasks_of(recs2, obs2, upto),
{
}

/// The bad indices of a chunk whose only bad shard is `s`.
proof fn lemma_bad_indices_single(
    rec: ChunkRecordView,
    obs: Seq<Option<Seq<u8>>>,
    s: int,
    upto: int,
)
    requires
        0 <= s < obs.len(),
        shard_bad(rec, obs, s),
        forall|i: int| 0 <= i < obs.len() && i != s ==> !shard_bad(rec, obs, i),
        0 <= upto <= obs.len(),
    ensures
        upto <= s ==> bad_indices(rec, obs, upto) == Seq::<usize>::empty(),
        upto > s ==> bad_indices(rec, obs, upto) == seq![s as usize],
    decreases upto,
{
    if upto > 0 {
        lemma_bad_indices_single(rec, obs, s, upto - 1);
        if upto - 1 == s {
            assert(bad_indices(rec, obs, upto) =~= seq![s as usize]);
        }
    }
}

/// Corruption detection: flipping any single byte in any one shard of a
/// healthy chunk changes that shard's checksum, and the checker then marks
/// exactly that one shard bad and the chunk repairable — one repair task for
/// the chunk, naming exactly that shard.
pub proof fn lemma_corruption_detected(
    rec: ChunkRecordView,
    obs: Seq<Option<Seq<u8>>>,
    s: int,
    j: int,
    b: u8,
)
    requires
        obs.len() == rec.shard_checksums.len(),
        1 <= rec.parity_shards,
        forall|i: int| 0 <= i < obs.len() ==> !shard_bad(rec, obs, i),
        0 <= s < obs.len(),
        obs[s] is Some,
        0 <= j < obs[s]->0.len(),
        obs[s]->0[j] != b,
    ensures
        ({
            let obs2 = obs.update(s, Some(obs[s]->0.update(j, b)));
            &&& chunk_status(rec, obs) == ChunkVerdict::Healthy
            &&& bad_indices(rec, obs2, obs2.len() as int) == seq![s as usize]
            &&& chunk_status(rec, obs2) == ChunkVerdict::Repairable
        }),
{
    let obs2 = obs.update(s, Some(obs[s]->0.update(j, b)));
    assert(bad_indices(rec, obs, obs.len() as int) =~= Seq::<usize>::empty()) by {
        lemma_no_bad_indices(rec, obs, obs.len() as int);
    };
    crate::checksum::lemma_checksum_detects_flip(obs[s]->0, j, b);
    assert(!shard_bad(rec, obs, s));
    assert(fnv1a(obs[s]->0) == rec.shard_checksums[s]);
    assert(obs2[s] == Some(obs[s]->0.update(j, b)));
    assert(fnv1a(obs2[s]->0) != rec.shard_checksums[s]);
    assert(shard_bad(rec, obs2, s));
    assert forall|i: int| 0 <= i < obs2.len() && i != s implies !shard_bad(rec, obs2, i) by {
        assert(obs2[i] == obs[i]);
        assert(!shard_bad(rec, obs, i));
    };
    lemma_bad_indices_single(rec, obs2, s, obs2.len() as int);
}

/// A chunk with no bad shard has no bad indices.
proof fn lemma_no_bad_indices(rec: ChunkRecordView, obs: Seq<Option<Seq<u8>>>, upto: int)
    requires
        forall|i: int| 0 <= i < obs.len() ==> !shard_bad(rec, obs, i),
        upto <= obs.len(),
    ensures
        bad_indices(rec, obs, upto) == Seq::<usize>::empty(),
    decreases upto,
{
    if upto > 0 {
        lemma_no_bad_indices(rec, obs, upto - 1);
    }
}

} // verus!
