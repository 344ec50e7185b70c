//! Status coordinator: the single source of truth for the service's
//! operation mode, and the guard that keeps maintenance operations from
//! interleaving.
//!
//! A check or a repair may only start when the status is `Idle`; a trigger
//! that arrives while another operation is active is rejected, never queued
//! or interleaved. The status also carries the counters and logs the status
//! surface reports.

use vstd::prelude::*;
use crate::GuardError;

verus! {

/// The service's operation mode. At most one maintenance operation is ever
/// active, because the mode is the guard that admits one.
#[derive(Clone, Copy, Debug, PartialEq, Eq, Structural)]
pub enum ServiceStatus {
    Idle,
    Scanning,
    Checking,
    Repairing,
    Error(GuardError),
}

impl Default for ServiceStatus {
    fn default() -> (r: Self)
        ensures
            r == ServiceStatus::Idle,
    {
        ServiceStatus::Idle
    }
}

/// The process-wide status snapshot: the current mode, the watched roots,
/// the counters of the most recent completed operation, and a rolling log.
#[derive(Clone, Debug)]
pub struct AppStatus {
    /// The current operation mode; the serialization guard.
    pub status: ServiceStatus,
    /// The watched directory roots, for the status surface.
    pub watched_dirs: Vec<String>,
    /// When the last check completed, if one has.
    pub last_check_time: Option<String>,
    /// A one-line summary of the last completed operation.
    pub last_check_result: String,
    /// How many files the last check walked.
    pub total_files: u64,
    /// How many files the last check found fully protected.
    pub protected_files: u64,
    /// How many files the last check found corrupted.
    pub corrupted_files: u64,
    /// The configured data shard count `n`.
    pub data_shards: usize,
    /// The configured parity shard count `m`.
    pub parity_shards: usize,
    /// A rolling event log.
    pub logs: Vec<String>,
}

impl Default for AppStatus {
    fn default() -> (r: Self)
        ensures
            r.status == ServiceStatus::Idle,
            r.watched_dirs@ == Seq::<String>::empty(),
            r.last_check_time is None,
            r.last_check_result@ == Seq::<char>::empty(),
            r.total_files == 0,
            r.protected_files == 0,
            r.corrupted_files == 0,
            r.data_shards == 0,
            r.parity_shards == 0,
            r.logs@ == Seq::<String>::empty(),
    {
        AppStatus {
            status: ServiceStatus::Idle,
            watched_dirs: Vec::new(),
            last_check_time: None,
            last_check_result: String::new(),
            total_files: 0,
            protected_files: 0,
            corrupted_files: 0,
            data_shards: 0,
            parity_shards: 0,
            logs: Vec::new(),
        }
    }
}

/// What starting a check does to the status: admitted exactly from `Idle`,
/// rejected untouched from every other mode.
pub open spec fn begin_check_spec(s: AppStatus) -> (bool, AppStatus) {
    if s.status == ServiceStatus::Idle {
        (true, (AppStatus { status: ServiceStatus::Checking, ..s }))
    } else {
        (false, s)
    }
}

/// What starting a repair does to the status: admitted exactly from `Idle`,
/// rejected untouched from every other mode.
pub open spec fn begin_repair_spec(s: AppStatus) -> (bool, AppStatus) {
    if s.status == ServiceStatus::Idle {
        (true, (AppStatus { status: ServiceStatus::Repairing, ..s }))
    } else {
        (false, s)
    }
}

impl AppStatus {
    /// Tries to enter `Checking`; rejected unless the service is `Idle`.
    pub fn try_begin_check(&mut self) -> (r: bool)
        ensures
            (r, *final(self)) == begin_check_spec(*old(self)),
    {
        match self.status {
            ServiceStatus::Idle => {
                self.status = ServiceStatus::Checking;
                true
            },
            _ => false,
        }
    }

    /// Tries to enter `Repairing`; rejected unless the service is `Idle`.
    pub fn try_begin_repair(&mut self) -> (r: bool)
        ensures
            (r, *final(self)) == begin_repair_spec(*old(self)),
    {
        match self.status {
            ServiceStatus::Idle => {
                self.status = ServiceStatus::Repairing;
                true
            },
            _ => false,
        }
    }

    /// Leaves the current operation: back to `Idle`, everything else kept.
    pub fn finish(&mut self)
        ensures
            *final(self) == (AppStatus { status: ServiceStatus::Idle, ..*old(self) }),
    {
        self.status = ServiceStatus::Idle;
    }

    /// Records that the current operation itself failed.
    pub fn fail(&mut self, e: GuardError)
        ensures
            *final(self) == (AppStatus { status: ServiceStatus::Error(e), ..*old(self) }),
    {
        self.status = ServiceStatus::Error(e);
    }
}

/// Serialization of maintenance operations: from `Idle`, starting a check is
/// admitted, and starting a repair while that check is active is rejected
/// and changes nothing — the status never admits two active operations.
/// The same holds with the two operations swapped.
pub proof fn lemma_operations_serialized(s: AppStatus)
    requires
        s.status == ServiceStatus::Idle,
    ensures
        ({
            let (check_started, during_check) = begin_check_spec(s);
            let (repair_started, after_reject) = begin_repair_spec(during_check);
            &&& check_started
            &&& during_check.status == ServiceStatus::Checking
            &&& !repair_started
            &&& after_reject == during_check
        }),
        ({
            let (repair_started, during_repair) = begin_repair_spec(s);
            let (check_started, after_reject) = begin_check_spec(during_repair);
            &&& repair_started
            &&& during_repair.status == ServiceStatus::Repairing
            &&& !check_started
            &&& after_reject == during_repair
        }),
{
}

} // verus!
