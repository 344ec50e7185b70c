//! Ingestion pipeline: the debounce rules between filesystem events and
//! encode triggers.
//!
//! Editors and copy tools deliver bursts of events for one logical write, so
//! repeated events for the same path within the quiescence window collapse
//! into a single pending entry, and a pending path is only released for
//! encoding once the window has passed with no further event and the file's
//! size has been observed equal on two consecutive polls.

use vstd::prelude::*;
use crate::metadata::{bytes_eq, bytes_to_vec};

verus! {

/// One pending path: when it was last touched and what is known of its size.
pub struct PendingEntry {
    /// The path the events were for.
    pub path: Vec<u8>,
    /// When the last event for the path arrived, in the embedder's clock.
    pub last_event_at: u64,
    /// The size seen at the last poll, if any.
    pub last_seen_size: Option<u64>,
    /// Whether the last two polls saw the same size.
    pub size_confirmed: bool,
}

/// The mathematical view of a pending entry.
pub ghost struct EntryView {
    pub path: Seq<u8>,
    pub last_event_at: u64,
    pub last_seen_size: Option<u64>,
    pub size_confirmed: bool,
}

impl View for PendingEntry {
    type V = EntryView;

    open spec fn view(&self) -> EntryView {
        EntryView {
            path: self.path@,
            last_event_at: self.last_event_at,
            last_seen_size: self.last_seen_size,
            size_confirmed: self.size_confirmed,
        }
    }
}

/// The debouncer: the quiescence window and the paths waiting in it.
pub struct Debouncer {
    /// The quiescence window, in the embedder's clock units.
    pub window: u64,
    /// The paths with unreleased events, one entry per path.
    pub pending: Vec<PendingEntry>,
}

/// The views of the pending entries.
pub open spec fn pending_views(pending: Seq<PendingEntry>) -> Seq<EntryView> {
    Seq::new(pending.len(), |i: int| pending[i]@)
}

/// Some pending entry is for `path`.
pub open spec fn has_path(pending: Seq<EntryView>, path: Seq<u8>) -> bool {
    exists|i: int| 0 <= i < pending.len() && (#[trigger] pending[i]).path == path
}

/// Each path has at most one pending entry.
pub open spec fn paths_distinct(pending: Seq<EntryView>) -> bool {
    forall|i: int, j: int|
        0 <= i < j < pending.len() ==> (#[trigger] pending[i]).path != (
        #[trigger] pending[j]).path
}

/// The index of the entry for `path`.
pub open spec fn find_idx(pending: Seq<EntryView>, path: Seq<u8>) -> int
    decreases pending.len(),
{
    if pending.len() == 0 {
        -1
    } else if pending[0].path == path {
        0
    } else {
        let r = find_idx(pending.drop_first(), path);
        if r < 0 {
            -1
        } else {
            r + 1
        }
    }
}

/// `find_idx` finds the entry exactly when one exists.
pub proof fn lemma_find_idx(pending: Seq<EntryView>, path: Seq<u8>)
    ensures
        has_path(pending, path) ==> 0 <= find_idx(pending, path) < pending.len() && pending[
            find_idx(pending, path)
        ].path == path,
        !has_path(pending, path) ==> find_idx(pending, path) == -1,
    decreases pending.len(),
{
    if pending.len() > 0 {
        lemma_find_idx(pending.drop_first(), path);
        if pending[0].path == path {
        } else {
            assert forall|i: int|
                0 <= i < pending.len() && (#[trigger] pending[i]).path == path implies has_path(
                pending.drop_first(),
                path,
            ) by {
                assert(pending.drop_first()[i - 1].path == path);
            };
        }
    }
}

/// What one filesystem event does to the pending set: the path's entry is
/// refreshed to the event's time with its size knowledge reset, or a fresh
/// entry is added for a path not yet pending.
pub open spec fn on_event_spec(pending: Seq<EntryView>, path: Seq<u8>, now: u64) -> Seq<
    EntryView,
> {
    let fresh = EntryView { path, last_event_at: now, last_seen_size: None, size_confirmed: false };
    if has_path(pending, path) {
        pending.update(find_idx(pending, path), fresh)
    } else {
        pending.push(fresh)
    }
}

/// What one size poll does to the pending set: the path's entry is confirmed
/// when the size matches the previous poll's; a path not pending is left
/// alone.
pub open spec fn on_size_poll_spec(pending: Seq<EntryView>, path: Seq<u8>, size: u64) -> Seq<
    EntryView,
> {
    if has_path(pending, path) {
        let i = find_idx(pending, path);
        let e = pending[i];
        pending.update(
            i,
            EntryView {
                last_seen_size: Some(size),
                size_confirmed: e.last_seen_size == Some(size),
                ..e
            },
        )
    } else {
        pending
    }
}

/// An entry is ready to encode: the window passed with no further event and
/// the size was observed stable.
pub open spec fn entry_ready(e: EntryView, now: u64, window: u64) -> bool {
    &&& e.size_confirmed
    &&& now >= e.last_event_at + window
}

impl Debouncer {
    /// One entry per path.
    pub open spec fn wf(&self) -> bool {
        paths_distinct(pending_views(self.pending@))
    }

    /// Starts with nothing pending.
    pub fn new(window: u64) -> (r: Debouncer)
        ensures
            r.wf(),
            r.window == window,
            pending_views(r.pending@) == Seq::<EntryView>::empty(),
    {
        let r = Debouncer { window, pending: Vec::new() };
        proof {
            assert(pending_views(r.pending@) =~= Seq::<EntryView>::empty());
        }
        r
    }

    /// Takes one filesystem event for `path` at time `now`.
    #[verifier::loop_isolation(false)]
    pub fn record_event(&mut self, path: &[u8], now: u64)
        requires
            old(self).wf(),
        ensures
            final(self).wf(),
            final(self).window == old(self).window,
            pending_views(final(self).pending@) == on_event_spec(
                pending_views(old(self).pending@),
                path@,
                now,
            ),
    {
        let ghost views = pending_views(self.pending@);
        proof {
            lemma_find_idx(views, path@);
        }
        let mut i: usize = 0;
        while i < self.pending.len()
            invariant
                views == pending_views(self.pending@),
                self.window == old(self).window,
                views == pending_views(old(self).pending@),
                i <= self.pending@.len(),
                forall|k: int| 0 <= k < i ==> (#[trigger] views[k]).path != path@,
            decreases self.pending@.len() - i,
        {
            if bytes_eq(self.pending[i].path.as_slice(), path) {
                proof {
                    assert(views[i as int].path == path@);
                    assert(has_path(views, path@));
                    lemma_find_idx_pins(views, path@, i as int);
                }
                let entry = PendingEntry {
                    path: bytes_to_vec(path),
                    last_event_at: now,
                    last_seen_size: None,
                    size_confirmed: false,
                };
                self.pending[i] = entry;
                proof {
                    assert(pending_views(self.pending@) =~= on_event_spec(views, path@, now));
                    assert(forall|k: int|
                        0 <= k < views.len() ==> (#[trigger] pending_views(self.pending@)[k]).path
                            == views[k].path);
                }
                return ;
            }
            i += 1;
        }
        proof {
            assert(!has_path(views, path@));
        }
        let entry = PendingEntry {
            path: bytes_to_vec(path),
            last_event_at: now,
            last_seen_size: None,
            size_confirmed: false,
        };
        self.pending.push(entry);
        proof {
            assert(pending_views(self.pending@) =~= on_event_spec(views, path@, now));
            assert forall|a: int, b: int|
                0 <= a < b < pending_views(self.pending@).len() implies (#[trigger] pending_views(
                self.pending@,
            )[a]).path != (#[trigger] pending_views(self.pending@)[b]).path by {
                if b < views.len() {
                } else {
                    assert(pending_views(self.pending@)[a] == views[a]);
                }
            };
        }
    }

    /// Takes one size observation for `path`.
    #[verifier::loop_isolation(false)]
    pub fn observe_size(&mut self, path: &[u8], size: u64)
        requires
            old(self).wf(),
        ensures
            final(self).wf(),
            final(self).window == old(self).window,
            pending_views(final(self).pending@) == on_size_poll_spec(
                pending_views(old(self).pending@),
                path@,
                size,
            ),
    {
        let ghost views = pending_views(self.pending@);
        proof {
            lemma_find_idx(views, path@);
        }
        let mut i: usize = 0;
        while i < self.pending.len()
            invariant
                views == pending_views(self.pending@),
                self.window == old(self).window,
                views == pending_views(old(self).pending@),
                i <= self.pending@.len(),
                forall|k: int| 0 <= k < i ==> (#[trigger] views[k]).path != path@,
            decreases self.pending@.len() - i,
        {
            if bytes_eq(self.pending[i].path.as_slice(), path) {
                proof {
                    assert(views[i as int].path == path@);
                    assert(has_path(views, path@));
                    lemma_find_idx_pins(views, path@, i as int);
                }
                let confirmed = match &self.pending[i].last_seen_size {
                    Some(prev) => *prev == size,
                    None => false,
                };
                let entry = PendingEntry {
                    path: bytes_to_vec(path),
                    last_event_at: self.pending[i].last_event_at,
                    last_seen_size: Some(size),
                    size_confirmed: confirmed,
                };
                self.pending[i] = entry;
                proof {
                    assert(pending_views(self.pending@) =~= on_size_poll_spec(
                        views,
                        path@,
                        size,
                    ));
                    assert(forall|k: int|
                        0 <= k < views.len() ==> (#[trigger] pending_views(self.pending@)[k]).path
                            == views[k].path);
                }
                return ;
            }
            i += 1;
        }
        proof {
            assert(!has_path(views, path@));
            assert(pending_views(self.pending@) =~= on_size_poll_spec(views, path@, size));
        }
    }

    /// Releases every pending path whose window has passed and whose size
    /// is stable: exactly those paths are returned, in order, and exactly
    /// the other entries stay pending.
    #[verifier::loop_isolation(false)]
    pub fn take_ready(&mut self, now: u64) -> (fired: Vec<Vec<u8>>)
        requires
            old(self).wf(),
        ensures
            final(self).wf(),
            final(self).window == old(self).window,
            pending_views(final(self).pending@) == kept_entries(
                pending_views(old(self).pending@),
                now,
                old(self).window,
            ),
            crate::codec::shards_view(fired@) == fired_paths(
                pending_views(old(self).pending@),
                now,
                old(self).window,
            ),
    {
        let ghost before = pending_views(self.pending@);
        let ghost w = self.window;
        let mut kept: Vec<PendingEntry> = Vec::new();
        let mut fired: Vec<Vec<u8>> = Vec::new();
        let mut i: usize = 0;
        proof {
            assert(before.take(0) =~= Seq::<EntryView>::empty());
            assert(pending_views(kept@) =~= kept_entries(before.take(0), now, w));
            assert(crate::codec::shards_view(fired@) =~= fired_paths(before.take(0), now, w));
        }
        while i < self.pending.len()
            invariant
                i <= self.pending@.len(),
                before == pending_views(self.pending@),
                w == self.window,
                pending_views(kept@) == kept_entries(before.take(i as int), now, w),
                crate::codec::shards_view(fired@) == fired_paths(before.take(i as int), now, w),
            decreases self.pending@.len() - i,
        {
            let ghost t = before.take(i as int);
            let ghost e_view = before[i as int];
            proof {
                assert(before.take(i as int + 1) =~= t.push(e_view));
                lemma_filter_push(t, waiting_pred(now, w), e_view);
                lemma_filter_push(t, ready_pred(now, w), e_view);
            }
            let e = &self.pending[i];
            let ready = e.size_confirmed && now >= e.last_event_at && now - e.last_event_at
                >= self.window;
            proof {
                assert(ready == entry_ready(e_view, now, w));
            }
            if ready {
                let ghost prev_fired = fired@;
                fired.push(bytes_to_vec(e.path.as_slice()));
                proof {
                    assert(ready_pred(now, w)(e_view));
                    assert(!waiting_pred(now, w)(e_view));
                    assert(before.take(i as int + 1).filter(ready_pred(now, w)) == t.filter(
                        ready_pred(now, w),
                    ).push(e_view));
                    assert(fired_paths(before.take(i as int + 1), now, w) =~= fired_paths(
                        t,
                        now,
                        w,
                    ).push(e_view.path));
                    assert(fired@[fired@.len() - 1]@ == e_view.path);
                    assert(crate::codec::shards_view(fired@) =~= crate::codec::shards_view(
                        prev_fired,
                    ).push(e_view.path));
                    assert(before.take(i as int + 1).filter(waiting_pred(now, w)) == t.filter(
                        waiting_pred(now, w),
                    ));
                    assert(pending_views(kept@) == kept_entries(
                        before.take(i as int + 1),
                        now,
                        w,
                    ));
                }
            } else {
                let entry = PendingEntry {
                    path: bytes_to_vec(e.path.as_slice()),
                    last_event_at: e.last_event_at,
                    last_seen_size: match &e.last_seen_size {
                        Some(v) => Some(*v),
                        None => None,
                    },
                    size_confirmed: e.size_confirmed,
                };
                proof {
                    assert(entry@ == e_view);
                }
                let ghost prev_kept = kept@;
                kept.push(entry);
                proof {
                    assert(!ready_pred(now, w)(e_view));
                    assert(waiting_pred(now, w)(e_view));
                    assert(before.take(i as int + 1).filter(waiting_pred(now, w)) == t.filter(
                        waiting_pred(now, w),
                    ).push(e_view));
                    assert(kept@[kept@.len() - 1]@ == e_view);
                    assert(pending_views(kept@) =~= pending_views(prev_kept).push(e_view));
                    assert(pending_views(kept@) =~= kept_entries(
                        before.take(i as int + 1),
                        now,
                        w,
                    ));
                    assert(before.take(i as int + 1).filter(ready_pred(now, w)) == t.filter(
                        ready_pred(now, w),
                    ));
                    assert(crate::codec::shards_view(fired@) == fired_paths(
                        before.take(i as int + 1),
                        now,
                        w,
                    ));
                }
            }
            i += 1;
        }
        proof {
            assert(before.take(before.len() as int) =~= before);
        }
        self.pending = kept;
        proof {
            lemma_filter_keeps_paths_distinct(before, waiting_pred(now, w));
        }
        fired
    }
}

/// Still waiting at `now`: the window has not passed, or the size is not yet
/// stable.
pub open spec fn waiting_pred(now: u64, w: u64) -> spec_fn(EntryView) -> bool {
    |e: EntryView| !entry_ready(e, now, w)
}

/// Ready at `now`: the window passed and the size is stable.
pub open spec fn ready_pred(now: u64, w: u64) -> spec_fn(EntryView) -> bool {
    |e: EntryView| entry_ready(e, now, w)
}

/// The entries a release at `now` keeps pending.
pub open spec fn kept_entries(d: Seq<EntryView>, now: u64, w: u64) -> Seq<EntryView> {
    d.filter(waiting_pred(now, w))
}

/// The paths a release at `now` fires, in pending order.
pub open spec fn fired_paths(d: Seq<EntryView>, now: u64, w: u64) -> Seq<Seq<u8>> {
    d.filter(ready_pred(now, w)).map_values(|e: EntryView| e.path)
}

/// Filtering one more entry appends it exactly when it passes.
proof fn lemma_filter_push(d: Seq<EntryView>, pred: spec_fn(EntryView) -> bool, e: EntryView)
    ensures
        pred(e) ==> d.push(e).filter(pred) == d.filter(pred).push(e),
        !pred(e) ==> d.push(e).filter(pred) == d.filter(pred),
{
    reveal(Seq::filter);
    assert(d.push(e).drop_last() =~= d);
    assert(d.push(e).last() == e);
}

/// Every filtered entry comes from the sequence it was filtered out of.
proof fn lemma_filter_source(d: Seq<EntryView>, pred: spec_fn(EntryView) -> bool)
    ensures
        forall|i: int|
            0 <= i < d.filter(pred).len() ==> exists|j: int|
                0 <= j < d.len() && d[j] == #[trigger] d.filter(pred)[i],
    decreases d.len(),
{
    reveal(Seq::filter);
    if d.len() > 0 {
        lemma_filter_source(d.drop_last(), pred);
        let f = d.filter(pred);
        let fd = d.drop_last().filter(pred);
        assert forall|i: int|
            0 <= i < f.len() implies exists|j: int| 0 <= j < d.len() && d[j] == #[trigger] f[i] by {
            if i < fd.len() {
                assert(fd[i] == f[i]);
                let j = choose|j: int|
                    0 <= j < d.drop_last().len() && d.drop_last()[j] == #[trigger] fd[i];
                assert(d[j] == f[i]);
            } else {
                assert(f[i] == d.last());
                assert(d[d.len() - 1] == f[i]);
            }
        };
    }
}

/// Filtering keeps each path unique.
proof fn lemma_filter_keeps_paths_distinct(d: Seq<EntryView>, pred: spec_fn(EntryView) -> bool)
    requires
        paths_distinct(d),
    ensures
        paths_distinct(d.filter(pred)),
    decreases d.len(),
{
    reveal(Seq::filter);
    if d.len() > 0 {
        assert(paths_distinct(d.drop_last()));
        lemma_filter_keeps_paths_distinct(d.drop_last(), pred);
        lemma_filter_source(d.drop_last(), pred);
        let f = d.filter(pred);
        let fd = d.drop_last().filter(pred);
        if pred(d.last()) {
            assert forall|a: int, b: int|
                0 <= a < b < f.len() implies (#[trigger] f[a]).path != (#[trigger] f[b]).path by {
                if b == f.len() - 1 {
                    assert(f[a] == fd[a]);
                    let j = choose|j: int|
                        0 <= j < d.drop_last().len() && d.drop_last()[j] == #[trigger] fd[a];
                    assert(d[j] == f[a]);
                    assert(d[j].path != d[d.len() - 1].path);
                } else {
                    assert(f[a] == fd[a] && f[b] == fd[b]);
                }
            };
        }
    }
}

/// A ready path fires exactly once: the fired list contains it, the fired
/// paths are pairwise distinct, and the kept entries no longer hold it.
pub proof fn lemma_ready_fires_exactly_once(d: Seq<EntryView>, p: Seq<u8>, now: u64, w: u64)
    requires
        paths_distinct(d),
        has_path(d, p),
        entry_ready(d[find_idx(d, p)], now, w),
    ensures
        fired_paths(d, now, w).contains(p),
        forall|t1: int, t2: int|
            0 <= t1 < t2 < fired_paths(d, now, w).len() ==> fired_paths(d, now, w)[t1]
                != fired_paths(d, now, w)[t2],
        !has_path(kept_entries(d, now, w), p),
{
    lemma_find_idx(d, p);
    let idx = find_idx(d, p);
    let rf = d.filter(ready_pred(now, w));
    broadcast use vstd::seq_lib::group_filter_ensures;

    assert(ready_pred(now, w)(d[idx]));
    assert(rf.contains(d[idx]));
    let j = choose|j: int| 0 <= j < rf.len() && rf[j] == d[idx];
    assert(fired_paths(d, now, w)[j] == p);
    assert(fired_paths(d, now, w).contains(p));
    lemma_filter_keeps_paths_distinct(d, ready_pred(now, w));
    assert forall|t1: int, t2: int|
        0 <= t1 < t2 < fired_paths(d, now, w).len() implies fired_paths(d, now, w)[t1]
        != fired_paths(d, now, w)[t2] by {
        assert(rf[t1].path != rf[t2].path);
    };
    lemma_filter_source(d, waiting_pred(now, w));
    let kf = kept_entries(d, now, w);
    assert forall|k: int| 0 <= k < kf.len() implies (#[trigger] kf[k]).path != p by {
        let q = choose|q: int| 0 <= q < d.len() && d[q] == #[trigger] kf[k];
        assert(waiting_pred(now, w)(kf[k]));
        if d[q].path == p {
            assert(q == idx) by {
                if q < idx {
                    assert(d[q].path != d[idx].path);
                } else if q > idx {
                    assert(d[idx].path != d[q].path);
                }
            };
        }
    };
    if has_path(kf, p) {
        let k = choose|k: int| 0 <= k < kf.len() && (#[trigger] kf[k]).path == p;
    }
}

/// A path whose entry is not ready never fires.
pub proof fn lemma_waiting_never_fires(d: Seq<EntryView>, p: Seq<u8>, now: u64, w: u64)
    requires
        paths_distinct(d),
        has_path(d, p),
        !entry_ready(d[find_idx(d, p)], now, w),
    ensures
        !fired_paths(d, now, w).contains(p),
{
    lemma_find_idx(d, p);
    let idx = find_idx(d, p);
    let rf = d.filter(ready_pred(now, w));
    broadcast use vstd::seq_lib::group_filter_ensures;

    lemma_filter_source(d, ready_pred(now, w));
    assert forall|t: int| 0 <= t < fired_paths(d, now, w).len() implies fired_paths(d, now, w)[t]
        != p by {
        let q = choose|q: int| 0 <= q < d.len() && d[q] == #[trigger] rf[t];
        assert(ready_pred(now, w)(rf[t]));
        if d[q].path == p {
            assert(q == idx) by {
                if q < idx {
                    assert(d[q].path != d[idx].path);
                } else if q > idx {
                    assert(d[idx].path != d[q].path);
                }
            };
        }
    };
    if fired_paths(d, now, w).contains(p) {
        let t = choose|t: int|
            0 <= t < fired_paths(d, now, w).len() && fired_paths(d, now, w)[t] == p;
    }
}

/// Debounce: bursts of events for one path within the quiescence window
/// collapse into a single pending entry, released exactly once. After events
/// at `t1 <= t2 <= t3` and two equal size observations, the path has one
/// pending entry; no release happens strictly before `t3 + window`, however
/// the earlier events fell; and from `t3 + window` on, the entry is ready,
/// so `take_ready` fires the path exactly once and drops it from the pending
/// set.
pub proof fn lemma_debounce_collapses_bursts(
    pending: Seq<EntryView>,
    path: Seq<u8>,
    t1: u64,
    t2: u64,
    t3: u64,
    size: u64,
    window: u64,
)
    requires
        paths_distinct(pending),
        !has_path(pending, path),
        t1 <= t2,
        t2 <= t3,
    ensures
        ({
            let d = on_size_poll_spec(
                on_size_poll_spec(
                    on_event_spec(on_event_spec(on_event_spec(pending, path, t1), path, t2), path, t3),
                    path,
                    size,
                ),
                path,
                size,
            );
            &&& d.len() == pending.len() + 1
            &&& (forall|i: int| 0 <= i < pending.len() ==> #[trigger] d[i] == pending[i])
            &&& d[d.len() - 1].path == path
            &&& d[d.len() - 1].last_event_at == t3
            &&& d[d.len() - 1].size_confirmed
            &&& (forall|t: u64|
                t < t3 + window ==> !#[trigger] entry_ready(d[d.len() - 1], t, window))
            &&& (forall|t: u64|
                t >= t3 + window ==> #[trigger] entry_ready(d[d.len() - 1], t, window))
            &&& paths_distinct(d)
        }),
{
    let d1 = on_event_spec(pending, path, t1);
    lemma_find_idx(pending, path);
    assert(d1 == pending.push(
        EntryView { path, last_event_at: t1, last_seen_size: None, size_confirmed: false },
    ));
    let n = pending.len() as int;
    assert(d1[n].path == path);
    assert(has_path(d1, path));
    assert forall|a: int, b: int|
        0 <= a < b < d1.len() implies (#[trigger] d1[a]).path != (#[trigger] d1[b]).path by {
        if b == n {
            assert(pending[a].path != path) by {
                if pending[a].path == path {
                    assert(has_path(pending, path));
                }
            };
        }
    };
    lemma_find_idx_pins(d1, path, n);
    let d2 = on_event_spec(d1, path, t2);
    assert(d2 == d1.update(
        n,
        EntryView { path, last_event_at: t2, last_seen_size: None, size_confirmed: false },
    ));
    assert(d2[n].path == path);
    assert(has_path(d2, path));
    assert(forall|k: int| 0 <= k < d2.len() ==> (#[trigger] d2[k]).path == d1[k].path);
    lemma_find_idx_pins(d2, path, n);
    let d3 = on_event_spec(d2, path, t3);
    assert(d3[n].path == path);
    assert(has_path(d3, path));
    assert(forall|k: int| 0 <= k < d3.len() ==> (#[trigger] d3[k]).path == d2[k].path);
    lemma_find_idx_pins(d3, path, n);
    let d4 = on_size_poll_spec(d3, path, size);
    assert(d4[n].path == path);
    assert(has_path(d4, path));
    assert(forall|k: int| 0 <= k < d4.len() ==> (#[trigger] d4[k]).path == d3[k].path);
    lemma_find_idx_pins(d4, path, n);
    let d5 = on_size_poll_spec(d4, path, size);
    assert(d5[n].last_seen_size == Some(size));
    assert(d5[n].size_confirmed);
    assert(d5[n].last_event_at == t3);
    assert forall|a: int, b: int|
        0 <= a < b < d5.len() implies (#[trigger] d5[a]).path != (#[trigger] d5[b]).path by {
        if b < n {
        } else {
            assert(d5[b].path == path);
            assert(d5[a] == pending[a]);
            assert(!has_path(pending, path));
            assert(pending[a].path != path) by {
                if pending[a].path == path {
                    assert(has_path(pending, path));
                }
            };
        }
    };
}

/// With distinct paths, the entry at a matching index is the one found.
proof fn lemma_find_idx_pins(pending: Seq<EntryView>, path: Seq<u8>, i: int)
    requires
        paths_distinct(pending),
        0 <= i < pending.len(),
        pending[i].path == path,
    ensures
        find_idx(pending, path) == i,
{
    lemma_find_idx(pending, path);
    assert(has_path(pending, path));
    let f = find_idx(pending, path);
    if f < i {
        assert(pending[f].path == path);
    } else if f > i {
        assert(pending[f].path == path);
    }
}


/// Debounce, end to end: after three events for one path at `t1 <= t2 <=
/// t3` within the window and two equal size observations, releasing before
/// the window has passed since `t3` never fires the path — the three bursts
/// collapsed — and releasing after it fires the path exactly once, with the
/// path no longer pending.
pub proof fn lemma_debounce_single_release(
    pending: Seq<EntryView>,
    path: Seq<u8>,
    t1: u64,
    t2: u64,
    t3: u64,
    size: u64,
    window: u64,
    early: u64,
    late: u64,
)
    requires
        paths_distinct(pending),
        !has_path(pending, path),
        t1 <= t2,
        t2 <= t3,
        early < t3 + window,
        late >= t3 + window,
    ensures
        ({
            let d = on_size_poll_spec(
                on_size_poll_spec(
                    on_event_spec(on_event_spec(on_event_spec(pending, path, t1), path, t2), path, t3),
                    path,
                    size,
                ),
                path,
                size,
            );
            &&& !fired_paths(d, early, window).contains(path)
            &&& fired_paths(d, late, window).contains(path)
            &&& (forall|a: int, b: int|
                0 <= a < b < fired_paths(d, late, window).len() ==> fired_paths(d, late, window)[a]
                    != fired_paths(d, late, window)[b])
            &&& !has_path(kept_entries(d, late, window), path)
        }),
{
    lemma_debounce_collapses_bursts(pending, path, t1, t2, t3, size, window);
    let d = on_size_poll_spec(
        on_size_poll_spec(
            on_event_spec(on_event_spec(on_event_spec(pending, path, t1), path, t2), path, t3),
            path,
            size,
        ),
        path,
        size,
    );
    assert(has_path(d, path));
    lemma_find_idx_pins(d, path, d.len() - 1);
    lemma_waiting_never_fires(d, path, early, window);
    lemma_ready_fires_exactly_once(d, path, late, window);
}
} // verus!
