//! The watcher of one repository: a state machine that gathers file system
//! events, merges the events of one file, and hands them on as one batch
//! when no event has come for the debounce time.

use vstd::prelude::*;
use crate::engine::lexical::bytes_of;
use crate::engine::text::{bytes_eq, views};

verus! {

/// What happened to a file.
#[derive(Clone, Copy, PartialEq, Eq, Structural, Debug)]
pub enum ChangeType {
    Created,
    Modified,
    Deleted,
}

/// A change that waits for the next batch.
#[derive(Debug)]
pub struct PendingChange {
    pub repo_id: u64,
    pub path: Vec<u8>,
    pub change: ChangeType,
    pub detected_at: u64,
}

/// A `PendingChange` as contracts see it.
pub struct PendingChangeView {
    pub repo_id: u64,
    pub path: Seq<u8>,
    pub change: ChangeType,
    pub detected_at: u64,
}

impl View for PendingChange {
    type V = PendingChangeView;

    open spec fn view(&self) -> PendingChangeView {
        PendingChangeView {
            repo_id: self.repo_id,
            path: self.path@,
            change: self.change,
            detected_at: self.detected_at,
        }
    }
}

/// The changes of one repository that are applied together. Where
/// `full_rescan` is set, events were lost or too many came, and the whole
/// repository is to be walked again.
#[derive(Debug)]
pub struct RepoBatch {
    pub repo_id: u64,
    pub changes: Vec<PendingChange>,
    pub full_rescan: bool,
}

/// A `RepoBatch` as contracts see it.
pub struct RepoBatchView {
    pub repo_id: u64,
    pub changes: Seq<PendingChangeView>,
    pub full_rescan: bool,
}

impl View for RepoBatch {
    type V = RepoBatchView;

    open spec fn view(&self) -> RepoBatchView {
        RepoBatchView {
            repo_id: self.repo_id,
            changes: views(self.changes@),
            full_rescan: self.full_rescan,
        }
    }
}

/// Where a watcher stands.
#[derive(Clone, Copy, PartialEq, Eq, Structural, Debug)]
pub enum WatchState {
    /// Nothing waits.
    Idle,
    /// Changes wait for the debounce time to pass.
    PendingBatch,
    /// A batch was handed on and is not yet acknowledged.
    Flushing,
}

/// What two changes of one file, one after the other, amount to: none
/// where a file was created and then deleted.
pub open spec fn merged(first: ChangeType, second: ChangeType) -> Option<ChangeType> {
    match first {
        ChangeType::Created => match second {
            ChangeType::Deleted => None,
            _ => Some(ChangeType::Created),
        },
        ChangeType::Modified => match second {
            ChangeType::Deleted => Some(ChangeType::Deleted),
            _ => Some(ChangeType::Modified),
        },
        ChangeType::Deleted => match second {
            ChangeType::Deleted => Some(ChangeType::Deleted),
            _ => Some(ChangeType::Modified),
        },
    }
}

/// Decides what two changes of one file amount to.
pub fn merge(first: ChangeType, second: ChangeType) -> (r: Option<ChangeType>)
    ensures
        r == merged(first, second),
{
    match first {
        ChangeType::Created => match second {
            ChangeType::Deleted => None,
            _ => Some(ChangeType::Created),
        },
        ChangeType::Modified => match second {
            ChangeType::Deleted => Some(ChangeType::Deleted),
            _ => Some(ChangeType::Modified),
        },
        ChangeType::Deleted => match second {
            ChangeType::Deleted => Some(ChangeType::Deleted),
            _ => Some(ChangeType::Modified),
        },
    }
}

/// The first position from `i` on at which a change of `path` waits, or the
/// number of waiting changes where none does.
pub open spec fn slot(pending: Seq<PendingChangeView>, path: Seq<u8>, i: int) -> int
    decreases pending.len() - i,
{
    if 0 <= i < pending.len() && pending[i].path != path {
        slot(pending, path, i + 1)
    } else {
        i
    }
}

/// Whether no two waiting changes are of one file.
pub open spec fn one_per_file(pending: Seq<PendingChangeView>) -> bool {
    forall|i: int, j: int|
        0 <= i < j < pending.len() ==> (#[trigger] pending[i]).path != (#[trigger] pending[j]).path
}

/// The waiting changes after a change of `path` came in: it is merged
/// with the change of `path` that waits, or waits behind the others.
pub open spec fn absorbed(
    pending: Seq<PendingChangeView>,
    repo_id: u64,
    path: Seq<u8>,
    change: ChangeType,
    now: u64,
) -> Seq<PendingChangeView> {
    let i = slot(pending, path, 0);
    if i < pending.len() {
        match merged(pending[i].change, change) {
            Some(c) => pending.update(
                i,
                PendingChangeView { repo_id, path, change: c, detected_at: now },
            ),
            None => pending.remove(i),
        }
    } else {
        pending.push(PendingChangeView { repo_id, path, change, detected_at: now })
    }
}

/// Where a change of `path` waits: in front of it none does, and none at
/// all where the slot is the end.
pub proof fn lemma_slot(pending: Seq<PendingChangeView>, path: Seq<u8>, i: int)
    requires
        0 <= i <= pending.len(),
    ensures
        i <= slot(pending, path, i) <= pending.len(),
        forall|k: int| i <= k < slot(pending, path, i) ==> (#[trigger] pending[k]).path != path,
        slot(pending, path, i) < pending.len() ==> pending[slot(pending, path, i)].path == path,
    decreases pending.len() - i,
{
    if i < pending.len() && pending[i].path != path {
        lemma_slot(pending, path, i + 1);
    }
}

/// Merging a change in keeps the waiting changes one per file.
pub proof fn lemma_absorbed_one_per_file(
    pending: Seq<PendingChangeView>,
    repo_id: u64,
    path: Seq<u8>,
    change: ChangeType,
    now: u64,
)
    requires
        one_per_file(pending),
    ensures
        one_per_file(absorbed(pending, repo_id, path, change, now)),
        absorbed(pending, repo_id, path, change, now).len() <= pending.len() + 1,
{
    lemma_slot(pending, path, 0);
    let i = slot(pending, path, 0);
    let r = absorbed(pending, repo_id, path, change, now);
    if i < pending.len() {
        if merged(pending[i].change, change) is Some {
            assert forall|a: int, b: int| 0 <= a < b < r.len() implies (#[trigger] r[a]).path != (
            #[trigger] r[b]).path by {
                assert(r[a].path == pending[a].path);
                assert(r[b].path == pending[b].path);
            }
        } else {
            assert forall|a: int, b: int| 0 <= a < b < r.len() implies (#[trigger] r[a]).path != (
            #[trigger] r[b]).path by {
                let x = if a < i { a } else { a + 1 };
                let y = if b < i { b } else { b + 1 };
                assert(r[a] == pending[x]);
                assert(r[b] == pending[y]);
            }
        }
    } else {
        assert forall|a: int, b: int| 0 <= a < b < r.len() implies (#[trigger] r[a]).path != (
        #[trigger] r[b]).path by {
            if b < pending.len() {
                assert(r[a] == pending[a]);
                assert(r[b] == pending[b]);
            } else {
                assert(r[a] == pending[a]);
            }
        }
    }
}

/// The state of a watcher as contracts see it.
pub struct WatcherView {
    pub repo_id: u64,
    pub state: WatchState,
    pub pending: Seq<PendingChangeView>,
    pub deadline: u64,
    pub debounce_ms: u64,
    pub capacity: usize,
    pub rescan: bool,
}

impl WatcherView {
    /// A watcher is sound where its waiting changes are one per file and
    /// no more than its capacity, where nothing waits while a rescan is
    /// due, and where it is idle only with nothing to hand on.
    pub open spec fn wf(self) -> bool {
        &&& one_per_file(self.pending)
        &&& self.pending.len() <= self.capacity
        &&& (self.rescan ==> self.pending.len() == 0)
        &&& (self.state == WatchState::Idle ==> self.pending.len() == 0 && !self.rescan)
    }

    /// The state that follows the arrival of an event: the watcher waits
    /// for a batch unless it is handing one on.
    pub open spec fn roused(self) -> WatchState {
        if self.state == WatchState::Flushing {
            WatchState::Flushing
        } else {
            WatchState::PendingBatch
        }
    }

    /// The watcher after a change of `path` was seen at `now`: the change
    /// is merged in and the debounce time starts anew. Where the waiting
    /// changes would go over the capacity, they are dropped and a full
    /// rescan is due instead.
    pub open spec fn after_event(self, path: Seq<u8>, change: ChangeType, now: u64) -> WatcherView {
        let next = absorbed(self.pending, self.repo_id, path, change, now);
        let over = next.len() > self.capacity;
        WatcherView {
            state: self.roused(),
            deadline: now.saturating_add(self.debounce_ms),
            pending: if self.rescan || over {
                Seq::empty()
            } else {
                next
            },
            rescan: self.rescan || over,
            ..self
        }
    }

    /// The watcher after it learned at `now` that events were lost: a full
    /// rescan is due and the debounce time starts anew.
    pub open spec fn after_gap(self, now: u64) -> WatcherView {
        WatcherView {
            state: self.roused(),
            deadline: now.saturating_add(self.debounce_ms),
            pending: Seq::empty(),
            rescan: true,
            ..self
        }
    }

    /// Whether the debounce time has passed at `now` with something to
    /// hand on.
    pub open spec fn due(self, now: u64) -> bool {
        self.state == WatchState::PendingBatch && now >= self.deadline && (self.pending.len() > 0
            || self.rescan)
    }

    /// The batch that is handed on when the watcher is due.
    pub open spec fn batch(self) -> RepoBatchView {
        RepoBatchView { repo_id: self.repo_id, changes: self.pending, full_rescan: self.rescan }
    }

    /// The watcher after the clock was read at `now`: where it is due, it
    /// hands on what waits and is flushing; where the debounce time has
    /// passed with nothing left to hand on, it is idle.
    pub open spec fn after_tick(self, now: u64) -> WatcherView {
        if self.due(now) {
            WatcherView { state: WatchState::Flushing, pending: Seq::empty(), rescan: false, ..self }
        } else if self.state == WatchState::PendingBatch && now >= self.deadline {
            WatcherView { state: WatchState::Idle, ..self }
        } else {
            self
        }
    }

    /// The watcher after the batch that it handed on was acknowledged:
    /// idle, or waiting again where events came in meanwhile.
    pub open spec fn after_ack(self) -> WatcherView {
        if self.state == WatchState::Flushing {
            WatcherView {
                state: if self.pending.len() > 0 || self.rescan {
                    WatchState::PendingBatch
                } else {
                    WatchState::Idle
                },
                ..self
            }
        } else {
            self
        }
    }

    /// The watcher after the file `path` was modified once at each of
    /// `times`, one after the other.
    pub open spec fn after_edits(self, path: Seq<u8>, times: Seq<u64>) -> WatcherView
        decreases times.len(),
    {
        if times.len() == 0 {
            self
        } else {
            self.after_edits(path, times.drop_last()).after_event(
                path,
                ChangeType::Modified,
                times.last(),
            )
        }
    }
}

/// Every step keeps a watcher sound.
pub proof fn lemma_steps_keep_sound(w: WatcherView, path: Seq<u8>, change: ChangeType, now: u64)
    requires
        w.wf(),
    ensures
        w.after_event(path, change, now).wf(),
        w.after_gap(now).wf(),
        w.after_tick(now).wf(),
        w.after_ack().wf(),
{
    lemma_absorbed_one_per_file(w.pending, w.repo_id, path, change, now);
}

/// Any number of edits of one file within the debounce time come to one
/// waiting change of that file: after one or more modifications of `path`
/// with no tick between them, exactly one change of `path` waits, unless
/// a full rescan is due, which covers the file too. The other waiting
/// changes stay as they were, and the debounce time runs from the last
/// edit.
pub proof fn lemma_edits_coalesce(w: WatcherView, path: Seq<u8>, times: Seq<u64>)
    requires
        w.wf(),
        times.len() >= 1,
    ensures
        ({
            let r = w.after_edits(path, times);
            &&& r.wf()
            &&& r.repo_id == w.repo_id
            &&& r.debounce_ms == w.debounce_ms
            &&& r.capacity == w.capacity
            &&& r.deadline == times.last().saturating_add(w.debounce_ms)
            &&& r.state == w.roused()
            &&& !r.rescan ==> {
                &&& slot(r.pending, path, 0) < r.pending.len()
                &&& r.pending[slot(r.pending, path, 0)].change != ChangeType::Deleted
                &&& forall|k: int|
                    0 <= k < r.pending.len() && k != slot(r.pending, path, 0) ==> (
                    #[trigger] r.pending[k]).path != path
                &&& r.pending.len() == w.pending.len() + if slot(w.pending, path, 0)
                    < w.pending.len() {
                    0int
                } else {
                    1int
                }
            }
        }),
    decreases times.len(),
{
    let before = w.after_edits(path, times.drop_last());
    let r = w.after_edits(path, times);
    if times.len() == 1 {
        assert(times.drop_last().len() == 0);
        assert(before == w);
    } else {
        lemma_edits_coalesce(w, path, times.drop_last());
    }
    lemma_steps_keep_sound(before, path, ChangeType::Modified, times.last());
    lemma_slot(before.pending, path, 0);
    lemma_slot(r.pending, path, 0);
    lemma_slot(w.pending, path, 0);
    if !r.rescan {
        let i = slot(before.pending, path, 0);
        assert(r.pending[i].path == path);
        assert forall|k: int| 0 <= k < r.pending.len() && k != slot(r.pending, path, 0) implies (
        #[trigger] r.pending[k]).path != path by {
            let s = slot(r.pending, path, 0);
            if k < s {
            } else {
                assert(r.pending[s].path != r.pending[k].path);
            }
        }
    }
}

/// The watcher of one repository.
pub struct IndexWatcher {
    repo_id: u64,
    state: WatchState,
    pending: Vec<PendingChange>,
    deadline: u64,
    debounce_ms: u64,
    capacity: usize,
    rescan: bool,
}

impl View for IndexWatcher {
    type V = WatcherView;

    closed spec fn view(&self) -> WatcherView {
        WatcherView {
            repo_id: self.repo_id,
            state: self.state,
            pending: views(self.pending@),
            deadline: self.deadline,
            debounce_ms: self.debounce_ms,
            capacity: self.capacity,
            rescan: self.rescan,
        }
    }
}

impl IndexWatcher {
    /// An idle watcher of the repository `repo_id` that hands on a batch
    /// `debounce_ms` milliseconds after the last event and lets at most
    /// `capacity` changes wait.
    pub fn new(repo_id: u64, debounce_ms: u64, capacity: usize) -> (r: IndexWatcher)
        ensures
            r@.wf(),
            r@ == (WatcherView {
                repo_id,
                state: WatchState::Idle,
                pending: Seq::empty(),
                deadline: 0,
                debounce_ms,
                capacity,
                rescan: false,
            }),
    {
        let r = IndexWatcher {
            repo_id,
            state: WatchState::Idle,
            pending: Vec::new(),
            deadline: 0,
            debounce_ms,
            capacity,
            rescan: false,
        };
        assert(views(r.pending@) =~= Seq::<PendingChangeView>::empty());
        r
    }

    /// Where the watcher stands.
    pub fn state(&self) -> (s: WatchState)
        ensures
            s == self@.state,
    {
        self.state
    }

    /// The number of changes that wait.
    pub fn waiting(&self) -> (n: usize)
        ensures
            n == self@.pending.len(),
    {
        self.pending.len()
    }

    /// The first position at which a change of `path` waits.
    fn find(&self, path: &[u8]) -> (i: usize)
        ensures
            i == slot(self@.pending, path@, 0),
            i <= self.pending.len(),
    {
        let mut i: usize = 0;
        while i < self.pending.len() && !bytes_eq(self.pending[i].path.as_slice(), path)
            invariant
                i <= self.pending.len(),
                slot(self@.pending, path@, i as int) == slot(self@.pending, path@, 0),
            decreases self.pending.len() - i,
        {
            assert(self@.pending[i as int] == self.pending[i as int]@);
            i += 1;
        }
        proof {
            if i < self.pending.len() {
                assert(self@.pending[i as int] == self.pending[i as int]@);
            }
        }
        i
    }

    /// Takes in a change of the file `path` that was seen at `now`.
    pub fn on_event(&mut self, path: &[u8], change: ChangeType, now: u64)
        requires
            old(self)@.wf(),
        ensures
            final(self)@ == old(self)@.after_event(path@, change, now),
            final(self)@.wf(),
    {
        proof {
            lemma_steps_keep_sound(self@, path@, change, now);
        }
        let ghost before = self@.pending;
        if !self.rescan {
            let i = self.find(path);
            if i < self.pending.len() {
                let old_change = self.pending[i].change;
                assert(before[i as int] == self.pending[i as int]@);
                self.pending.remove(i);
                match merge(old_change, change) {
                    Some(c) => {
                        let entry = PendingChange {
                            repo_id: self.repo_id,
                            path: bytes_of(path),
                            change: c,
                            detected_at: now,
                        };
                        let ghost ev = entry@;
                        self.pending.insert(i, entry);
                        assert(views(self.pending@) =~= before.update(i as int, ev));
                    },
                    None => {
                        assert(views(self.pending@) =~= before.remove(i as int));
                    },
                }
            } else {
                let entry = PendingChange {
                    repo_id: self.repo_id,
                    path: bytes_of(path),
                    change,
                    detected_at: now,
                };
                let ghost ev = entry@;
                self.pending.push(entry);
                assert(views(self.pending@) =~= before.push(ev));
            }
            if self.pending.len() > self.capacity {
                self.pending.clear();
                self.rescan = true;
                assert(views(self.pending@) =~= Seq::<PendingChangeView>::empty());
            }
        } else {
            assert(views(self.pending@) =~= Seq::<PendingChangeView>::empty());
        }
        if self.state != WatchState::Flushing {
            self.state = WatchState::PendingBatch;
        }
        self.deadline = now.saturating_add(self.debounce_ms);
    }

    /// Takes in that events were lost, as it was learned at `now`.
    pub fn on_gap(&mut self, now: u64)
        requires
            old(self)@.wf(),
        ensures
            final(self)@ == old(self)@.after_gap(now),
            final(self)@.wf(),
    {
        self.pending.clear();
        assert(views(self.pending@) =~= Seq::<PendingChangeView>::empty());
        self.rescan = true;
        if self.state != WatchState::Flushing {
            self.state = WatchState::PendingBatch;
        }
        self.deadline = now.saturating_add(self.debounce_ms);
    }

    /// Reads the clock: where the debounce time has passed at `now`, the
    /// waiting changes are handed on as one batch.
    pub fn tick(&mut self, now: u64) -> (r: Option<RepoBatch>)
        requires
            old(self)@.wf(),
        ensures
            final(self)@ == old(self)@.after_tick(now),
            final(self)@.wf(),
            r is Some <==> old(self)@.due(now),
            r matches Some(b) ==> b@ == old(self)@.batch(),
    {
        if self.state == WatchState::PendingBatch && now >= self.deadline {
            if self.pending.len() > 0 || self.rescan {
                let mut changes: Vec<PendingChange> = Vec::new();
                std::mem::swap(&mut self.pending, &mut changes);
                let batch = RepoBatch { repo_id: self.repo_id, changes, full_rescan: self.rescan };
                self.rescan = false;
                self.state = WatchState::Flushing;
                assert(views(self.pending@) =~= Seq::<PendingChangeView>::empty());
                Some(batch)
            } else {
                self.state = WatchState::Idle;
                None
            }
        } else {
            None
        }
    }

    /// Takes in that the batch handed on was applied.
    pub fn acknowledge(&mut self)
        requires
            old(self)@.wf(),
        ensures
            final(self)@ == old(self)@.after_ack(),
            final(self)@.wf(),
    {
        if self.state == WatchState::Flushing {
            if self.pending.len() > 0 || self.rescan {
                self.state = WatchState::PendingBatch;
            } else {
                self.state = WatchState::Idle;
            }
        }
    }
}

/// Nothing is handed on before the debounce time has passed: after an
/// event at `at`, a look at the clock at `now` hands on a batch only where
/// `now` is at least the debounce time behind `at`, or the end of time.
pub proof fn lemma_quiet_within_debounce(
    w: WatcherView,
    path: Seq<u8>,
    change: ChangeType,
    at: u64,
    now: u64,
)
    requires
        w.wf(),
        w.after_event(path, change, at).due(now),
    ensures
        now >= at + w.debounce_ms || now == u64::MAX,
{
}

/// What is handed on is what waited, and nothing waits behind it: the
/// batch of a due watcher holds the waiting changes, one for each file,
/// and the watcher is then flushing with nothing waiting.
pub proof fn lemma_flush_hands_on_all(w: WatcherView, now: u64)
    requires
        w.wf(),
        w.due(now),
    ensures
        one_per_file(w.batch().changes),
        w.batch().changes == w.pending,
        w.after_tick(now).state == WatchState::Flushing,
        w.after_tick(now).pending.len() == 0,
        !w.after_tick(now).rescan,
        w.after_tick(now).after_ack().state == WatchState::Idle,
{
}

/// A file as one look at a directory found it: its path and the hash of
/// its content.
#[derive(Debug)]
pub struct Seen {
    pub path: Vec<u8>,
    pub hash: u64,
}

impl View for Seen {
    type V = (Seq<u8>, u64);

    open spec fn view(&self) -> (Seq<u8>, u64) {
        (self.path@, self.hash)
    }
}

/// The first position from `i` on of the file `path` in a look, or the
/// number of files where it is not among them.
pub open spec fn seen_at(look: Seq<(Seq<u8>, u64)>, path: Seq<u8>, i: int) -> int
    decreases look.len() - i,
{
    if 0 <= i < look.len() && look[i].0 != path {
        seen_at(look, path, i + 1)
    } else {
        i
    }
}

/// What became of the file `f` of the later look: created where the
/// earlier look does not have it, modified where it has it with another
/// hash.
pub open spec fn arrival(before: Seq<(Seq<u8>, u64)>, f: (Seq<u8>, u64)) -> Seq<
    (Seq<u8>, ChangeType),
> {
    let i = seen_at(before, f.0, 0);
    if i >= before.len() {
        seq![(f.0, ChangeType::Created)]
    } else if before[i].1 != f.1 {
        seq![(f.0, ChangeType::Modified)]
    } else {
        Seq::empty()
    }
}

/// What the first `n` files of the later look say happened.
pub open spec fn arrivals(before: Seq<(Seq<u8>, u64)>, after: Seq<(Seq<u8>, u64)>, n: int) -> Seq<
    (Seq<u8>, ChangeType),
>
    decreases n,
{
    if n <= 0 {
        Seq::empty()
    } else {
        arrivals(before, after, n - 1) + arrival(before, after[n - 1])
    }
}

/// The files among the first `n` of the earlier look that the later look
/// does not have: they were deleted.
pub open spec fn departures(before: Seq<(Seq<u8>, u64)>, after: Seq<(Seq<u8>, u64)>, n: int) -> Seq<
    (Seq<u8>, ChangeType),
>
    decreases n,
{
    if n <= 0 {
        Seq::empty()
    } else if seen_at(after, before[n - 1].0, 0) >= after.len() {
        departures(before, after, n - 1).push((before[n - 1].0, ChangeType::Deleted))
    } else {
        departures(before, after, n - 1)
    }
}

/// What happened between two looks at a directory: the files that were
/// created or modified, in the order of the later look, then the files
/// that were deleted, in the order of the earlier one.
pub open spec fn differences(before: Seq<(Seq<u8>, u64)>, after: Seq<(Seq<u8>, u64)>) -> Seq<
    (Seq<u8>, ChangeType),
> {
    arrivals(before, after, after.len() as int) + departures(before, after, before.len() as int)
}

/// The position of the file `path` in a look.
pub fn find_seen(look: &Vec<Seen>, path: &[u8]) -> (i: usize)
    ensures
        i == seen_at(views(look@), path@, 0),
        i <= look.len(),
{
    let mut i: usize = 0;
    while i < look.len() && !bytes_eq(look[i].path.as_slice(), path)
        invariant
            i <= look.len(),
            seen_at(views(look@), path@, i as int) == seen_at(views(look@), path@, 0),
        decreases look.len() - i,
    {
        assert(views(look@)[i as int] == look[i as int]@);
        i += 1;
    }
    proof {
        if i < look.len() {
            assert(views(look@)[i as int] == look[i as int]@);
        }
    }
    i
}

/// A change of a file as a look at its directory found it.
#[derive(Debug)]
pub struct Difference {
    pub path: Vec<u8>,
    pub change: ChangeType,
}

impl View for Difference {
    type V = (Seq<u8>, ChangeType);

    open spec fn view(&self) -> (Seq<u8>, ChangeType) {
        (self.path@, self.change)
    }
}

/// Tells what happened between two looks at a directory.
pub fn compare_looks(before: &Vec<Seen>, after: &Vec<Seen>) -> (out: Vec<Difference>)
    ensures
        views(out@) == differences(views(before@), views(after@)),
{
    let ghost b = views(before@);
    let ghost a = views(after@);
    let mut out: Vec<Difference> = Vec::new();
    let mut n: usize = 0;
    assert(views(out@) =~= arrivals(b, a, 0));
    while n < after.len()
        invariant
            n <= after.len(),
            b == views(before@),
            a == views(after@),
            views(out@) == arrivals(b, a, n as int),
        decreases after.len() - n,
    {
        assert(a[n as int] == after[n as int]@);
        let ghost so_far = views(out@);
        let i = find_seen(before, after[n].path.as_slice());
        if i >= before.len() {
            out.push(Difference { path: bytes_of(after[n].path.as_slice()), change: ChangeType::Created });
            assert(views(out@) =~= so_far + arrival(b, a[n as int]));
        } else {
            assert(b[i as int] == before[i as int]@);
            if before[i].hash != after[n].hash {
                out.push(
                    Difference {
                        path: bytes_of(after[n].path.as_slice()),
                        change: ChangeType::Modified,
                    },
                );
                assert(views(out@) =~= so_far + arrival(b, a[n as int]));
            } else {
                assert(views(out@) =~= so_far + arrival(b, a[n as int]));
            }
        }
        n += 1;
    }
    let ghost arrived = views(out@);
    let mut m: usize = 0;
    assert(views(out@) =~= arrived + departures(b, a, 0));
    while m < before.len()
        invariant
            m <= before.len(),
            b == views(before@),
            a == views(after@),
            views(out@) == arrived + departures(b, a, m as int),
        decreases before.len() - m,
    {
        assert(b[m as int] == before[m as int]@);
        let ghost so_far = views(out@);
        let i = find_seen(after, before[m].path.as_slice());
        if i >= after.len() {
            let d = Difference { path: bytes_of(before[m].path.as_slice()), change: ChangeType::Deleted };
            let ghost dv = d@;
            out.push(d);
            assert(dv == (b[m as int].0, ChangeType::Deleted));
            assert(views(out@) =~= so_far.push(dv));
            assert(departures(b, a, m + 1) == departures(b, a, m as int).push(dv));
            assert(views(out@) =~= arrived + departures(b, a, m + 1));
        }
        m += 1;
    }
    out
}

} // verus!
