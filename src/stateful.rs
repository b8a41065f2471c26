//! The per-step state of the stateful batch operator: live logics by key,
//! the wake-up schedule, and the keys touched since the last snapshot.
use vstd::prelude::*;
use crate::key::{StateKey, StepId, key_lt};
use crate::keymap::{KeyMap, keys_sorted};
use crate::logic::{Callback, IsComplete, LogicBuilder, LogicError, StatefulBatchLogic, logic_error};
use crate::snapshot::{SerializedSnapshot, SnapshotMode};
use crate::time::{Timestamp, delay_micros};

verus! {

broadcast use vstd::seq::group_seq_axioms;

/// The epoch a dataflow starts at when there is nothing to resume from.
pub const DEFAULT_RESUME_EPOCH: u64 = 1;

/// Where a resumed step starts: its epoch and the snapshots the local state
/// store replays for it, oldest first.
pub struct ResumeState {
    pub epoch: u64,
    pub snaps: Vec<(StateKey, Option<Vec<u8>>)>,
}

pub open spec fn snaps_view(snaps: Seq<(StateKey, Option<Vec<u8>>)>) -> Seq<(Seq<char>, bool)> {
    snaps.map_values(|s: (StateKey, Option<Vec<u8>>)| (s.0@, s.1.is_some()))
}

/// Whether replaying `snaps` leaves a live logic for `k`: its latest snapshot
/// holds state rather than a tombstone.
pub open spec fn restored(snaps: Seq<(Seq<char>, bool)>, k: Seq<char>) -> bool
    decreases snaps.len(),
{
    if snaps.len() == 0 {
        false
    } else if snaps.last().0 == k {
        snaps.last().1
    } else {
        restored(snaps.drop_last(), k)
    }
}

/// The keys of a walk, by view.
pub open spec fn key_views(ks: Seq<StateKey>) -> Seq<Seq<char>> {
    ks.map_values(|k: StateKey| k@)
}

pub struct StatefulBatchState<L, B> {
    step_id: StepId,
    resume_epoch: u64,
    builder: B,
    logics: KeyMap<L>,
    sched_cache: KeyMap<Timestamp>,
    awoken: KeyMap<()>,
    snapshot_mode: SnapshotMode,
}

impl<L, B> StatefulBatchState<L, B> {
    pub closed spec fn step(self) -> Seq<char> {
        self.step_id@
    }

    pub closed spec fn resume(self) -> u64 {
        self.resume_epoch
    }

    pub closed spec fn mode(self) -> SnapshotMode {
        self.snapshot_mode
    }

    /// Live logics by key.
    pub closed spec fn logics(self) -> Map<Seq<char>, L> {
        self.logics.map()
    }

    /// The last wake-up time each logic asked for.
    pub closed spec fn sched(self) -> Map<Seq<char>, Timestamp> {
        self.sched_cache.map()
    }

    /// Keys touched since their last snapshot.
    pub closed spec fn awoken_set(self) -> Set<Seq<char>> {
        self.awoken.map().dom()
    }

    pub closed spec fn wf(self) -> bool {
        &&& self.logics.wf()
        &&& self.sched_cache.wf()
        &&& self.awoken.wf()
        &&& self.sched_cache.map().dom().subset_of(self.logics.map().dom())
    }

    pub proof fn lemma_sched_has_logic(self)
        requires
            self.wf(),
        ensures
            self.sched().dom().subset_of(self.logics().dom()),
    {
    }

    /// Registers the step and replays its resume snapshots: a snapshot with
    /// state builds a logic from it, a tombstone drops the key.
    pub fn init(
        step_id: StepId,
        resume: Option<ResumeState>,
        builder: B,
        snapshot_mode: SnapshotMode,
    ) -> (r: Result<Self, LogicError>)
        where B: LogicBuilder<L>, L: StatefulBatchLogic,
        ensures
            resume is None ==> r is Ok,
            r is Err ==> r->Err_0.step_id@ == step_id@,
            r is Ok ==> {
                let s = r.unwrap();
                &&& s.wf()
                &&& s.step() == step_id@
                &&& s.mode() == snapshot_mode
                &&& s.resume() == (match resume {
                    Some(rs) => rs.epoch,
                    None => DEFAULT_RESUME_EPOCH,
                })
                &&& s.sched().is_empty()
                &&& s.awoken_set().is_empty()
                &&& forall|k: Seq<char>|
                    s.logics().contains_key(k) == (match resume {
                        Some(rs) => restored(snaps_view(rs.snaps@), k),
                        None => false,
                    })
            },
    {
        let mut this = StatefulBatchState {
            step_id,
            resume_epoch: DEFAULT_RESUME_EPOCH,
            builder,
            logics: KeyMap::new(),
            sched_cache: KeyMap::new(),
            awoken: KeyMap::new(),
            snapshot_mode,
        };
        proof {
            assert(this.sched().is_empty());
            assert(this.awoken_set() =~= Set::empty());
        }
        match resume {
            None => Ok(this),
            Some(rs) => {
                this.resume_epoch = rs.epoch;
                let ghost all = snaps_view(rs.snaps@);
                let mut i: usize = 0;
                while i < rs.snaps.len()
                    invariant
                        this.wf(),
                        this.step() == step_id@,
                        this.mode() == snapshot_mode,
                        this.resume() == rs.epoch,
                        this.sched().is_empty(),
                        this.awoken_set().is_empty(),
                        all == snaps_view(rs.snaps@),
                        resume is Some,
                        i <= rs.snaps@.len(),
                        forall|k: Seq<char>|
                            this.logics().contains_key(k) == restored(all.subrange(0, i as int), k),
                    decreases rs.snaps@.len() - i,
                {
                    let key = rs.snaps[i].0.duplicate();
                    proof {
                        assert(all.subrange(0, i + 1).drop_last() =~= all.subrange(0, i as int));
                        assert(all.subrange(0, i + 1).last() == all[i as int]);
                        assert(all[i as int] == (rs.snaps@[i as int].0@, rs.snaps@[i as int].1.is_some()));
                    }
                    match &rs.snaps[i].1 {
                        Some(bytes) => {
                            let built = this.builder.build(Some(bytes.clone()));
                            match built {
                                Ok(logic) => {
                                    this.logics.insert(key, logic);
                                },
                                Err(message) => {
                                    return Err(logic_error(&this.step_id, &key, Callback::Build, message));
                                },
                            }
                        },
                        None => {
                            let gone = this.logics.remove(&key);
                            match gone {
                                Some(logic) => {
                                    match logic.close() {
                                        Ok(()) => {},
                                        Err(message) => {
                                            return Err(logic_error(&this.step_id, &key, Callback::Close, message));
                                        },
                                    }
                                },
                                None => {},
                            }
                        },
                    }
                    proof {
                        assert(this.sched_cache.map().dom().subset_of(this.logics.map().dom()));
                        let next = all.subrange(0, i + 1);
                        assert forall|k: Seq<char>|
                            this.logics().contains_key(k) == restored(next, k) by {
                            assert(next.len() > 0);
                            assert(restored(next, k) == if next.last().0 == k {
                                next.last().1
                            } else {
                                restored(next.drop_last(), k)
                            });
                        }
                    }
                    i = i + 1;
                }
                proof {
                    assert(all.subrange(0, i as int) =~= all);
                }
                Ok(this)
            },
        }
    }

    /// Everything but the live logics is as it was.
    pub open spec fn same_but_logics(self, other: Self) -> bool {
        &&& self.step() == other.step()
        &&& self.resume() == other.resume()
        &&& self.mode() == other.mode()
        &&& self.sched() == other.sched()
        &&& self.awoken_set() == other.awoken_set()
    }

    pub fn step_id(&self) -> (r: &StepId)
        ensures
            r@ == self.step(),
    {
        &self.step_id
    }

    pub fn snapshot_mode(&self) -> (r: SnapshotMode)
        ensures
            r == self.mode(),
    {
        self.snapshot_mode
    }

    /// The epoch the dataflow starts at.
    pub fn start_at(&self) -> (r: u64)
        ensures
            r == self.resume(),
    {
        self.resume_epoch
    }

    /// Builds a logic for `state_key` (from `state` if given) and stores it,
    /// replacing any logic already there.
    pub fn insert(&mut self, state_key: StateKey, state: Option<Vec<u8>>) -> (r: Result<(), LogicError>)
        where B: LogicBuilder<L>,
        requires
            old(self).wf(),
        ensures
            final(self).wf(),
            final(self).same_but_logics(*old(self)),
            r is Ok ==> final(self).logics().dom() == old(self).logics().dom().insert(state_key@),
            r is Err ==> final(self).logics() == old(self).logics(),
            final(self).logics().remove(state_key@) == old(self).logics().remove(state_key@),
    {
        match self.builder.build(state) {
            Ok(logic) => {
                let ghost k = state_key@;
                self.logics.insert(state_key, logic);
                proof {
                    assert(self.logics().dom() =~= old(self).logics().dom().insert(k));
                    assert(self.logics().remove(k) =~= old(self).logics().remove(k));
                }
                Ok(())
            },
            Err(message) => Err(logic_error(&self.step_id, &state_key, Callback::Build, message)),
        }
    }

    /// The keys touched since their last snapshot, in key order.
    pub fn awoken(&self) -> (r: Vec<StateKey>)
        requires
            self.wf(),
        ensures
            keys_sorted(key_views(r@)),
            key_views(r@).to_set() == self.awoken_set(),
    {
        let r = self.awoken.keys();
        proof {
            self.awoken.lemma_map_dom();
            assert(key_views(r@) == self.awoken.key_seq());
        }
        r
    }

    /// Whether `key` has a live logic.
    pub fn contains_key(&self, key: &StateKey) -> (r: bool)
        requires
            self.wf(),
        ensures
            r == self.logics().contains_key(key@),
    {
        self.logics.contains_key(key)
    }

    /// The keys with a live logic, in key order.
    pub fn keys(&self) -> (r: Vec<StateKey>)
        requires
            self.wf(),
        ensures
            keys_sorted(key_views(r@)),
            key_views(r@).to_set() == self.logics().dom(),
    {
        let r = self.logics.keys();
        proof {
            self.logics.lemma_map_dom();
            assert(key_views(r@) == self.logics.key_seq());
        }
        r
    }

    /// Records that `key`'s logic next wants waking at `time`.
    pub fn schedule(&mut self, key: StateKey, time: Timestamp)
        requires
            old(self).wf(),
            old(self).logics().contains_key(key@),
        ensures
            final(self).wf(),
            final(self).sched() == old(self).sched().insert(key@, time),
            final(self).logics() == old(self).logics(),
            final(self).awoken_set() == old(self).awoken_set(),
            final(self).step() == old(self).step(),
            final(self).resume() == old(self).resume(),
            final(self).mode() == old(self).mode(),
    {
        self.sched_cache.insert(key, time);
    }

    /// Drops `key`'s logic, closing it, and its schedule.
    pub fn remove(&mut self, key: &StateKey) -> (r: Result<(), LogicError>)
        where L: StatefulBatchLogic,
        requires
            old(self).wf(),
        ensures
            final(self).wf(),
            final(self).logics() == old(self).logics().remove(key@),
            final(self).sched() == old(self).sched().remove(key@),
            final(self).awoken_set() == old(self).awoken_set(),
            final(self).step() == old(self).step(),
            final(self).resume() == old(self).resume(),
            final(self).mode() == old(self).mode(),
    {
        let gone = self.logics.remove(key);
        let _ = self.sched_cache.remove(key);
        match gone {
            Some(logic) => match logic.close() {
                Ok(()) => Ok(()),
                Err(message) => Err(logic_error(&self.step_id, key, Callback::Close, message)),
            },
            None => Ok(()),
        }
    }

    /// The keys whose scheduled wake-up is at or before `now`, in key order.
    pub fn notify_keys(&self, now: Timestamp) -> (r: Vec<StateKey>)
        requires
            self.wf(),
        ensures
            keys_sorted(key_views(r@)),
            forall|k: Seq<char>|
                key_views(r@).contains(k) == (self.sched().contains_key(k) && self.sched()[k].micros
                    <= now.micros),
    {
        let ghost ks = self.sched_cache.key_seq();
        let mut r: Vec<StateKey> = Vec::new();
        let mut i: usize = 0;
        while i < self.sched_cache.len()
            invariant
                self.wf(),
                ks == self.sched_cache.key_seq(),
                i <= ks.len(),
                keys_sorted(key_views(r@)),
                forall|m: int, j: int|
                    0 <= m < r@.len() && i <= j < ks.len() ==> key_lt(
                        #[trigger] key_views(r@)[m],
                        #[trigger] ks[j],
                    ),
                forall|k: Seq<char>|
                    key_views(r@).contains(k) == (ks.subrange(0, i as int).contains(k)
                        && self.sched()[k].micros <= now.micros),
            decreases ks.len() - i,
        {
            proof {
                self.sched_cache.lemma_index(i as int);
            }
            let ghost prev = r@;
            let due = self.sched_cache.value_at(i).is_at_or_before(now);
            if due {
                r.push(self.sched_cache.key_at(i).duplicate());
                proof {
                    assert(key_views(r@) =~= key_views(prev).push(ks[i as int]));
                }
            }
            proof {
                let sub = ks.subrange(0, i as int);
                let sub1 = ks.subrange(0, i + 1);
                assert(sub1 =~= sub.push(ks[i as int]));
                assert(!sub.contains(ks[i as int])) by {
                    if sub.contains(ks[i as int]) {
                        let j = choose|j: int| 0 <= j < sub.len() && sub[j] == ks[i as int];
                        crate::keymap::lemma_sorted_distinct(ks, j, i as int);
                    }
                }
                assert forall|m: int, j: int|
                    0 <= m < r@.len() && i + 1 <= j < ks.len() implies key_lt(
                        #[trigger] key_views(r@)[m],
                        #[trigger] ks[j],
                    ) by {
                    if m < prev.len() {
                        assert(key_views(r@)[m] == key_views(prev)[m]);
                    }
                }
                assert forall|k: Seq<char>|
                    key_views(r@).contains(k) == (sub1.contains(k)
                        && self.sched()[k].micros <= now.micros) by {
                    if k == ks[i as int] {
                        assert(sub1[i as int] == k);
                        assert(!key_views(prev).contains(k));
                        if due {
                            assert(key_views(r@)[prev.len() as int] == k);
                        }
                    } else {
                        if due {
                            if key_views(r@).contains(k) {
                                let m = choose|m: int| 0 <= m < r@.len() && key_views(r@)[m] == k;
                                assert(m < prev.len());
                                assert(key_views(prev)[m] == k);
                            }
                            if key_views(prev).contains(k) {
                                let m = choose|m: int| 0 <= m < prev.len() && key_views(prev)[m] == k;
                                assert(key_views(r@)[m] == k);
                            }
                        }
                        if sub1.contains(k) {
                            let j = choose|j: int| 0 <= j < sub1.len() && sub1[j] == k;
                            assert(sub[j] == k);
                        }
                        if sub.contains(k) {
                            let j = choose|j: int| 0 <= j < sub.len() && sub[j] == k;
                            assert(sub1[j] == k);
                        }
                    }
                }
            }
            i = i + 1;
        }
        proof {
            assert(ks.subrange(0, i as int) =~= ks);
            assert forall|k: Seq<char>|
                key_views(r@).contains(k) == (self.sched().contains_key(k) && self.sched()[k].micros
                    <= now.micros) by {
                if ks.contains(k) {
                    let j = choose|j: int| 0 <= j < ks.len() && ks[j] == k;
                    self.sched_cache.lemma_index(j);
                }
            }
        }
        r
    }

    /// The shortest wait until a scheduled wake-up (zero for one already
    /// due), or `None` when nothing is scheduled.
    pub fn activate_after(&self, now: Timestamp) -> (r: Option<u64>)
        requires
            self.wf(),
        ensures
            soonest(self.sched(), now, r),
    {
        let ghost ks = self.sched_cache.key_seq();
        let mut best: Option<u64> = None;
        let mut i: usize = 0;
        while i < self.sched_cache.len()
            invariant
                self.wf(),
                ks == self.sched_cache.key_seq(),
                i <= ks.len(),
                best.is_none() == (i == 0),
                best.is_some() ==> (exists|j: int|
                    0 <= j < i && best.unwrap() == delay_micros(#[trigger] self.sched()[ks[j]], now)),
                best.is_some() ==> (forall|j: int|
                    0 <= j < i ==> best.unwrap() <= delay_micros(#[trigger] self.sched()[ks[j]], now)),
            decreases ks.len() - i,
        {
            proof {
                self.sched_cache.lemma_index(i as int);
            }
            let d = self.sched_cache.value_at(i).delay_from(now);
            let ghost prev = best;
            match best {
                Some(b) => {
                    if d < b {
                        best = Some(d);
                    }
                },
                None => {
                    best = Some(d);
                },
            }
            proof {
                if best.unwrap() == d {
                    assert(best.unwrap() == delay_micros(self.sched()[ks[i as int]], now));
                } else {
                    let j = choose|j: int|
                        0 <= j < i && prev.unwrap() == delay_micros(#[trigger] self.sched()[ks[j]], now);
                    assert(best.unwrap() == delay_micros(self.sched()[ks[j]], now));
                }
            }
            i = i + 1;
        }
        proof {
            self.sched_cache.lemma_map_dom();
            if self.sched().is_empty() {
                assert(ks.len() == 0) by {
                    if ks.len() > 0 {
                        self.sched_cache.lemma_index(0);
                    }
                }
            } else {
                let k0 = choose|k: Seq<char>| self.sched().contains_key(k);
                assert(ks.to_set().contains(k0));
            }
            if best.is_some() {
                let j = choose|j: int|
                    0 <= j < i && best.unwrap() == delay_micros(#[trigger] self.sched()[ks[j]], now);
                self.sched_cache.lemma_index(j);
                assert forall|k: Seq<char>| self.sched().contains_key(k) implies best.unwrap()
                    <= delay_micros(#[trigger] self.sched()[k], now) by {
                    assert(ks.to_set().contains(k));
                    let jj = choose|jj: int| 0 <= jj < ks.len() && ks[jj] == k;
                    assert(best.unwrap() <= delay_micros(self.sched()[ks[jj]], now));
                }
            }
        }
        best
    }

    /// Hands `values` to `key`'s logic and marks the key touched.
    pub fn on_batch(&mut self, key: &StateKey, values: Vec<L::Value>) -> (r: Result<(Vec<L::Value>, IsComplete), LogicError>)
        where L: StatefulBatchLogic,
        requires
            old(self).wf(),
            old(self).logics().contains_key(key@),
        ensures
            final(self).wf(),
            final(self).logics().dom() == old(self).logics().dom(),
            final(self).sched() == old(self).sched(),
            final(self).step() == old(self).step(),
            final(self).resume() == old(self).resume(),
            final(self).mode() == old(self).mode(),
            r is Ok ==> final(self).awoken_set() == old(self).awoken_set().insert(key@),
            r is Err ==> final(self).awoken_set() == old(self).awoken_set(),
            r is Err ==> r->Err_0.step_id@ == old(self).step() && r->Err_0.key@ == key@,
    {
        let i = match self.logics.find(key) {
            Some(i) => i,
            None => {
                return Err(logic_error(&self.step_id, key, Callback::OnBatch, String::new()));
            },
        };
        let ghost before = self.logics;
        let res = {
            let logic = self.logics.value_at_mut(i);
            logic.on_batch(values)
        };
        proof {
            KeyMap::lemma_update(before, self.logics, i as int, self.logics.entries()[i as int].1);
            assert(self.logics().dom() =~= old(self).logics().dom());
        }
        match res {
            Ok(out) => {
                self.awoken.insert(key.duplicate(), ());
                Ok(out)
            },
            Err(message) => Err(logic_error(&self.step_id, key, Callback::OnBatch, message)),
        }
    }

    /// Wakes `key`'s logic for a due schedule and marks the key touched.
    pub fn on_notify(&mut self, key: &StateKey) -> (r: Result<(Vec<L::Value>, IsComplete), LogicError>)
        where L: StatefulBatchLogic,
        requires
            old(self).wf(),
            old(self).logics().contains_key(key@),
        ensures
            final(self).wf(),
            final(self).logics().dom() == old(self).logics().dom(),
            final(self).sched() == old(self).sched(),
            final(self).step() == old(self).step(),
            final(self).resume() == old(self).resume(),
            final(self).mode() == old(self).mode(),
            r is Ok ==> final(self).awoken_set() == old(self).awoken_set().insert(key@),
            r is Err ==> final(self).awoken_set() == old(self).awoken_set(),
            r is Err ==> r->Err_0.step_id@ == old(self).step() && r->Err_0.key@ == key@,
    {
        let i = match self.logics.find(key) {
            Some(i) => i,
            None => {
                return Err(logic_error(&self.step_id, key, Callback::OnNotify, String::new()));
            },
        };
        let ghost before = self.logics;
        let res = {
            let logic = self.logics.value_at_mut(i);
            logic.on_notify()
        };
        proof {
            KeyMap::lemma_update(before, self.logics, i as int, self.logics.entries()[i as int].1);
            assert(self.logics().dom() =~= old(self).logics().dom());
        }
        match res {
            Ok(out) => {
                self.awoken.insert(key.duplicate(), ());
                Ok(out)
            },
            Err(message) => Err(logic_error(&self.step_id, key, Callback::OnNotify, message)),
        }
    }

    /// Tells `key`'s logic the input ended and marks the key touched.
    pub fn on_eof(&mut self, key: &StateKey) -> (r: Result<(Vec<L::Value>, IsComplete), LogicError>)
        where L: StatefulBatchLogic,
        requires
            old(self).wf(),
            old(self).logics().contains_key(key@),
        ensures
            final(self).wf(),
            final(self).logics().dom() == old(self).logics().dom(),
            final(self).sched() == old(self).sched(),
            final(self).step() == old(self).step(),
            final(self).resume() == old(self).resume(),
            final(self).mode() == old(self).mode(),
            r is Ok ==> final(self).awoken_set() == old(self).awoken_set().insert(key@),
            r is Err ==> final(self).awoken_set() == old(self).awoken_set(),
            r is Err ==> r->Err_0.step_id@ == old(self).step() && r->Err_0.key@ == key@,
    {
        let i = match self.logics.find(key) {
            Some(i) => i,
            None => {
                return Err(logic_error(&self.step_id, key, Callback::OnEof, String::new()));
            },
        };
        let ghost before = self.logics;
        let res = {
            let logic = self.logics.value_at_mut(i);
            logic.on_eof()
        };
        proof {
            KeyMap::lemma_update(before, self.logics, i as int, self.logics.entries()[i as int].1);
            assert(self.logics().dom() =~= old(self).logics().dom());
        }
        match res {
            Ok(out) => {
                self.awoken.insert(key.duplicate(), ());
                Ok(out)
            },
            Err(message) => Err(logic_error(&self.step_id, key, Callback::OnEof, message)),
        }
    }

    /// When `key`'s logic next wants waking; none when the key has no logic.
    pub fn notify_at(&self, key: &StateKey) -> (r: Result<Option<Timestamp>, LogicError>)
        where L: StatefulBatchLogic,
        requires
            self.wf(),
        ensures
            !self.logics().contains_key(key@) ==> r == Ok::<Option<Timestamp>, LogicError>(None),
            r matches Ok(Some(_)) ==> self.logics().contains_key(key@),
            r is Err ==> r->Err_0.step_id@ == self.step() && r->Err_0.key@ == key@,
    {
        match self.logics.get(key) {
            Some(logic) => match logic.notify_at() {
                Ok(at) => Ok(at),
                Err(message) => Err(logic_error(&self.step_id, key, Callback::NotifyAt, message)),
            },
            None => Ok(None),
        }
    }

    /// The snapshot of `key` at `epoch`: its logic's serialized state, or a
    /// tombstone when the key has no logic.
    pub fn snap(&self, key: StateKey, epoch: u64) -> (r: Result<SerializedSnapshot, LogicError>)
        where L: StatefulBatchLogic,
        requires
            self.wf(),
        ensures
            !self.logics().contains_key(key@) ==> r is Ok,
            r is Err ==> r->Err_0.step_id@ == self.step() && r->Err_0.key@ == key@,
            r is Ok ==> r.unwrap().step_id@ == self.step() && r.unwrap().state_key@ == key@
                && r.unwrap().epoch == epoch && r.unwrap().payload.is_some()
                == self.logics().contains_key(key@),
    {
        let payload = match self.logics.get(&key) {
            Some(logic) => match logic.snapshot() {
                Ok(bytes) => Some(bytes),
                Err(message) => {
                    return Err(logic_error(&self.step_id, &key, Callback::Snapshot, message));
                },
            },
            None => None,
        };
        Ok(SerializedSnapshot::new(self.step_id.duplicate(), key, epoch, payload))
    }

    /// Drains the touched keys into snapshots at `epoch`, in key order, when
    /// the mode is immediate or the epoch is closed; otherwise takes none.
    pub fn snapshots(&mut self, epoch: u64, is_epoch_closed: bool) -> (r: Result<Vec<SerializedSnapshot>, LogicError>)
        where L: StatefulBatchLogic,
        requires
            old(self).wf(),
        ensures
            final(self).wf(),
            final(self).logics() == old(self).logics(),
            final(self).sched() == old(self).sched(),
            final(self).step() == old(self).step(),
            final(self).resume() == old(self).resume(),
            final(self).mode() == old(self).mode(),
            !(old(self).mode() == SnapshotMode::Immediate || is_epoch_closed) ==> r is Ok,
            (forall|k: Seq<char>| #[trigger] old(self).awoken_set().contains(k) ==> !old(self).logics().contains_key(k))
                ==> r is Ok,
            r is Err ==> r->Err_0.step_id@ == old(self).step(),
            r is Ok ==> snaps_of(r.unwrap()@, old(self).step(), epoch, old(self).logics()),
            r is Ok && (old(self).mode() == SnapshotMode::Immediate || is_epoch_closed) ==> {
                &&& keys_sorted(snap_keys(r.unwrap()@))
                &&& snap_keys(r.unwrap()@).to_set() == old(self).awoken_set()
                &&& final(self).awoken_set().is_empty()
            },
            r is Ok && !(old(self).mode() == SnapshotMode::Immediate || is_epoch_closed) ==> {
                &&& r.unwrap()@.len() == 0
                &&& final(self).awoken_set() == old(self).awoken_set()
            },
    {
        let mut res: Vec<SerializedSnapshot> = Vec::new();
        if self.snapshot_mode.immediate() || is_epoch_closed {
            let keys = self.awoken.keys();
            proof {
                self.awoken.lemma_map_dom();
            }
            let ghost kv = key_views(keys@);
            let mut i: usize = 0;
            while i < keys.len()
                invariant
                    self.wf(),
                    *self == *old(self),
                    kv == key_views(keys@),
                    kv == self.awoken.key_seq(),
                    i <= keys@.len(),
                    snaps_of(res@, self.step(), epoch, self.logics()),
                    snap_keys(res@) == kv.subrange(0, i as int),
                    kv.to_set() == self.awoken_set(),
                    old(self).mode() == SnapshotMode::Immediate || is_epoch_closed,
                decreases keys@.len() - i,
            {
                proof {
                    assert(kv.to_set().contains(kv[i as int]));
                }
                let snap = self.snap(keys[i].duplicate(), epoch)?;
                let ghost prev = res@;
                res.push(snap);
                proof {
                    assert(snap_keys(res@) =~= snap_keys(prev).push(kv[i as int]));
                    assert(kv.subrange(0, i + 1) =~= kv.subrange(0, i as int).push(kv[i as int]));
                }
                i = i + 1;
            }
            proof {
                assert(kv.subrange(0, i as int) =~= kv);
            }
            let _ = self.awoken.drain();
            proof {
                assert(self.awoken_set() =~= Set::empty());
            }
        }
        Ok(res)
    }
}

/// `r` is the shortest wait from `now` until a time in `sched`, none when
/// `sched` is empty.
pub open spec fn soonest(sched: Map<Seq<char>, Timestamp>, now: Timestamp, r: Option<u64>) -> bool {
    &&& r.is_none() == sched.is_empty()
    &&& r.is_some() ==> (exists|k: Seq<char>|
        sched.contains_key(k) && r.unwrap() == delay_micros(#[trigger] sched[k], now))
    &&& r.is_some() ==> (forall|k: Seq<char>|
        sched.contains_key(k) ==> r.unwrap() <= delay_micros(#[trigger] sched[k], now))
}

/// The keys of a run of snapshots, in order.
pub open spec fn snap_keys(snaps: Seq<SerializedSnapshot>) -> Seq<Seq<char>> {
    snaps.map_values(|s: SerializedSnapshot| s.state_key@)
}

/// Each snapshot is of `step` at `epoch`, a tombstone exactly where the key
/// has no logic.
pub open spec fn snaps_of<L>(snaps: Seq<SerializedSnapshot>, step: Seq<char>, epoch: u64, logics: Map<Seq<char>, L>) -> bool {
    forall|i: int| 0 <= i < snaps.len() ==> {
        &&& (#[trigger] snaps[i]).step_id@ == step
        &&& snaps[i].epoch == epoch
        &&& snaps[i].payload.is_some() == logics.contains_key(snaps[i].state_key@)
    }
}

} // verus!
