//! The stateful batch operator: one activation takes what arrived and the
//! input frontier, and runs the per-key logics epoch by epoch.
use vstd::prelude::*;
use crate::epochs::{frontier_epoch, is_closed, lemma_selected_open_is_last, select_epochs};
use crate::inbuf::{InBuffer, epochs_ascending};
use crate::key::{StateKey, key_lt};
use crate::keymap::{KeyMap, keys_sorted};
use crate::logic::{Callback, IsComplete, LogicBuilder, LogicError, StatefulBatchLogic};
use crate::snapshot::{SerializedSnapshot, SnapshotMode};
use crate::stateful::{StatefulBatchState, key_views, snap_keys, snaps_of, soonest};
use crate::time::Timestamp;

verus! {

broadcast use vstd::seq::group_seq_axioms;

/// What one callback of one key's logic emitted, at which epoch.
pub struct Emission<V> {
    pub epoch: u64,
    pub key: StateKey,
    pub callback: Callback,
    pub values: Vec<V>,
    /// Whether the logic was done after this callback.
    pub complete: IsComplete,
}

/// Within an epoch: batches, then due wake-ups, then end of input.
pub open spec fn phase_rank(c: Callback) -> int {
    match c {
        Callback::OnBatch => 0,
        Callback::OnNotify => 1,
        Callback::OnEof => 2,
        _ => 3,
    }
}

/// Emissions come in ascending epoch, and within an epoch in phase order.
pub open spec fn emissions_ordered<V>(em: Seq<Emission<V>>) -> bool {
    forall|i: int, j: int|
        0 <= i < j < em.len() ==> (#[trigger] em[i]).epoch < (#[trigger] em[j]).epoch || (em[i].epoch
            == em[j].epoch && phase_rank(em[i].callback) <= phase_rank(em[j].callback))
}

/// `em[i]` is the latest emission for its key.
pub open spec fn is_last<V>(em: Seq<Emission<V>>, i: int) -> bool {
    &&& 0 <= i < em.len()
    &&& forall|j: int| i < j < em.len() ==> (#[trigger] em[j]).key@ != em[i].key@
}

/// A key with emissions has a live logic exactly when its latest callback
/// left the logic in place; keys in `pending` were done and still await
/// their removal.
pub open spec fn outcomes_hold<V, L>(em: Seq<Emission<V>>, logics: Map<Seq<char>, L>, pending: Set<Seq<char>>) -> bool {
    forall|i: int| #[trigger] is_last(em, i) ==> if pending.contains(em[i].key@) {
        logics.contains_key(em[i].key@) && em[i].complete == IsComplete::Discard
    } else {
        logics.contains_key(em[i].key@) == (em[i].complete == IsComplete::Retain)
    }
}

/// Appending an emission for `e.key` and then changing only that key's
/// liveness and pending mark keeps outcomes in step.
proof fn lemma_outcome_push<V, L>(
    em: Seq<Emission<V>>,
    m: Map<Seq<char>, L>,
    d: Set<Seq<char>>,
    e: Emission<V>,
    m2: Map<Seq<char>, L>,
    d2: Set<Seq<char>>,
)
    requires
        outcomes_hold(em, m, d),
        forall|x: Seq<char>| x != e.key@ ==> (#[trigger] m2.contains_key(x) == m.contains_key(x)),
        forall|x: Seq<char>| x != e.key@ ==> (#[trigger] d2.contains(x) == d.contains(x)),
        d2.contains(e.key@) ==> m2.contains_key(e.key@) && e.complete == IsComplete::Discard,
        !d2.contains(e.key@) ==> m2.contains_key(e.key@) == (e.complete == IsComplete::Retain),
    ensures
        outcomes_hold(em.push(e), m2, d2),
{
    let em2 = em.push(e);
    assert forall|i: int| #[trigger] is_last(em2, i) implies (if d2.contains(em2[i].key@) {
        m2.contains_key(em2[i].key@) && em2[i].complete == IsComplete::Discard
    } else {
        m2.contains_key(em2[i].key@) == (em2[i].complete == IsComplete::Retain)
    }) by {
        if i < em.len() {
            assert(em2[em.len() as int] == e);
            assert(em2[i] == em[i]);
            assert(em2[i].key@ != e.key@);
            assert forall|j: int| i < j < em.len() implies (#[trigger] em[j]).key@ != em[i].key@ by {
                assert(em2[j] == em[j]);
            }
            assert(is_last(em, i));
        }
    }
}

/// Removing a pending key's logic settles it.
proof fn lemma_outcome_settle<V, L>(em: Seq<Emission<V>>, m: Map<Seq<char>, L>, d: Set<Seq<char>>, k: Seq<char>, m2: Map<Seq<char>, L>)
    requires
        outcomes_hold(em, m, d),
        d.contains(k),
        !m2.contains_key(k),
        forall|x: Seq<char>| x != k ==> (#[trigger] m2.contains_key(x) == m.contains_key(x)),
    ensures
        outcomes_hold(em, m2, d.remove(k)),
{
    assert forall|i: int| #[trigger] is_last(em, i) implies (if d.remove(k).contains(em[i].key@) {
        m2.contains_key(em[i].key@) && em[i].complete == IsComplete::Discard
    } else {
        m2.contains_key(em[i].key@) == (em[i].complete == IsComplete::Retain)
    }) by {
    }
}

/// Within an epoch, each callback visits keys in ascending order.
pub open spec fn keys_ascending_within<V>(em: Seq<Emission<V>>) -> bool {
    forall|i: int, j: int|
        0 <= i < j < em.len() && (#[trigger] em[i]).epoch == (#[trigger] em[j]).epoch && em[i].callback
            == em[j].callback ==> key_lt(em[i].key@, em[j].key@)
}

/// Snapshots come in ascending epoch, and within an epoch in ascending key
/// order.
pub open spec fn snaps_ordered(snaps: Seq<SerializedSnapshot>) -> bool {
    forall|i: int, j: int|
        0 <= i < j < snaps.len() ==> (#[trigger] snaps[i]).epoch < (#[trigger] snaps[j]).epoch || (snaps[i].epoch
            == snaps[j].epoch && key_lt(snaps[i].state_key@, snaps[j].state_key@))
}

/// A snapshot of `key` taken at `epoch` is among `snaps`.
pub open spec fn covered(snaps: Seq<SerializedSnapshot>, key: Seq<char>, epoch: u64) -> bool {
    exists|j: int| 0 <= j < snaps.len() && (#[trigger] snaps[j]).state_key@ == key && snaps[j].epoch == epoch
}

/// The values for `k` among `items`, in arrival order.
pub open spec fn values_for<V>(items: Seq<(StateKey, V)>, k: Seq<char>) -> Seq<V>
    decreases items.len(),
{
    if items.len() == 0 {
        Seq::empty()
    } else if items.last().0@ == k {
        values_for(items.drop_last(), k).push(items.last().1)
    } else {
        values_for(items.drop_last(), k)
    }
}

pub open spec fn item_keys<V>(items: Seq<(StateKey, V)>) -> Seq<Seq<char>> {
    items.map_values(|i: (StateKey, V)| i.0@)
}

/// Items without their routing tags, in the same order.
pub fn strip_routes<V>(items: Vec<(usize, StateKey, V)>) -> (r: Vec<(StateKey, V)>)
    ensures
        r@ == strip(items@),
{
    let ghost all = items@;
    let mut rev = into_reversed(items);
    let mut r: Vec<(StateKey, V)> = Vec::new();
    while rev.len() > 0
        invariant
            r@.len() + rev@.len() == all.len(),
            rev@ == all.subrange(r@.len() as int, all.len() as int).reverse(),
            r@ == strip(all.subrange(0, r@.len() as int)),
        decreases rev@.len(),
    {
        let ghost n = r@.len();
        proof {
            assert(all.subrange(n as int, all.len() as int).reverse().last() == all[n as int]);
        }
        let (_, key, value) = rev.pop().unwrap();
        r.push((key, value));
        proof {
            assert(rev@ =~= all.subrange(n as int + 1, all.len() as int).reverse());
            assert(r@ =~= strip(all.subrange(0, n as int + 1)));
        }
    }
    proof {
        assert(all.subrange(0, all.len() as int) =~= all);
    }
    r
}

/// Items without their routing tags.
pub open spec fn strip<V>(items: Seq<(usize, StateKey, V)>) -> Seq<(StateKey, V)> {
    items.map_values(|t: (usize, StateKey, V)| (t.1, t.2))
}

/// What is buffered at `e`; empty if nothing is.
pub open spec fn map_at<T>(m: Map<u64, Seq<T>>, e: u64) -> Seq<T> {
    if m.contains_key(e) {
        m[e]
    } else {
        Seq::empty()
    }
}

/// The buffer after appending each arriving batch, in order, under its epoch.
pub open spec fn ingested<V>(
    m: Map<u64, Seq<(StateKey, V)>>,
    incoming: Seq<(u64, Vec<(usize, StateKey, V)>)>,
) -> Map<u64, Seq<(StateKey, V)>>
    decreases incoming.len(),
{
    if incoming.len() == 0 {
        m
    } else {
        let before = ingested(m, incoming.drop_last());
        let (e, b) = incoming.last();
        before.insert(e, map_at(before, e) + strip(b@))
    }
}

/// The same items, last first.
pub fn into_reversed<T>(v: Vec<T>) -> (r: Vec<T>)
    ensures
        r@ == v@.reverse(),
{
    let mut v = v;
    let ghost all = v@;
    let mut r: Vec<T> = Vec::new();
    while v.len() > 0
        invariant
            r@ == all.subrange(v@.len() as int, all.len() as int).reverse(),
            v@ == all.subrange(0, v@.len() as int),
            v@.len() <= all.len(),
        decreases v@.len(),
    {
        let ghost n = v@.len();
        let x = v.pop().unwrap();
        r.push(x);
        proof {
            assert(v@ =~= all.subrange(0, n - 1));
            assert(r@ =~= all.subrange(n - 1, all.len() as int).reverse());
        }
    }
    proof {
        assert(all.subrange(0, all.len() as int) =~= all);
    }
    r
}

/// Groups items by key, keeping the arrival order of each key's values.
pub fn group_by_key<V>(items: Vec<(StateKey, V)>) -> (r: KeyMap<Vec<V>>)
    ensures
        r.wf(),
        forall|k: Seq<char>| #[trigger] r.map().contains_key(k) == item_keys(items@).contains(k),
        forall|k: Seq<char>| r.map().contains_key(k) ==> (#[trigger] r.map()[k])@ == values_for(items@, k),
{
    let ghost all = items@;
    let mut rev = into_reversed(items);
    let mut r: KeyMap<Vec<V>> = KeyMap::new();
    let ghost mut done: int = 0;
    while rev.len() > 0
        invariant
            0 <= done <= all.len(),
            rev@ == all.subrange(done, all.len() as int).reverse(),
            r.wf(),
            forall|k: Seq<char>| #[trigger] r.map().contains_key(k) == item_keys(all.subrange(0, done)).contains(k),
            forall|k: Seq<char>| r.map().contains_key(k) ==> (#[trigger] r.map()[k])@ == values_for(all.subrange(0, done), k),
        decreases rev@.len(),
    {
        let (key, v) = rev.pop().unwrap();
        proof {
            assert(all[done] == rev@.push((key, v)).last()) by {
                assert(all.subrange(done, all.len() as int).reverse().last() == all[done]);
            }
            assert(rev@ =~= all.subrange(done + 1, all.len() as int).reverse());
        }
        let ghost prefix = all.subrange(0, done);
        let ghost prefix1 = all.subrange(0, done + 1);
        let ghost m0 = r.map();
        match r.find(&key) {
            Some(i) => {
                let ghost before = r;
                proof {
                    r.lemma_index(i as int);
                }
                let slot = r.value_at_mut(i);
                slot.push(v);
                proof {
                    KeyMap::lemma_update(before, r, i as int, r.entries()[i as int].1);
                }
            },
            None => {
                let mut fresh: Vec<V> = Vec::new();
                fresh.push(v);
                r.insert(key, fresh);
            },
        }
        proof {
            assert(prefix1.drop_last() =~= prefix);
            assert(prefix1.last() == all[done]);
            assert(item_keys(prefix1) =~= item_keys(prefix).push(key@));
            assert forall|k: Seq<char>| #[trigger] r.map().contains_key(k) == item_keys(prefix1).contains(k) by {
                if item_keys(prefix1).contains(k) && k != key@ {
                    let j = choose|j: int| 0 <= j < item_keys(prefix1).len() && item_keys(prefix1)[j] == k;
                    assert(item_keys(prefix)[j] == k);
                }
                if item_keys(prefix).contains(k) {
                    let j = choose|j: int| 0 <= j < item_keys(prefix).len() && item_keys(prefix)[j] == k;
                    assert(item_keys(prefix1)[j] == k);
                }
                assert(item_keys(prefix1)[done] == key@);
            }
            assert forall|k: Seq<char>| r.map().contains_key(k) implies (#[trigger] r.map()[k])@ == values_for(prefix1, k) by {
                if k == key@ {
                    if !m0.contains_key(k) {
                        assert(!item_keys(prefix).contains(k));
                        lemma_values_for_absent(prefix, k);
                    }
                }
            }
        }
        proof {
            done = done + 1;
        }
    }
    proof {
        assert(all.subrange(0, done) =~= all);
    }
    r
}

proof fn lemma_values_for_absent<V>(items: Seq<(StateKey, V)>, k: Seq<char>)
    requires
        !item_keys(items).contains(k),
    ensures
        values_for(items, k) == Seq::<V>::empty(),
    decreases items.len(),
{
    if items.len() > 0 {
        assert(item_keys(items.drop_last()) =~= item_keys(items).drop_last());
        if item_keys(items.drop_last()).contains(k) {
            let j = choose|j: int| 0 <= j < item_keys(items.drop_last()).len() && item_keys(items.drop_last())[j] == k;
            assert(item_keys(items)[j] == k);
        }
        assert(item_keys(items)[items.len() - 1] == items.last().0@);
        lemma_values_for_absent(items.drop_last(), k);
    }
}

/// What a phase keeps: the state stays well formed with the same step,
/// resume epoch and mode; no touched key is forgotten; `out` only grows,
/// by emissions of `callback` at `epoch` for keys now marked touched.
pub open spec fn phase_post<L, B, V>(
    s0: StatefulBatchState<L, B>,
    s1: StatefulBatchState<L, B>,
    out0: Seq<Emission<V>>,
    out1: Seq<Emission<V>>,
    epoch: u64,
    callback: Callback,
) -> bool {
    &&& s1.wf()
    &&& s1.step() == s0.step()
    &&& s1.resume() == s0.resume()
    &&& s1.mode() == s0.mode()
    &&& s0.awoken_set().subset_of(s1.awoken_set())
    &&& out0.len() <= out1.len()
    &&& out1.subrange(0, out0.len() as int) == out0
    &&& forall|i: int|
        out0.len() <= i < out1.len() ==> (#[trigger] out1[i]).epoch == epoch && out1[i].callback
            == callback && s1.awoken_set().contains(out1[i].key@)
    &&& forall|k: Seq<char>| #[trigger] s1.awoken_set().contains(k) ==> s0.awoken_set().contains(k)
        || new_keys(out0, out1).contains(k)
}

/// A successful callback marks its key touched; recording its emission
/// keeps the phase's guarantees.
proof fn lemma_phase_call<L, B, V>(
    s0: StatefulBatchState<L, B>,
    s1: StatefulBatchState<L, B>,
    s2: StatefulBatchState<L, B>,
    out0: Seq<Emission<V>>,
    out1: Seq<Emission<V>>,
    e: Emission<V>,
    epoch: u64,
    callback: Callback,
)
    requires
        phase_post(s0, s1, out0, out1, epoch, callback),
        s2.wf(),
        s2.step() == s1.step(),
        s2.resume() == s1.resume(),
        s2.mode() == s1.mode(),
        s2.awoken_set() == s1.awoken_set().insert(e.key@),
        e.epoch == epoch,
        e.callback == callback,
    ensures
        phase_post(s0, s2, out0, out1.push(e), epoch, callback),
{
    let o2 = out1.push(e);
    assert(o2.subrange(0, out0.len() as int) =~= out1.subrange(0, out0.len() as int));
    assert(new_keys(out0, o2) =~= new_keys(out0, out1).push(e.key@));
    assert forall|i: int| out0.len() <= i < o2.len() implies (#[trigger] o2[i]).epoch == epoch
        && o2[i].callback == callback && s2.awoken_set().contains(o2[i].key@) by {
        if i < out1.len() {
            assert(o2[i] == out1[i]);
        }
    }
    assert forall|k: Seq<char>| #[trigger] s2.awoken_set().contains(k) implies s0.awoken_set().contains(k)
        || new_keys(out0, o2).contains(k) by {
        if k == e.key@ {
            assert(new_keys(out0, o2)[new_keys(out0, o2).len() - 1] == k);
        } else if new_keys(out0, out1).contains(k) {
            let t = choose|t: int| 0 <= t < new_keys(out0, out1).len() && new_keys(out0, out1)[t] == k;
            assert(new_keys(out0, o2)[t] == k);
        }
    }
}

proof fn lemma_phase_grow<L, B, V>(
    s0: StatefulBatchState<L, B>,
    s1: StatefulBatchState<L, B>,
    s2: StatefulBatchState<L, B>,
    out0: Seq<Emission<V>>,
    out1: Seq<Emission<V>>,
    epoch: u64,
    callback: Callback,
)
    requires
        phase_post(s0, s1, out0, out1, epoch, callback),
        s2.wf(),
        s2.step() == s1.step(),
        s2.resume() == s1.resume(),
        s2.mode() == s1.mode(),
        s1.awoken_set() == s2.awoken_set(),
    ensures
        phase_post(s0, s2, out0, out1, epoch, callback),
{
}

/// Builds the logics it lacks and hands each key of `items`, in key order,
/// its values; drops the logics that are done.
fn batch_phase<L: StatefulBatchLogic, B: LogicBuilder<L>>(
    state: &mut StatefulBatchState<L, B>,
    epoch: u64,
    items: Vec<(StateKey, L::Value)>,
    out: &mut Vec<Emission<L::Value>>,
) -> (r: Result<(), LogicError>)
    requires
        old(state).wf(),
    ensures
        r is Ok ==> phase_post(*old(state), *final(state), old(out)@, final(out)@, epoch, Callback::OnBatch),
        r is Ok ==> keys_sorted(new_keys(old(out)@, final(out)@)),
        r is Ok ==> new_keys(old(out)@, final(out)@).to_set() == item_keys(items@).to_set(),
        r is Ok ==> forall|k: Seq<char>| #[trigger] final(state).sched().contains_key(k) == (old(state).sched().contains_key(k)
            && !batch_discarded(final(out)@.subrange(old(out)@.len() as int, final(out)@.len() as int), epoch, k)),
        r is Ok ==> forall|k: Seq<char>| final(state).sched().contains_key(k) ==> #[trigger] final(state).sched()[k] == old(state).sched()[k],
        r is Ok && outcomes_hold(old(out)@, old(state).logics(), Set::<Seq<char>>::empty()) ==> outcomes_hold(final(out)@, final(state).logics(), Set::<Seq<char>>::empty()),
{
    let ghost iv = items@;
    let mut keyed = group_by_key(items);
    let ghost k0 = keyed;
    let groups = keyed.drain();
    let ghost gk = groups@.map_values(|g: (StateKey, Vec<L::Value>)| g.0@);
    proof {
        let ge = groups@.map_values(|e: (StateKey, Vec<L::Value>)| (e.0@, e.1));
        assert(ge == k0.entries());
        assert forall|j: int| 0 <= j < gk.len() implies gk[j] == k0.key_seq()[j] by {
            assert(ge[j].0 == gk[j]);
        }
        assert(gk =~= k0.key_seq());
        k0.lemma_map_dom();
        assert(gk.to_set() =~= item_keys(iv).to_set());
    }
    let mut rev = into_reversed(groups);
    let ghost mut done: int = 0;
    proof {
        assert(old(out)@.subrange(0, old(out)@.len() as int) =~= old(out)@);
        assert(new_keys(old(out)@, out@) =~= gk.subrange(0, 0));
    }
    while rev.len() > 0
        invariant
            phase_post(*old(state), *state, old(out)@, out@, epoch, Callback::OnBatch),
            0 <= done <= gk.len(),
            rev@.len() == gk.len() - done,
            forall|j: int| 0 <= j < rev@.len() ==> (#[trigger] rev@[j]).0@ == gk[gk.len() - 1 - j],
            new_keys(old(out)@, out@) == gk.subrange(0, done),
            keys_sorted(gk),
            outcomes_hold(old(out)@, old(state).logics(), Set::<Seq<char>>::empty()) ==> outcomes_hold(out@, state.logics(), Set::<Seq<char>>::empty()),
            forall|k: Seq<char>| #[trigger] state.sched().contains_key(k) == (old(state).sched().contains_key(k)
                && !batch_discarded(out@.subrange(old(out)@.len() as int, out@.len() as int), epoch, k)),
            forall|k: Seq<char>| state.sched().contains_key(k) ==> #[trigger] state.sched()[k] == old(state).sched()[k],
        decreases rev@.len(),
    {
        proof {
            assert(rev@[rev@.len() - 1].0@ == gk[done]);
        }
        let (key, values) = rev.pop().unwrap();
        let ghost m0 = state.logics();
        let ghost o0 = out@;
        if !state.contains_key(&key) {
            state.insert(key.duplicate(), None)?;
        }
        let ghost s1 = *state;
        let (output, complete) = state.on_batch(&key, values)?;
        let ghost o1 = out@;
        let em = Emission { epoch, key: key.duplicate(), callback: Callback::OnBatch, values: output, complete };
        out.push(em);
        proof {
            lemma_phase_call(*old(state), s1, *state, old(out)@, o1, em, epoch, Callback::OnBatch);
            assert(new_keys(old(out)@, out@) =~= new_keys(old(out)@, o1).push(key@));
            assert(gk.subrange(0, done + 1) =~= gk.subrange(0, done).push(gk[done]));
            done = done + 1;
        }
        match complete {
            IsComplete::Discard => {
                let ghost s2 = *state;
                state.remove(&key)?;
                proof {
                    lemma_phase_grow(*old(state), s2, *state, old(out)@, out@, epoch, Callback::OnBatch);
                }
            },
            IsComplete::Retain => {},
        }
        proof {
            if outcomes_hold(old(out)@, old(state).logics(), Set::<Seq<char>>::empty()) {
                assert forall|x: Seq<char>| x != em.key@ implies (#[trigger] state.logics().contains_key(x) == m0.contains_key(x)) by {
                    assert(s1.logics().remove(key@).contains_key(x) == m0.remove(key@).contains_key(x));
                }
                lemma_outcome_push(o0, m0, Set::<Seq<char>>::empty(), em, state.logics(), Set::<Seq<char>>::empty());
            }
            let n0 = old(out)@.len() as int;
            let a0 = o0.subrange(n0, o0.len() as int);
            let a1 = out@.subrange(n0, out@.len() as int);
            assert(a1 =~= a0.push(em));
            assert forall|x: Seq<char>| #[trigger] batch_discarded(a1, epoch, x) == (batch_discarded(a0, epoch, x)
                || (x == key@ && complete == IsComplete::Discard)) by {
                if batch_discarded(a1, epoch, x) {
                    let t = choose|t: int| 0 <= t < a1.len() && (#[trigger] a1[t]).epoch == epoch && a1[t].callback == Callback::OnBatch
                        && a1[t].key@ == x && a1[t].complete == IsComplete::Discard;
                    if t < a0.len() { assert(a0[t] == a1[t]); }
                }
                if batch_discarded(a0, epoch, x) {
                    let t = choose|t: int| 0 <= t < a0.len() && (#[trigger] a0[t]).epoch == epoch && a0[t].callback == Callback::OnBatch
                        && a0[t].key@ == x && a0[t].complete == IsComplete::Discard;
                    assert(a1[t] == a0[t]);
                }
                if x == key@ && complete == IsComplete::Discard {
                    assert(a1[a0.len() as int] == em);
                }
            }
            assert(!batch_discarded(a0, epoch, key@)) by {
                if batch_discarded(a0, epoch, key@) {
                    let t = choose|t: int| 0 <= t < a0.len() && (#[trigger] a0[t]).epoch == epoch && a0[t].callback == Callback::OnBatch
                        && a0[t].key@ == key@ && a0[t].complete == IsComplete::Discard;
                    assert(new_keys(old(out)@, o0)[t] == key@);
                    assert(new_keys(old(out)@, o0) == gk.subrange(0, done - 1));
                    assert(gk.subrange(0, done - 1)[t] == gk[t]);
                    crate::keymap::lemma_sorted_distinct(gk, t, done - 1);
                }
            }
        }
    }
    proof {
        assert(gk.subrange(0, done) =~= gk);
    }
    Ok(())
}

/// The keys of what a phase appended to `out0`, in order.
pub open spec fn new_keys<V>(out0: Seq<Emission<V>>, out1: Seq<Emission<V>>) -> Seq<Seq<char>> {
    out1.subrange(out0.len() as int, out1.len() as int).map_values(|e: Emission<V>| e.key@)
}

/// Wakes, in key order, each logic whose wake-up is due at `now`; drops the
/// logics that are done.
fn notify_phase<L: StatefulBatchLogic, B>(
    state: &mut StatefulBatchState<L, B>,
    epoch: u64,
    now: Timestamp,
    out: &mut Vec<Emission<L::Value>>,
) -> (r: Result<(), LogicError>)
    requires
        old(state).wf(),
    ensures
        r is Ok ==> phase_post(*old(state), *final(state), old(out)@, final(out)@, epoch, Callback::OnNotify),
        r is Ok && outcomes_hold(old(out)@, old(state).logics(), Set::<Seq<char>>::empty()) ==> outcomes_hold(final(out)@, final(state).logics(), Set::<Seq<char>>::empty()),
        old(state).sched().dom().is_empty() ==> r is Ok && *final(state) == *old(state) && final(out)@ == old(out)@,
        r is Ok ==> keys_sorted(new_keys(old(out)@, final(out)@)),
        r is Ok ==> forall|k: Seq<char>| #[trigger] new_keys(old(out)@, final(out)@).contains(k)
            == (old(state).sched().contains_key(k) && old(state).sched()[k].micros <= now.micros),
{
    let keys = state.notify_keys(now);
    let ghost kv = key_views(keys@);
    proof {
        state.lemma_sched_has_logic();
        assert(old(out)@.subrange(0, old(out)@.len() as int) =~= old(out)@);
        assert forall|j: int| 0 <= j < keys@.len() implies state.logics().contains_key(#[trigger] keys@[j]@) by {
            assert(key_views(keys@)[j] == keys@[j]@);
            assert(key_views(keys@).contains(keys@[j]@));
        }
        assert(new_keys(old(out)@, out@) =~= kv.subrange(0, 0));
        if keys@.len() > 0 {
            assert(kv.contains(kv[0]));
        }
    }
    let mut i: usize = 0;
    while i < keys.len()
        invariant
            phase_post(*old(state), *state, old(out)@, out@, epoch, Callback::OnNotify),
            i <= keys@.len(),
            keys_sorted(key_views(keys@)),
            forall|j: int| i <= j < keys@.len() ==> state.logics().contains_key(#[trigger] keys@[j]@),
            outcomes_hold(old(out)@, old(state).logics(), Set::<Seq<char>>::empty()) ==> outcomes_hold(out@, state.logics(), Set::<Seq<char>>::empty()),
            kv == key_views(keys@),
            new_keys(old(out)@, out@) == kv.subrange(0, i as int),
            i == 0 ==> *state == *old(state) && out@ == old(out)@,
            old(state).sched().dom().is_empty() ==> keys@.len() == 0,
        decreases keys@.len() - i,
    {
        let key = &keys[i];
        let ghost s1 = *state;
        let ghost m0 = state.logics();
        let ghost o0 = out@;
        let (output, complete) = state.on_notify(key)?;
        let ghost o1 = out@;
        let em = Emission { epoch, key: key.duplicate(), callback: Callback::OnNotify, values: output, complete };
        out.push(em);
        proof {
            lemma_phase_call(*old(state), s1, *state, old(out)@, o1, em, epoch, Callback::OnNotify);
            assert(new_keys(old(out)@, out@) =~= new_keys(old(out)@, o1).push(key@));
            assert(kv.subrange(0, i + 1) =~= kv.subrange(0, i as int).push(kv[i as int]));
        }
        match complete {
            IsComplete::Discard => {
                let ghost s2 = *state;
                state.remove(key)?;
                proof {
                    lemma_phase_grow(*old(state), s2, *state, old(out)@, out@, epoch, Callback::OnNotify);
                    assert forall|j: int| i + 1 <= j < keys@.len() implies state.logics().contains_key(#[trigger] keys@[j]@) by {
                        assert(key_views(keys@)[j] == keys@[j]@);
                        assert(key_views(keys@)[i as int] == keys@[i as int]@);
                        crate::keymap::lemma_sorted_distinct(key_views(keys@), i as int, j);
                    }
                }
            },
            IsComplete::Retain => {},
        }
        proof {
            if outcomes_hold(old(out)@, old(state).logics(), Set::<Seq<char>>::empty()) {
                lemma_outcome_push(o0, m0, Set::<Seq<char>>::empty(), em, state.logics(), Set::<Seq<char>>::empty());
            }
        }
        i = i + 1;
    }
    proof {
        assert(kv.subrange(0, i as int) =~= kv);
    }
    Ok(())
}

/// Tells every live logic, in key order, that the input ended; then drops
/// those that are done.
fn eof_phase<L: StatefulBatchLogic, B>(
    state: &mut StatefulBatchState<L, B>,
    epoch: u64,
    out: &mut Vec<Emission<L::Value>>,
) -> (r: Result<(), LogicError>)
    requires
        old(state).wf(),
    ensures
        r is Ok ==> phase_post(*old(state), *final(state), old(out)@, final(out)@, epoch, Callback::OnEof),
        r is Ok ==> new_keys(old(out)@, final(out)@).to_set() == old(state).logics().dom(),
        r is Ok ==> keys_sorted(new_keys(old(out)@, final(out)@)),
        r is Ok ==> final(state).logics().dom().subset_of(old(state).logics().dom()),
        old(state).logics().dom().is_empty() ==> r is Ok && *final(state) == *old(state) && final(out)@ == old(out)@,
        r is Ok && outcomes_hold(old(out)@, old(state).logics(), Set::<Seq<char>>::empty()) ==> outcomes_hold(final(out)@, final(state).logics(), Set::<Seq<char>>::empty()),
{
    let keys = state.keys();
    let ghost dom = state.logics().dom();
    let ghost kv = key_views(keys@);
    proof {
        assert(old(out)@.subrange(0, old(out)@.len() as int) =~= old(out)@);
        assert forall|j: int| 0 <= j < keys@.len() implies dom.contains(#[trigger] keys@[j]@) by {
            assert(key_views(keys@)[j] == keys@[j]@);
            assert(key_views(keys@).contains(keys@[j]@));
        }
    }
    let mut discarded: Vec<StateKey> = Vec::new();
    let mut i: usize = 0;
    proof {
        assert(new_keys(old(out)@, out@) =~= kv.subrange(0, 0));
        if keys@.len() > 0 {
            assert(kv.to_set().contains(kv[0]));
        }
    }
    while i < keys.len()
        invariant
            phase_post(*old(state), *state, old(out)@, out@, epoch, Callback::OnEof),
            i <= keys@.len(),
            state.logics().dom() == dom,
            forall|j: int| 0 <= j < keys@.len() ==> dom.contains(#[trigger] keys@[j]@),
            kv == key_views(keys@),
            new_keys(old(out)@, out@) == kv.subrange(0, i as int),
            keys_sorted(kv),
            forall|x: Seq<char>| #[trigger] key_views(discarded@).contains(x) ==> kv.subrange(0, i as int).contains(x),
            i == 0 ==> *state == *old(state) && out@ == old(out)@ && discarded@.len() == 0,
            old(state).logics().dom().is_empty() ==> keys@.len() == 0,
            outcomes_hold(old(out)@, old(state).logics(), Set::<Seq<char>>::empty()) ==> outcomes_hold(out@, state.logics(), key_views(discarded@).to_set()),
        decreases keys@.len() - i,
    {
        let key = &keys[i];
        let ghost s1 = *state;
        let ghost m0 = state.logics();
        let ghost o0 = out@;
        let ghost d0 = key_views(discarded@);
        let (output, complete) = state.on_eof(key)?;
        let ghost o1 = out@;
        let em = Emission { epoch, key: key.duplicate(), callback: Callback::OnEof, values: output, complete };
        out.push(em);
        proof {
            lemma_phase_call(*old(state), s1, *state, old(out)@, o1, em, epoch, Callback::OnEof);
            assert(new_keys(old(out)@, out@) =~= new_keys(old(out)@, o1).push(key@));
            assert(kv.subrange(0, i + 1) =~= kv.subrange(0, i as int).push(kv[i as int]));
        }
        match complete {
            IsComplete::Discard => {
                discarded.push(key.duplicate());
                proof {
                    assert(key_views(discarded@) =~= d0.push(key@));
                }
            },
            IsComplete::Retain => {},
        }
        proof {
            assert(kv[i as int] == key@);
            assert(!d0.contains(key@)) by {
                if d0.contains(key@) {
                    let sub = kv.subrange(0, i as int);
                    assert(sub.contains(key@));
                    let j = choose|j: int| 0 <= j < sub.len() && sub[j] == key@;
                    crate::keymap::lemma_sorted_distinct(kv, j, i as int);
                }
            }
            assert forall|x: Seq<char>| #[trigger] key_views(discarded@).contains(x) implies kv.subrange(0, i + 1).contains(x) by {
                if d0.contains(x) {
                    let sub = kv.subrange(0, i as int);
                    let j = choose|j: int| 0 <= j < sub.len() && sub[j] == x;
                    assert(kv.subrange(0, i + 1)[j] == x);
                } else {
                    assert(x == key@);
                    assert(kv.subrange(0, i + 1)[i as int] == x);
                }
            }
            if outcomes_hold(old(out)@, old(state).logics(), Set::<Seq<char>>::empty()) {
                assert forall|x: Seq<char>| x != em.key@ implies (#[trigger] key_views(discarded@).to_set().contains(x) == d0.to_set().contains(x)) by {
                    if key_views(discarded@).contains(x) && !d0.contains(x) {
                        let j = choose|j: int| 0 <= j < key_views(discarded@).len() && key_views(discarded@)[j] == x;
                        if j < d0.len() { assert(d0[j] == x); }
                    }
                    if d0.contains(x) {
                        let j = choose|j: int| 0 <= j < d0.len() && d0[j] == x;
                        assert(key_views(discarded@)[j] == x);
                    }
                }
                if complete == IsComplete::Discard {
                    assert(key_views(discarded@)[d0.len() as int] == key@);
                } else {
                    assert(key_views(discarded@) == d0);
                }
                lemma_outcome_push(o0, m0, d0.to_set(), em, state.logics(), key_views(discarded@).to_set());
            }
        }
        i = i + 1;
    }
    proof {
        assert(kv.subrange(0, i as int) =~= kv);
        assert(new_keys(old(out)@, out@).to_set() == dom);
    }
    let ghost nk = new_keys(old(out)@, out@);
    let mut j: usize = 0;
    proof {
        assert(key_views(discarded@.subrange(0, 0)) =~= Seq::<Seq<char>>::empty());
        assert(key_views(discarded@).to_set().difference(Seq::<Seq<char>>::empty().to_set()) =~= key_views(discarded@).to_set());
    }
    while j < discarded.len()
        invariant
            phase_post(*old(state), *state, old(out)@, out@, epoch, Callback::OnEof),
            j <= discarded@.len(),
            new_keys(old(out)@, out@) == nk,
            nk.to_set() == old(state).logics().dom(),
            keys_sorted(nk),
            j == 0 && discarded@.len() == 0 && old(state).logics().dom().is_empty() ==> *state == *old(state) && out@ == old(out)@,
            old(state).logics().dom().is_empty() ==> discarded@.len() == 0,
            state.logics().dom().subset_of(old(state).logics().dom()),
            outcomes_hold(old(out)@, old(state).logics(), Set::<Seq<char>>::empty()) ==> outcomes_hold(out@, state.logics(), key_views(discarded@).to_set().difference(key_views(discarded@.subrange(0, j as int)).to_set())),
            forall|x: Seq<char>| #[trigger] key_views(discarded@.subrange(0, j as int)).contains(x) ==> !state.logics().contains_key(x),
        decreases discarded@.len() - j,
    {
        let ghost s2 = *state;
        let ghost dall = key_views(discarded@).to_set();
        let ghost r0 = key_views(discarded@.subrange(0, j as int));
        let ghost r1 = key_views(discarded@.subrange(0, j + 1));
        let ghost k = discarded@[j as int]@;
        state.remove(&discarded[j])?;
        proof {
            lemma_phase_grow(*old(state), s2, *state, old(out)@, out@, epoch, Callback::OnEof);
            assert(r1 =~= r0.push(k));
            assert forall|x: Seq<char>| #[trigger] r1.contains(x) == (r0.contains(x) || x == k) by {
                if r1.contains(x) && x != k {
                    let t = choose|t: int| 0 <= t < r1.len() && r1[t] == x;
                    assert(r0[t] == x);
                }
                if r0.contains(x) {
                    let t = choose|t: int| 0 <= t < r0.len() && r0[t] == x;
                    assert(r1[t] == x);
                }
                assert(r1[j as int] == k);
            }
            assert(key_views(discarded@)[j as int] == k);
            assert(dall.contains(k));
            if outcomes_hold(old(out)@, old(state).logics(), Set::<Seq<char>>::empty()) {
                let p0 = dall.difference(r0.to_set());
                if p0.contains(k) {
                    lemma_outcome_settle(out@, s2.logics(), p0, k, state.logics());
                    assert(p0.remove(k) =~= dall.difference(r1.to_set()));
                } else {
                    assert(r0.contains(k));
                    assert(state.logics() == s2.logics().remove(k));
                    assert(state.logics() =~= s2.logics());
                    assert(p0 =~= dall.difference(r1.to_set()));
                }
            }
        }
        j = j + 1;
    }
    proof {
        assert(discarded@.subrange(0, j as int) =~= discarded@);
        assert(key_views(discarded@).to_set().difference(key_views(discarded@).to_set()) =~= Set::<Seq<char>>::empty());
    }
    Ok(())
}

/// Asks each touched key's logic when it next wants waking and records it.
fn reschedule_phase<L: StatefulBatchLogic, B>(state: &mut StatefulBatchState<L, B>) -> (r: Result<(), LogicError>)
    requires
        old(state).wf(),
    ensures
        r is Ok ==> {
            &&& final(state).wf()
            &&& final(state).step() == old(state).step()
            &&& final(state).resume() == old(state).resume()
            &&& final(state).mode() == old(state).mode()
            &&& final(state).awoken_set() == old(state).awoken_set()
            &&& final(state).logics() == old(state).logics()
        },
        old(state).awoken_set().is_empty() ==> r is Ok && *final(state) == *old(state),
{
    let keys = state.awoken();
    proof {
        if keys@.len() > 0 {
            assert(key_views(keys@).to_set().contains(key_views(keys@)[0]));
        }
    }
    let mut i: usize = 0;
    while i < keys.len()
        invariant
            state.wf(),
            state.step() == old(state).step(),
            state.resume() == old(state).resume(),
            state.mode() == old(state).mode(),
            state.awoken_set() == old(state).awoken_set(),
            state.logics() == old(state).logics(),
            i == 0 ==> *state == *old(state),
            i <= keys@.len(),
            old(state).awoken_set().is_empty() ==> keys@.len() == 0,
        decreases keys@.len() - i,
    {
        match state.notify_at(&keys[i])? {
            Some(at) => {
                state.schedule(keys[i].duplicate(), at);
            },
            None => {},
        }
        i = i + 1;
    }
    Ok(())
}

/// The keys of an epoch's batch, if it has one.
pub open spec fn batch_keys<V>(items: Option<Vec<(StateKey, V)>>) -> Set<Seq<char>> {
    match items {
        Some(v) => item_keys(v@).to_set(),
        None => Set::<Seq<char>>::empty(),
    }
}

/// One epoch's work on the logics: the batch of `items` (if any), the
/// wake-ups due at `now`, and at end of input `on_eof` for every live
/// logic; then the new wake-up times of the touched keys.
fn epoch_phases<L: StatefulBatchLogic, B: LogicBuilder<L>>(
    state: &mut StatefulBatchState<L, B>,
    items: Option<Vec<(StateKey, L::Value)>>,
    e: u64,
    now: Timestamp,
    eof: bool,
    emitted: &mut Vec<Emission<L::Value>>,
) -> (r: Result<(), LogicError>)
    requires
        old(state).wf(),
    ensures
        r is Ok ==> {
            let em0 = old(emitted)@;
            let em = final(emitted)@;
            let s0 = *old(state);
            let s = *final(state);
            let ks = batch_keys(items);
            &&& s.wf()
            &&& s.step() == s0.step()
            &&& s.resume() == s0.resume()
            &&& s.mode() == s0.mode()
            &&& s0.awoken_set().subset_of(s.awoken_set())
            &&& em0.len() <= em.len()
            &&& em.subrange(0, em0.len() as int) == em0
            &&& forall|i: int| em0.len() <= i < em.len() ==> (#[trigger] em[i]).epoch == e && s.awoken_set().contains(em[i].key@)
            &&& forall|i: int, j: int| em0.len() <= i < j < em.len() ==> phase_rank((#[trigger] em[i]).callback) <= phase_rank((#[trigger] em[j]).callback)
            &&& forall|i: int, j: int| em0.len() <= i < j < em.len() && (#[trigger] em[i]).callback == (#[trigger] em[j]).callback
                ==> key_lt(em[i].key@, em[j].key@)
            &&& forall|k: Seq<char>| #[trigger] s.awoken_set().contains(k) ==> s0.awoken_set().contains(k)
                || new_keys(em0, em).contains(k)
            &&& forall|x: u64, key: Seq<char>| #[trigger] batch_emitted(em, x, key) == (batch_emitted(em0, x, key) || (x == e && ks.contains(key)))
            &&& outcomes_hold(em0, s0.logics(), Set::<Seq<char>>::empty()) ==> outcomes_hold(em, s.logics(), Set::<Seq<char>>::empty())
            &&& eof ==> forall|key: Seq<char>| #[trigger] s.logics().contains_key(key) ==> eof_emitted(em, key)
            &&& forall|key: Seq<char>| #[trigger] notify_emitted(em.subrange(em0.len() as int, em.len() as int), e, key)
                == (s0.sched().contains_key(key) && s0.sched()[key].micros <= now.micros
                && !batch_discarded(em.subrange(em0.len() as int, em.len() as int), e, key))
        },
        items is None && old(state).logics().dom().is_empty() && old(state).awoken_set().is_empty() ==> r is Ok
            && *final(state) == *old(state),
{
    proof {
        old(state).lemma_sched_has_logic();
    }
    let ghost em0 = emitted@;
    let ghost s0 = *state;
    let ghost ks = batch_keys(items);
    match items {
        Some(items) => {
            match batch_phase(state, e, items, emitted) {
                Ok(()) => {},
                Err(err) => {
                    return Err(err);
                },
            }
        },
        None => {
            proof {
                assert(emitted@.subrange(0, emitted@.len() as int) =~= emitted@);
                assert(new_keys(em0, emitted@).to_set() =~= ks);
                assert(new_keys(em0, emitted@) =~= Seq::<Seq<char>>::empty());
                assert(emitted@.subrange(em0.len() as int, emitted@.len() as int) =~= Seq::<Emission<L::Value>>::empty());
            }
        },
    }
    proof {
        assert(new_keys(em0, emitted@).to_set() == ks);
    }
    let ghost em1 = emitted@;
    let ghost s1 = *state;
    match notify_phase(state, e, now, emitted) {
        Ok(()) => {},
        Err(err) => {
            return Err(err);
        },
    }
    let ghost em2 = emitted@;
    proof {
        assert forall|key: Seq<char>| #[trigger] new_keys(em1, emitted@).contains(key)
            == (s0.sched().contains_key(key) && s0.sched()[key].micros <= now.micros
            && !batch_discarded(em1.subrange(em0.len() as int, em1.len() as int), e, key)) by {
            if !(items is Some) {
                assert(!batch_discarded(em1.subrange(em0.len() as int, em1.len() as int), e, key));
            }
        }
    }
    let ghost s2 = *state;
    if eof {
        match eof_phase(state, e, emitted) {
            Ok(()) => {},
            Err(err) => {
                return Err(err);
            },
        }
        proof {
            assert forall|key: Seq<char>| #[trigger] state.logics().contains_key(key) implies eof_emitted(emitted@, key) by {
                let nk = new_keys(em2, emitted@);
                assert(nk.to_set().contains(key));
                let j = choose|j: int| 0 <= j < nk.len() && nk[j] == key;
                assert(emitted@[em2.len() + j].callback == Callback::OnEof);
                assert(emitted@[em2.len() + j].key@ == key);
            }
        }
    } else {
        proof {
            assert(emitted@.subrange(0, emitted@.len() as int) =~= emitted@);
            assert(new_keys(em2, emitted@) =~= Seq::<Seq<char>>::empty());
        }
    }
    let ghost em3 = emitted@;
    let ghost s3 = *state;
    match reschedule_phase(state) {
        Ok(()) => {},
        Err(err) => {
            return Err(err);
        },
    }
    proof {
        lemma_epoch_emissions(s0, s1, s2, s3, *state, em0, em1, em2, em3, e);
        lemma_batch_emitted(s0, s1, s2, s3, em0, em1, em2, em3, e, ks);
        lemma_notify_block(em0, em1, em2, em3, e);
        if eof {
            assert forall|key: Seq<char>| #[trigger] state.logics().contains_key(key) implies eof_emitted(emitted@, key) by {
                assert(s3.logics().contains_key(key));
            }
        }
    }
    Ok(())
}

/// Why an activation failed.
#[derive(Debug)]
pub enum OperatorError {
    /// A user callback failed.
    Logic(LogicError),
    /// An item reached a worker that is not its key's primary.
    Misrouted { key: StateKey, worker: usize, this_worker: usize },
}

/// What one activation produced.
pub struct Activation<V> {
    /// Emissions downstream, in order; each value goes out as `(key, value)`
    /// at the emission's epoch.
    pub emitted: Vec<Emission<V>>,
    /// Snapshots for the snapshot output, in order.
    pub snapshots: Vec<SerializedSnapshot>,
    /// Microseconds after which to activate again for due wake-ups.
    pub activate_after: Option<u64>,
}

/// Some item of `incoming` was routed to another worker than `this_worker`.
pub open spec fn misrouted<V>(incoming: Seq<(u64, Vec<(usize, StateKey, V)>)>, this_worker: usize) -> bool {
    exists|i: int, j: int|
        0 <= i < incoming.len() && 0 <= j < incoming[i].1@.len() && (#[trigger] incoming[i].1@[j]).0
            != this_worker
}

/// Some emission is `key`'s `on_batch` at `epoch`.
pub open spec fn batch_emitted<V>(em: Seq<Emission<V>>, epoch: u64, key: Seq<char>) -> bool {
    exists|i: int|
        0 <= i < em.len() && (#[trigger] em[i]).epoch == epoch && em[i].callback == Callback::OnBatch
            && em[i].key@ == key
}

/// Some emission is `key`'s `on_notify` at `epoch`.
pub open spec fn notify_emitted<V>(em: Seq<Emission<V>>, epoch: u64, key: Seq<char>) -> bool {
    exists|i: int|
        0 <= i < em.len() && (#[trigger] em[i]).epoch == epoch && em[i].callback == Callback::OnNotify
            && em[i].key@ == key
}

/// Some emission is `key`'s `on_batch` at `epoch` that ended its logic.
pub open spec fn batch_discarded<V>(em: Seq<Emission<V>>, epoch: u64, key: Seq<char>) -> bool {
    exists|i: int|
        0 <= i < em.len() && (#[trigger] em[i]).epoch == epoch && em[i].callback == Callback::OnBatch
            && em[i].key@ == key && em[i].complete == IsComplete::Discard
}

/// Some callback of `key`'s logic ran at `epoch`.
pub open spec fn touched_at<V>(em: Seq<Emission<V>>, epoch: u64, key: Seq<char>) -> bool {
    exists|i: int| 0 <= i < em.len() && (#[trigger] em[i]).epoch == epoch && em[i].key@ == key
}

/// Some emission is `key`'s `on_eof`.
pub open spec fn eof_emitted<V>(em: Seq<Emission<V>>, key: Seq<char>) -> bool {
    exists|i: int| 0 <= i < em.len() && (#[trigger] em[i]).callback == Callback::OnEof && em[i].key@ == key
}

/// Whether an activation that starts with its outputs held at `held` and
/// with `buffered` waiting works on epoch `e` (see `select_epochs`).
pub open spec fn will_process<T>(
    held: u64,
    buffered: Map<u64, T>,
    frontier: Option<u64>,
    resume_epoch: u64,
    e: u64,
) -> bool {
    ||| (e == held || buffered.contains_key(e)) && is_closed(frontier, e)
    ||| e == frontier_epoch(frontier, held) && frontier_epoch(frontier, held) >= resume_epoch
}

/// What an activation guarantees, from the operator before (`s0`) and
/// after (`s1`), what arrived, the frontier and the clock reading: a
/// routing error exactly when an item belongs to another worker, leaving the
/// operator as it was; emissions in epoch and phase order, between the epoch
/// the outputs were held at and the one they are held at now; and every
/// emission's key snapshotted at its epoch, or still pending as a touched
/// key of an open epoch in batch mode.
pub open spec fn activation_post<L: StatefulBatchLogic, B: LogicBuilder<L>>(
    s0: StatefulBatchOperator<L, B>,
    s1: StatefulBatchOperator<L, B>,
    incoming: Seq<(u64, Vec<(usize, StateKey, L::Value)>)>,
    frontier: Option<u64>,
    now: Timestamp,
    r: Result<Activation<L::Value>, OperatorError>,
) -> bool {
    &&& s0.cap() is Some ==> (r matches Err(OperatorError::Misrouted { .. }) <==> misrouted(incoming, s0.worker()))
    &&& s0.cap() is None ==> r is Ok
    &&& s0.cap() is Some && !misrouted(incoming, s0.worker()) && ingested(s0.pending(), incoming).dom().is_empty()
        && s0.state_model().logics().dom().is_empty() && s0.state_model().awoken_set().is_empty() ==> r is Ok
    &&& r matches Err(OperatorError::Misrouted { .. }) ==> s1 == s0
    &&& r is Ok ==> s1.wf()
    &&& r is Ok ==> s1.worker() == s0.worker()
    &&& r is Ok && (s0.cap() is None || frontier is None) ==> s1.cap() is None
    &&& r is Ok && s0.cap() is None ==> r.unwrap().emitted@.len() == 0 && r.unwrap().snapshots@.len() == 0
    &&& r is Ok && s0.cap() is Some ==> {
        let c = s0.cap().unwrap();
        let a = r.unwrap();
        let st = s1.state_model();
        let m = ingested(s0.pending(), incoming);
        let res = s0.state_model().resume();
        &&& emissions_ordered(a.emitted@)
        &&& forall|i: int| 0 <= i < a.emitted@.len() ==> c <= (#[trigger] a.emitted@[i]).epoch
        &&& s1.cap() is Some ==> c <= s1.cap().unwrap()
        &&& s1.cap() is Some ==> forall|i: int|
            0 <= i < a.emitted@.len() ==> (#[trigger] a.emitted@[i]).epoch <= s1.cap().unwrap()
        &&& forall|i: int| 0 <= i < a.snapshots@.len() ==> c <= (#[trigger] a.snapshots@[i]).epoch
            && a.snapshots@[i].step_id@ == st.step()
        &&& forall|i: int| 0 <= i < a.emitted@.len() ==>
            covered(a.snapshots@, (#[trigger] a.emitted@[i]).key@, a.emitted@[i].epoch) || (
            st.awoken_set().contains(a.emitted@[i].key@) && st.mode() == SnapshotMode::Batch
            && !is_closed(frontier, a.emitted@[i].epoch) && s1.cap() == Some(a.emitted@[i].epoch))
        &&& is_closed(frontier, c) ==> forall|k: Seq<char>|
            #[trigger] s0.state_model().awoken_set().contains(k) ==> covered(a.snapshots@, k, c)
        &&& soonest(st.sched(), now, a.activate_after)
        &&& forall|e: u64, k: Seq<char>|
            #[trigger] batch_emitted(a.emitted@, e, k) == (will_process(c, m, frontier, res, e)
                && m.contains_key(e) && item_keys(m[e]).contains(k))
        &&& forall|e: u64|
            #[trigger] s1.pending().contains_key(e) == (m.contains_key(e) && !will_process(c, m, frontier, res, e))
        &&& forall|e: u64| s1.pending().contains_key(e) ==> #[trigger] s1.pending()[e] == m[e]
        &&& frontier is Some ==> s1.cap() is Some && (s1.cap().unwrap() == c || will_process(c, m, frontier, res, s1.cap().unwrap()))
        &&& frontier is Some ==> forall|e: u64| #[trigger] will_process(c, m, frontier, res, e) ==> e <= s1.cap().unwrap()
        &&& frontier is None ==> forall|k: Seq<char>| #[trigger] st.logics().contains_key(k) ==> eof_emitted(a.emitted@, k)
        &&& outcomes_hold(a.emitted@, st.logics(), Set::<Seq<char>>::empty())
        &&& keys_ascending_within(a.emitted@)
        &&& snaps_ordered(a.snapshots@)
        &&& forall|j: int| 0 <= j < a.snapshots@.len() ==> touched_at(a.emitted@, (#[trigger] a.snapshots@[j]).epoch, a.snapshots@[j].state_key@)
            || (s0.state_model().awoken_set().contains(a.snapshots@[j].state_key@) && a.snapshots@[j].epoch == c)
        &&& forall|e0: u64, key: Seq<char>|
            will_process(c, m, frontier, res, e0) && (forall|e: u64| #[trigger] will_process(c, m, frontier, res, e) ==> e0 <= e)
                ==> (#[trigger] notify_emitted(a.emitted@, e0, key) == (s0.state_model().sched().contains_key(key)
                && s0.state_model().sched()[key].micros <= now.micros && !batch_discarded(a.emitted@, e0, key)))
        &&& forall|i: int| 0 <= i < a.emitted@.len() ==> will_process(c, m, frontier, res, (#[trigger] a.emitted@[i]).epoch)
        &&& forall|i: int| 0 <= i < a.snapshots@.len() ==> will_process(c, m, frontier, res, (#[trigger] a.snapshots@[i]).epoch)
    }
}

pub struct StatefulBatchOperator<L: StatefulBatchLogic, B> {
    state: StatefulBatchState<L, B>,
    this_worker: usize,
    inbuf: InBuffer<(StateKey, L::Value)>,
    output_epoch: Option<u64>,
}

impl<L: StatefulBatchLogic, B: LogicBuilder<L>> StatefulBatchOperator<L, B> {
    /// The epoch both outputs are held at; none once they are dropped.
    pub closed spec fn cap(self) -> Option<u64> {
        self.output_epoch
    }

    pub closed spec fn worker(self) -> usize {
        self.this_worker
    }

    pub closed spec fn state_model(self) -> StatefulBatchState<L, B> {
        self.state
    }

    /// Items buffered for epochs not yet worked on, by epoch.
    pub closed spec fn pending(self) -> Map<u64, Seq<(StateKey, L::Value)>> {
        self.inbuf.map()
    }

    pub closed spec fn wf(self) -> bool {
        &&& self.state.wf()
        &&& self.inbuf.wf()
        &&& self.output_epoch is Some ==> forall|e: u64|
            self.inbuf.map().contains_key(e) ==> e >= self.output_epoch.unwrap()
    }

    /// An operator for `state` on worker `this_worker`, holding its outputs
    /// at the first epoch.
    pub fn new(state: StatefulBatchState<L, B>, this_worker: usize) -> (r: Self)
        requires
            state.wf(),
        ensures
            r.wf(),
            r.cap() == Some(0u64),
            r.worker() == this_worker,
            r.state_model() == state,
    {
        StatefulBatchOperator { state, this_worker, inbuf: InBuffer::new(), output_epoch: Some(0) }
    }

    pub fn state(&self) -> (r: &StatefulBatchState<L, B>)
        ensures
            *r == self.state_model(),
    {
        &self.state
    }

    /// The epoch both outputs are held at, if they still are.
    pub fn output_epoch(&self) -> (r: Option<u64>)
        ensures
            r == self.cap(),
    {
        self.output_epoch
    }

    /// Checks that every item belongs to this worker.
    fn check_routing(&self, incoming: &Vec<(u64, Vec<(usize, StateKey, L::Value)>)>) -> (r: Result<(), OperatorError>)
        ensures
            r is Ok == !misrouted(incoming@, self.worker()),
            r is Err ==> r matches Err(OperatorError::Misrouted { .. }),
    {
        let mut i: usize = 0;
        while i < incoming.len()
            invariant
                i <= incoming@.len(),
                forall|a: int, b: int|
                    0 <= a < i && 0 <= b < incoming@[a].1@.len() ==> (#[trigger] incoming@[a].1@[b]).0
                        == self.this_worker,
            decreases incoming@.len() - i,
        {
            let batch = &incoming[i].1;
            let mut j: usize = 0;
            while j < batch.len()
                invariant
                    i < incoming@.len(),
                    batch == incoming@[i as int].1,
                    j <= batch@.len(),
                    forall|a: int, b: int|
                        0 <= a < i && 0 <= b < incoming@[a].1@.len() ==> (#[trigger] incoming@[a].1@[b]).0
                            == self.this_worker,
                    forall|b: int| 0 <= b < j ==> (#[trigger] batch@[b]).0 == self.this_worker,
                decreases batch@.len() - j,
            {
                if batch[j].0 != self.this_worker {
                    return Err(
                        OperatorError::Misrouted {
                            key: batch[j].1.duplicate(),
                            worker: batch[j].0,
                            this_worker: self.this_worker,
                        },
                    );
                }
                j = j + 1;
            }
            i = i + 1;
        }
        Ok(())
    }

    /// Buffers each batch under its epoch, without the routing tags.
    fn ingest(&mut self, incoming: Vec<(u64, Vec<(usize, StateKey, L::Value)>)>)
        requires
            old(self).wf(),
            old(self).cap() is Some,
            forall|i: int| 0 <= i < incoming@.len() ==> (#[trigger] incoming@[i]).0 >= old(self).cap().unwrap(),
        ensures
            final(self).wf(),
            final(self).cap() == old(self).cap(),
            final(self).worker() == old(self).worker(),
            final(self).state_model() == old(self).state_model(),
            final(self).pending() == ingested(old(self).pending(), incoming@),
    {
        let ghost all = incoming@;
        let ghost m0 = self.inbuf.map();
        let mut rev = into_reversed(incoming);
        while rev.len() > 0
            invariant
                self.wf(),
                self.cap() == old(self).cap(),
                self.worker() == old(self).worker(),
                self.state_model() == old(self).state_model(),
                rev@.len() <= all.len(),
                rev@ == all.subrange(all.len() - rev@.len(), all.len() as int).reverse(),
                self.inbuf.map() == ingested(m0, all.subrange(0, all.len() - rev@.len())),
                forall|i: int| 0 <= i < all.len() ==> (#[trigger] all[i]).0 >= old(self).cap().unwrap(),
            decreases rev@.len(),
        {
            let ghost done = all.len() - rev@.len();
            proof {
                assert(all.subrange(done, all.len() as int).reverse().last() == all[done]);
                assert(all[done].0 >= old(self).cap().unwrap());
            }
            let (epoch, batch) = rev.pop().unwrap();
            let ghost b = batch;
            self.inbuf.extend(epoch, strip_routes(batch));
            proof {
                assert(rev@ =~= all.subrange(done + 1, all.len() as int).reverse());
                let pre = all.subrange(0, done + 1);
                assert(pre.drop_last() =~= all.subrange(0, done));
                assert(pre.last() == (epoch, b));
            }
        }
        proof {
            assert(all.subrange(0, all.len() as int) =~= all);
        }
    }

    #[verifier::rlimit(60)]
    /// One activation: buffers `incoming` (batches tagged with their epoch,
    /// items with the worker they were routed to), then works through the
    /// selected epochs in ascending order. `frontier` is the input frontier;
    /// none means the input has ended. `now` is the one clock reading used
    /// for every wake-up decision of this activation.
    pub fn activate(
        &mut self,
        incoming: Vec<(u64, Vec<(usize, StateKey, L::Value)>)>,
        frontier: Option<u64>,
        now: Timestamp,
    ) -> (r: Result<Activation<L::Value>, OperatorError>)
        requires
            old(self).wf(),
            old(self).cap() is Some ==> forall|i: int|
                0 <= i < incoming@.len() ==> (#[trigger] incoming@[i]).0 >= old(self).cap().unwrap(),
            old(self).cap() is Some && frontier is Some ==> frontier.unwrap() >= old(self).cap().unwrap(),
        ensures
            activation_post(*old(self), *final(self), incoming@, frontier, now, r),
    {
        let c = match self.output_epoch {
            None => {
                if frontier.is_none() {
                    self.output_epoch = None;
                }
                proof {
                    assert(self.wf());
                }
                return Ok(Activation { emitted: Vec::new(), snapshots: Vec::new(), activate_after: None });
            },
            Some(c) => c,
        };
        match self.check_routing(&incoming) {
            Ok(()) => {},
            Err(err) => {
                return Err(err);
            },
        }
        let ghost inc = incoming@;
        self.ingest(incoming);
        let ghost m = self.inbuf.map();
        let buffered = self.inbuf.epochs();
        let epochs = select_epochs(c, &buffered, frontier, self.state.start_at());
        proof {
            assert forall|x: u64| #[trigger] epochs@.contains(x) == will_process(c, m, frontier, self.state.resume(), x) by {
                assert(buffered@.to_set().contains(x) == buffered@.contains(x));
            }
            assert forall|e: u64, key: Seq<char>| #[trigger] batch_emitted(Seq::<Emission<L::Value>>::empty(), e, key) == false by {}
            assert(epochs@.subrange(0, 0) =~= Seq::<u64>::empty());
            lemma_selected_open_is_last(c, buffered@, frontier, self.state.resume(), epochs@);
            assert forall|k: int| 0 <= k < epochs@.len() implies #[trigger] epochs@[k] >= c by {
                assert(epochs@.contains(epochs@[k]));
                if buffered@.contains(epochs@[k]) {
                    assert(self.inbuf.map().dom().contains(epochs@[k]));
                }
            }
        }
        let eof = frontier.is_none();
        let ghost res = self.state.resume();
        let ghost idle = m.dom().is_empty() && self.state.logics().dom().is_empty() && self.state.awoken_set().is_empty();
        let mut emitted: Vec<Emission<L::Value>> = Vec::new();
        let mut snaps: Vec<SerializedSnapshot> = Vec::new();
        let mut cur = c;
        let mut k: usize = 0;
        proof {
            if epochs@.len() > 0 {
                assert(epochs@.contains(epochs@[0]));
                if is_closed(frontier, c) {
                    assert(will_process(c, m, frontier, self.state.resume(), c));
                    assert(epochs@.contains(c));
                    let t = choose|t: int| 0 <= t < epochs@.len() && epochs@[t] == c;
                    if t > 0 {
                        assert(epochs@[0] < epochs@[t]);
                    }
                } else {
                    assert(frontier is Some);
                    assert(epochs@[0] >= c);
                }
            }
        }
        while k < epochs.len()
            invariant
                self.wf(),
                self.output_epoch == Some(c),
                old(self).output_epoch == Some(c),
                self.this_worker == old(self).this_worker,
                !misrouted(inc, old(self).worker()),
                self.state.mode() == old(self).state.mode(),
                self.state.step() == old(self).state.step(),
                eof == frontier.is_none(),
                k <= epochs@.len(),
                epochs_ascending(epochs@),
                forall|j: int| 0 <= j < epochs@.len() ==> #[trigger] epochs@[j] >= c,
                forall|j: int| 0 <= j < epochs@.len() && !is_closed(frontier, #[trigger] epochs@[j]) ==> j
                    == epochs@.len() - 1,
                k == 0 ==> cur == c,
                k > 0 ==> cur == epochs@[k - 1],
                frontier is Some ==> cur <= frontier.unwrap(),
                m == ingested(old(self).pending(), inc),
                forall|x: u64| #[trigger] self.inbuf.map().contains_key(x) == (m.contains_key(x)
                    && !epochs@.subrange(0, k as int).contains(x)),
                forall|x: u64| self.inbuf.map().contains_key(x) ==> #[trigger] self.inbuf.map()[x] == m[x],
                forall|x: u64| #[trigger] epochs@.contains(x) == will_process(c, m, frontier, res, x),
                forall|x: u64| m.contains_key(x) ==> x >= c,
                forall|x: u64, key: Seq<char>| #[trigger] batch_emitted(emitted@, x, key) == (epochs@.subrange(0, k as int).contains(x)
                    && m.contains_key(x) && item_keys(m[x]).contains(key)),
                eof && k > 0 ==> forall|key: Seq<char>| #[trigger] self.state.logics().contains_key(key) ==> eof_emitted(emitted@, key),
                k == 0 ==> self.state == old(self).state,
                outcomes_hold(emitted@, self.state.logics(), Set::<Seq<char>>::empty()),
                idle ==> m.dom().is_empty() && self.state.logics().dom().is_empty() && self.state.awoken_set().is_empty(),
                idle == (m.dom().is_empty() && old(self).state.logics().dom().is_empty() && old(self).state.awoken_set().is_empty()),
                keys_ascending_within(emitted@),
                snaps_ordered(snaps@),
                forall|j: int| 0 <= j < snaps@.len() ==> touched_at(emitted@, (#[trigger] snaps@[j]).epoch, snaps@[j].state_key@)
                    || (old(self).state.awoken_set().contains(snaps@[j].state_key@) && snaps@[j].epoch == c),
                k > 0 && is_closed(frontier, cur) ==> self.state.awoken_set().is_empty(),
                epochs@.len() > 0 ==> epochs@[0] == c,
                k > 0 ==> forall|key: Seq<char>| #[trigger] notify_emitted(emitted@, epochs@[0], key) == (old(self).state.sched().contains_key(key)
                    && old(self).state.sched()[key].micros <= now.micros && !batch_discarded(emitted@, epochs@[0], key)),
                forall|i: int| 0 <= i < emitted@.len() ==> epochs@.contains((#[trigger] emitted@[i]).epoch),
                forall|i: int| 0 <= i < snaps@.len() ==> epochs@.contains((#[trigger] snaps@[i]).epoch),
                k > 0 && is_closed(frontier, c) ==> forall|key: Seq<char>|
                    #[trigger] old(self).state.awoken_set().contains(key) ==> covered(snaps@, key, c),
                self.state.resume() == res,
                inc == incoming@,
                forall|x: u64| #[trigger] epochs@.contains(x) == crate::epochs::selected(c, buffered@, frontier, res, x),
                k == 0 ==> emitted@.len() == 0 && snaps@.len() == 0,
                emissions_ordered(emitted@),
                forall|i: int| 0 <= i < emitted@.len() ==> c <= (#[trigger] emitted@[i]).epoch <= cur,
                forall|i: int| 0 <= i < snaps@.len() ==> c <= (#[trigger] snaps@[i]).epoch <= cur
                    && snaps@[i].step_id@ == self.state.step(),
                forall|i: int| 0 <= i < emitted@.len() ==>
                    covered(snaps@, (#[trigger] emitted@[i]).key@, emitted@[i].epoch) || (
                    self.state.awoken_set().contains(emitted@[i].key@) && self.state.mode()
                    == SnapshotMode::Batch && !is_closed(frontier, emitted@[i].epoch) && emitted@[i].epoch
                    == cur),
            decreases epochs@.len() - k,
        {
            let e = epochs[k];
            proof {
                if k > 0 {
                    assert(epochs@[k - 1] < epochs@[k as int]);
                    assert(is_closed(frontier, epochs@[k - 1]));
                }
            }
            let ghost em0 = emitted@;
            let ghost s0 = self.state;
            let ghost ib0 = self.inbuf.map();
            let ghost sub = epochs@.subrange(0, k as int);
            let ghost ks = if m.contains_key(e) {
                item_keys(m[e]).to_set()
            } else {
                Set::<Seq<char>>::empty()
            };
            proof {
                assert(!sub.contains(e)) by {
                    if sub.contains(e) {
                        let j = choose|j: int| 0 <= j < sub.len() && sub[j] == e;
                        assert(epochs@[j] < epochs@[k as int]);
                    }
                }
                assert(ib0.contains_key(e) == m.contains_key(e));
            }
            let items = self.inbuf.remove(e);
            proof {
                if items is Some {
                    assert(item_keys(items.unwrap()@).to_set() == ks);
                } else {
                    assert(!m.contains_key(e));
                }
            }
            match epoch_phases(&mut self.state, items, e, now, eof, &mut emitted) {
                Ok(()) => {},
                Err(err) => {
                    return Err(OperatorError::Logic(err));
                },
            }
            let ghost em3 = emitted@;
            let ghost s3 = self.state;
            proof {
                if k == 0 {
                    assert(emitted@.subrange(0, emitted@.len() as int) =~= emitted@);
                } else {
                    assert(epochs@[0] < e);
                    assert forall|key: Seq<char>| #[trigger] notify_emitted(emitted@, epochs@[0], key) == notify_emitted(em0, epochs@[0], key)
                        && batch_discarded(emitted@, epochs@[0], key) == batch_discarded(em0, epochs@[0], key) by {
                        if notify_emitted(emitted@, epochs@[0], key) {
                            let t = choose|t: int| 0 <= t < emitted@.len() && (#[trigger] emitted@[t]).epoch == epochs@[0]
                                && emitted@[t].callback == Callback::OnNotify && emitted@[t].key@ == key;
                            if t >= em0.len() { assert(emitted@[t].epoch == e); }
                            assert(emitted@.subrange(0, em0.len() as int)[t] == em0[t]);
                        }
                        if notify_emitted(em0, epochs@[0], key) {
                            let t = choose|t: int| 0 <= t < em0.len() && (#[trigger] em0[t]).epoch == epochs@[0]
                                && em0[t].callback == Callback::OnNotify && em0[t].key@ == key;
                            assert(emitted@.subrange(0, em0.len() as int)[t] == em0[t]);
                        }
                        if batch_discarded(emitted@, epochs@[0], key) {
                            let t = choose|t: int| 0 <= t < emitted@.len() && (#[trigger] emitted@[t]).epoch == epochs@[0]
                                && emitted@[t].callback == Callback::OnBatch && emitted@[t].key@ == key && emitted@[t].complete == IsComplete::Discard;
                            if t >= em0.len() { assert(emitted@[t].epoch == e); }
                            assert(emitted@.subrange(0, em0.len() as int)[t] == em0[t]);
                        }
                        if batch_discarded(em0, epochs@[0], key) {
                            let t = choose|t: int| 0 <= t < em0.len() && (#[trigger] em0[t]).epoch == epochs@[0]
                                && em0[t].callback == Callback::OnBatch && em0[t].key@ == key && em0[t].complete == IsComplete::Discard;
                            assert(emitted@.subrange(0, em0.len() as int)[t] == em0[t]);
                        }
                    }
                }
            }
            let closed = match frontier {
                Some(f) => e < f,
                None => true,
            };
            let ghost s4 = self.state;
            let ghost sn0 = snaps@;
            let mut taken = match self.state.snapshots(e, closed) {
                Ok(t) => t,
                Err(err) => {
                    return Err(OperatorError::Logic(err));
                },
            };
            let ghost tk = taken@;
            snaps.append(&mut taken);
            proof {
                assert(snaps@ == sn0 + tk);
                if k > 0 && is_closed(frontier, c) {
                    assert forall|key: Seq<char>| #[trigger] old(self).state.awoken_set().contains(key) implies covered(snaps@, key, c) by {
                        assert(covered(sn0, key, c));
                        let j = choose|j: int| 0 <= j < sn0.len() && (#[trigger] sn0[j]).state_key@ == key && sn0[j].epoch == c;
                        assert(snaps@[j] == sn0[j]);
                    }
                }
                if k == 0 && is_closed(frontier, c) {
                    assert(epochs@.contains(c));
                    let j = choose|j: int| 0 <= j < epochs@.len() && epochs@[j] == c;
                    if j > 0 {
                        assert(epochs@[0] < epochs@[j]);
                        assert(epochs@[0] >= c);
                    }
                    assert(e == c);
                    assert forall|key: Seq<char>| #[trigger] old(self).state.awoken_set().contains(key) implies covered(snaps@, key, c) by {
                        assert(s4.awoken_set().contains(key));
                        assert(snap_keys(tk).to_set().contains(key));
                        let x = choose|x: int| 0 <= x < snap_keys(tk).len() && snap_keys(tk)[x] == key;
                        assert(tk[x].state_key@ == key);
                        assert(snaps@[sn0.len() + x] == tk[x]);
                    }
                }
                lemma_epoch_snapshots(s4, self.state, em0, emitted@, sn0, tk, e, c, cur, frontier, closed, k > 0);
                assert forall|j: int| 0 <= j < snaps@.len() implies touched_at(emitted@, (#[trigger] snaps@[j]).epoch, snaps@[j].state_key@)
                    || (old(self).state.awoken_set().contains(snaps@[j].state_key@) && snaps@[j].epoch == c) by {
                    if j < sn0.len() {
                        assert(snaps@[j] == sn0[j]);
                        if touched_at(em0, sn0[j].epoch, sn0[j].state_key@) {
                            let t = choose|t: int| 0 <= t < em0.len() && (#[trigger] em0[t]).epoch == sn0[j].epoch && em0[t].key@ == sn0[j].state_key@;
                            assert(emitted@.subrange(0, em0.len() as int)[t] == em0[t]);
                        }
                    } else {
                        let x = j - sn0.len();
                        assert(snaps@[j] == tk[x]);
                        let key = tk[x].state_key@;
                        assert(snap_keys(tk)[x] == key);
                        assert(snap_keys(tk).to_set().contains(key));
                        assert(s4.awoken_set().contains(key));
                        if new_keys(em0, emitted@).contains(key) {
                            let t = choose|t: int| 0 <= t < new_keys(em0, emitted@).len() && new_keys(em0, emitted@)[t] == key;
                            assert(emitted@[em0.len() + t].epoch == e);
                            assert(emitted@[em0.len() + t].key@ == key);
                        } else {
                            assert(s0.awoken_set().contains(key));
                            assert(k == 0);
                            assert(e == c);
                        }
                    }
                }
                assert forall|i: int, j: int|
                    0 <= i < j < emitted@.len() && (#[trigger] emitted@[i]).epoch == (#[trigger] emitted@[j]).epoch && emitted@[i].callback
                        == emitted@[j].callback implies key_lt(emitted@[i].key@, emitted@[j].key@) by {
                    if j < em0.len() {
                        assert(emitted@.subrange(0, em0.len() as int)[i] == em0[i]);
                        assert(emitted@.subrange(0, em0.len() as int)[j] == em0[j]);
                    } else if i < em0.len() {
                        assert(emitted@.subrange(0, em0.len() as int)[i] == em0[i]);
                        assert(em0[i].epoch <= cur);
                    }
                }
                assert forall|i: int, j: int|
                    0 <= i < j < snaps@.len() implies (#[trigger] snaps@[i]).epoch < (#[trigger] snaps@[j]).epoch || (snaps@[i].epoch
                        == snaps@[j].epoch && key_lt(snaps@[i].state_key@, snaps@[j].state_key@)) by {
                    if j < sn0.len() {
                        assert(snaps@[i] == sn0[i] && snaps@[j] == sn0[j]);
                    } else if i < sn0.len() {
                        assert(snaps@[i] == sn0[i] && snaps@[j] == tk[j - sn0.len()]);
                        assert(tk[j - sn0.len()].epoch == e);
                        if k == 0 {
                            assert(sn0.len() == 0);
                        }
                    } else {
                        assert(snaps@[i] == tk[i - sn0.len()] && snaps@[j] == tk[j - sn0.len()]);
                        assert(snap_keys(tk)[i - sn0.len()] == tk[i - sn0.len()].state_key@);
                        assert(snap_keys(tk)[j - sn0.len()] == tk[j - sn0.len()].state_key@);
                    }
                }
            }
            proof {
                assert(self.inbuf.map() == ib0.remove(e));
                let sub1 = epochs@.subrange(0, k + 1);
                assert(sub1 =~= sub.push(e));
                assert forall|x: u64| sub1.contains(x) == (sub.contains(x) || x == e) by {
                    if sub1.contains(x) {
                        let j = choose|j: int| 0 <= j < sub1.len() && sub1[j] == x;
                        if j < k {
                            assert(sub[j] == x);
                        }
                    }
                    if sub.contains(x) {
                        let j = choose|j: int| 0 <= j < sub.len() && sub[j] == x;
                        assert(sub1[j] == x);
                    }
                    assert(sub1[k as int] == e);
                }
                assert forall|x: u64| #[trigger] self.inbuf.map().contains_key(x) == (m.contains_key(x)
                    && !sub1.contains(x)) by {
                }
                assert forall|x: u64, key: Seq<char>| #[trigger] batch_emitted(emitted@, x, key) == (sub1.contains(x)
                    && m.contains_key(x) && item_keys(m[x]).contains(key)) by {
                    assert(batch_emitted(em3, x, key) == (batch_emitted(em0, x, key) || (x == e && ks.contains(key))));
                    assert(batch_emitted(em0, x, key) == (sub.contains(x) && m.contains_key(x) && item_keys(m[x]).contains(key)));
                    if x == e && m.contains_key(e) {
                        assert(ks.contains(key) == item_keys(m[e]).contains(key));
                    }
                }
            }
            proof {
                assert(epochs@.contains(e));
                assert forall|i: int| 0 <= i < emitted@.len() implies epochs@.contains((#[trigger] emitted@[i]).epoch) by {
                    if i < em0.len() {
                        assert(emitted@.subrange(0, em0.len() as int)[i] == em0[i]);
                    }
                }
                assert forall|i: int| 0 <= i < snaps@.len() implies epochs@.contains((#[trigger] snaps@[i]).epoch) by {
                    if i < sn0.len() {
                        assert(snaps@[i] == sn0[i]);
                    } else {
                        assert(snaps@[i] == tk[i - sn0.len()]);
                    }
                }
                assert(frontier is Some ==> e <= frontier.unwrap());
                if eof {
                    assert forall|key: Seq<char>| #[trigger] self.state.logics().contains_key(key) implies eof_emitted(emitted@, key) by {
                        assert(s3.logics().contains_key(key));
                    }
                }
            }
            cur = e;
            k = k + 1;
        }
        proof {
            assert(epochs@.subrange(0, k as int) =~= epochs@);
            assert forall|x: u64| self.inbuf.map().contains_key(x) implies !epochs@.contains(x) && buffered@.contains(x) by {
                assert(!epochs@.subrange(0, k as int).contains(x));
                assert(buffered@.to_set().contains(x));
            }
            assert forall|x: u64| #[trigger] will_process(c, m, frontier, res, x) && frontier is Some implies x <= cur by {
                assert(epochs@.contains(x));
                let j = choose|j: int| 0 <= j < epochs@.len() && epochs@[j] == x;
                if j < epochs@.len() - 1 {
                    assert(epochs@[j] < epochs@[epochs@.len() - 1]);
                }
            }
            if k > 0 {
                assert(epochs@.contains(cur));
            }
            if eof {
                assert(will_process(c, m, frontier, res, c));
                assert(epochs@.contains(c));
                assert(k > 0);
            }
            assert forall|e0: u64, key: Seq<char>|
                will_process(c, m, frontier, res, e0) && (forall|e: u64| #[trigger] will_process(c, m, frontier, res, e) ==> e0 <= e)
                    implies (#[trigger] notify_emitted(emitted@, e0, key) == (old(self).state.sched().contains_key(key)
                    && old(self).state.sched()[key].micros <= now.micros && !batch_discarded(emitted@, e0, key))) by {
                assert(epochs@.contains(e0));
                let t = choose|t: int| 0 <= t < epochs@.len() && epochs@[t] == e0;
                assert(epochs@.contains(epochs@[0]));
                assert(will_process(c, m, frontier, res, epochs@[0]));
                if t > 0 {
                    assert(epochs@[0] < epochs@[t]);
                }
                assert(e0 == epochs@[0]);
                assert(k > 0);
            }
            if is_closed(frontier, c) {
                assert(will_process(c, m, frontier, res, c));
                assert(epochs@.contains(c));
                assert(k > 0);
                assert(forall|key: Seq<char>| #[trigger] old(self).state.awoken_set().contains(key) ==> covered(snaps@, key, c));
            }
        }
        if eof {
            self.output_epoch = None;
        } else {
            self.output_epoch = Some(cur);
            proof {
                assert(epochs@.subrange(0, k as int) =~= epochs@);
                assert forall|x: u64| self.inbuf.map().contains_key(x) implies x >= cur by {
                    assert(!epochs@.contains(x));
                    assert(buffered@.contains(x));
                }
            }
        }
        let activate_after = self.state.activate_after(now);
        Ok(Activation { emitted, snapshots: snaps, activate_after })
    }
}

/// The emissions of one epoch's batch, wake-up and end-of-input phases come
/// at that epoch, in phase order, for keys that are marked touched.
proof fn lemma_epoch_emissions<L, B, V>(
    s0: StatefulBatchState<L, B>,
    s1: StatefulBatchState<L, B>,
    s2: StatefulBatchState<L, B>,
    s3: StatefulBatchState<L, B>,
    s4: StatefulBatchState<L, B>,
    em0: Seq<Emission<V>>,
    em1: Seq<Emission<V>>,
    em2: Seq<Emission<V>>,
    em3: Seq<Emission<V>>,
    e: u64,
)
    requires
        phase_post(s0, s1, em0, em1, e, Callback::OnBatch),
        phase_post(s1, s2, em1, em2, e, Callback::OnNotify),
        phase_post(s2, s3, em2, em3, e, Callback::OnEof),
        s4.wf(),
        s4.step() == s3.step(),
        s4.resume() == s3.resume(),
        s4.mode() == s3.mode(),
        s4.awoken_set() == s3.awoken_set(),
        keys_sorted(new_keys(em0, em1)),
        keys_sorted(new_keys(em1, em2)),
        keys_sorted(new_keys(em2, em3)),
    ensures
        forall|i: int, j: int| em0.len() <= i < j < em3.len() && (#[trigger] em3[i]).callback == (#[trigger] em3[j]).callback
            ==> key_lt(em3[i].key@, em3[j].key@),
        forall|k: Seq<char>| #[trigger] s4.awoken_set().contains(k) ==> s0.awoken_set().contains(k)
            || new_keys(em0, em3).contains(k),
        em0.len() <= em3.len(),
        em3.subrange(0, em0.len() as int) == em0,
        s0.awoken_set().subset_of(s4.awoken_set()),
        s4.step() == s0.step(),
        s4.mode() == s0.mode(),
        s4.resume() == s0.resume(),
        forall|i: int| em0.len() <= i < em3.len() ==> (#[trigger] em3[i]).epoch == e && s4.awoken_set().contains(em3[i].key@),
        forall|i: int, j: int| em0.len() <= i < j < em3.len() ==> phase_rank((#[trigger] em3[i]).callback) <= phase_rank((#[trigger] em3[j]).callback),
{
    assert forall|i: int| em0.len() <= i < em3.len() implies (#[trigger] em3[i]).epoch == e && s4.awoken_set().contains(em3[i].key@) by {
        if i < em1.len() {
            assert(em3[i] == em1[i]) by {
                assert(em3.subrange(0, em2.len() as int)[i] == em2[i]);
                assert(em2.subrange(0, em1.len() as int)[i] == em1[i]);
            }
        } else if i < em2.len() {
            assert(em3.subrange(0, em2.len() as int)[i] == em2[i]);
        }
    }
    assert forall|i: int, j: int| em0.len() <= i < j < em3.len() implies phase_rank((#[trigger] em3[i]).callback) <= phase_rank((#[trigger] em3[j]).callback) by {
        if i < em1.len() {
            assert(em3.subrange(0, em2.len() as int)[i] == em2[i]);
            assert(em2.subrange(0, em1.len() as int)[i] == em1[i]);
        } else if i < em2.len() {
            assert(em3.subrange(0, em2.len() as int)[i] == em2[i]);
        }
        if j < em1.len() {
            assert(em3.subrange(0, em2.len() as int)[j] == em2[j]);
            assert(em2.subrange(0, em1.len() as int)[j] == em1[j]);
        } else if j < em2.len() {
            assert(em3.subrange(0, em2.len() as int)[j] == em2[j]);
        }
    }
    assert forall|k: Seq<char>| #[trigger] s4.awoken_set().contains(k) implies s0.awoken_set().contains(k)
        || new_keys(em0, em3).contains(k) by {
        let all = new_keys(em0, em3);
        if new_keys(em2, em3).contains(k) {
            let t = choose|t: int| 0 <= t < new_keys(em2, em3).len() && new_keys(em2, em3)[t] == k;
            assert(all[em2.len() - em0.len() + t] == k);
        } else if new_keys(em1, em2).contains(k) {
            let t = choose|t: int| 0 <= t < new_keys(em1, em2).len() && new_keys(em1, em2)[t] == k;
            assert(em3.subrange(0, em2.len() as int)[em1.len() + t] == em2[em1.len() + t]);
            assert(all[em1.len() - em0.len() + t] == k);
        } else if new_keys(em0, em1).contains(k) {
            let t = choose|t: int| 0 <= t < new_keys(em0, em1).len() && new_keys(em0, em1)[t] == k;
            assert(em3.subrange(0, em2.len() as int)[em0.len() + t] == em2[em0.len() + t]);
            assert(em2.subrange(0, em1.len() as int)[em0.len() + t] == em1[em0.len() + t]);
            assert(all[t] == k);
        }
    }
    assert forall|i: int, j: int| em0.len() <= i < j < em3.len() && (#[trigger] em3[i]).callback == (#[trigger] em3[j]).callback
        implies key_lt(em3[i].key@, em3[j].key@) by {
        assert forall|x: int| em0.len() <= x < em1.len() implies em3[x] == em1[x] by {
            assert(em3.subrange(0, em2.len() as int)[x] == em2[x]);
            assert(em2.subrange(0, em1.len() as int)[x] == em1[x]);
        }
        assert forall|x: int| em1.len() <= x < em2.len() implies em3[x] == em2[x] by {
            assert(em3.subrange(0, em2.len() as int)[x] == em2[x]);
        }
        if j < em1.len() {
            assert(new_keys(em0, em1)[i - em0.len()] == em1[i].key@);
            assert(new_keys(em0, em1)[j - em0.len()] == em1[j].key@);
        } else if j < em2.len() {
            if i < em1.len() {
                assert(em1[i].callback == Callback::OnBatch);
                assert(em2[j].callback == Callback::OnNotify);
            } else {
                assert(new_keys(em1, em2)[i - em1.len()] == em2[i].key@);
                assert(new_keys(em1, em2)[j - em1.len()] == em2[j].key@);
            }
        } else {
            if i < em1.len() {
                assert(em1[i].callback == Callback::OnBatch);
            } else if i < em2.len() {
                assert(em2[i].callback == Callback::OnNotify);
            } else {
                assert(new_keys(em2, em3)[i - em2.len()] == em3[i].key@);
                assert(new_keys(em2, em3)[j - em2.len()] == em3[j].key@);
            }
        }
    }
    assert(em3.subrange(0, em0.len() as int) =~= em0) by {
        assert forall|i: int| 0 <= i < em0.len() implies em3[i] == em0[i] by {
            assert(em3.subrange(0, em2.len() as int)[i] == em2[i]);
            assert(em2.subrange(0, em1.len() as int)[i] == em1[i]);
            assert(em1.subrange(0, em0.len() as int)[i] == em0[i]);
        }
    }
}

/// The `on_notify` emissions of an epoch are its wake-up block, and its
/// `on_batch` outcomes lie in the batch block.
proof fn lemma_notify_block<V>(em0: Seq<Emission<V>>, em1: Seq<Emission<V>>, em2: Seq<Emission<V>>, em3: Seq<Emission<V>>, e: u64)
    requires
        em0.len() <= em1.len() <= em2.len() <= em3.len(),
        em1.subrange(0, em0.len() as int) == em0,
        em2.subrange(0, em1.len() as int) == em1,
        em3.subrange(0, em2.len() as int) == em2,
        forall|i: int| em0.len() <= i < em1.len() ==> (#[trigger] em1[i]).callback == Callback::OnBatch && em1[i].epoch == e,
        forall|i: int| em1.len() <= i < em2.len() ==> (#[trigger] em2[i]).callback == Callback::OnNotify && em2[i].epoch == e,
        forall|i: int| em2.len() <= i < em3.len() ==> (#[trigger] em3[i]).callback == Callback::OnEof,
    ensures
        forall|key: Seq<char>| #[trigger] notify_emitted(em3.subrange(em0.len() as int, em3.len() as int), e, key)
            == new_keys(em1, em2).contains(key),
        forall|key: Seq<char>| #[trigger] batch_discarded(em3.subrange(em0.len() as int, em3.len() as int), e, key)
            == batch_discarded(em1.subrange(em0.len() as int, em1.len() as int), e, key),
{
    let n = em3.subrange(em0.len() as int, em3.len() as int);
    let b = em1.subrange(em0.len() as int, em1.len() as int);
    let nk = new_keys(em1, em2);
    assert forall|x: int| 0 <= x < em2.len() implies em3[x] == em2[x] by {
        assert(em3.subrange(0, em2.len() as int)[x] == em2[x]);
    }
    assert forall|x: int| 0 <= x < em1.len() implies em2[x] == em1[x] by {
        assert(em2.subrange(0, em1.len() as int)[x] == em1[x]);
    }
    assert forall|key: Seq<char>| #[trigger] notify_emitted(n, e, key) == nk.contains(key) by {
        if notify_emitted(n, e, key) {
            let t = choose|t: int| 0 <= t < n.len() && (#[trigger] n[t]).epoch == e && n[t].callback == Callback::OnNotify && n[t].key@ == key;
            let x = em0.len() + t;
            assert(n[t] == em3[x]);
            if x < em1.len() {
                assert(em3[x] == em1[x]);
            } else if x < em2.len() {
                assert(nk[x - em1.len()] == em2[x].key@);
            }
        }
        if nk.contains(key) {
            let t = choose|t: int| 0 <= t < nk.len() && nk[t] == key;
            let x = em1.len() + t;
            assert(nk[t] == em2[x].key@);
            assert(n[x - em0.len()] == em3[x]);
        }
    }
    assert forall|key: Seq<char>| #[trigger] batch_discarded(n, e, key) == batch_discarded(b, e, key) by {
        if batch_discarded(n, e, key) {
            let t = choose|t: int| 0 <= t < n.len() && (#[trigger] n[t]).epoch == e && n[t].callback == Callback::OnBatch
                && n[t].key@ == key && n[t].complete == IsComplete::Discard;
            let x = em0.len() + t;
            assert(n[t] == em3[x]);
            if x < em1.len() {
                assert(b[t] == em1[x]);
            } else if x < em2.len() {
                assert(em3[x] == em2[x]);
            }
        }
        if batch_discarded(b, e, key) {
            let t = choose|t: int| 0 <= t < b.len() && (#[trigger] b[t]).epoch == e && b[t].callback == Callback::OnBatch
                && b[t].key@ == key && b[t].complete == IsComplete::Discard;
            let x = em0.len() + t;
            assert(b[t] == em1[x]);
            assert(n[t] == em3[x]);
        }
    }
}

/// After one epoch's snapshots, every emission so far is either covered by
/// a snapshot at its epoch or still pending as a touched key of an open
/// epoch in batch mode.
proof fn lemma_epoch_snapshots<L, B, V>(
    s4: StatefulBatchState<L, B>,
    s5: StatefulBatchState<L, B>,
    em0: Seq<Emission<V>>,
    em: Seq<Emission<V>>,
    sn0: Seq<SerializedSnapshot>,
    tk: Seq<SerializedSnapshot>,
    e: u64,
    c: u64,
    cur: u64,
    frontier: Option<u64>,
    closed: bool,
    started: bool,
)
    requires
        closed == is_closed(frontier, e),
        c <= cur <= e,
        started ==> cur < e && is_closed(frontier, cur),
        !started ==> em0.len() == 0,
        em0.len() <= em.len(),
        em.subrange(0, em0.len() as int) == em0,
        emissions_ordered(em0),
        forall|i: int| 0 <= i < em0.len() ==> c <= (#[trigger] em0[i]).epoch <= cur,
        forall|i: int| em0.len() <= i < em.len() ==> (#[trigger] em[i]).epoch == e && s4.awoken_set().contains(em[i].key@),
        forall|i: int, j: int| em0.len() <= i < j < em.len() ==> phase_rank((#[trigger] em[i]).callback) <= phase_rank((#[trigger] em[j]).callback),
        forall|i: int| 0 <= i < sn0.len() ==> c <= (#[trigger] sn0[i]).epoch <= cur && sn0[i].step_id@ == s4.step(),
        forall|i: int| 0 <= i < em0.len() ==>
            covered(sn0, (#[trigger] em0[i]).key@, em0[i].epoch) || (
            s4.awoken_set().contains(em0[i].key@) && s4.mode() == SnapshotMode::Batch
            && !is_closed(frontier, em0[i].epoch) && em0[i].epoch == cur),
        s4.wf(),
        s5.step() == s4.step(),
        s5.mode() == s4.mode(),
        snaps_of(tk, s4.step(), e, s4.logics()),
        (s4.mode() == SnapshotMode::Immediate || closed) ==> snap_keys(tk).to_set() == s4.awoken_set(),
        !(s4.mode() == SnapshotMode::Immediate || closed) ==> tk.len() == 0 && s5.awoken_set() == s4.awoken_set(),
    ensures
        emissions_ordered(em),
        forall|i: int| 0 <= i < em.len() ==> c <= (#[trigger] em[i]).epoch <= e,
        forall|i: int| 0 <= i < (sn0 + tk).len() ==> c <= (#[trigger] (sn0 + tk)[i]).epoch <= e
            && (sn0 + tk)[i].step_id@ == s5.step(),
        forall|i: int| 0 <= i < em.len() ==>
            covered(sn0 + tk, (#[trigger] em[i]).key@, em[i].epoch) || (
            s5.awoken_set().contains(em[i].key@) && s5.mode() == SnapshotMode::Batch
            && !is_closed(frontier, em[i].epoch) && em[i].epoch == e),
{
    let all = sn0 + tk;
    assert forall|i: int| 0 <= i < em0.len() implies em[i] == em0[i] by {
        assert(em.subrange(0, em0.len() as int)[i] == em0[i]);
    }
    assert forall|i: int, j: int| 0 <= i < j < em.len() implies (#[trigger] em[i]).epoch < (#[trigger] em[j]).epoch || (em[i].epoch
            == em[j].epoch && phase_rank(em[i].callback) <= phase_rank(em[j].callback)) by {
        if j < em0.len() {
            assert(em[i] == em0[i]);
            assert(em[j] == em0[j]);
        } else if i < em0.len() {
            assert(em[i] == em0[i]);
        }
    }
    assert forall|i: int| 0 <= i < em.len() implies c <= (#[trigger] em[i]).epoch <= e by {
        if i < em0.len() {
            assert(em[i] == em0[i]);
        }
    }
    assert forall|i: int| 0 <= i < all.len() implies c <= (#[trigger] all[i]).epoch <= e && all[i].step_id@ == s5.step() by {
        if i < sn0.len() {
            assert(all[i] == sn0[i]);
        } else {
            assert(all[i] == tk[i - sn0.len()]);
            assert(tk[i - sn0.len()].epoch == e);
        }
    }
    assert forall|i: int| 0 <= i < em.len() implies
        covered(all, (#[trigger] em[i]).key@, em[i].epoch) || (
        s5.awoken_set().contains(em[i].key@) && s5.mode() == SnapshotMode::Batch
        && !is_closed(frontier, em[i].epoch) && em[i].epoch == e) by {
        if i < em0.len() {
            assert(em[i] == em0[i]);
            assert(covered(sn0, em0[i].key@, em0[i].epoch));
            let j = choose|j: int| 0 <= j < sn0.len() && (#[trigger] sn0[j]).state_key@ == em0[i].key@ && sn0[j].epoch == em0[i].epoch;
            assert(all[j] == sn0[j]);
        } else {
            if s4.mode() == SnapshotMode::Immediate || closed {
                assert(snap_keys(tk).to_set().contains(em[i].key@));
                let j = choose|j: int| 0 <= j < snap_keys(tk).len() && snap_keys(tk)[j] == em[i].key@;
                assert(tk[j].state_key@ == em[i].key@);
                assert(all[sn0.len() + j] == tk[j]);
            }
        }
    }
}

/// Across one epoch's phases, the `on_batch` emissions that appear are
/// exactly those of the batch phase, at that epoch, for the keys `ks`.
proof fn lemma_batch_emitted<L, B, V>(
    s0: StatefulBatchState<L, B>,
    s1: StatefulBatchState<L, B>,
    s2: StatefulBatchState<L, B>,
    s3: StatefulBatchState<L, B>,
    em0: Seq<Emission<V>>,
    em1: Seq<Emission<V>>,
    em2: Seq<Emission<V>>,
    em3: Seq<Emission<V>>,
    e: u64,
    ks: Set<Seq<char>>,
)
    requires
        phase_post(s0, s1, em0, em1, e, Callback::OnBatch),
        phase_post(s1, s2, em1, em2, e, Callback::OnNotify),
        phase_post(s2, s3, em2, em3, e, Callback::OnEof),
        new_keys(em0, em1).to_set() == ks,
    ensures
        forall|x: u64, key: Seq<char>| #[trigger] batch_emitted(em3, x, key) == (batch_emitted(em0, x, key) || (x == e && ks.contains(key))),
{
    assert forall|i: int| 0 <= i < em1.len() implies em3[i] == em1[i] by {
        assert(em3.subrange(0, em2.len() as int)[i] == em2[i]);
        assert(em2.subrange(0, em1.len() as int)[i] == em1[i]);
    }
    assert forall|i: int| 0 <= i < em0.len() implies em1[i] == em0[i] by {
        assert(em1.subrange(0, em0.len() as int)[i] == em0[i]);
    }
    assert forall|i: int| em1.len() <= i < em3.len() implies (#[trigger] em3[i]).callback != Callback::OnBatch by {
        if i < em2.len() {
            assert(em3.subrange(0, em2.len() as int)[i] == em2[i]);
        }
    }
    let nk = new_keys(em0, em1);
    assert forall|x: u64, key: Seq<char>| #[trigger] batch_emitted(em3, x, key) == (batch_emitted(em0, x, key) || (x == e && ks.contains(key))) by {
        if batch_emitted(em3, x, key) {
            let i = choose|i: int| 0 <= i < em3.len() && (#[trigger] em3[i]).epoch == x && em3[i].callback == Callback::OnBatch && em3[i].key@ == key;
            if i < em0.len() {
                assert(em0[i] == em3[i]);
            } else {
                assert(i < em1.len());
                assert(em1[i] == em3[i]);
                assert(nk[i - em0.len()] == key);
                assert(nk.to_set().contains(key));
            }
        }
        if batch_emitted(em0, x, key) {
            let i = choose|i: int| 0 <= i < em0.len() && (#[trigger] em0[i]).epoch == x && em0[i].callback == Callback::OnBatch && em0[i].key@ == key;
            assert(em3[i] == em0[i]);
        }
        if x == e && ks.contains(key) {
            assert(nk.to_set().contains(key));
            let j = choose|j: int| 0 <= j < nk.len() && nk[j] == key;
            assert(em3[em0.len() + j] == em1[em0.len() + j]);
        }
    }
}

} // verus!
