//! Properties that relate several calls, proved over the same models the
//! contracts use.
use vstd::prelude::*;
use crate::keymap::keys_sorted;
use crate::epochs::is_closed;
use crate::logic::{LogicBuilder, StatefulBatchLogic};
use crate::operator::{Activation, Emission, OperatorError, StatefulBatchOperator, activation_post, covered, emissions_ordered};
use crate::key::StateKey;
use crate::time::Timestamp;
use crate::snapshot::SerializedSnapshot;
use crate::stateful::{restored, snap_keys, snaps_of};

verus! {

broadcast use vstd::seq::group_seq_axioms;

/// Epochs never go down along a run of emissions.
pub open spec fn epochs_nondecreasing<V>(em: Seq<Emission<V>>) -> bool {
    forall|i: int, j: int| 0 <= i < j < em.len() ==> (#[trigger] em[i]).epoch <= (#[trigger] em[j]).epoch
}

/// Downstream epochs never decrease across activations: each activation's
/// emissions are ordered, lie at or below the epoch its outputs are then
/// held at, and the next activation emits at or above that epoch.
pub proof fn lemma_downstream_epochs_monotone<V>(first: Seq<Emission<V>>, second: Seq<Emission<V>>, held: u64)
    requires
        emissions_ordered(first),
        emissions_ordered(second),
        forall|i: int| 0 <= i < first.len() ==> (#[trigger] first[i]).epoch <= held,
        forall|i: int| 0 <= i < second.len() ==> held <= (#[trigger] second[i]).epoch,
    ensures
        epochs_nondecreasing(first + second),
{
    let all = first + second;
    assert forall|i: int, j: int| 0 <= i < j < all.len() implies (#[trigger] all[i]).epoch <= (#[trigger] all[j]).epoch by {
        if j < first.len() {
            assert(all[i] == first[i] && all[j] == first[j]);
        } else if i >= first.len() {
            assert(all[i] == second[i - first.len()] && all[j] == second[j - first.len()]);
        } else {
            assert(all[i] == first[i] && all[j] == second[j - first.len()]);
        }
    }
}

/// What a resume replays from a run of snapshots: each key and whether it
/// holds state.
pub open spec fn replay_view(snaps: Seq<SerializedSnapshot>) -> Seq<(Seq<char>, bool)> {
    snaps.map_values(|s: SerializedSnapshot| (s.state_key@, s.payload.is_some()))
}

/// A tombstone, not followed by state for the same key, keeps the key from
/// coming back on resume.
pub proof fn lemma_tombstone_not_restored(
    before: Seq<(Seq<char>, bool)>,
    k: Seq<char>,
    after: Seq<(Seq<char>, bool)>,
)
    requires
        forall|i: int| 0 <= i < after.len() ==> (#[trigger] after[i]).0 != k,
    ensures
        !restored(before.push((k, false)) + after, k),
    decreases after.len(),
{
    let all = before.push((k, false)) + after;
    if after.len() == 0 {
        assert(all =~= before.push((k, false)));
    } else {
        assert(all.drop_last() =~= before.push((k, false)) + after.drop_last());
        assert(all.last() == after.last());
        assert(after.last() == after[after.len() - 1]);
        lemma_tombstone_not_restored(before, k, after.drop_last());
    }
}

/// Resuming from the snapshots an epoch drained brings back a logic for
/// exactly the snapshotted keys that had one: tombstones stay gone.
pub proof fn lemma_resume_restores_live_keys<L>(
    snaps: Seq<SerializedSnapshot>,
    step: Seq<char>,
    epoch: u64,
    logics: Map<Seq<char>, L>,
)
    requires
        snaps_of(snaps, step, epoch, logics),
        keys_sorted(snap_keys(snaps)),
    ensures
        forall|k: Seq<char>| #[trigger] restored(replay_view(snaps), k) == (snap_keys(snaps).contains(k) && logics.contains_key(k)),
    decreases snaps.len(),
{
    if snaps.len() > 0 {
        let rest = snaps.drop_last();
        assert(snap_keys(rest) =~= snap_keys(snaps).drop_last());
        assert(replay_view(rest) =~= replay_view(snaps).drop_last());
        assert forall|i: int, j: int| 0 <= i < j < snap_keys(rest).len() implies crate::key::key_lt(
            #[trigger] snap_keys(rest)[i], #[trigger] snap_keys(rest)[j]) by {
            assert(snap_keys(rest)[i] == snap_keys(snaps)[i]);
            assert(snap_keys(rest)[j] == snap_keys(snaps)[j]);
        }
        assert(snaps_of(rest, step, epoch, logics)) by {
            assert forall|i: int| 0 <= i < rest.len() implies ((#[trigger] rest[i]).step_id@ == step && rest[i].epoch == epoch
                && rest[i].payload.is_some() == logics.contains_key(rest[i].state_key@)) by {
                assert(rest[i] == snaps[i]);
            }
        }
        lemma_resume_restores_live_keys(rest, step, epoch, logics);
        let last = snaps.last();
        assert(replay_view(snaps).last() == (last.state_key@, last.payload.is_some()));
        assert(snap_keys(snaps)[snaps.len() - 1] == last.state_key@);
        assert forall|k: Seq<char>| #[trigger] restored(replay_view(snaps), k) == (snap_keys(snaps).contains(k) && logics.contains_key(k)) by {
            let rv = replay_view(snaps);
            assert(restored(rv, k) == if rv.last().0 == k {
                rv.last().1
            } else {
                restored(rv.drop_last(), k)
            });
            assert(restored(replay_view(rest), k) == (snap_keys(rest).contains(k) && logics.contains_key(k)));
            if k == last.state_key@ {
                assert(snaps[snaps.len() - 1] == last);
                assert(snap_keys(snaps).contains(k));
            } else {
                if snap_keys(snaps).contains(k) {
                    let i = choose|i: int| 0 <= i < snap_keys(snaps).len() && snap_keys(snaps)[i] == k;
                    assert(i != snaps.len() - 1);
                    assert(snap_keys(rest)[i] == k);
                }
                if snap_keys(rest).contains(k) {
                    let i = choose|i: int| 0 <= i < snap_keys(rest).len() && snap_keys(rest)[i] == k;
                    assert(snap_keys(snaps)[i] == k);
                }
            }
        }
    } else {
        assert forall|k: Seq<char>| #[trigger] restored(replay_view(snaps), k) == (snap_keys(snaps).contains(k) && logics.contains_key(k)) by {
            assert(replay_view(snaps).len() == 0);
        }
    }
}

/// Snapshot coverage by the time an epoch closes: a key whose logic runs at
/// epoch `E` in one activation is snapshotted at `E` in that activation, or
/// in the next one if that one sees `E` closed.
pub proof fn lemma_snapshot_by_close<L: StatefulBatchLogic, B: LogicBuilder<L>>(
    op0: StatefulBatchOperator<L, B>,
    op1: StatefulBatchOperator<L, B>,
    op2: StatefulBatchOperator<L, B>,
    incoming1: Seq<(u64, Vec<(usize, StateKey, L::Value)>)>,
    incoming2: Seq<(u64, Vec<(usize, StateKey, L::Value)>)>,
    frontier1: Option<u64>,
    frontier2: Option<u64>,
    now1: Timestamp,
    now2: Timestamp,
    a1: Activation<L::Value>,
    a2: Activation<L::Value>,
    i: int,
)
    requires
        op0.cap() is Some,
        activation_post(op0, op1, incoming1, frontier1, now1, Ok::<Activation<L::Value>, OperatorError>(a1)),
        activation_post(op1, op2, incoming2, frontier2, now2, Ok::<Activation<L::Value>, OperatorError>(a2)),
        0 <= i < a1.emitted@.len(),
        is_closed(frontier2, a1.emitted@[i].epoch),
    ensures
        covered(a1.snapshots@, a1.emitted@[i].key@, a1.emitted@[i].epoch)
            || covered(a2.snapshots@, a1.emitted@[i].key@, a1.emitted@[i].epoch),
{
    let em = a1.emitted@[i];
    if !covered(a1.snapshots@, em.key@, em.epoch) {
        assert(op1.state_model().awoken_set().contains(em.key@));
        assert(op1.cap() == Some(em.epoch));
    }
}

/// Wake-ups never overtake batches: across consecutive activations, no
/// `on_batch` of an earlier epoch comes after an `on_notify`.
pub proof fn lemma_notify_not_before_earlier_batch<V>(first: Seq<Emission<V>>, second: Seq<Emission<V>>, held: u64)
    requires
        emissions_ordered(first),
        emissions_ordered(second),
        forall|i: int| 0 <= i < first.len() ==> (#[trigger] first[i]).epoch <= held,
        forall|i: int| 0 <= i < second.len() ==> held <= (#[trigger] second[i]).epoch,
    ensures
        forall|i: int, j: int|
            0 <= i < j < (first + second).len() && (#[trigger] (first + second)[i]).callback == crate::logic::Callback::OnNotify
                && (#[trigger] (first + second)[j]).callback == crate::logic::Callback::OnBatch
                ==> (first + second)[i].epoch <= (first + second)[j].epoch,
{
    lemma_downstream_epochs_monotone(first, second, held);
}

} // verus!
