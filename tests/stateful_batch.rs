use std::cell::RefCell;
use std::rc::Rc;

use bytewax::epochs::{epoch_closed, output_epochs, select_epochs};
use bytewax::inbuf::InBuffer;
use bytewax::key::StateKey;
use bytewax::keymap::KeyMap;
use bytewax::logic::{Callback, IsComplete, LogicBuilder, StatefulBatchLogic};
use bytewax::operator::{group_by_key, Activation, OperatorError, StatefulBatchOperator};
use bytewax::snapshot::{SerializedSnapshot, SnapshotMode};
use bytewax::stateful::{ResumeState, StatefulBatchState, DEFAULT_RESUME_EPOCH};
use bytewax::time::Timestamp;

/// Keeps a running sum; emits it after each batch; may wake once.
struct RunningSum {
    sum: i64,
    wake: Option<Timestamp>,
    wake_delay: Option<i64>,
    discard_after_batch: bool,
    discard_at_eof: bool,
    log: Rc<RefCell<Vec<String>>>,
}

impl StatefulBatchLogic for RunningSum {
    type Value = i64;

    fn on_batch(&mut self, values: Vec<i64>) -> Result<(Vec<i64>, IsComplete), String> {
        self.log.borrow_mut().push(format!("on_batch {:?}", values));
        for v in values {
            self.sum += v;
            if let Some(d) = self.wake_delay {
                if self.wake.is_none() {
                    self.wake = Some(Timestamp::from_micros(v + d));
                }
            }
        }
        let done = if self.discard_after_batch { IsComplete::Discard } else { IsComplete::Retain };
        Ok((vec![self.sum], done))
    }

    fn on_notify(&mut self) -> Result<(Vec<i64>, IsComplete), String> {
        self.log.borrow_mut().push("on_notify".to_string());
        self.wake = None;
        Ok((vec![-self.sum], IsComplete::Retain))
    }

    fn on_eof(&mut self) -> Result<(Vec<i64>, IsComplete), String> {
        self.log.borrow_mut().push("on_eof".to_string());
        let done = if self.discard_at_eof { IsComplete::Discard } else { IsComplete::Retain };
        Ok((vec![], done))
    }

    fn notify_at(&self) -> Result<Option<Timestamp>, String> {
        Ok(self.wake)
    }

    fn snapshot(&self) -> Result<Vec<u8>, String> {
        Ok(self.sum.to_le_bytes().to_vec())
    }

    fn close(self) -> Result<(), String> {
        self.log.borrow_mut().push("close".to_string());
        Ok(())
    }
}

struct SumBuilder {
    builds: Rc<RefCell<usize>>,
    wake_delay: Option<i64>,
    discard_after_batch: bool,
    discard_at_eof: bool,
    log: Rc<RefCell<Vec<String>>>,
}

impl LogicBuilder<RunningSum> for SumBuilder {
    fn build(&self, resume_state: Option<Vec<u8>>) -> Result<RunningSum, String> {
        *self.builds.borrow_mut() += 1;
        let sum = match resume_state {
            Some(bytes) => {
                let arr: [u8; 8] = bytes.as_slice().try_into().map_err(|_| "bad state".to_string())?;
                i64::from_le_bytes(arr)
            }
            None => 0,
        };
        Ok(RunningSum {
            sum,
            wake: None,
            wake_delay: self.wake_delay,
            discard_after_batch: self.discard_after_batch,
            discard_at_eof: self.discard_at_eof,
            log: self.log.clone(),
        })
    }
}

fn builder() -> SumBuilder {
    SumBuilder {
        builds: Rc::new(RefCell::new(0)),
        wake_delay: None,
        discard_after_batch: false,
        discard_at_eof: false,
        log: Rc::new(RefCell::new(Vec::new())),
    }
}

fn k(s: &str) -> StateKey {
    StateKey::new(s)
}

fn batch(epoch: u64, items: &[(&str, i64)]) -> (u64, Vec<(usize, StateKey, i64)>) {
    (epoch, items.iter().map(|(key, v)| (0usize, k(key), *v)).collect())
}

fn now() -> Timestamp {
    Timestamp::from_micros(1_000_000)
}

/// `(epoch, key, value)` for every emitted value, in order.
fn downstream(a: &Activation<i64>) -> Vec<(u64, String, i64)> {
    let mut out = Vec::new();
    for e in a.emitted.iter() {
        for v in e.values.iter() {
            out.push((e.epoch, e.key.as_str().to_string(), *v));
        }
    }
    out
}

fn snap_summary(snaps: &[SerializedSnapshot]) -> Vec<(u64, String, Option<i64>)> {
    snaps
        .iter()
        .map(|s| {
            (
                s.epoch,
                s.state_key.as_str().to_string(),
                s.payload.as_ref().map(|b| i64::from_le_bytes(b.as_slice().try_into().unwrap())),
            )
        })
        .collect()
}

fn operator(b: SumBuilder, mode: SnapshotMode, resume: Option<ResumeState>) -> StatefulBatchOperator<RunningSum, SumBuilder> {
    let state = StatefulBatchState::init(bytewax::key::StepId::new("step"), resume, b, mode).unwrap();
    StatefulBatchOperator::new(state, 0)
}

/// Runs the three-item input through eager and closing activations.
fn run_scenario_one() -> (Vec<(u64, String, i64)>, Vec<(u64, String, Option<i64>)>) {
    let mut op = operator(builder(), SnapshotMode::Batch, None);
    let mut down = Vec::new();
    let mut snaps = Vec::new();
    let a = op.activate(vec![batch(1, &[("a", 1), ("b", 2)])], Some(1), now()).unwrap();
    down.extend(downstream(&a));
    snaps.extend(snap_summary(&a.snapshots));
    let a = op.activate(vec![batch(2, &[("a", 3)])], Some(2), now()).unwrap();
    down.extend(downstream(&a));
    snaps.extend(snap_summary(&a.snapshots));
    let a = op.activate(vec![], Some(3), now()).unwrap();
    down.extend(downstream(&a));
    snaps.extend(snap_summary(&a.snapshots));
    assert_eq!(op.output_epoch(), Some(3));
    (down, snaps)
}

#[test]
fn running_sum_emits_per_batch() {
    let (down, snaps) = run_scenario_one();
    assert_eq!(
        down,
        vec![(1, "a".to_string(), 1), (1, "b".to_string(), 2), (2, "a".to_string(), 4)]
    );
    // Epoch 1 closes at the second activation, epoch 2 at the third.
    assert_eq!(
        snaps,
        vec![(1, "a".to_string(), Some(1)), (1, "b".to_string(), Some(2)), (2, "a".to_string(), Some(4))]
    );
}

#[test]
fn snapshots_at_close_in_immediate_mode() {
    let mut op = operator(builder(), SnapshotMode::Immediate, None);
    let a = op
        .activate(vec![batch(1, &[("a", 1), ("b", 2)]), batch(2, &[("a", 3)])], Some(3), now())
        .unwrap();
    assert_eq!(
        downstream(&a),
        vec![(1, "a".to_string(), 1), (1, "b".to_string(), 2), (2, "a".to_string(), 4)]
    );
    assert_eq!(
        snap_summary(&a.snapshots),
        vec![(1, "a".to_string(), Some(1)), (1, "b".to_string(), Some(2)), (2, "a".to_string(), Some(4))]
    );
    assert_eq!(op.output_epoch(), Some(3));
}

#[test]
fn end_of_input_discards_leave_tombstones() {
    let mut b = builder();
    b.discard_at_eof = true;
    let mut op = operator(b, SnapshotMode::Batch, None);
    op.activate(vec![batch(1, &[("a", 1), ("b", 2)])], Some(2), now()).unwrap();
    let a = op.activate(vec![], None, now()).unwrap();
    let callbacks: Vec<Callback> = a.emitted.iter().map(|e| e.callback).collect();
    assert_eq!(callbacks, vec![Callback::OnEof, Callback::OnEof]);
    assert_eq!(snap_summary(&a.snapshots), vec![(2, "a".to_string(), None), (2, "b".to_string(), None)]);
    assert!(op.state().keys().is_empty());
    assert_eq!(op.output_epoch(), None);
}

#[test]
fn epochs_never_go_down() {
    let (down, _) = run_scenario_one();
    for w in down.windows(2) {
        assert!(w[0].0 <= w[1].0);
    }
}

#[test]
fn same_input_same_output() {
    assert_eq!(run_scenario_one(), run_scenario_one());
}

#[test]
fn notify_fires_then_eof() {
    let mut b = builder();
    b.wake_delay = Some(10_000);
    b.discard_at_eof = true;
    let log = b.log.clone();
    let mut op = operator(b, SnapshotMode::Batch, None);
    // The item's value is the clock reading it was seen at.
    let t0 = now();
    let a = op.activate(vec![batch(1, &[("k", t0.micros)])], Some(1), t0).unwrap();
    assert_eq!(downstream(&a), vec![(1, "k".to_string(), t0.micros)]);
    assert_eq!(a.activate_after, Some(10_000));
    let later = Timestamp::from_micros(t0.micros + 10_000);
    let a = op.activate(vec![], None, later).unwrap();
    let callbacks: Vec<Callback> = a.emitted.iter().map(|e| e.callback).collect();
    assert_eq!(callbacks, vec![Callback::OnNotify, Callback::OnEof]);
    assert!(a.emitted.iter().all(|e| e.epoch == 1));
    assert_eq!(downstream(&a), vec![(1, "k".to_string(), -t0.micros)]);
    assert_eq!(op.output_epoch(), None);
    assert_eq!(
        *log.borrow(),
        vec![format!("on_batch [{}]", t0.micros), "on_notify".to_string(), "on_eof".to_string(), "close".to_string()]
    );
}

#[test]
fn notify_waits_until_due() {
    let mut b = builder();
    b.wake_delay = Some(10_000);
    let mut op = operator(b, SnapshotMode::Batch, None);
    let t0 = now();
    op.activate(vec![batch(1, &[("k", t0.micros)])], Some(1), t0).unwrap();
    let a = op.activate(vec![], Some(1), Timestamp::from_micros(t0.micros + 4_000)).unwrap();
    assert!(a.emitted.is_empty());
    assert_eq!(a.activate_after, Some(6_000));
}

#[test]
fn discard_resets_state() {
    let mut b = builder();
    b.discard_after_batch = true;
    let builds = b.builds.clone();
    let mut op = operator(b, SnapshotMode::Batch, None);
    let a = op.activate(vec![batch(1, &[("k", 5)])], Some(2), now()).unwrap();
    assert_eq!(downstream(&a), vec![(1, "k".to_string(), 5)]);
    assert_eq!(*builds.borrow(), 1);
    assert!(!op.state().contains_key(&k("k")));
    // The discarded key's snapshot is a tombstone.
    assert_eq!(snap_summary(&a.snapshots), vec![(1, "k".to_string(), None)]);
    let a = op.activate(vec![batch(2, &[("k", 7)])], Some(3), now()).unwrap();
    assert_eq!(downstream(&a), vec![(2, "k".to_string(), 7)]);
    assert_eq!(*builds.borrow(), 2);
}

#[test]
fn restart_from_snapshots_matches() {
    // First run: up to the snapshots of epoch 1, then a crash.
    let mut op = operator(builder(), SnapshotMode::Batch, None);
    op.activate(vec![batch(1, &[("a", 1), ("b", 2)])], Some(1), now()).unwrap();
    let a = op.activate(vec![], Some(2), now()).unwrap();
    let snaps: Vec<(StateKey, Option<Vec<u8>>)> = a
        .snapshots
        .iter()
        .map(|s| (s.state_key.clone(), s.payload.clone()))
        .collect();
    assert_eq!(snaps.len(), 2);
    drop(op);
    // Restart from them at epoch 2.
    let resume = ResumeState { epoch: 2, snaps };
    let mut op = operator(builder(), SnapshotMode::Batch, Some(resume));
    assert_eq!(op.state().start_at(), 2);
    let a = op.activate(vec![batch(2, &[("a", 3)])], Some(2), now()).unwrap();
    assert_eq!(downstream(&a), vec![(2, "a".to_string(), 4)]);
}

#[test]
fn tombstone_is_not_restored() {
    let resume = ResumeState {
        epoch: 5,
        snaps: vec![
            (k("a"), Some(3i64.to_le_bytes().to_vec())),
            (k("b"), Some(4i64.to_le_bytes().to_vec())),
            (k("b"), None),
            (k("c"), None),
        ],
    };
    let b = builder();
    let builds = b.builds.clone();
    let state = StatefulBatchState::init(bytewax::key::StepId::new("s"), Some(resume), b, SnapshotMode::Batch).unwrap();
    assert!(state.contains_key(&k("a")));
    assert!(!state.contains_key(&k("b")));
    assert!(!state.contains_key(&k("c")));
    assert_eq!(*builds.borrow(), 2);
    let keys: Vec<String> = state.keys().iter().map(|x| x.as_str().to_string()).collect();
    assert_eq!(keys, vec!["a".to_string()]);
}

#[test]
fn default_resume_epoch_is_one() {
    let state = StatefulBatchState::init(bytewax::key::StepId::new("s"), None, builder(), SnapshotMode::Batch).unwrap();
    assert_eq!(state.start_at(), DEFAULT_RESUME_EPOCH);
    assert_eq!(state.start_at(), 1);
}

#[test]
fn snapshot_round_trip_restores_behaviour() {
    let b = builder();
    let mut logic = b.build(None).unwrap();
    logic.on_batch(vec![2, 3]).unwrap();
    let bytes = logic.snapshot().unwrap();
    let mut restored = b.build(Some(bytes)).unwrap();
    assert_eq!(logic.on_batch(vec![1]).unwrap().0, restored.on_batch(vec![1]).unwrap().0);
}

#[test]
fn misrouted_item_is_rejected() {
    let mut op = operator(builder(), SnapshotMode::Batch, None);
    let r = op.activate(vec![(1, vec![(1usize, k("a"), 1i64)])], Some(1), now());
    match r {
        Err(OperatorError::Misrouted { key, worker, this_worker }) => {
            assert_eq!(key.as_str(), "a");
            assert_eq!(worker, 1);
            assert_eq!(this_worker, 0);
        }
        _ => panic!("expected a routing error"),
    }
    assert_eq!(op.output_epoch(), Some(0));
}

#[test]
fn failing_logic_names_step_and_key() {
    struct Failing;
    impl StatefulBatchLogic for Failing {
        type Value = i64;
        fn on_batch(&mut self, _values: Vec<i64>) -> Result<(Vec<i64>, IsComplete), String> {
            Err("boom".to_string())
        }
        fn on_notify(&mut self) -> Result<(Vec<i64>, IsComplete), String> {
            Ok((vec![], IsComplete::Retain))
        }
        fn on_eof(&mut self) -> Result<(Vec<i64>, IsComplete), String> {
            Ok((vec![], IsComplete::Retain))
        }
        fn notify_at(&self) -> Result<Option<Timestamp>, String> {
            Ok(None)
        }
        fn snapshot(&self) -> Result<Vec<u8>, String> {
            Ok(vec![])
        }
        fn close(self) -> Result<(), String> {
            Ok(())
        }
    }
    struct FailingBuilder;
    impl LogicBuilder<Failing> for FailingBuilder {
        fn build(&self, _resume_state: Option<Vec<u8>>) -> Result<Failing, String> {
            Ok(Failing)
        }
    }
    let state = StatefulBatchState::init(bytewax::key::StepId::new("st"), None, FailingBuilder, SnapshotMode::Batch).unwrap();
    let mut op = StatefulBatchOperator::new(state, 0);
    match op.activate(vec![(1, vec![(0usize, k("x"), 1i64)])], Some(1), now()) {
        Err(OperatorError::Logic(e)) => {
            assert_eq!(e.step_id.as_str(), "st");
            assert_eq!(e.key.as_str(), "x");
            assert_eq!(e.callback, Callback::OnBatch);
            assert_eq!(e.message, "boom");
        }
        _ => panic!("expected a logic error"),
    }
}

#[test]
fn nothing_after_outputs_dropped() {
    let mut op = operator(builder(), SnapshotMode::Batch, None);
    op.activate(vec![], None, now()).unwrap();
    assert_eq!(op.output_epoch(), None);
    let a = op.activate(vec![batch(3, &[("a", 1)])], None, now()).unwrap();
    assert!(a.emitted.is_empty());
    assert!(a.snapshots.is_empty());
}

#[test]
fn select_epochs_examples() {
    // Closed last output epoch and buffered epochs, plus the open frontier.
    assert_eq!(select_epochs(1, &vec![1, 2, 5], Some(3), 1), vec![1, 2, 3]);
    // Frontier below the resume epoch: no eager work.
    assert_eq!(select_epochs(0, &vec![], Some(0), 1), Vec::<u64>::new());
    // End of input: everything buffered is closed; the last output epoch stands in for the frontier.
    assert_eq!(select_epochs(4, &vec![6, 5], None, 1), vec![4, 5, 6]);
    assert_eq!(select_epochs(4, &vec![], None, 9), vec![4]);
}

#[test]
fn notify_keys_sorted_and_due() {
    let mut state = StatefulBatchState::init(bytewax::key::StepId::new("s"), None, builder(), SnapshotMode::Batch).unwrap();
    for name in ["c", "a", "b"] {
        state.insert(k(name), None).unwrap();
    }
    state.schedule(k("c"), Timestamp::from_micros(5));
    state.schedule(k("a"), Timestamp::from_micros(10));
    state.schedule(k("b"), Timestamp::from_micros(20));
    let due: Vec<String> = state.notify_keys(Timestamp::from_micros(10)).iter().map(|x| x.as_str().to_string()).collect();
    assert_eq!(due, vec!["a".to_string(), "c".to_string()]);
    assert_eq!(state.activate_after(Timestamp::from_micros(12)), Some(0));
    assert_eq!(state.activate_after(Timestamp::from_micros(3)), Some(2));
    state.remove(&k("c")).unwrap();
    assert_eq!(state.activate_after(Timestamp::from_micros(3)), Some(7));
    assert!(!state.contains_key(&k("c")));
}

#[test]
fn activate_after_none_without_schedule() {
    let state = StatefulBatchState::init(bytewax::key::StepId::new("s"), None, builder(), SnapshotMode::Batch).unwrap();
    assert_eq!(state.activate_after(now()), None);
    assert!(state.awoken().is_empty());
}

#[test]
fn snapshots_wait_for_close_in_batch_mode() {
    let mut state = StatefulBatchState::init(bytewax::key::StepId::new("s"), None, builder(), SnapshotMode::Batch).unwrap();
    state.insert(k("b"), None).unwrap();
    state.insert(k("a"), None).unwrap();
    state.on_batch(&k("b"), vec![1]).unwrap();
    state.on_batch(&k("a"), vec![2]).unwrap();
    assert!(state.snapshots(1, false).unwrap().is_empty());
    let awoken: Vec<String> = state.awoken().iter().map(|x| x.as_str().to_string()).collect();
    assert_eq!(awoken, vec!["a".to_string(), "b".to_string()]);
    let snaps = state.snapshots(1, true).unwrap();
    assert_eq!(snap_summary(&snaps), vec![(1, "a".to_string(), Some(2)), (1, "b".to_string(), Some(1))]);
    assert!(state.awoken().is_empty());
    let snap = state.snap(k("zz"), 4).unwrap();
    assert!(snap.is_tombstone());
    assert_eq!(snap.step_id.as_str(), "s");
}

#[test]
fn group_by_key_keeps_arrival_order() {
    let g = group_by_key(vec![(k("b"), 1), (k("a"), 2), (k("b"), 3)]);
    assert_eq!(g.len(), 2);
    assert_eq!(g.key_at(0).as_str(), "a");
    assert_eq!(g.value_at(0), &vec![2]);
    assert_eq!(g.key_at(1).as_str(), "b");
    assert_eq!(g.value_at(1), &vec![1, 3]);
}

#[test]
fn in_buffer_by_epoch() {
    let mut buf: InBuffer<&str> = InBuffer::new();
    buf.extend(5, vec!["x"]);
    buf.extend(2, vec!["y"]);
    buf.extend(5, vec!["z"]);
    assert_eq!(buf.epochs(), vec![2, 5]);
    assert_eq!(buf.remove(5), Some(vec!["x", "z"]));
    assert_eq!(buf.remove(5), None);
    assert_eq!(buf.epochs(), vec![2]);
}

#[test]
fn key_map_sorted_by_bytes() {
    let mut m: KeyMap<u32> = KeyMap::new();
    m.insert(k("b"), 1);
    m.insert(k("ab"), 2);
    m.insert(k("a"), 3);
    m.insert(k("é"), 4);
    m.insert(k("b"), 5);
    let keys: Vec<String> = m.keys().iter().map(|x| x.as_str().to_string()).collect();
    assert_eq!(keys, vec!["a", "ab", "b", "é"]);
    assert_eq!(m.get(&k("b")), Some(&5));
    assert_eq!(m.remove(&k("ab")), Some(2));
    assert!(!m.contains_key(&k("ab")));
    assert!(k("a").less_than(&k("b")));
    assert!(!k("b").less_than(&k("a")));
    assert!(k("Z").less_than(&k("a")));
}

#[test]
fn timestamp_arithmetic() {
    let t = Timestamp::from_micros(100);
    assert_eq!(t.checked_add_micros(10_000), Some(Timestamp::from_micros(10_100)));
    assert_eq!(Timestamp::from_micros(i64::MAX).checked_add_micros(1), None);
    assert_eq!(Timestamp::from_micros(i64::MAX).delay_from(Timestamp::from_micros(i64::MIN)), u64::MAX);
    assert_eq!(Timestamp::from_micros(1).delay_from(Timestamp::from_micros(9)), 0);
}

#[test]
fn is_complete_from_flag() {
    assert_eq!(IsComplete::from_flag(true), IsComplete::Discard);
    assert_eq!(IsComplete::from_flag(false), IsComplete::Retain);
}

#[test]
fn emissions_record_outcome() {
    let mut b = builder();
    b.discard_after_batch = true;
    let mut op = operator(b, SnapshotMode::Batch, None);
    let a = op.activate(vec![batch(1, &[("k", 5), ("j", 1)])], Some(2), now()).unwrap();
    let outcomes: Vec<(String, IsComplete)> = a.emitted.iter().map(|e| (e.key.as_str().to_string(), e.complete)).collect();
    assert_eq!(outcomes, vec![("j".to_string(), IsComplete::Discard), ("k".to_string(), IsComplete::Discard)]);
    assert!(op.state().keys().is_empty());
}

#[test]
fn idle_activation_succeeds() {
    let mut op = operator(builder(), SnapshotMode::Immediate, None);
    let a = op.activate(vec![], Some(4), now()).unwrap();
    assert!(a.emitted.is_empty());
    assert!(a.snapshots.is_empty());
    assert_eq!(a.activate_after, None);
    assert_eq!(op.output_epoch(), Some(4));
}

#[test]
fn output_epochs_examples() {
    // Items at 3 and 5 with the frontier at 3: write 3 eagerly; close the owed 1.
    assert_eq!(output_epochs(&vec![5, 3], &vec![1], Some(3)), vec![1, 3]);
    assert!(epoch_closed(Some(3), 1));
    assert!(!epoch_closed(Some(3), 3));
    assert_eq!(output_epochs(&vec![7], &vec![], None), vec![7]);
    assert!(epoch_closed(None, 7));
}
