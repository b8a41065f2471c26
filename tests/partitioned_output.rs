use std::cell::RefCell;
use std::rc::Rc;

use bytewax::key::{StateKey, StepId};
use bytewax::logic::{FixedPartitionedSink, SinkPartition};
use bytewax::outputs::{
    assign_primaries, check_known_parts, partition_for, OutputError, OutputState, PartitionedOutputOperator, Router,
};
use bytewax::routing::{random_worker, route_to_workers, worker_for_hash, worker_for_key};
use bytewax::snapshot::SnapshotMode;
use bytewax::stateful::ResumeState;

type Log = Rc<RefCell<Vec<(usize, String, Vec<i64>)>>>;

struct Part {
    worker: usize,
    name: String,
    written: usize,
    log: Log,
}

impl SinkPartition for Part {
    type Value = i64;

    fn write_batch(&mut self, values: Vec<i64>) -> Result<(), String> {
        self.written += values.len();
        self.log.borrow_mut().push((self.worker, self.name.clone(), values));
        Ok(())
    }

    fn snapshot(&self) -> Result<Vec<u8>, String> {
        Ok((self.written as u64).to_le_bytes().to_vec())
    }

    fn close(self) -> Result<(), String> {
        Ok(())
    }
}

struct Sink {
    worker: usize,
    parts: Vec<&'static str>,
    log: Log,
}

impl FixedPartitionedSink<Part> for Sink {
    fn list_parts(&self) -> Result<Vec<StateKey>, String> {
        Ok(self.parts.iter().map(|p| StateKey::new(p)).collect())
    }

    fn part_fn(&self, key: &StateKey) -> Result<usize, String> {
        // "a" -> 0, "b" -> 1, and so on.
        Ok(key.as_str().bytes().next().map(|b| (b - b'a') as usize).unwrap_or(0))
    }

    fn build_part(&self, _step_id: &StepId, part_key: &StateKey, resume_state: Option<Vec<u8>>) -> Result<Part, String> {
        let written = match resume_state {
            Some(b) => u64::from_le_bytes(b.as_slice().try_into().map_err(|_| "bad".to_string())?) as usize,
            None => 0,
        };
        Ok(Part { worker: self.worker, name: part_key.as_str().to_string(), written, log: self.log.clone() })
    }
}

fn k(s: &str) -> StateKey {
    StateKey::new(s)
}

fn sink(worker: usize, log: &Log) -> Sink {
    Sink { worker, parts: vec!["p0", "p1"], log: log.clone() }
}

#[test]
fn partitions_written_on_primary_only() {
    let log: Log = Rc::new(RefCell::new(Vec::new()));
    // Both workers list both partitions.
    let listed = vec![(k("p0"), 0usize), (k("p1"), 0), (k("p0"), 1), (k("p1"), 1)];
    let router = Router::new(&listed);
    let mut ops: Vec<PartitionedOutputOperator<Part, Sink>> = (0..2)
        .map(|w| {
            let state = OutputState::init(StepId::new("out"), None, sink(w, &log), SnapshotMode::Immediate).unwrap();
            PartitionedOutputOperator::new(state, w)
        })
        .collect();
    let probe = sink(0, &log);
    let mut per_worker: Vec<Vec<(usize, StateKey, i64)>> = vec![Vec::new(), Vec::new()];
    for (key, value) in [("a", 10i64), ("b", 20)] {
        let idx = probe.part_fn(&k(key)).unwrap();
        let (worker, part) = router.route(idx).unwrap();
        per_worker[worker].push((worker, part, value));
    }
    for (w, items) in per_worker.into_iter().enumerate() {
        let snaps = ops[w].write_epoch(1, items).unwrap();
        assert_eq!(snaps.len(), 1);
        assert_eq!(snaps[0].epoch, 1);
    }
    assert_eq!(
        *log.borrow(),
        vec![(0, "p0".to_string(), vec![10]), (1, "p1".to_string(), vec![20])]
    );
    assert!(ops[0].state().contains_key(&k("p0")));
    assert!(!ops[0].state().contains_key(&k("p1")));
    assert!(ops[1].state().contains_key(&k("p1")));
}

#[test]
fn unknown_partition_in_snapshot_aborts() {
    let log: Log = Rc::new(RefCell::new(Vec::new()));
    let resume = ResumeState { epoch: 3, snaps: vec![(k("p2"), Some(vec![0; 8]))] };
    match OutputState::init(StepId::new("out"), Some(resume), sink(0, &log), SnapshotMode::Batch) {
        Err(OutputError::Unknown(u)) => {
            assert_eq!(u.key.as_str(), "p2");
            assert_eq!(u.step_id.as_str(), "out");
            let known: Vec<&str> = u.known.iter().map(|p| p.as_str()).collect();
            assert_eq!(known, vec!["p0", "p1"]);
        }
        _ => panic!("expected an unknown-partition error"),
    }
}

#[test]
fn known_partitions_resume() {
    let log: Log = Rc::new(RefCell::new(Vec::new()));
    let resume = ResumeState {
        epoch: 3,
        snaps: vec![(k("p0"), Some(5u64.to_le_bytes().to_vec())), (k("p1"), None)],
    };
    let state = OutputState::init(StepId::new("out"), Some(resume), sink(0, &log), SnapshotMode::Batch).unwrap();
    assert!(state.contains_key(&k("p0")));
    assert!(!state.contains_key(&k("p1")));
    let snap = state.snap(k("p0"), 3).unwrap();
    assert_eq!(snap.payload, Some(5u64.to_le_bytes().to_vec()));
}

#[test]
fn check_known_parts_names_first_unknown() {
    let parts = vec![k("p0"), k("p1")];
    let snaps = vec![(k("p1"), None), (k("p7"), None), (k("p9"), None)];
    let err = check_known_parts(&StepId::new("s"), &parts, &snaps).unwrap_err();
    assert_eq!(err.key.as_str(), "p7");
    assert!(check_known_parts(&StepId::new("s"), &parts, &vec![(k("p0"), None)]).is_ok());
}

#[test]
fn insert_rejects_unlisted_partition() {
    let log: Log = Rc::new(RefCell::new(Vec::new()));
    let mut state = OutputState::init(StepId::new("out"), None, sink(0, &log), SnapshotMode::Batch).unwrap();
    match state.insert(k("p5"), None) {
        Err(OutputError::Unknown(u)) => assert_eq!(u.key.as_str(), "p5"),
        _ => panic!("expected an unknown-partition error"),
    }
    state.insert(k("p1"), None).unwrap();
    assert!(state.contains_key(&k("p1")));
}

#[test]
fn batch_mode_snapshots_at_close() {
    let log: Log = Rc::new(RefCell::new(Vec::new()));
    let state = OutputState::init(StepId::new("out"), None, sink(0, &log), SnapshotMode::Batch).unwrap();
    let mut op = PartitionedOutputOperator::new(state, 0);
    let snaps = op.write_epoch(4, vec![(0, k("p1"), 1), (0, k("p0"), 2), (0, k("p1"), 3)]).unwrap();
    assert!(snaps.is_empty());
    assert_eq!(*log.borrow(), vec![(0, "p0".to_string(), vec![2]), (0, "p1".to_string(), vec![1, 3])]);
    let snaps = op.close_epoch(4).unwrap();
    let keys: Vec<&str> = snaps.iter().map(|s| s.state_key.as_str()).collect();
    assert_eq!(keys, vec!["p0", "p1"]);
    assert_eq!(snaps[1].payload, Some(2u64.to_le_bytes().to_vec()));
    assert!(op.close_epoch(5).unwrap().is_empty());
}

#[test]
fn misrouted_partition_is_rejected() {
    let log: Log = Rc::new(RefCell::new(Vec::new()));
    let state = OutputState::init(StepId::new("out"), None, sink(0, &log), SnapshotMode::Batch).unwrap();
    let mut op = PartitionedOutputOperator::new(state, 0);
    match op.write_epoch(1, vec![(1, k("p0"), 1)]) {
        Err(OutputError::Misrouted { part, worker, this_worker }) => {
            assert_eq!(part.as_str(), "p0");
            assert_eq!((worker, this_worker), (1, 0));
        }
        _ => panic!("expected a routing error"),
    }
    assert!(log.borrow().is_empty());
}

#[test]
fn primaries_spread_over_workers() {
    let listed = vec![(k("p1"), 1usize), (k("p0"), 1), (k("p1"), 0), (k("p0"), 0), (k("p2"), 1)];
    let m = assign_primaries(&listed);
    assert_eq!(m.len(), 3);
    assert_eq!(m.get(&k("p0")), Some(&0));
    assert_eq!(m.get(&k("p1")), Some(&1));
    // Only worker 1 lists p2.
    assert_eq!(m.get(&k("p2")), Some(&1));
}

#[test]
fn route_wraps_part_index() {
    let router = Router::new(&vec![(k("p1"), 0usize), (k("p0"), 0)]);
    let (w, p) = router.route(3).unwrap();
    assert_eq!((w, p.as_str()), (0, "p1"));
    let parts = vec![k("x"), k("y"), k("z")];
    assert_eq!(partition_for(&parts, 7).as_str(), "y");
    let empty = Router::new(&vec![]);
    assert!(matches!(empty.route(0), Err(OutputError::NoPartitions)));
}

#[test]
fn key_routing_is_a_function_of_the_key() {
    assert_eq!(worker_for_hash(10, 4), 2);
    assert_eq!(worker_for_hash(u64::MAX, 1), 0);
    let w = worker_for_key(&k("user-1"), 8);
    assert!(w < 8);
    assert_eq!(w, worker_for_key(&k("user-1"), 8));
    let routed = route_to_workers(vec![(k("user-1"), 1), (k("user-2"), 2), (k("user-1"), 3)], 8);
    assert_eq!(routed.len(), 3);
    assert_eq!(routed[0].0, routed[2].0);
    assert_eq!(routed[0].0, w);
    assert_eq!(routed[1].2, 2);
    assert!(random_worker(3) < 3);
}

#[test]
fn key_hash_depends_on_key() {
    // Over many keys, 64 workers cannot all be hit by a hash that ignored its input.
    let mut seen = std::collections::HashSet::new();
    for i in 0..200 {
        seen.insert(worker_for_key(&k(&format!("key{}", i)), 64));
    }
    assert!(seen.len() > 1);
}
