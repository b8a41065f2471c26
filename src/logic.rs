//! What user code supplies: per-key logics, the builder that makes them, and
//! the partitions of a fixed-partitioned sink. Nothing is assumed of what
//! these return; the operators are verified for every implementation.
use vstd::prelude::*;
use crate::key::{StateKey, StepId};
use crate::time::Timestamp;

verus! {

/// Whether a logic keeps its state after a callback or is finished.
#[derive(Clone, Copy, Debug, PartialEq, Eq, Structural)]
pub enum IsComplete {
    Retain,
    Discard,
}

impl IsComplete {
    /// The callbacks' `is_complete` flag: `true` means the logic is done.
    pub fn from_flag(done: bool) -> (r: IsComplete)
        ensures
            r == (if done {
                IsComplete::Discard
            } else {
                IsComplete::Retain
            }),
    {
        if done {
            IsComplete::Discard
        } else {
            IsComplete::Retain
        }
    }
}

/// A user callback, named in errors and in the record of an activation.
#[derive(Clone, Copy, Debug, PartialEq, Eq, Structural)]
pub enum Callback {
    Build,
    OnBatch,
    OnNotify,
    OnEof,
    NotifyAt,
    Snapshot,
    Close,
    WriteBatch,
}

/// A failed user callback, with the step and key it was called for.
#[derive(Debug)]
pub struct LogicError {
    pub step_id: StepId,
    pub key: StateKey,
    pub callback: Callback,
    pub message: String,
}

pub fn logic_error(step_id: &StepId, key: &StateKey, callback: Callback, message: String) -> (r:
    LogicError)
    ensures
        r.step_id@ == step_id@,
        r.key@ == key@,
        r.callback == callback,
        r.message@ == message@,
{
    LogicError { step_id: step_id.duplicate(), key: key.duplicate(), callback, message }
}

/// Per-key user state driven by the stateful batch operator.
///
/// Each callback may fail with a message; the operator wraps it with the
/// step and key.
pub trait StatefulBatchLogic: Sized {
    /// The values the logic takes in and emits.
    type Value;

    /// A batch of values for this key arrived; returns what to emit and
    /// whether the logic is finished.
    fn on_batch(&mut self, values: Vec<Self::Value>) -> Result<(Vec<Self::Value>, IsComplete), String>;

    /// A scheduled wake-up is due.
    fn on_notify(&mut self) -> Result<(Vec<Self::Value>, IsComplete), String>;

    /// The input has ended.
    fn on_eof(&mut self) -> Result<(Vec<Self::Value>, IsComplete), String>;

    /// When this logic next wants `on_notify`, if ever.
    fn notify_at(&self) -> Result<Option<Timestamp>, String>;

    /// The logic's state, serialized.
    fn snapshot(&self) -> Result<Vec<u8>, String>;

    /// Releases whatever the logic holds.
    fn close(self) -> Result<(), String>;
}

/// Makes a logic for a key, fresh or from a serialized snapshot.
pub trait LogicBuilder<L> {
    fn build(&self, resume_state: Option<Vec<u8>>) -> Result<L, String>;
}

/// One partition of a fixed-partitioned sink.
pub trait SinkPartition: Sized {
    /// The values written.
    type Value;

    fn write_batch(&mut self, values: Vec<Self::Value>) -> Result<(), String>;

    fn snapshot(&self) -> Result<Vec<u8>, String>;

    fn close(self) -> Result<(), String>;
}

/// A sink with a fixed set of named partitions.
pub trait FixedPartitionedSink<P> {
    /// The partition keys; the same on every execution.
    fn list_parts(&self) -> Result<Vec<StateKey>, String>;

    /// Which partition (modulo the number of partitions) a key goes to.
    fn part_fn(&self, key: &StateKey) -> Result<usize, String>;

    /// Makes the writer of one partition, fresh or from a snapshot.
    fn build_part(&self, step_id: &StepId, part_key: &StateKey, resume_state: Option<Vec<u8>>) -> Result<P, String>;
}

} // verus!
