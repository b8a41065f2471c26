//! Snapshot records and when they are taken.
use vstd::prelude::*;
use crate::key::{StateKey, StepId};

verus! {

/// When snapshots of touched keys are drained: at every processed epoch, or
/// only once an epoch has closed.
#[derive(Clone, Copy, Debug, PartialEq, Eq, Structural)]
pub enum SnapshotMode {
    Immediate,
    Batch,
}

impl SnapshotMode {
    pub fn immediate(&self) -> (r: bool)
        ensures
            r == (*self == SnapshotMode::Immediate),
    {
        match self {
            SnapshotMode::Immediate => true,
            SnapshotMode::Batch => false,
        }
    }

    pub fn batch(&self) -> (r: bool)
        ensures
            r == (*self == SnapshotMode::Batch),
    {
        !self.immediate()
    }
}

/// `(step_id, state_key, epoch, payload)`; no payload is a tombstone: the
/// key's state was discarded.
#[derive(Clone, Debug)]
pub struct SerializedSnapshot {
    pub step_id: StepId,
    pub state_key: StateKey,
    pub epoch: u64,
    pub payload: Option<Vec<u8>>,
}

impl SerializedSnapshot {
    pub fn new(step_id: StepId, state_key: StateKey, epoch: u64, payload: Option<Vec<u8>>) -> (r:
        SerializedSnapshot)
        ensures
            r.step_id@ == step_id@,
            r.state_key@ == state_key@,
            r.epoch == epoch,
            r.payload == payload,
    {
        SerializedSnapshot { step_id, state_key, epoch, payload }
    }

    pub fn is_tombstone(&self) -> (r: bool)
        ensures
            r == self.payload.is_none(),
    {
        self.payload.is_none()
    }
}

} // verus!
