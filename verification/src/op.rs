//! The operation model: the tagged-variant tree of relay work, the per-entry
//! state machine, and the queue entry that pairs an operation with its
//! revision counter.

use vstd::prelude::*;

verus! {

/// A unit (or composite) of relay work. Immutable once enqueued; any in-place
/// change goes through the revision-checked replace path of the queue.
#[derive(Debug, PartialEq, Eq)]
pub enum Operation {
    /// An opaque unit of chain-relevant data awaiting interpretation by a
    /// plugin or the chain adapter.
    Leaf { payload: String },
    /// Children execute strictly in order; a failure in child `i` aborts
    /// children `i + 1 ..` for this parent (fail-fast).
    Sequence { children: Vec<Operation> },
    /// Re-enqueues `inner` with a decremented budget on failure; exhausting
    /// the budget promotes the failure to the parent.
    Retry { inner: Box<Operation>, attempts_remaining: u64, backoff_ms: u64 },
    /// Not eligible for dispatch until the target height is externally
    /// confirmed reached.
    DeferUntil { until_height: u64, inner: Box<Operation> },
    /// Children may execute independently; results are combined by the named
    /// combinator when all children settle.
    Aggregate { children: Vec<Operation>, combinator: String },
}

impl Operation {
    /// The ordered children of a composite node, if this variant has any.
    pub open spec fn spec_children(self) -> Option<Seq<Operation>> {
        match self {
            Operation::Sequence { children } => Some(children@),
            Operation::Aggregate { children, .. } => Some(children@),
            _ => None,
        }
    }

    /// A view of the children for `Sequence` and `Aggregate` nodes.
    pub fn children(&self) -> (r: Option<&Vec<Operation>>)
        ensures
            match r {
                Some(v) => self.spec_children() == Some(v@),
                None => self.spec_children() is None,
            },
    {
        match self {
            Operation::Sequence { children } => Some(children),
            Operation::Aggregate { children, .. } => Some(children),
            _ => None,
        }
    }
}

/// Why an operation reached the terminal `Failed` state. A `Retry` node that
/// exhausts its budget promotes the underlying failure to its parent, so the
/// kind reported is the adapter's.
#[derive(Debug, Clone, Copy, PartialEq, Eq, Structural)]
pub enum FailKind {
    /// The chain adapter reported a permanent submission failure.
    SubmissionError,
}

/// The per-operation dispatch state.
#[derive(Debug, Clone, Copy, PartialEq, Eq, Structural)]
pub enum OpState {
    /// Newly enqueued, eligible for the filter phase.
    Fresh,
    /// A plugin holds the tag for this operation.
    Claimed,
    /// The owning plugin's process call is in flight.
    Processing,
    /// No further pending tag; handed to the chain adapter.
    Ready,
    /// A replacement bumped the revision; eligible for fresh routing on the
    /// next tick unless re-claimed.
    Requeued,
    /// Terminal domain failure.
    Failed { kind: FailKind },
    /// A newer revision replaced this node; this snapshot is inert.
    Superseded,
}

/// The transition relation of the dispatch state machine. `Requeued` entries
/// are rerouted as `Fresh` at the start of the next tick, and any state may be
/// superseded by a newer revision.
pub open spec fn transition_allowed(from: OpState, to: OpState) -> bool {
    ||| (from == OpState::Fresh && to == OpState::Claimed)
    ||| (from == OpState::Claimed && to == OpState::Processing)
    ||| (from == OpState::Processing && to == OpState::Ready)
    ||| (from == OpState::Fresh && to == OpState::Ready)
    ||| (from == OpState::Processing && to == OpState::Requeued)
    ||| (from == OpState::Fresh && to == OpState::Requeued)
    ||| (from == OpState::Processing && to matches OpState::Failed { .. })
    ||| (from == OpState::Ready && to matches OpState::Failed { .. })
    ||| (from == OpState::Requeued && to == OpState::Fresh)
    ||| (to == OpState::Superseded)
}

/// A live queue entry: the content of one operation id together with the
/// monotonically increasing revision counter that guards its mutation.
#[derive(Debug, PartialEq, Eq)]
pub struct Entry {
    pub revision: u64,
    pub content: Operation,
    pub state: OpState,
}

} // verus!
