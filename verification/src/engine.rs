//! Dispatch-engine mechanics around the queue: routing a claimed operation
//! to its owner's process phase, handing execution outcomes back (with the
//! retry policy), and the fail-fast execution of a sequence node's children.

use vstd::prelude::*;

use crate::op::{Entry, FailKind, OpState, Operation};
use crate::queue::Queue;
use crate::tag::{map_release_id, TagManager, TagName};

verus! {

broadcast use vstd::seq_lib::group_seq_properties;

/// The run state of one `Sequence` node: children execute strictly in order,
/// and a failure of child `i` aborts children `i + 1 ..` before they are
/// ever started.
pub struct SeqRun {
    children: Vec<Operation>,
    states: Vec<OpState>,
    cursor: usize,
    failed: bool,
}

impl SeqRun {
    pub closed spec fn spec_states(self) -> Seq<OpState> {
        self.states@
    }

    pub closed spec fn spec_children(self) -> Seq<Operation> {
        self.children@
    }

    pub closed spec fn spec_cursor(self) -> int {
        self.cursor as int
    }

    pub closed spec fn spec_failed(self) -> bool {
        self.failed
    }

    /// Children before the cursor have succeeded, children after it were
    /// never started, and only the child at the cursor can be in flight or
    /// failed.
    pub closed spec fn wf(self) -> bool {
        &&& self.states@.len() == self.children@.len()
        &&& self.cursor <= self.states@.len()
        &&& forall|i: int|
            self.cursor < i < self.states@.len() ==> self.states@[i] == OpState::Fresh
        &&& forall|i: int| 0 <= i < self.cursor ==> self.states@[i] == OpState::Ready
        &&& (self.failed ==> self.cursor < self.states@.len() && self.states@[self.cursor as int]
            matches OpState::Failed { .. })
        &&& (!self.failed && self.cursor < self.states@.len() ==> (self.states@[self.cursor as int]
            == OpState::Fresh || self.states@[self.cursor as int] == OpState::Processing))
    }

    pub fn new(children: Vec<Operation>) -> (r: SeqRun)
        ensures
            r.wf(),
            r.spec_children() == children@,
            r.spec_states().len() == children@.len(),
            forall|i: int| 0 <= i < r.spec_states().len() ==> r.spec_states()[i] == OpState::Fresh,
            r.spec_cursor() == 0,
            !r.spec_failed(),
    {
        let mut states: Vec<OpState> = Vec::new();
        let n = children.len();
        let mut i: usize = 0;
        while i < n
            invariant
                i <= n,
                states@.len() == i,
                forall|j: int| 0 <= j < i ==> states@[j] == OpState::Fresh,
            decreases n - i,
        {
            states.push(OpState::Fresh);
            i += 1;
        }
        SeqRun { children, states, cursor: 0, failed: false }
    }

    pub fn len(&self) -> (r: usize)
        ensures
            r == self.spec_states().len(),
    {
        self.states.len()
    }

    pub fn child_state(&self, i: usize) -> (r: OpState)
        requires
            i < self.spec_states().len(),
        ensures
            r == self.spec_states()[i as int],
    {
        self.states[i]
    }

    pub fn has_failed(&self) -> (r: bool)
        ensures
            r == self.spec_failed(),
    {
        self.failed
    }

    /// Start the next child, moving it to processing, or nothing if the run
    /// has failed, finished, or the current child is already in flight.
    pub fn start_next(&mut self) -> (r: Option<&Operation>)
        requires
            old(self).wf(),
        ensures
            final(self).wf(),
            final(self).spec_children() == old(self).spec_children(),
            final(self).spec_cursor() == old(self).spec_cursor(),
            final(self).spec_failed() == old(self).spec_failed(),
            match r {
                Some(op) => !old(self).spec_failed() && old(self).spec_cursor() < old(
                    self,
                ).spec_states().len() && old(self).spec_states()[old(self).spec_cursor()]
                    == OpState::Fresh && *op == old(self).spec_children()[old(self).spec_cursor()]
                    && final(self).spec_states() == old(self).spec_states().update(
                    old(self).spec_cursor(),
                    OpState::Processing,
                ),
                None => final(self).spec_states() == old(self).spec_states() && (old(
                    self,
                ).spec_failed() || old(self).spec_cursor() == old(self).spec_states().len() || old(
                    self,
                ).spec_states()[old(self).spec_cursor()] != OpState::Fresh),
            },
    {
        if !self.failed && self.cursor < self.states.len() {
            let st = self.states[self.cursor];
            if st == OpState::Fresh {
                self.states.set(self.cursor, OpState::Processing);
                return Some(&self.children[self.cursor]);
            }
        }
        None
    }

    /// Report the outcome of the child in flight: success advances the
    /// cursor, failure latches the run as failed so that no later child is
    /// ever started.
    pub fn finish_current(&mut self, ok: bool) -> (r: bool)
        requires
            old(self).wf(),
        ensures
            final(self).wf(),
            final(self).spec_children() == old(self).spec_children(),
            r == (!old(self).spec_failed() && old(self).spec_cursor() < old(
                self,
            ).spec_states().len() && old(self).spec_states()[old(self).spec_cursor()]
                == OpState::Processing),
            !r ==> *final(self) == *old(self),
            r && ok ==> final(self).spec_states() == old(self).spec_states().update(
                old(self).spec_cursor(),
                OpState::Ready,
            ) && final(self).spec_cursor() == old(self).spec_cursor() + 1
                && !final(self).spec_failed(),
            r && !ok ==> final(self).spec_states() == old(self).spec_states().update(
                old(self).spec_cursor(),
                (OpState::Failed { kind: FailKind::SubmissionError }),
            ) && final(self).spec_cursor() == old(self).spec_cursor() && final(self).spec_failed(),
    {
        if !self.failed && self.cursor < self.states.len() {
            let st = self.states[self.cursor];
            if st == OpState::Processing {
                if ok {
                    self.states.set(self.cursor, OpState::Ready);
                    self.cursor = self.cursor + 1;
                } else {
                    self.states.set(
                        self.cursor,
                        OpState::Failed { kind: FailKind::SubmissionError },
                    );
                    self.failed = true;
                }
                return true;
            }
        }
        false
    }
}

/// Fail-fast ordering for a sequence: once some child has failed, every later
/// child is still fresh — it never reached processing and never will in this
/// run.
pub proof fn lemma_seq_fail_fast(r: SeqRun, i: int, j: int)
    requires
        r.wf(),
        0 <= i < j < r.spec_states().len(),
        r.spec_states()[i] matches OpState::Failed { .. },
    ensures
        r.spec_states()[j] == OpState::Fresh,
{
    if i < r.spec_cursor() {
        assert(r.spec_states()[i] == OpState::Ready);
    }
    if i > r.spec_cursor() {
        assert(r.spec_states()[i] == OpState::Fresh);
    }
}

/// What the engine does with an operation whose execution failed.
pub enum RetryStep {
    /// Re-enqueue the decremented retry wrapper for another attempt.
    Reenqueue { op: Operation },
    /// Terminal failure; the operation content is handed back unchanged.
    Fail { op: Operation, kind: FailKind },
}

/// The retry policy: a `Retry` node with budget left re-enqueues itself with
/// a decremented budget; an exhausted budget, or an operation with no retry
/// wrapper, promotes the adapter's failure to a terminal one.
pub fn on_execution_failure(op: Operation) -> (r: RetryStep)
    ensures
        (match op {
            Operation::Retry { inner, attempts_remaining, backoff_ms } => {
                if attempts_remaining > 0 {
                    r == (RetryStep::Reenqueue {
                        op: (Operation::Retry {
                            inner,
                            attempts_remaining: (attempts_remaining - 1) as u64,
                            backoff_ms,
                        }),
                    })
                } else {
                    r == (RetryStep::Fail {
                        op: (Operation::Retry { inner, attempts_remaining, backoff_ms }),
                        kind: FailKind::SubmissionError,
                    })
                }
            },
            _ => r == (RetryStep::Fail { op, kind: FailKind::SubmissionError }),
        }),
{
    match op {
        Operation::Retry { inner, attempts_remaining, backoff_ms } => {
            if attempts_remaining > 0 {
                RetryStep::Reenqueue {
                    op: Operation::Retry {
                        inner,
                        attempts_remaining: attempts_remaining - 1,
                        backoff_ms,
                    },
                }
            } else {
                RetryStep::Fail {
                    op: Operation::Retry { inner, attempts_remaining, backoff_ms },
                    kind: FailKind::SubmissionError,
                }
            }
        },
        other => RetryStep::Fail { op: other, kind: FailKind::SubmissionError },
    }
}

/// Route a claimed operation into its owner's process phase: only the plugin
/// whose namespace holds the tag may process it.
pub fn begin_process(q: &mut Queue, tags: &TagManager, plugin: &String, id: u64) -> (r: bool)
    requires
        old(q).wf(),
        tags.wf(),
    ensures
        final(q).wf(),
        final(q).spec_next_id() == old(q).spec_next_id(),
        r == (old(q)@.contains_key(id) && old(q)@[id].state == OpState::Claimed
            && (exists|k: TagName|
            #[trigger] tags@.contains_key(k) && tags@[k] == id && k.0 == plugin@)),
        r ==> final(q)@ == old(q)@.insert(
            id,
            (Entry {
                revision: old(q)@[id].revision,
                content: old(q)@[id].content,
                state: OpState::Processing,
            }),
        ),
        !r ==> final(q)@ == old(q)@,
{
    let resolved = tags.resolve(id);
    let owned = match resolved {
        Some(t) => t.plugin == *plugin,
        None => false,
    };
    let claimed = match q.state_of(id) {
        Some(st) => st == OpState::Claimed,
        None => false,
    };
    if owned && claimed {
        let _ = q.set_state(id, OpState::Processing);
        proof {
            match resolved {
                Some(t) => {
                    assert(tags@.contains_key(t.abs()) && tags@[t.abs()] == id && t.abs().0
                        == plugin@);
                },
                None => {
                    assert(false);
                },
            }
        }
        true
    } else {
        proof {
            tags.lemma_injective();
            if old(q)@.contains_key(id) && old(q)@[id].state == OpState::Claimed {
                if exists|k: TagName|
                    #[trigger] tags@.contains_key(k) && tags@[k] == id && k.0 == plugin@ {
                    let k = choose|k: TagName|
                        #[trigger] tags@.contains_key(k) && tags@[k] == id && k.0 == plugin@;
                    match resolved {
                        Some(t) => {
                            assert(tags@[t.abs()] == id && tags@[k] == id);
                            assert(k == t.abs());
                            assert(false);
                        },
                        None => {
                            assert(false);
                        },
                    }
                }
            }
        }
        false
    }
}

/// Take the chain adapter's report on an executed (ready) operation:
/// confirmed success removes the entry; failure applies the retry policy —
/// one more attempt under a bumped revision while budget remains, then the
/// terminal failed state, surfaced to the caller. The operation's tag, if
/// any, is released either way.
pub fn complete_execution(q: &mut Queue, tags: &mut TagManager, id: u64, ok: bool) -> (r: Option<
    FailKind,
>)
    requires
        old(q).wf(),
        old(tags).wf(),
        old(q)@.contains_key(id),
        old(q)@[id].state == OpState::Ready,
        old(q)@[id].revision < u64::MAX,
    ensures
        final(q).wf(),
        final(tags).wf(),
        final(q).spec_next_id() == old(q).spec_next_id(),
        final(tags)@ == map_release_id(old(tags)@, id),
        ok ==> final(q)@ == old(q)@.remove(id) && r is None,
        !ok ==> (match old(q)@[id].content {
            Operation::Retry { inner, attempts_remaining, backoff_ms } => {
                if attempts_remaining > 0 {
                    final(q)@ == old(q)@.insert(
                        id,
                        (Entry {
                            revision: (old(q)@[id].revision + 1) as u64,
                            content: (Operation::Retry {
                                inner,
                                attempts_remaining: (attempts_remaining - 1) as u64,
                                backoff_ms,
                            }),
                            state: OpState::Fresh,
                        }),
                    ) && r is None
                } else {
                    final(q)@ == old(q)@.insert(
                        id,
                        (Entry {
                            revision: old(q)@[id].revision,
                            content: old(q)@[id].content,
                            state: (OpState::Failed { kind: FailKind::SubmissionError }),
                        }),
                    ) && r == Some(FailKind::SubmissionError)
                }
            },
            _ => final(q)@ == old(q)@.insert(
                id,
                (Entry {
                    revision: old(q)@[id].revision,
                    content: old(q)@[id].content,
                    state: (OpState::Failed { kind: FailKind::SubmissionError }),
                }),
            ) && r == Some(FailKind::SubmissionError),
        }),
{
    proof {
        old(q).lemma_live_ids_bounded();
    }
    tags.release_id(id);
    if ok {
        let _ = q.remove(id);
        None
    } else {
        let e = q.remove(id).unwrap();
        match on_execution_failure(e.content) {
            RetryStep::Reenqueue { op } => {
                let _ = q.restore(
                    id,
                    Entry { revision: e.revision + 1, content: op, state: OpState::Fresh },
                );
                proof {
                    assert(q@ =~= old(q)@.insert(id, q@[id]));
                }
                None
            },
            RetryStep::Fail { op, kind } => {
                let _ = q.restore(
                    id,
                    Entry { revision: e.revision, content: op, state: OpState::Failed { kind } },
                );
                proof {
                    assert(q@ =~= old(q)@.insert(id, q@[id]));
                }
                Some(kind)
            },
        }
    }
}

} // verus!
