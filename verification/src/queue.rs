//! The live queue: an arena of operations keyed by stable id, with a
//! monotonically increasing revision counter per entry. All mutation funnels
//! through the revision-checked replace path, the sole synchronization
//! primitive of the engine.

use std::collections::HashMap;
use vstd::prelude::*;

use crate::op::{Entry, OpState, Operation};

verus! {

broadcast use vstd::std_specs::hash::group_hash_axioms, vstd::seq_lib::group_seq_properties;

/// Rejection of a queue mutation.
#[derive(Debug, Clone, Copy, PartialEq, Eq, Structural)]
pub enum QueueError {
    /// The referenced id is not live in the queue.
    UnknownId,
    /// The mutation carried a revision that is not the current one (or the
    /// revision counter cannot be bumped further).
    StaleRevision,
}

/// Whether an entry may be handed to the filter phase this tick: it must be
/// fresh, and a `DeferUntil` node is held back until the confirmed chain
/// height reaches its target.
pub open spec fn eligible(e: Entry, confirmed_height: u64) -> bool {
    &&& e.state == OpState::Fresh
    &&& match e.content {
        Operation::DeferUntil { until_height, .. } => until_height <= confirmed_height,
        _ => true,
    }
}

/// The shared operation arena. Ids are engine-generated and never reused;
/// plugins can never forge an id collision with an existing operation.
pub struct Queue {
    entries: HashMap<u64, Entry>,
    order: Vec<u64>,
    next_id: u64,
}

impl View for Queue {
    type V = Map<u64, Entry>;

    closed spec fn view(&self) -> Map<u64, Entry> {
        self.entries@
    }
}

impl Queue {
    /// The next id the engine will assign; all live ids lie below it.
    pub closed spec fn spec_next_id(&self) -> u64 {
        self.next_id
    }

    /// Internal invariant: every live id lies below the id counter, and the
    /// insertion-order index holds exactly the live ids, once each.
    pub closed spec fn wf(self) -> bool {
        &&& forall|id: u64| #[trigger] self.entries@.contains_key(id) ==> id < self.next_id
        &&& self.order@.no_duplicates()
        &&& forall|id: u64| #[trigger] self.order@.contains(id) == self.entries@.contains_key(id)
    }

    /// Every live id lies below the id counter, so ids at or above it are
    /// free for the engine to hand out.
    pub proof fn lemma_live_ids_bounded(&self)
        requires
            self.wf(),
        ensures
            forall|id: u64| #[trigger] self@.contains_key(id) ==> id < self.spec_next_id(),
    {
    }

    /// The id the engine will assign next.
    pub fn next_id(&self) -> (r: u64)
        ensures
            r == self.spec_next_id(),
    {
        self.next_id
    }

    pub fn new() -> (r: Queue)
        ensures
            r.wf(),
            r@ == Map::<u64, Entry>::empty(),
            r.spec_next_id() == 0,
    {
        Queue { entries: HashMap::new(), order: Vec::new(), next_id: 0 }
    }

    /// Append a new operation under an engine-generated id; it starts fresh
    /// at revision zero.
    pub fn enqueue(&mut self, content: Operation) -> (id: u64)
        requires
            old(self).wf(),
            old(self).spec_next_id() < u64::MAX,
        ensures
            final(self).wf(),
            id == old(self).spec_next_id(),
            !old(self)@.contains_key(id),
            final(self)@ == old(self)@.insert(
                id,
                (Entry { revision: 0, content, state: OpState::Fresh }),
            ),
            final(self).spec_next_id() == old(self).spec_next_id() + 1,
    {
        let id = self.next_id;
        self.entries.insert(id, Entry { revision: 0, content, state: OpState::Fresh });
        self.order.push(id);
        self.next_id = id + 1;
        proof {
            let o0 = old(self).order@;
            assert(!o0.contains(id));
            assert forall|a: int, b: int| 0 <= a < b < self.order@.len() implies self.order@[a]
                != self.order@[b] by {
                if b == o0.len() {
                    assert(self.order@[a] == o0[a]);
                    assert(o0.contains(o0[a]));
                }
            }
        }
        id
    }

    /// Insert a new operation under a caller-chosen id; used by the merge
    /// path for plugin-synthesized follow-up work whose ids were fixed when
    /// the mutation set was planned. An id that is already live is left
    /// untouched.
    pub fn insert_new(&mut self, id: u64, content: Operation) -> (r: bool)
        requires
            old(self).wf(),
        ensures
            final(self).wf(),
            r == (!old(self)@.contains_key(id) && id < u64::MAX),
            r ==> final(self)@ == old(self)@.insert(
                id,
                (Entry { revision: 0, content, state: OpState::Fresh }),
            ) && final(self).spec_next_id() == (if id >= old(self).spec_next_id() {
                (id + 1) as u64
            } else {
                old(self).spec_next_id()
            }),
            !r ==> final(self)@ == old(self)@ && final(self).spec_next_id() == old(
                self,
            ).spec_next_id(),
    {
        if self.entries.contains_key(&id) || id == u64::MAX {
            return false;
        }
        self.entries.insert(id, Entry { revision: 0, content, state: OpState::Fresh });
        self.order.push(id);
        if id >= self.next_id {
            self.next_id = id + 1;
        }
        proof {
            let o0 = old(self).order@;
            assert(!o0.contains(id));
            assert forall|a: int, b: int| 0 <= a < b < self.order@.len() implies self.order@[a]
                != self.order@[b] by {
                if b == o0.len() {
                    assert(self.order@[a] == o0[a]);
                    assert(o0.contains(o0[a]));
                }
            }
        }
        true
    }

    /// Replace the content of `id`, guarded by optimistic concurrency: the
    /// caller must present the current revision, and success bumps it. A
    /// mutation referencing a stale revision is rejected and leaves the queue
    /// unchanged. The dispatch state of the entry is not touched here.
    pub fn replace(&mut self, id: u64, new_content: Operation, expected_revision: u64) -> (r:
        Result<(), QueueError>)
        requires
            old(self).wf(),
        ensures
            final(self).wf(),
            final(self).spec_next_id() == old(self).spec_next_id(),
            (r is Ok) == (old(self)@.contains_key(id) && old(self)@[id].revision
                == expected_revision && expected_revision < u64::MAX),
            r is Ok ==> final(self)@ == old(self)@.insert(
                id,
                (Entry {
                    revision: (expected_revision + 1) as u64,
                    content: new_content,
                    state: old(self)@[id].state,
                }),
            ),
            r == Err::<(), QueueError>(QueueError::UnknownId) <==> !old(self)@.contains_key(id),
            r is Err ==> final(self)@ == old(self)@,
    {
        let ghost m0 = self.entries@;
        match self.entries.remove(&id) {
            None => Err(QueueError::UnknownId),
            Some(e) => {
                if e.revision == expected_revision && expected_revision < u64::MAX {
                    self.entries.insert(
                        id,
                        Entry {
                            revision: expected_revision + 1,
                            content: new_content,
                            state: e.state,
                        },
                    );
                    proof {
                        assert(self.entries@ =~= m0.insert(
                            id,
                            (Entry {
                                revision: (expected_revision + 1) as u64,
                                content: new_content,
                                state: e.state,
                            }),
                        ));
                    }
                    Ok(())
                } else {
                    self.entries.insert(id, e);
                    proof {
                        assert(self.entries@ =~= m0);
                    }
                    Err(QueueError::StaleRevision)
                }
            },
        }
    }

    /// The live entry under `id`, if any.
    pub fn get(&self, id: u64) -> (r: Option<&Entry>)
        ensures
            match r {
                Some(e) => self@.contains_key(id) && self@[id] == *e,
                None => !self@.contains_key(id),
            },
    {
        self.entries.get(&id)
    }

    /// The dispatch state of `id`, if live.
    pub fn state_of(&self, id: u64) -> (r: Option<OpState>)
        ensures
            match r {
                Some(st) => self@.contains_key(id) && self@[id].state == st,
                None => !self@.contains_key(id),
            },
    {
        match self.entries.get(&id) {
            Some(e) => Some(e.state),
            None => None,
        }
    }

    /// The revision counter of `id`, if live.
    pub fn revision_of(&self, id: u64) -> (r: Option<u64>)
        ensures
            match r {
                Some(rev) => self@.contains_key(id) && self@[id].revision == rev,
                None => !self@.contains_key(id),
            },
    {
        match self.entries.get(&id) {
            Some(e) => Some(e.revision),
            None => None,
        }
    }

    /// Move `id` to a new dispatch state, leaving content and revision alone.
    pub(crate) fn set_state(&mut self, id: u64, st: OpState) -> (r: bool)
        requires
            old(self).wf(),
        ensures
            final(self).wf(),
            final(self).spec_next_id() == old(self).spec_next_id(),
            r == old(self)@.contains_key(id),
            r ==> final(self)@ == old(self)@.insert(
                id,
                (Entry {
                    revision: old(self)@[id].revision,
                    content: old(self)@[id].content,
                    state: st,
                }),
            ),
            !r ==> final(self)@ == old(self)@,
    {
        let ghost m0 = self.entries@;
        match self.entries.remove(&id) {
            None => false,
            Some(e) => {
                self.entries.insert(id, Entry { revision: e.revision, content: e.content, state: st });
                proof {
                    assert(self.entries@ =~= m0.insert(
                        id,
                        (Entry { revision: m0[id].revision, content: m0[id].content, state: st }),
                    ));
                }
                true
            },
        }
    }

    /// Put an entry back into the arena under a known id, keeping its
    /// revision counter; used by the engine to reinstate an operation it took
    /// out for execution (a decremented retry, a terminal failure record).
    pub(crate) fn restore(&mut self, id: u64, e: Entry) -> (r: bool)
        requires
            old(self).wf(),
        ensures
            final(self).wf(),
            r == (!old(self)@.contains_key(id) && id < u64::MAX),
            r ==> final(self)@ == old(self)@.insert(id, e) && final(self).spec_next_id() == (
            if id >= old(self).spec_next_id() {
                (id + 1) as u64
            } else {
                old(self).spec_next_id()
            }),
            !r ==> final(self)@ == old(self)@ && final(self).spec_next_id() == old(
                self,
            ).spec_next_id(),
    {
        if self.entries.contains_key(&id) || id == u64::MAX {
            return false;
        }
        self.entries.insert(id, e);
        self.order.push(id);
        if id >= self.next_id {
            self.next_id = id + 1;
        }
        proof {
            let o0 = old(self).order@;
            assert(!o0.contains(id));
            assert forall|a: int, b: int| 0 <= a < b < self.order@.len() implies self.order@[a]
                != self.order@[b] by {
                if b == o0.len() {
                    assert(self.order@[a] == o0[a]);
                    assert(o0.contains(o0[a]));
                }
            }
        }
        true
    }

    fn find_order(&self, id: u64) -> (r: Option<usize>)
        ensures
            match r {
                Some(j) => j < self.order@.len() && self.order@[j as int] == id,
                None => forall|j: int| 0 <= j < self.order@.len() ==> self.order@[j] != id,
            },
    {
        let mut i: usize = 0;
        while i < self.order.len()
            invariant
                i <= self.order@.len(),
                forall|j: int| 0 <= j < i ==> self.order@[j] != id,
            decreases self.order@.len() - i,
        {
            if self.order[i] == id {
                return Some(i);
            }
            i += 1;
        }
        None
    }

    /// Drop `id` from the queue once it has reached a terminal state and any
    /// required confirmation arrived.
    pub fn remove(&mut self, id: u64) -> (r: Option<Entry>)
        requires
            old(self).wf(),
        ensures
            final(self).wf(),
            final(self).spec_next_id() == old(self).spec_next_id(),
            final(self)@ == old(self)@.remove(id),
            match r {
                Some(e) => old(self)@.contains_key(id) && old(self)@[id] == e,
                None => !old(self)@.contains_key(id),
            },
    {
        let ghost m0 = self.entries@;
        match self.entries.remove(&id) {
            None => {
                proof {
                    assert(self.entries@ =~= m0.remove(id));
                }
                None
            },
            Some(e) => {
                let found = self.find_order(id);
                match found {
                    Some(j) => {
                        self.order.remove(j);
                        proof {
                            let o0 = old(self).order@;
                            assert(forall|a: int|
                                0 <= a < self.order@.len() ==> #[trigger] self.order@[a] == o0[
                                    if a < j { a } else { a + 1 }
                                ]);
                            assert forall|x: u64| #[trigger]
                                self.order@.contains(x) == self.entries@.contains_key(x) by {
                                if self.order@.contains(x) {
                                    let a = choose|a: int|
                                        0 <= a < self.order@.len() && self.order@[a] == x;
                                    assert(o0[if a < j { a } else { a + 1 }] == x);
                                    assert(o0.contains(x));
                                    if x == id {
                                        let b: int = if a < j { a } else { a + 1 };
                                        assert(o0[b] == id && o0[j as int] == id && b != j);
                                        assert(false);
                                    }
                                }
                                if self.entries@.contains_key(x) {
                                    assert(m0.contains_key(x) && x != id);
                                    assert(o0.contains(x));
                                    let a = choose|a: int| 0 <= a < o0.len() && o0[a] == x;
                                    assert(a != j);
                                    let b: int = if a < j { a } else { a - 1 };
                                    assert(self.order@[b] == x);
                                }
                            }
                        }
                    },
                    None => {
                        proof {
                            assert(self.order@ == old(self).order@);
                            assert(old(self).order@.contains(id));
                            let a = choose|a: int|
                                0 <= a < old(self).order@.len() && old(self).order@[a] == id;
                            assert(self.order@[a] == id);
                            assert(false);
                        }
                    },
                }
                Some(e)
            },
        }
    }

    /// The fresh, dispatch-eligible ids of this tick, in queue insertion
    /// order and without duplicates.
    pub fn collect_fresh(&self, confirmed_height: u64) -> (r: Vec<u64>)
        requires
            self.wf(),
        ensures
            r@.no_duplicates(),
            forall|id: u64| #[trigger]
                r@.contains(id) == (self@.contains_key(id) && eligible(self@[id], confirmed_height)),
            forall|i: int| 0 <= i < r@.len() ==> self@.contains_key(#[trigger] r@[i]),
    {
        let mut r: Vec<u64> = Vec::new();
        let mut i: usize = 0;
        while i < self.order.len()
            invariant
                self.wf(),
                i <= self.order@.len(),
                r@.no_duplicates(),
                forall|id: u64| #[trigger]
                    r@.contains(id) ==> self@.contains_key(id) && eligible(
                        self@[id],
                        confirmed_height,
                    ),
                forall|id: u64| #[trigger]
                    r@.contains(id) ==> exists|j: int| 0 <= j < i && self.order@[j] == id,
                forall|j: int|
                    0 <= j < i ==> (self@.contains_key(#[trigger] self.order@[j]) && eligible(
                        self@[self.order@[j]],
                        confirmed_height,
                    )) ==> r@.contains(self.order@[j]),
            decreases self.order@.len() - i,
        {
            let id = self.order[i];
            proof {
                assert(self.order@.contains(id));
            }
            let keep = match self.entries.get(&id) {
                Some(e) => match &e.content {
                    Operation::DeferUntil { until_height, .. } => e.state == OpState::Fresh
                        && *until_height <= confirmed_height,
                    _ => e.state == OpState::Fresh,
                },
                None => false,
            };
            if keep {
                proof {
                    if r@.contains(id) {
                        let j = choose|j: int| 0 <= j < i && self.order@[j] == id;
                        assert(self.order@[i as int] == id && j != i);
                        assert(false);
                    }
                }
                r.push(id);
            }
            i += 1;
        }
        proof {
            assert forall|id: u64| #[trigger]
                r@.contains(id) == (self@.contains_key(id) && eligible(
                    self@[id],
                    confirmed_height,
                )) by {
                assert(r@.contains(id) ==> self@.contains_key(id) && eligible(
                    self@[id],
                    confirmed_height,
                ));
                if self@.contains_key(id) && eligible(self@[id], confirmed_height) {
                    assert(self.order@.contains(id));
                    let j = choose|j: int| 0 <= j < self.order@.len() && self.order@[j] == id;
                    assert(r@.contains(self.order@[j]));
                }
            }
            assert forall|i: int| 0 <= i < r@.len() implies self@.contains_key(
                #[trigger] r@[i],
            ) by {
                assert(r@.contains(r@[i]));
            }
        }
        r
    }

    /// The ids currently ready for the chain adapter, without duplicates.
    pub fn collect_ready(&self) -> (r: Vec<u64>)
        requires
            self.wf(),
        ensures
            r@.no_duplicates(),
            forall|id: u64| #[trigger]
                r@.contains(id) == (self@.contains_key(id) && self@[id].state == OpState::Ready),
    {
        let mut r: Vec<u64> = Vec::new();
        let mut i: usize = 0;
        while i < self.order.len()
            invariant
                self.wf(),
                i <= self.order@.len(),
                r@.no_duplicates(),
                forall|id: u64| #[trigger]
                    r@.contains(id) ==> self@.contains_key(id) && self@[id].state
                        == OpState::Ready,
                forall|id: u64| #[trigger]
                    r@.contains(id) ==> exists|j: int| 0 <= j < i && self.order@[j] == id,
                forall|j: int|
                    0 <= j < i ==> (self@.contains_key(#[trigger] self.order@[j])
                        && self@[self.order@[j]].state == OpState::Ready) ==> r@.contains(
                        self.order@[j],
                    ),
            decreases self.order@.len() - i,
        {
            let id = self.order[i];
            proof {
                assert(self.order@.contains(id));
            }
            let keep = match self.entries.get(&id) {
                Some(e) => e.state == OpState::Ready,
                None => false,
            };
            if keep {
                proof {
                    if r@.contains(id) {
                        let j = choose|j: int| 0 <= j < i && self.order@[j] == id;
                        assert(self.order@[i as int] == id && j != i);
                        assert(false);
                    }
                }
                r.push(id);
            }
            i += 1;
        }
        proof {
            assert forall|id: u64| #[trigger]
                r@.contains(id) == (self@.contains_key(id) && self@[id].state
                    == OpState::Ready) by {
                assert(r@.contains(id) ==> self@.contains_key(id) && self@[id].state
                    == OpState::Ready);
                if self@.contains_key(id) && self@[id].state == OpState::Ready {
                    assert(self.order@.contains(id));
                    let j = choose|j: int| 0 <= j < self.order@.len() && self.order@[j] == id;
                    assert(r@.contains(self.order@[j]));
                }
            }
        }
        r
    }

    /// Route every requeued entry back to fresh at the start of a tick, so a
    /// replaced operation is dispatched again unless re-claimed.
    pub fn refresh_requeued(&mut self)
        requires
            old(self).wf(),
        ensures
            final(self).wf(),
            final(self).spec_next_id() == old(self).spec_next_id(),
            forall|id: u64| #[trigger]
                final(self)@.contains_key(id) == old(self)@.contains_key(id),
            forall|id: u64| #[trigger]
                old(self)@.contains_key(id) ==> final(self)@[id] == refreshed(old(self)@[id]),
    {
        let ghost m0 = self.entries@;
        let ghost o0 = self.order@;
        proof {
            assert forall|j: int| 0 <= j < o0.len() implies m0.contains_key(
                #[trigger] o0[j],
            ) by {
                assert(o0.contains(o0[j]));
            }
        }
        let n = self.order.len();
        let mut i: usize = 0;
        while i < n
            invariant
                self.wf(),
                n == self.order@.len(),
                i <= n,
                self.order@ == o0,
                self.spec_next_id() == old(self).spec_next_id(),
                forall|id: u64| #[trigger] self@.contains_key(id) == m0.contains_key(id),
                forall|j: int| 0 <= j < n ==> m0.contains_key(#[trigger] o0[j]),
                forall|j: int|
                    0 <= j < i ==> #[trigger] self@[o0[j]] == refreshed(m0[o0[j]]),
                forall|j: int| i <= j < n ==> #[trigger] self@[o0[j]] == m0[o0[j]],
            decreases n - i,
        {
            let id = self.order[i];
            proof {
                assert(self.order@.contains(id));
                assert(m0.contains_key(id));
            }
            let requeued = match self.entries.get(&id) {
                Some(e) => e.state == OpState::Requeued,
                None => false,
            };
            if requeued {
                let ghost m_pre = self.entries@;
                match self.entries.remove(&id) {
                    Some(e) => {
                        self.entries.insert(
                            id,
                            Entry { revision: e.revision, content: e.content, state: OpState::Fresh },
                        );
                        proof {
                            assert(self.entries@ =~= m_pre.insert(
                                id,
                                (Entry {
                                    revision: m_pre[id].revision,
                                    content: m_pre[id].content,
                                    state: OpState::Fresh,
                                }),
                            ));
                        }
                    },
                    None => {},
                }
            }
            proof {
                assert forall|j: int|
                    0 <= j < i + 1 implies #[trigger] self@[o0[j]] == refreshed(m0[o0[j]]) by {
                    if j < i {
                        assert(o0[j] != o0[i as int]);
                    }
                }
                assert forall|j: int|
                    i + 1 <= j < n implies #[trigger] self@[o0[j]] == m0[o0[j]] by {
                    assert(o0[j] != o0[i as int]);
                }
            }
            i += 1;
        }
        proof {
            assert forall|id: u64| #[trigger]
                old(self)@.contains_key(id) implies self@[id] == refreshed(old(self)@[id]) by {
                assert(o0.contains(id));
                let j = choose|j: int| 0 <= j < o0.len() && o0[j] == id;
                assert(self@[o0[j]] == refreshed(m0[o0[j]]));
            }
        }
    }
}

/// A requeued entry is routed as fresh on the next tick; every other entry is
/// left alone.
pub open spec fn refreshed(e: Entry) -> Entry {
    if e.state == OpState::Requeued {
        Entry { revision: e.revision, content: e.content, state: OpState::Fresh }
    } else {
        e
    }
}

} // verus!
