//! Optimization merge logic: how the responses of many independent,
//! failure-prone plugins are combined into one consistent, deterministic set
//! of queue mutations, and how that set is applied under the revision-checked
//! replace/claim discipline so that re-application after a crash-recovery
//! replay is a harmless no-op.

use vstd::prelude::*;

use crate::op::{Entry, OpState, Operation};
use crate::queue::Queue;
use crate::tag::{map_has_id, map_release_id, Tag, TagManager, TagName};

verus! {

broadcast use vstd::seq_lib::group_seq_properties;

/// The output of one plugin call, relative to the batch that was dispatched
/// to it: which operations may proceed unmodified, which it claims under its
/// namespace, which it proposes to rewrite, and what follow-up work it
/// synthesizes.
pub struct OptimizationResult {
    /// Batch ids that may proceed to execution or the next round unmodified.
    pub ready: Vec<u64>,
    /// `(localKey, id)`: attach `plugin@localKey` to the batch id, to be
    /// re-delivered to this plugin's process call later.
    pub claims: Vec<(String, u64)>,
    /// Revision-guarded rewrites of batch ids.
    pub replacements: Vec<Replacement>,
    /// Freshly synthesized operations; ids are engine-generated, never
    /// plugin-supplied.
    pub new_ops: Vec<Operation>,
}

/// A proposed rewrite of one operation, valid only against the revision the
/// plugin saw.
pub struct Replacement {
    pub id: u64,
    pub expected_revision: u64,
    pub content: Operation,
}

/// One plugin's answer in a dispatch round. `None` is a transport failure
/// (timeout, crash): the plugin has no opinion this tick and its operations
/// are retried on the next one.
pub struct PluginResponse {
    pub plugin: String,
    pub outcome: Option<OptimizationResult>,
}

/// One guarded queue mutation of a merged plan. Every kind re-checks its
/// guard when applied, so a mutation set can be replayed safely.
pub enum Mutation {
    /// Bind `tag` to `id` and move it from fresh to claimed.
    Claim { tag: Tag, id: u64 },
    /// Rewrite the content of `id` if its revision still matches; the entry
    /// is requeued and its tag released.
    Replace { id: u64, expected_revision: u64, content: Operation },
    /// Hand `id` downstream: no plugin claimed or rewrote it.
    MarkReady { id: u64 },
    /// Insert synthesized follow-up work under an engine-assigned fresh id.
    InsertNew { id: u64, content: Operation },
}

/// The joint mathematical state of the queue and the tag namespace.
#[verifier::ext_equal]
pub ghost struct SysState {
    pub entries: Map<u64, Entry>,
    pub next_id: u64,
    pub tags: Map<TagName, u64>,
}

/// The abstraction of one queue plus one tag namespace.
pub open spec fn sys(q: Queue, t: TagManager) -> SysState {
    SysState { entries: q@, next_id: q.spec_next_id(), tags: t@ }
}

/// Basic well-formedness of the joint state: live ids lie below the id
/// counter.
pub open spec fn wf_sys(s: SysState) -> bool {
    forall|id: u64| #[trigger] s.entries.contains_key(id) ==> id < s.next_id
}

/// The operation a mutation is aimed at.
pub open spec fn target_id(m: Mutation) -> u64 {
    match m {
        Mutation::Claim { id, .. } => id,
        Mutation::Replace { id, .. } => id,
        Mutation::MarkReady { id } => id,
        Mutation::InsertNew { id, .. } => id,
    }
}

/// The tag a claim mutation would bind, if any.
pub open spec fn claim_tag(m: Mutation) -> Option<TagName> {
    match m {
        Mutation::Claim { tag, .. } => Some(tag.abs()),
        _ => None,
    }
}

pub open spec fn is_insert(m: Mutation) -> bool {
    m matches Mutation::InsertNew { .. }
}

/// Whether some mutation of `ms` is aimed at `id`.
pub open spec fn targeted(ms: Seq<Mutation>, id: u64) -> bool {
    exists|i: int| 0 <= i < ms.len() && target_id(#[trigger] ms[i]) == id
}

/// Whether some claim of `ms` would bind `k`.
pub open spec fn tag_planned(ms: Seq<Mutation>, k: TagName) -> bool {
    exists|i: int| 0 <= i < ms.len() && claim_tag(#[trigger] ms[i]) == Some(k)
}

/// A winning claim: the operation must still be fresh and unclaimed and the
/// tag unbound; anything else is a silently resolved race and changes
/// nothing.
pub open spec fn apply_claim(s: SysState, tag: Tag, id: u64) -> SysState {
    if s.entries.contains_key(id) && s.entries[id].state == OpState::Fresh
        && !s.tags.contains_key(tag.abs()) && !map_has_id(s.tags, id) {
        SysState {
            entries: s.entries.insert(
                id,
                Entry {
                    revision: s.entries[id].revision,
                    content: s.entries[id].content,
                    state: OpState::Claimed,
                },
            ),
            next_id: s.next_id,
            tags: s.tags.insert(tag.abs(), id),
        }
    } else {
        s
    }
}

/// A revision-checked replace: succeeds only against the current revision,
/// bumps it, requeues the entry and releases its tag; a stale revision is
/// rejected and changes nothing.
pub open spec fn apply_replace(s: SysState, id: u64, exp: u64, content: Operation) -> SysState {
    if s.entries.contains_key(id) && s.entries[id].revision == exp && exp < u64::MAX {
        SysState {
            entries: s.entries.insert(
                id,
                Entry { revision: (exp + 1) as u64, content, state: OpState::Requeued },
            ),
            next_id: s.next_id,
            tags: map_release_id(s.tags, id),
        }
    } else {
        s
    }
}

/// Readiness: a fresh operation nobody claimed, or a processed operation its
/// owner returned unmodified, goes downstream; its tag is released.
pub open spec fn apply_ready(s: SysState, id: u64) -> SysState {
    if s.entries.contains_key(id) && (s.entries[id].state == OpState::Fresh
        || s.entries[id].state == OpState::Processing) {
        SysState {
            entries: s.entries.insert(
                id,
                Entry {
                    revision: s.entries[id].revision,
                    content: s.entries[id].content,
                    state: OpState::Ready,
                },
            ),
            next_id: s.next_id,
            tags: map_release_id(s.tags, id),
        }
    } else {
        s
    }
}

/// Insertion of synthesized work: only under an id that is not yet live.
pub open spec fn apply_insert(s: SysState, id: u64, content: Operation) -> SysState {
    if !s.entries.contains_key(id) && id < u64::MAX {
        SysState {
            entries: s.entries.insert(
                id,
                Entry { revision: 0, content, state: OpState::Fresh },
            ),
            next_id: if id >= s.next_id {
                (id + 1) as u64
            } else {
                s.next_id
            },
            tags: s.tags,
        }
    } else {
        s
    }
}

pub open spec fn apply_one(s: SysState, m: Mutation) -> SysState {
    match m {
        Mutation::Claim { tag, id } => apply_claim(s, tag, id),
        Mutation::Replace { id, expected_revision, content } => apply_replace(
            s,
            id,
            expected_revision,
            content,
        ),
        Mutation::MarkReady { id } => apply_ready(s, id),
        Mutation::InsertNew { id, content } => apply_insert(s, id, content),
    }
}

/// A whole plan applied in order.
pub open spec fn apply_all(s: SysState, ms: Seq<Mutation>) -> SysState
    decreases ms.len(),
{
    if ms.len() == 0 {
        s
    } else {
        apply_all(apply_one(s, ms[0]), ms.drop_first())
    }
}

pub proof fn lemma_apply_all_snoc(s: SysState, ms: Seq<Mutation>, m: Mutation)
    ensures
        apply_all(s, ms.push(m)) == apply_one(apply_all(s, ms), m),
    decreases ms.len(),
{
    let p = ms.push(m);
    if ms.len() == 0 {
        assert(p[0] == m);
        assert(p.drop_first() =~= Seq::<Mutation>::empty());
        assert(apply_all(s, p) == apply_all(apply_one(s, m), p.drop_first()));
        assert(apply_all(apply_one(s, m), p.drop_first()) == apply_one(s, m));
        assert(apply_all(s, ms) == s);
    } else {
        assert(p[0] == ms[0]);
        assert(p.drop_first() =~= ms.drop_first().push(m));
        lemma_apply_all_snoc(apply_one(s, ms[0]), ms.drop_first(), m);
        assert(apply_all(s, p) == apply_all(apply_one(s, ms[0]), p.drop_first()));
        assert(apply_all(apply_one(s, ms[0]), ms.drop_first().push(m)) == apply_one(
            apply_all(apply_one(s, ms[0]), ms.drop_first()),
            m,
        ));
        assert(apply_all(s, ms) == apply_all(apply_one(s, ms[0]), ms.drop_first()));
    }
}

/// What the planner guarantees about a merged mutation set, against the state
/// it was planned in: one mutation per live target, claims on distinct unbound
/// well-formed tags, insertions only under ids that are not yet live.
pub open spec fn wf_plan(s: SysState, ms: Seq<Mutation>) -> bool {
    &&& forall|i: int, j: int|
        #![trigger ms[i], ms[j]]
        0 <= i < j < ms.len() ==> target_id(ms[i]) != target_id(ms[j])
    &&& forall|i: int|
        0 <= i < ms.len() && !is_insert(#[trigger] ms[i]) ==> s.entries.contains_key(
            target_id(ms[i]),
        )
    &&& forall|i: int|
        0 <= i < ms.len() && is_insert(#[trigger] ms[i]) ==> !s.entries.contains_key(
            target_id(ms[i]),
        )
    &&& forall|i: int, j: int|
        #![trigger ms[i], ms[j]]
        0 <= i < j < ms.len() && claim_tag(ms[i]) is Some && claim_tag(ms[j]) is Some ==> claim_tag(
            ms[i],
        ) != claim_tag(ms[j])
    &&& forall|i: int|
        0 <= i < ms.len() && claim_tag(#[trigger] ms[i]) is Some ==> !s.tags.contains_key(
            claim_tag(ms[i]).unwrap(),
        )
    &&& forall|i: int|
        0 <= i < ms.len() ==> ((#[trigger] ms[i]) matches Mutation::Claim { tag, .. }
            ==> tag.wf())
}

/// Once a mutation has been applied (or found inapplicable), the state keeps
/// a witness that it can never fire again.
spec fn settled_wit(s: SysState, m: Mutation) -> bool {
    match m {
        Mutation::Claim { id, .. } => !s.entries.contains_key(id) || s.entries[id].state
            != OpState::Fresh || map_has_id(s.tags, id),
        Mutation::Replace { id, expected_revision, .. } => !s.entries.contains_key(id)
            || s.entries[id].revision != expected_revision || expected_revision == u64::MAX,
        Mutation::MarkReady { id } => !s.entries.contains_key(id) || (s.entries[id].state
            != OpState::Fresh && s.entries[id].state != OpState::Processing),
        Mutation::InsertNew { id, .. } => s.entries.contains_key(id) || id == u64::MAX,
    }
}

proof fn lemma_settled_skip(s: SysState, m: Mutation)
    requires
        settled_wit(s, m),
    ensures
        apply_one(s, m) == s,
{
}

proof fn lemma_settled_established(s: SysState, m: Mutation)
    requires
        claim_tag(m) is Some ==> !s.tags.contains_key(claim_tag(m).unwrap()),
    ensures
        settled_wit(apply_one(s, m), m),
{
    match m {
        Mutation::Claim { tag, id } => {
            let s1 = apply_one(s, m);
            if s.entries.contains_key(id) && s.entries[id].state == OpState::Fresh
                && !s.tags.contains_key(tag.abs()) && !map_has_id(s.tags, id) {
                assert(s1.entries[id].state == OpState::Claimed);
            }
        },
        _ => {},
    }
}

proof fn lemma_wit_preserved(s: SysState, m2: Mutation, m: Mutation)
    requires
        settled_wit(s, m),
        target_id(m2) != target_id(m),
    ensures
        settled_wit(apply_one(s, m2), m),
{
    let s1 = apply_one(s, m2);
    let id = target_id(m);
    assert(s1.entries.contains_key(id) == s.entries.contains_key(id));
    if s.entries.contains_key(id) {
        assert(s1.entries[id] == s.entries[id]);
    }
    match m {
        Mutation::Claim { id: cid, .. } => {
            if map_has_id(s.tags, cid) {
        let k = choose|k: TagName| #[trigger] s.tags.contains_key(k) && s.tags[k] == cid;
        match m2 {
            Mutation::Claim { tag: t2, id: id2 } => {
                if s.entries.contains_key(id2) && s.entries[id2].state == OpState::Fresh
                    && !s.tags.contains_key(t2.abs()) && !map_has_id(s.tags, id2) {
                    assert(k != t2.abs());
                    assert(s1.tags.contains_key(k) && s1.tags[k] == cid);
                } else {
                    assert(s1.tags == s.tags);
                }
            },
            Mutation::Replace { id: id2, .. } => {
                assert(id2 != cid);
                if s1.tags != s.tags {
                    assert(map_release_id(s.tags, id2).contains_key(k));
                }
                assert(s1.tags.contains_key(k) && s1.tags[k] == cid);
            },
            Mutation::MarkReady { id: id2 } => {
                assert(id2 != cid);
                if s1.tags != s.tags {
                    assert(map_release_id(s.tags, id2).contains_key(k));
                }
                assert(s1.tags.contains_key(k) && s1.tags[k] == cid);
            },
            Mutation::InsertNew { .. } => {
                assert(s1.tags == s.tags);
            },
        }
        assert(map_has_id(s1.tags, cid));
            }
        },
        _ => {},
    }
}

proof fn lemma_wit_preserved_all(s: SysState, ms: Seq<Mutation>, m: Mutation)
    requires
        settled_wit(s, m),
        forall|i: int| 0 <= i < ms.len() ==> target_id(#[trigger] ms[i]) != target_id(m),
    ensures
        settled_wit(apply_all(s, ms), m),
    decreases ms.len(),
{
    if ms.len() > 0 {
        lemma_wit_preserved(s, ms[0], m);
        let r = ms.drop_first();
        assert(forall|i: int| 0 <= i < r.len() ==> #[trigger] r[i] == ms[i + 1]);
        lemma_wit_preserved_all(apply_one(s, ms[0]), r, m);
    }
}

proof fn lemma_wf_plan_step(s: SysState, ms: Seq<Mutation>)
    requires
        wf_plan(s, ms),
        ms.len() > 0,
    ensures
        wf_plan(apply_one(s, ms[0]), ms.drop_first()),
{
    let s1 = apply_one(s, ms[0]);
    let r = ms.drop_first();
    assert(forall|i: int| 0 <= i < r.len() ==> #[trigger] r[i] == ms[i + 1]);
    assert forall|id: u64| s.entries.contains_key(id) implies s1.entries.contains_key(id) by {}
    assert forall|i: int|
        0 <= i < r.len() && is_insert(#[trigger] r[i]) implies !s1.entries.contains_key(
        target_id(r[i]),
    ) by {
        assert(r[i] == ms[i + 1]);
        assert(target_id(ms[i + 1]) != target_id(ms[0]));
        assert(!s.entries.contains_key(target_id(ms[i + 1])));
    }
    assert forall|i: int|
        0 <= i < r.len() && claim_tag(#[trigger] r[i]) is Some implies !s1.tags.contains_key(
        claim_tag(r[i]).unwrap(),
    ) by {
        assert(r[i] == ms[i + 1]);
        let k = claim_tag(ms[i + 1]).unwrap();
        assert(!s.tags.contains_key(k));
        match ms[0] {
            Mutation::Claim { tag, id } => {
                assert(claim_tag(ms[0]) == Some(tag.abs()));
                assert(k != tag.abs());
            },
            _ => {},
        }
    }
}

/// Idempotent merge: re-applying an already-applied plan (for example after a
/// crash-recovery replay) changes nothing, because every mutation is a
/// revision-checked replace or a guarded claim rather than a blind append.
pub proof fn lemma_merge_idempotent(s: SysState, ms: Seq<Mutation>)
    requires
        wf_plan(s, ms),
    ensures
        apply_all(apply_all(s, ms), ms) == apply_all(s, ms),
    decreases ms.len(),
{
    if ms.len() > 0 {
        let m0 = ms[0];
        let r = ms.drop_first();
        let s1 = apply_one(s, m0);
        let sf = apply_all(s1, r);
        assert(forall|i: int| 0 <= i < r.len() ==> #[trigger] r[i] == ms[i + 1]);
        lemma_wf_plan_step(s, ms);
        lemma_merge_idempotent(s1, r);
        lemma_settled_established(s, m0);
        assert forall|i: int| 0 <= i < r.len() implies target_id(#[trigger] r[i]) != target_id(
            m0,
        ) by {
            assert(r[i] == ms[i + 1]);
        }
        lemma_wit_preserved_all(s1, r, m0);
        lemma_settled_skip(sf, m0);
        assert(apply_all(sf, ms) == apply_all(apply_one(sf, m0), r));
        assert(apply_all(s, ms) == sf);
    }
}

/// Apply a merged mutation set to the live queue and tag namespace. Every
/// mutation re-checks its guard, so the call is total; the resulting state is
/// exactly the mathematical application of the plan.
pub fn apply_mutations(q: &mut Queue, tags: &mut TagManager, ms: Vec<Mutation>)
    requires
        old(q).wf(),
        old(tags).wf(),
        forall|i: int|
            0 <= i < ms@.len() ==> ((#[trigger] ms@[i]) matches Mutation::Claim { tag, .. }
                ==> tag.wf()),
    ensures
        final(q).wf(),
        final(tags).wf(),
        sys(*final(q), *final(tags)) == apply_all(sys(*old(q), *old(tags)), ms@),
{
    let ghost s0 = sys(*old(q), *old(tags));
    let ghost ms0 = ms@;
    let ghost mut k: int = 0;
    let mut rest = ms;
    while rest.len() > 0
        invariant
            q.wf(),
            tags.wf(),
            0 <= k <= ms0.len(),
            rest@ == ms0.skip(k),
            sys(*q, *tags) == apply_all(s0, ms0.take(k)),
            forall|i: int|
                0 <= i < ms0.len() ==> ((#[trigger] ms0[i]) matches Mutation::Claim { tag, .. }
                    ==> tag.wf()),
        decreases rest@.len(),
    {
        let ghost s_pre = sys(*q, *tags);
        let m = rest.remove(0);
        proof {
            assert(m == ms0[k]);
            assert(rest@ =~= ms0.skip(k + 1));
        }
        match m {
            Mutation::Claim { tag, id } => {
                let fresh = match q.state_of(id) {
                    Some(st) => st == OpState::Fresh,
                    None => false,
                };
                if fresh && !tags.contains_name(&tag) && !tags.is_tagged(id) {
                    proof {
                        assert(ms0[k] matches Mutation::Claim { tag: t2, .. } && t2 == tag);
                    }
                    let r = tags.claim(tag, id);
                    let _ = q.set_state(id, OpState::Claimed);
                    proof {
                        assert(sys(*q, *tags) =~= apply_one(s_pre, ms0[k]));
                    }
                } else {
                    proof {
                        assert(sys(*q, *tags) =~= apply_one(s_pre, ms0[k]));
                    }
                }
            },
            Mutation::Replace { id, expected_revision, content } => {
                match q.replace(id, content, expected_revision) {
                    Ok(()) => {
                        let _ = q.set_state(id, OpState::Requeued);
                        tags.release_id(id);
                        proof {
                            assert(q@ =~= s_pre.entries.insert(
                                id,
                                (Entry {
                                    revision: (expected_revision + 1) as u64,
                                    content: ms0[k]->Replace_content,
                                    state: OpState::Requeued,
                                }),
                            ));
                            assert(sys(*q, *tags) =~= apply_one(s_pre, ms0[k]));
                        }
                    },
                    Err(_) => {
                        proof {
                            assert(sys(*q, *tags) =~= apply_one(s_pre, ms0[k]));
                        }
                    },
                }
            },
            Mutation::MarkReady { id } => {
                let go = match q.state_of(id) {
                    Some(st) => st == OpState::Fresh || st == OpState::Processing,
                    None => false,
                };
                if go {
                    let _ = q.set_state(id, OpState::Ready);
                    tags.release_id(id);
                }
                proof {
                    assert(sys(*q, *tags) =~= apply_one(s_pre, ms0[k]));
                }
            },
            Mutation::InsertNew { id, content } => {
                let _ = q.insert_new(id, content);
                proof {
                    assert(sys(*q, *tags) =~= apply_one(s_pre, ms0[k]));
                }
            },
        }
        proof {
            assert(ms0.take(k + 1) =~= ms0.take(k).push(ms0[k]));
            lemma_apply_all_snoc(s0, ms0.take(k), ms0[k]);
            k = k + 1;
        }
    }
    proof {
        assert(k == ms0.len());
        assert(ms0.take(k) =~= ms0);
    }
}

/// Accumulator of the planner: the mutations chosen so far and the next
/// fresh id for synthesized work.
#[verifier::ext_equal]
pub ghost struct PlanAcc {
    pub ms: Seq<Mutation>,
    pub next: u64,
}

/// The planner's running guarantee over its accumulator.
pub open spec fn plan_inv(s: SysState, acc: PlanAcc) -> bool {
    &&& wf_sys(s)
    &&& wf_plan(s, acc.ms)
    &&& s.next_id <= acc.next
    &&& forall|i: int|
        0 <= i < acc.ms.len() && is_insert(#[trigger] acc.ms[i]) ==> s.next_id <= target_id(
            acc.ms[i],
        ) < acc.next
}

/// Claim arbitration, one candidate at a time: the first plugin (in the
/// deterministic response order) whose claim finds the operation fresh, the
/// tag unbound and neither already chosen this round, wins; every losing
/// claim is dropped silently.
pub open spec fn claim_step(s0: SysState, plugin: String, acc: PlanAcc, c: (String, u64)) -> PlanAcc {
    let t = Tag { plugin, key: c.0 };
    if s0.entries.contains_key(c.1) && s0.entries[c.1].state == OpState::Fresh
        && !s0.tags.contains_key(t.abs()) && !map_has_id(s0.tags, c.1) && !targeted(acc.ms, c.1)
        && !tag_planned(acc.ms, t.abs()) {
        PlanAcc { ms: acc.ms.push(Mutation::Claim { tag: t, id: c.1 }), next: acc.next }
    } else {
        acc
    }
}

pub open spec fn replace_step(s0: SysState, acc: PlanAcc, rep: Replacement) -> PlanAcc {
    if s0.entries.contains_key(rep.id) && !targeted(acc.ms, rep.id) {
        PlanAcc {
            ms: acc.ms.push(
                Mutation::Replace {
                    id: rep.id,
                    expected_revision: rep.expected_revision,
                    content: rep.content,
                },
            ),
            next: acc.next,
        }
    } else {
        acc
    }
}

pub open spec fn ready_step(s0: SysState, acc: PlanAcc, id: u64) -> PlanAcc {
    if s0.entries.contains_key(id) && !targeted(acc.ms, id) {
        PlanAcc { ms: acc.ms.push(Mutation::MarkReady { id }), next: acc.next }
    } else {
        acc
    }
}

/// Synthesized operations get engine-generated ids, counted off the id
/// counter the plan started from.
pub open spec fn new_step(acc: PlanAcc, content: Operation) -> PlanAcc {
    if acc.next < u64::MAX {
        PlanAcc {
            ms: acc.ms.push(Mutation::InsertNew { id: acc.next, content }),
            next: (acc.next + 1) as u64,
        }
    } else {
        acc
    }
}

pub open spec fn plan_claims(
    s0: SysState,
    plugin: String,
    acc: PlanAcc,
    cs: Seq<(String, u64)>,
) -> PlanAcc {
    cs.fold_left(acc, |a: PlanAcc, c: (String, u64)| claim_step(s0, plugin, a, c))
}

pub open spec fn plan_replacements(s0: SysState, acc: PlanAcc, rs: Seq<Replacement>) -> PlanAcc {
    rs.fold_left(acc, |a: PlanAcc, rep: Replacement| replace_step(s0, a, rep))
}

pub open spec fn plan_ready(s0: SysState, acc: PlanAcc, ids: Seq<u64>) -> PlanAcc {
    ids.fold_left(acc, |a: PlanAcc, id: u64| ready_step(s0, a, id))
}

pub open spec fn plan_new(acc: PlanAcc, ops: Seq<Operation>) -> PlanAcc {
    ops.fold_left(acc, |a: PlanAcc, content: Operation| new_step(a, content))
}

/// Protocol validity of one response: the declared plugin name must not
/// contain `@`, and every id it references must exist in the batch that was
/// dispatched to it. A violating response is discarded entirely; the rest of
/// the merge proceeds.
pub open spec fn valid_response(batch: Seq<u64>, plugin: String, r: OptimizationResult) -> bool {
    &&& !plugin@.contains('@')
    &&& forall|i: int| 0 <= i < r.ready@.len() ==> batch.contains(#[trigger] r.ready@[i])
    &&& forall|i: int| 0 <= i < r.claims@.len() ==> batch.contains((#[trigger] r.claims@[i]).1)
    &&& forall|i: int|
        0 <= i < r.replacements@.len() ==> batch.contains((#[trigger] r.replacements@[i]).id)
}

/// One plugin's contribution: nothing on a transport failure or a protocol
/// violation; otherwise its claims, replacements, ready marks and synthesized
/// operations, in that order.
pub open spec fn response_step(
    s0: SysState,
    batch: Seq<u64>,
    acc: PlanAcc,
    resp: PluginResponse,
) -> PlanAcc {
    match resp.outcome {
        None => acc,
        Some(r) => if valid_response(batch, resp.plugin, r) {
            plan_new(
                plan_ready(
                    s0,
                    plan_replacements(
                        s0,
                        plan_claims(s0, resp.plugin, acc, r.claims@),
                        r.replacements@,
                    ),
                    r.ready@,
                ),
                r.new_ops@,
            )
        } else {
            acc
        },
    }
}

pub open spec fn plan_responses(
    s0: SysState,
    batch: Seq<u64>,
    acc: PlanAcc,
    resps: Seq<PluginResponse>,
) -> PlanAcc {
    resps.fold_left(acc, |a: PlanAcc, resp: PluginResponse| response_step(s0, batch, a, resp))
}

/// Whether every plugin of the round answered; only then may unclaimed batch
/// operations be marked ready this tick, otherwise they stay fresh and are
/// retried next tick.
pub open spec fn all_responded(resps: Seq<PluginResponse>) -> bool {
    forall|i: int| 0 <= i < resps.len() ==> (#[trigger] resps[i]).outcome is Some
}

/// The deterministic merged plan of one dispatch round: each response's
/// contribution in response order, then, if every plugin answered, a ready
/// mark for every batch operation nothing was aimed at.
pub open spec fn spec_plan(s: SysState, batch: Seq<u64>, resps: Seq<PluginResponse>) -> Seq<
    Mutation,
> {
    let acc0 = PlanAcc { ms: Seq::empty(), next: s.next_id };
    let acc1 = plan_responses(s, batch, acc0, resps);
    if all_responded(resps) {
        plan_ready(s, acc1, batch).ms
    } else {
        acc1.ms
    }
}

fn contains_id(v: &Vec<u64>, x: u64) -> (b: bool)
    ensures
        b == v@.contains(x),
{
    let mut i: usize = 0;
    while i < v.len()
        invariant
            i <= v@.len(),
            forall|j: int| 0 <= j < i ==> v@[j] != x,
        decreases v@.len() - i,
    {
        if v[i] == x {
            return true;
        }
        i += 1;
    }
    false
}

fn str_has_char(s: &str, c: char) -> (b: bool)
    ensures
        b == s@.contains(c),
{
    let n = s.unicode_len();
    let mut i: usize = 0;
    while i < n
        invariant
            n == s@.len(),
            i <= n,
            forall|j: int| 0 <= j < i ==> s@[j] != c,
        decreases n - i,
    {
        if s.get_char(i) == c {
            return true;
        }
        i += 1;
    }
    false
}

fn targeted_in(ms: &Vec<Mutation>, id: u64) -> (b: bool)
    ensures
        b == targeted(ms@, id),
{
    let mut i: usize = 0;
    while i < ms.len()
        invariant
            i <= ms@.len(),
            forall|j: int| 0 <= j < i ==> target_id(#[trigger] ms@[j]) != id,
        decreases ms@.len() - i,
    {
        let t = match &ms[i] {
            Mutation::Claim { id, .. } => *id,
            Mutation::Replace { id, .. } => *id,
            Mutation::MarkReady { id } => *id,
            Mutation::InsertNew { id, .. } => *id,
        };
        if t == id {
            return true;
        }
        i += 1;
    }
    false
}

fn tag_planned_in(ms: &Vec<Mutation>, t: &Tag) -> (b: bool)
    ensures
        b == tag_planned(ms@, t.abs()),
{
    let mut i: usize = 0;
    while i < ms.len()
        invariant
            i <= ms@.len(),
            forall|j: int| 0 <= j < i ==> claim_tag(#[trigger] ms@[j]) != Some(t.abs()),
        decreases ms@.len() - i,
    {
        match &ms[i] {
            Mutation::Claim { tag, .. } => {
                if tag.plugin == t.plugin && tag.key == t.key {
                    return true;
                }
            },
            _ => {},
        }
        i += 1;
    }
    false
}

/// Check one response against the protocol: the declared name is
/// `@`-free and every referenced id was in the dispatched batch.
pub fn response_valid(batch: &Vec<u64>, plugin: &String, r: &OptimizationResult) -> (b: bool)
    ensures
        b == valid_response(batch@, *plugin, *r),
{
    if str_has_char(plugin.as_str(), '@') {
        return false;
    }
    let mut i: usize = 0;
    while i < r.ready.len()
        invariant
            i <= r.ready@.len(),
            forall|j: int| 0 <= j < i ==> batch@.contains(#[trigger] r.ready@[j]),
        decreases r.ready@.len() - i,
    {
        if !contains_id(batch, r.ready[i]) {
            return false;
        }
        i += 1;
    }
    let mut i2: usize = 0;
    while i2 < r.claims.len()
        invariant
            i2 <= r.claims@.len(),
            forall|j: int| 0 <= j < i2 ==> batch@.contains((#[trigger] r.claims@[j]).1),
        decreases r.claims@.len() - i2,
    {
        if !contains_id(batch, r.claims[i2].1) {
            return false;
        }
        i2 += 1;
    }
    let mut i3: usize = 0;
    while i3 < r.replacements.len()
        invariant
            i3 <= r.replacements@.len(),
            forall|j: int| 0 <= j < i3 ==> batch@.contains((#[trigger] r.replacements@[j]).id),
        decreases r.replacements@.len() - i3,
    {
        if !contains_id(batch, r.replacements[i3].id) {
            return false;
        }
        i3 += 1;
    }
    true
}

proof fn lemma_plan_push(s: SysState, acc: PlanAcc, m: Mutation, next2: u64)
    requires
        plan_inv(s, acc),
        !targeted(acc.ms, target_id(m)),
        !is_insert(m) ==> s.entries.contains_key(target_id(m)) && next2 == acc.next,
        is_insert(m) ==> target_id(m) == acc.next && acc.next < u64::MAX && next2 == acc.next
            + 1,
        claim_tag(m) is Some ==> !s.tags.contains_key(claim_tag(m).unwrap()) && !tag_planned(
            acc.ms,
            claim_tag(m).unwrap(),
        ),
        m matches Mutation::Claim { tag, .. } ==> tag.wf(),
    ensures
        plan_inv(s, (PlanAcc { ms: acc.ms.push(m), next: next2 })),
{
    let p = acc.ms.push(m);
    let n = acc.ms.len() as int;
    assert(forall|i: int| 0 <= i < n ==> #[trigger] p[i] == acc.ms[i]);
    assert(p[n] == m);
    assert forall|i: int, j: int|
        #![trigger p[i], p[j]]
        0 <= i < j < p.len() implies target_id(p[i]) != target_id(p[j]) by {
        if j == n {
            assert(target_id(acc.ms[i]) != target_id(m));
        }
    }
    assert forall|i: int, j: int|
        #![trigger p[i], p[j]]
        0 <= i < j < p.len() && claim_tag(p[i]) is Some && claim_tag(p[j]) is Some implies claim_tag(
        p[i],
    ) != claim_tag(p[j]) by {
        if j == n {
            assert(claim_tag(acc.ms[i]) != claim_tag(m));
        }
    }
}

fn push_claims(
    q: &Queue,
    tags: &TagManager,
    acc: &mut Vec<Mutation>,
    next: u64,
    plugin: &String,
    claims: Vec<(String, u64)>,
)
    requires
        q.wf(),
        tags.wf(),
        !plugin@.contains('@'),
        plan_inv(sys(*q, *tags), (PlanAcc { ms: old(acc)@, next })),
    ensures
        (PlanAcc { ms: final(acc)@, next }) == plan_claims(
            sys(*q, *tags),
            *plugin,
            (PlanAcc { ms: old(acc)@, next }),
            claims@,
        ),
        plan_inv(sys(*q, *tags), (PlanAcc { ms: final(acc)@, next })),
{
    let ghost s0 = sys(*q, *tags);
    let ghost acc0 = PlanAcc { ms: old(acc)@, next };
    let ghost cs0 = claims@;
    let ghost mut k: int = 0;
    let mut rest = claims;
    while rest.len() > 0
        invariant
            q.wf(),
            tags.wf(),
            !plugin@.contains('@'),
            0 <= k <= cs0.len(),
            rest@ == cs0.skip(k),
            (PlanAcc { ms: acc@, next }) == plan_claims(s0, *plugin, acc0, cs0.take(k)),
            plan_inv(s0, (PlanAcc { ms: acc@, next })),
            s0 == sys(*q, *tags),
        decreases rest@.len(),
    {
        let ghost a_pre = PlanAcc { ms: acc@, next };
        let kv = rest.remove(0);
        proof {
            assert(kv == cs0[k]);
            assert(rest@ =~= cs0.skip(k + 1));
        }
        let (key, cid) = kv;
        let t = Tag { plugin: plugin.clone(), key };
        proof {
            assert(t == (Tag { plugin: *plugin, key: cs0[k].0 }));
        }
        let fresh = match q.state_of(cid) {
            Some(st) => st == OpState::Fresh,
            None => false,
        };
        if fresh && !tags.contains_name(&t) && !tags.is_tagged(cid) && !targeted_in(acc, cid)
            && !tag_planned_in(acc, &t) {
            proof {
                lemma_plan_push(s0, a_pre, Mutation::Claim { tag: t, id: cid }, next);
            }
            acc.push(Mutation::Claim { tag: t, id: cid });
        }
        proof {
            assert(cs0.take(k + 1).drop_last() =~= cs0.take(k));
            assert(cs0.take(k + 1).last() == cs0[k]);
            assert((PlanAcc { ms: acc@, next }) =~= claim_step(s0, *plugin, a_pre, cs0[k]));
            assert((PlanAcc { ms: acc@, next }) == plan_claims(s0, *plugin, acc0, cs0.take(k + 1)));
            k = k + 1;
        }
    }
    proof {
        assert(cs0.take(k) =~= cs0);
    }
}

fn push_replacements(
    q: &Queue,
    tags: &TagManager,
    acc: &mut Vec<Mutation>,
    next: u64,
    reps: Vec<Replacement>,
)
    requires
        q.wf(),
        tags.wf(),
        plan_inv(sys(*q, *tags), (PlanAcc { ms: old(acc)@, next })),
    ensures
        (PlanAcc { ms: final(acc)@, next }) == plan_replacements(
            sys(*q, *tags),
            (PlanAcc { ms: old(acc)@, next }),
            reps@,
        ),
        plan_inv(sys(*q, *tags), (PlanAcc { ms: final(acc)@, next })),
{
    let ghost s0 = sys(*q, *tags);
    let ghost acc0 = PlanAcc { ms: old(acc)@, next };
    let ghost rs0 = reps@;
    let ghost mut k: int = 0;
    let mut rest = reps;
    while rest.len() > 0
        invariant
            q.wf(),
            tags.wf(),
            0 <= k <= rs0.len(),
            rest@ == rs0.skip(k),
            (PlanAcc { ms: acc@, next }) == plan_replacements(s0, acc0, rs0.take(k)),
            plan_inv(s0, (PlanAcc { ms: acc@, next })),
            s0 == sys(*q, *tags),
        decreases rest@.len(),
    {
        let ghost a_pre = PlanAcc { ms: acc@, next };
        let rep = rest.remove(0);
        proof {
            assert(rep == rs0[k]);
            assert(rest@ =~= rs0.skip(k + 1));
        }
        let Replacement { id, expected_revision, content } = rep;
        let live = match q.state_of(id) {
            Some(_) => true,
            None => false,
        };
        if live && !targeted_in(acc, id) {
            proof {
                lemma_plan_push(
                    s0,
                    a_pre,
                    Mutation::Replace { id, expected_revision, content: rs0[k].content },
                    next,
                );
            }
            acc.push(Mutation::Replace { id, expected_revision, content });
        }
        proof {
            assert(rs0.take(k + 1).drop_last() =~= rs0.take(k));
            assert(rs0.take(k + 1).last() == rs0[k]);
            assert((PlanAcc { ms: acc@, next }) =~= replace_step(s0, a_pre, rs0[k]));
            assert((PlanAcc { ms: acc@, next }) == plan_replacements(s0, acc0, rs0.take(k + 1)));
            k = k + 1;
        }
    }
    proof {
        assert(rs0.take(k) =~= rs0);
    }
}

fn push_ready(q: &Queue, tags: &TagManager, acc: &mut Vec<Mutation>, next: u64, ids: &Vec<u64>)
    requires
        q.wf(),
        tags.wf(),
        plan_inv(sys(*q, *tags), (PlanAcc { ms: old(acc)@, next })),
    ensures
        (PlanAcc { ms: final(acc)@, next }) == plan_ready(
            sys(*q, *tags),
            (PlanAcc { ms: old(acc)@, next }),
            ids@,
        ),
        plan_inv(sys(*q, *tags), (PlanAcc { ms: final(acc)@, next })),
{
    let ghost s0 = sys(*q, *tags);
    let ghost acc0 = PlanAcc { ms: old(acc)@, next };
    let mut i: usize = 0;
    while i < ids.len()
        invariant
            q.wf(),
            tags.wf(),
            i <= ids@.len(),
            (PlanAcc { ms: acc@, next }) == plan_ready(s0, acc0, ids@.take(i as int)),
            plan_inv(s0, (PlanAcc { ms: acc@, next })),
            s0 == sys(*q, *tags),
            acc0 == (PlanAcc { ms: old(acc)@, next }),
        decreases ids@.len() - i,
    {
        let ghost a_pre = PlanAcc { ms: acc@, next };
        let id = ids[i];
        let live = match q.state_of(id) {
            Some(_) => true,
            None => false,
        };
        if live && !targeted_in(acc, id) {
            proof {
                lemma_plan_push(s0, a_pre, Mutation::MarkReady { id }, next);
            }
            acc.push(Mutation::MarkReady { id });
        }
        proof {
            assert(ids@.take(i + 1).drop_last() =~= ids@.take(i as int));
            assert(ids@.take(i + 1).last() == ids@[i as int]);
            assert((PlanAcc { ms: acc@, next }) =~= ready_step(s0, a_pre, ids@[i as int]));
            assert((PlanAcc { ms: acc@, next }) == plan_ready(s0, acc0, ids@.take(i + 1)));
        }
        i += 1;
    }
    proof {
        assert(ids@.take(ids@.len() as int) =~= ids@);
    }
}

fn push_new(q: &Queue, tags: &TagManager, acc: &mut Vec<Mutation>, next: u64, ops: Vec<Operation>)
    -> (r: u64)
    requires
        q.wf(),
        tags.wf(),
        plan_inv(sys(*q, *tags), (PlanAcc { ms: old(acc)@, next })),
    ensures
        (PlanAcc { ms: final(acc)@, next: r }) == plan_new(
            (PlanAcc { ms: old(acc)@, next }),
            ops@,
        ),
        plan_inv(sys(*q, *tags), (PlanAcc { ms: final(acc)@, next: r })),
{
    let ghost s0 = sys(*q, *tags);
    let ghost acc0 = PlanAcc { ms: old(acc)@, next };
    let ghost os0 = ops@;
    let ghost mut k: int = 0;
    let mut cur: u64 = next;
    let mut rest = ops;
    while rest.len() > 0
        invariant
            q.wf(),
            tags.wf(),
            0 <= k <= os0.len(),
            rest@ == os0.skip(k),
            (PlanAcc { ms: acc@, next: cur }) == plan_new(acc0, os0.take(k)),
            plan_inv(s0, (PlanAcc { ms: acc@, next: cur })),
            s0 == sys(*q, *tags),
        decreases rest@.len(),
    {
        let ghost a_pre = PlanAcc { ms: acc@, next: cur };
        let content = rest.remove(0);
        proof {
            assert(content == os0[k]);
            assert(rest@ =~= os0.skip(k + 1));
        }
        if cur < u64::MAX {
            proof {
                assert forall|i: int| 0 <= i < acc@.len() implies target_id(#[trigger] acc@[i])
                    != cur by {
                    if !is_insert(acc@[i]) {
                        assert(s0.entries.contains_key(target_id(acc@[i])));
                        assert(target_id(acc@[i]) < s0.next_id);
                    }
                }
                assert(!targeted(acc@, cur));
                lemma_plan_push(
                    s0,
                    a_pre,
                    Mutation::InsertNew { id: cur, content: os0[k] },
                    (cur + 1) as u64,
                );
            }
            acc.push(Mutation::InsertNew { id: cur, content });
            cur = cur + 1;
        }
        proof {
            assert(os0.take(k + 1).drop_last() =~= os0.take(k));
            assert(os0.take(k + 1).last() == os0[k]);
            assert((PlanAcc { ms: acc@, next: cur }) =~= new_step(a_pre, os0[k]));
            assert((PlanAcc { ms: acc@, next: cur }) == plan_new(acc0, os0.take(k + 1)));
            k = k + 1;
        }
    }
    proof {
        assert(os0.take(k) =~= os0);
    }
    cur
}

/// Merge one dispatch round into a deterministic mutation plan: every
/// responding plugin's contribution in response order (claims arbitrated
/// first-wins, protocol violators discarded whole), synthesized work under
/// fresh engine ids, and — only if every plugin answered — a ready mark for
/// each batch operation nothing was aimed at.
pub fn plan_tick(
    q: &Queue,
    tags: &TagManager,
    batch: &Vec<u64>,
    responses: Vec<PluginResponse>,
) -> (r: Vec<Mutation>)
    requires
        q.wf(),
        tags.wf(),
    ensures
        r@ == spec_plan(sys(*q, *tags), batch@, responses@),
        wf_plan(sys(*q, *tags), r@),
{
    let ghost s0 = sys(*q, *tags);
    let ghost resps0 = responses@;
    let ghost acc_init = PlanAcc { ms: Seq::empty(), next: s0.next_id };
    proof {
        q.lemma_live_ids_bounded();
        assert(plan_inv(s0, acc_init));
    }
    let mut acc: Vec<Mutation> = Vec::new();
    let mut next: u64 = q.next_id();
    let mut all_some = true;
    let ghost mut k: int = 0;
    let mut rest = responses;
    while rest.len() > 0
        invariant
            q.wf(),
            tags.wf(),
            0 <= k <= resps0.len(),
            rest@ == resps0.skip(k),
            (PlanAcc { ms: acc@, next }) == plan_responses(s0, batch@, acc_init, resps0.take(k)),
            plan_inv(s0, (PlanAcc { ms: acc@, next })),
            all_some == all_responded(resps0.take(k)),
            s0 == sys(*q, *tags),
            acc_init == (PlanAcc { ms: Seq::<Mutation>::empty(), next: s0.next_id }),
        decreases rest@.len(),
    {
        let ghost a_pre = PlanAcc { ms: acc@, next };
        let resp = rest.remove(0);
        proof {
            assert(resp == resps0[k]);
            assert(rest@ =~= resps0.skip(k + 1));
        }
        let PluginResponse { plugin, outcome } = resp;
        match outcome {
            None => {
                all_some = false;
                proof {
                    assert(resps0.take(k + 1)[k] == resps0[k]);
                    assert(!all_responded(resps0.take(k + 1)));
                }
            },
            Some(res) => {
                let ghost g = res;
                if response_valid(batch, &plugin, &res) {
                    let OptimizationResult { ready, claims, replacements, new_ops } = res;
                    push_claims(q, tags, &mut acc, next, &plugin, claims);
                    push_replacements(q, tags, &mut acc, next, replacements);
                    push_ready(q, tags, &mut acc, next, &ready);
                    next = push_new(q, tags, &mut acc, next, new_ops);
                }
                proof {
                    assert(resps0.take(k + 1)[k] == resps0[k]);
                    assert(resps0[k].outcome is Some);
                    if all_responded(resps0.take(k)) {
                        assert forall|i: int| 0 <= i < k + 1 implies (#[trigger] resps0.take(
                            k + 1,
                        )[i]).outcome is Some by {
                            assert(resps0.take(k + 1)[i] == resps0[i]);
                            if i < k {
                                assert(resps0.take(k)[i] == resps0[i]);
                            }
                        }
                        assert(all_responded(resps0.take(k + 1)));
                    } else {
                        let i = choose|i: int|
                            0 <= i < k && !((#[trigger] resps0.take(k)[i]).outcome is Some);
                        assert(resps0.take(k + 1)[i] == resps0[i]);
                        assert(resps0.take(k)[i] == resps0[i]);
                        assert(!all_responded(resps0.take(k + 1)));
                    }
                }
            },
        }
        proof {
            assert(resps0.take(k + 1).drop_last() =~= resps0.take(k));
            assert(resps0.take(k + 1).last() == resps0[k]);
            assert((PlanAcc { ms: acc@, next }) =~= response_step(s0, batch@, a_pre, resps0[k]));
            assert((PlanAcc { ms: acc@, next }) == plan_responses(
                s0,
                batch@,
                acc_init,
                resps0.take(k + 1),
            ));
            k = k + 1;
        }
    }
    proof {
        assert(resps0.take(k) =~= resps0);
    }
    if all_some {
        push_ready(q, tags, &mut acc, next, batch);
    }
    acc
}

/// One whole merge: plan the round deterministically, then apply the plan
/// under the revision-checked discipline.
pub fn merge_tick(
    q: &mut Queue,
    tags: &mut TagManager,
    batch: &Vec<u64>,
    responses: Vec<PluginResponse>,
)
    requires
        old(q).wf(),
        old(tags).wf(),
    ensures
        final(q).wf(),
        final(tags).wf(),
        sys(*final(q), *final(tags)) == apply_all(
            sys(*old(q), *old(tags)),
            spec_plan(sys(*old(q), *old(tags)), batch@, responses@),
        ),
{
    let ms = plan_tick(q, tags, batch, responses);
    apply_mutations(q, tags, ms);
}

/// Whether a response mentions `id` at all.
pub open spec fn references(r: OptimizationResult, id: u64) -> bool {
    ||| r.ready@.contains(id)
    ||| exists|i: int| 0 <= i < r.claims@.len() && (#[trigger] r.claims@[i]).1 == id
    ||| exists|i: int| 0 <= i < r.replacements@.len() && (#[trigger] r.replacements@[i]).id == id
}

proof fn lemma_untargeted_push(ms: Seq<Mutation>, m: Mutation, id: u64)
    requires
        !targeted(ms, id),
        target_id(m) != id,
    ensures
        !targeted(ms.push(m), id),
{
    let p = ms.push(m);
    assert forall|i: int| 0 <= i < p.len() implies target_id(#[trigger] p[i]) != id by {
        if i < ms.len() {
            assert(p[i] == ms[i]);
        } else {
            assert(p[i] == m);
        }
    }
}

proof fn lemma_claims_untargeted(
    s0: SysState,
    plugin: String,
    acc: PlanAcc,
    cs: Seq<(String, u64)>,
    id: u64,
)
    requires
        !targeted(acc.ms, id),
        forall|i: int| 0 <= i < cs.len() ==> (#[trigger] cs[i]).1 != id,
    ensures
        !targeted(plan_claims(s0, plugin, acc, cs).ms, id),
        plan_claims(s0, plugin, acc, cs).next == acc.next,
    decreases cs.len(),
{
    if cs.len() > 0 {
        let dl = cs.drop_last();
        assert(forall|i: int| 0 <= i < dl.len() ==> #[trigger] dl[i] == cs[i]);
        lemma_claims_untargeted(s0, plugin, acc, dl, id);
        let a1 = plan_claims(s0, plugin, acc, dl);
        let c = cs.last();
        if claim_step(s0, plugin, a1, c) != a1 {
            lemma_untargeted_push(a1.ms, Mutation::Claim { tag: (Tag { plugin, key: c.0 }), id: c.1 }, id);
        }
    }
}

proof fn lemma_replacements_untargeted(
    s0: SysState,
    acc: PlanAcc,
    rs: Seq<Replacement>,
    id: u64,
)
    requires
        !targeted(acc.ms, id),
        forall|i: int| 0 <= i < rs.len() ==> (#[trigger] rs[i]).id != id,
    ensures
        !targeted(plan_replacements(s0, acc, rs).ms, id),
        plan_replacements(s0, acc, rs).next == acc.next,
    decreases rs.len(),
{
    if rs.len() > 0 {
        let dl = rs.drop_last();
        assert(forall|i: int| 0 <= i < dl.len() ==> #[trigger] dl[i] == rs[i]);
        lemma_replacements_untargeted(s0, acc, dl, id);
        let a1 = plan_replacements(s0, acc, dl);
        let rep = rs.last();
        if replace_step(s0, a1, rep) != a1 {
            lemma_untargeted_push(
                a1.ms,
                Mutation::Replace {
                    id: rep.id,
                    expected_revision: rep.expected_revision,
                    content: rep.content,
                },
                id,
            );
        }
    }
}

proof fn lemma_ready_untargeted(s0: SysState, acc: PlanAcc, ids: Seq<u64>, id: u64)
    requires
        !targeted(acc.ms, id),
        !ids.contains(id),
    ensures
        !targeted(plan_ready(s0, acc, ids).ms, id),
        plan_ready(s0, acc, ids).next == acc.next,
    decreases ids.len(),
{
    if ids.len() > 0 {
        let dl = ids.drop_last();
        assert(forall|i: int| 0 <= i < dl.len() ==> #[trigger] dl[i] == ids[i]);
        assert(!dl.contains(id));
        lemma_ready_untargeted(s0, acc, dl, id);
        let a1 = plan_ready(s0, acc, dl);
        if ready_step(s0, a1, ids.last()) != a1 {
            assert(ids.contains(ids.last()));
            lemma_untargeted_push(a1.ms, Mutation::MarkReady { id: ids.last() }, id);
        }
    }
}

proof fn lemma_new_untargeted(acc: PlanAcc, ops: Seq<Operation>, id: u64)
    requires
        !targeted(acc.ms, id),
        id < acc.next,
    ensures
        !targeted(plan_new(acc, ops).ms, id),
        plan_new(acc, ops).next >= acc.next,
    decreases ops.len(),
{
    if ops.len() > 0 {
        let dl = ops.drop_last();
        lemma_new_untargeted(acc, dl, id);
        let a1 = plan_new(acc, dl);
        if new_step(a1, ops.last()) != a1 {
            lemma_untargeted_push(
                a1.ms,
                Mutation::InsertNew { id: a1.next, content: ops.last() },
                id,
            );
        }
    }
}

proof fn lemma_response_untargeted(
    s0: SysState,
    batch: Seq<u64>,
    acc: PlanAcc,
    resp: PluginResponse,
    id: u64,
)
    requires
        !targeted(acc.ms, id),
        id < acc.next,
        resp.outcome matches Some(r) ==> !references(r, id),
    ensures
        !targeted(response_step(s0, batch, acc, resp).ms, id),
        response_step(s0, batch, acc, resp).next >= acc.next,
{
    match resp.outcome {
        None => {},
        Some(r) => {
            if valid_response(batch, resp.plugin, r) {
                assert(forall|i: int| 0 <= i < r.claims@.len() ==> (#[trigger] r.claims@[i]).1
                    != id);
                assert(forall|i: int|
                    0 <= i < r.replacements@.len() ==> (#[trigger] r.replacements@[i]).id != id);
                lemma_claims_untargeted(s0, resp.plugin, acc, r.claims@, id);
                let a1 = plan_claims(s0, resp.plugin, acc, r.claims@);
                lemma_replacements_untargeted(s0, a1, r.replacements@, id);
                let a2 = plan_replacements(s0, a1, r.replacements@);
                lemma_ready_untargeted(s0, a2, r.ready@, id);
                let a3 = plan_ready(s0, a2, r.ready@);
                lemma_new_untargeted(a3, r.new_ops@, id);
            }
        },
    }
}

proof fn lemma_responses_untargeted(
    s0: SysState,
    batch: Seq<u64>,
    acc: PlanAcc,
    resps: Seq<PluginResponse>,
    id: u64,
)
    requires
        !targeted(acc.ms, id),
        id < acc.next,
        forall|k: int|
            0 <= k < resps.len() ==> ((#[trigger] resps[k]).outcome matches Some(r)
                ==> !references(r, id)),
    ensures
        !targeted(plan_responses(s0, batch, acc, resps).ms, id),
        plan_responses(s0, batch, acc, resps).next >= acc.next,
{
    lemma_responses_untargeted_rec(s0, batch, acc, resps, id);
}

proof fn lemma_responses_untargeted_rec(
    s0: SysState,
    batch: Seq<u64>,
    acc: PlanAcc,
    resps: Seq<PluginResponse>,
    id: u64,
)
    requires
        !targeted(acc.ms, id),
        id < acc.next,
        forall|k: int|
            0 <= k < resps.len() ==> ((#[trigger] resps[k]).outcome matches Some(r)
                ==> !references(r, id)),
    ensures
        !targeted(plan_responses(s0, batch, acc, resps).ms, id),
        plan_responses(s0, batch, acc, resps).next >= acc.next,
    decreases resps.len(),
{
    if resps.len() > 0 {
        let dl = resps.drop_last();
        assert(forall|i: int| 0 <= i < dl.len() ==> #[trigger] dl[i] == resps[i]);
        lemma_responses_untargeted_rec(s0, batch, acc, dl, id);
        let a1 = plan_responses(s0, batch, acc, dl);
        assert(resps[resps.len() - 1] == resps.last());
        lemma_response_untargeted(s0, batch, a1, resps.last(), id);
    }
}

/// Frame rule of the merge: an operation no planned mutation is aimed at
/// keeps its entry — content, revision and state — through the whole
/// application.
pub proof fn lemma_untargeted_entry(s: SysState, ms: Seq<Mutation>, id: u64)
    requires
        !targeted(ms, id),
        s.entries.contains_key(id),
    ensures
        apply_all(s, ms).entries.contains_key(id),
        apply_all(s, ms).entries[id] == s.entries[id],
    decreases ms.len(),
{
    if ms.len() > 0 {
        assert(target_id(ms[0]) != id);
        let s1 = apply_one(s, ms[0]);
        assert(s1.entries.contains_key(id) && s1.entries[id] == s.entries[id]);
        let r = ms.drop_first();
        assert(forall|i: int| 0 <= i < r.len() ==> #[trigger] r[i] == ms[i + 1]);
        assert forall|i: int| 0 <= i < r.len() implies target_id(#[trigger] r[i]) != id by {
            assert(r[i] == ms[i + 1]);
        }
        lemma_untargeted_entry(s1, r, id);
    }
}

/// Transport-failure tolerance: when some plugin of the round timed out and
/// no answering plugin referenced `id`, the merge leaves the entry of `id`
/// exactly as it was — still fresh, same revision, not duplicated — to be
/// retried on the following tick.
pub proof fn lemma_transport_failure(
    s: SysState,
    batch: Seq<u64>,
    resps: Seq<PluginResponse>,
    j: int,
    id: u64,
)
    requires
        wf_sys(s),
        s.entries.contains_key(id),
        0 <= j < resps.len(),
        resps[j].outcome is None,
        forall|k: int|
            0 <= k < resps.len() ==> ((#[trigger] resps[k]).outcome matches Some(r)
                ==> !references(r, id)),
    ensures
        apply_all(s, spec_plan(s, batch, resps)).entries.contains_key(id),
        apply_all(s, spec_plan(s, batch, resps)).entries[id] == s.entries[id],
{
    assert(!all_responded(resps));
    let acc0 = PlanAcc { ms: Seq::empty(), next: s.next_id };
    assert(!targeted(acc0.ms, id));
    assert(id < s.next_id);
    lemma_responses_untargeted(s, batch, acc0, resps, id);
    lemma_untargeted_entry(s, spec_plan(s, batch, resps), id);
}

} // verus!
