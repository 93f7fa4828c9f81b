use opqueue::chain::{parse_chain_revision, Config, GasConfig, Height, KeyringConfig, Union, UnionInitError};
use opqueue::engine::{begin_process, complete_execution, on_execution_failure, RetryStep, SeqRun};
use opqueue::merge::{merge_tick, plan_tick, apply_mutations, OptimizationResult, PluginResponse, Replacement};
use opqueue::op::{FailKind, OpState, Operation};
use opqueue::queue::{Queue, QueueError};
use opqueue::registry::{PluginInfo, PluginRegistry, RegistryError};
use opqueue::tag::{Tag, TagError, TagManager};

fn leaf(p: &str) -> Operation {
    Operation::Leaf { payload: p.to_string() }
}

fn tag(p: &str, k: &str) -> Tag {
    Tag { plugin: p.to_string(), key: k.to_string() }
}

fn resp(name: &str, r: OptimizationResult) -> PluginResponse {
    PluginResponse { plugin: name.to_string(), outcome: Some(r) }
}

fn claim_result(key: &str, id: u64) -> OptimizationResult {
    OptimizationResult { ready: vec![], claims: vec![(key.to_string(), id)], replacements: vec![], new_ops: vec![] }
}

#[test]
fn claim_uniqueness_first_wins() {
    let mut tags = TagManager::new();
    assert_eq!(tags.claim(tag("a", "k"), 1), Ok(()));
    // same tag, different operation: rejected, binding stays with the winner
    assert_eq!(tags.claim(tag("a", "k"), 2), Err(TagError::TagConflict));
    // idempotent re-claim of the same pair succeeds
    assert_eq!(tags.claim(tag("a", "k"), 1), Ok(()));
    let t = tags.resolve(1).expect("bound");
    assert_eq!(t.plugin, "a");
    assert_eq!(t.key, "k");
    assert!(tags.resolve(2).is_none());
}

#[test]
fn claim_rejects_second_tag_on_same_operation() {
    let mut tags = TagManager::new();
    assert_eq!(tags.claim(tag("a", "k1"), 7), Ok(()));
    assert_eq!(tags.claim(tag("b", "k2"), 7), Err(TagError::TagConflict));
}

#[test]
fn stale_revision_rejected_exact_succeeds() {
    let mut q = Queue::new();
    let id = q.enqueue(leaf("x"));
    assert_eq!(q.revision_of(id), Some(0));
    // correct current revision: succeeds and bumps
    assert_eq!(q.replace(id, leaf("y"), 0), Ok(()));
    assert_eq!(q.revision_of(id), Some(1));
    // stale revision: rejected, queue unchanged
    assert_eq!(q.replace(id, leaf("z"), 0), Err(QueueError::StaleRevision));
    assert_eq!(q.revision_of(id), Some(1));
    assert_eq!(q.get(id).unwrap().content, leaf("y"));
    assert_eq!(q.replace(99, leaf("w"), 0), Err(QueueError::UnknownId));
}

#[test]
fn idempotent_merge_replay() {
    let mut q = Queue::new();
    let mut tags = TagManager::new();
    let a = q.enqueue(leaf("a"));
    let b = q.enqueue(leaf("b"));
    let batch = vec![a, b];
    let mk = |qr: &Queue, tg: &TagManager| {
        plan_tick(
            qr,
            tg,
            &batch,
            vec![
                resp("p1", claim_result("a", a)),
                resp(
                    "p2",
                    OptimizationResult {
                        ready: vec![],
                        claims: vec![],
                        replacements: vec![Replacement { id: b, expected_revision: 0, content: leaf("b2") }],
                        new_ops: vec![leaf("n1")],
                    },
                ),
            ],
        )
    };
    let plan = mk(&q, &tags);
    // planning is deterministic: the same inputs give the same plan
    let plan2 = mk(&q, &tags);
    apply_mutations(&mut q, &mut tags, plan);
    let snap: Vec<_> = [a, b, 2].iter().map(|i| (q.revision_of(*i), q.state_of(*i))).collect();
    assert_eq!(q.state_of(a), Some(OpState::Claimed));
    assert_eq!(q.state_of(b), Some(OpState::Requeued));
    assert_eq!(q.revision_of(b), Some(1));
    assert_eq!(q.state_of(2), Some(OpState::Fresh));
    // replaying the same plan changes nothing: revisions and states as before
    apply_mutations(&mut q, &mut tags, plan2);
    let snap2: Vec<_> = [a, b, 2].iter().map(|i| (q.revision_of(*i), q.state_of(*i))).collect();
    assert_eq!(snap, snap2);
}

#[test]
fn seq_ordering_fail_fast() {
    let mut run = SeqRun::new(vec![leaf("a"), leaf("b"), leaf("c")]);
    assert_eq!(run.start_next(), Some(&leaf("a")));
    assert!(run.finish_current(false));
    // A failed: B and C never reach processing
    assert!(run.start_next().is_none());
    assert!(run.has_failed());
    assert_eq!(run.child_state(0), OpState::Failed { kind: FailKind::SubmissionError });
    assert_eq!(run.child_state(1), OpState::Fresh);
    assert_eq!(run.child_state(2), OpState::Fresh);
}

#[test]
fn transport_failure_leaves_ops_fresh() {
    let mut q = Queue::new();
    let mut tags = TagManager::new();
    let a = q.enqueue(leaf("a"));
    let batch = vec![a];
    // the only plugin timed out: no opinion, nothing marked ready
    merge_tick(&mut q, &mut tags, &batch, vec![PluginResponse { plugin: "p".to_string(), outcome: None }]);
    assert_eq!(q.state_of(a), Some(OpState::Fresh));
    assert_eq!(q.revision_of(a), Some(0));
    assert_eq!(q.collect_fresh(0), vec![a]);
    // next tick the plugin answers: the operation proceeds, no duplication
    merge_tick(&mut q, &mut tags, &batch, vec![resp("p", claim_result("k", a))]);
    assert_eq!(q.state_of(a), Some(OpState::Claimed));
}

#[test]
fn scenario_filter_claim_process_ready_once() {
    let mut q = Queue::new();
    let mut tags = TagManager::new();
    let id = q.enqueue(leaf("packet-42"));
    let batch = q.collect_fresh(0);
    assert_eq!(batch, vec![id]);
    // relayer-a filters and claims it as relayer-a@packet-42
    merge_tick(&mut q, &mut tags, &batch, vec![resp("relayer-a", claim_result("packet-42", id))]);
    assert_eq!(q.state_of(id), Some(OpState::Claimed));
    let t = tags.resolve(id).expect("claimed");
    assert_eq!((t.plugin.as_str(), t.key.as_str()), ("relayer-a", "packet-42"));
    // engine routes process to the owner
    let owned = tags.ids_owned_by(&"relayer-a".to_string());
    assert_eq!(owned, vec![id]);
    assert!(begin_process(&mut q, &tags, &"relayer-a".to_string(), id));
    assert_eq!(q.state_of(id), Some(OpState::Processing));
    // the plugin returns it unmodified: ready, handed to the adapter once
    merge_tick(
        &mut q,
        &mut tags,
        &owned,
        vec![resp("relayer-a", OptimizationResult { ready: vec![id], claims: vec![], replacements: vec![], new_ops: vec![] })],
    );
    assert_eq!(q.state_of(id), Some(OpState::Ready));
    assert_eq!(q.collect_ready(), vec![id]);
    assert_eq!(complete_execution(&mut q, &mut tags, id, true), None);
    // removed after the adapter confirms: never handed out again
    assert!(q.collect_ready().is_empty());
    assert!(q.get(id).is_none());
}

#[test]
fn scenario_retry_budget() {
    let mut q = Queue::new();
    let mut tags = TagManager::new();
    let id = q.enqueue(Operation::Retry { inner: Box::new(leaf("tx")), attempts_remaining: 1, backoff_ms: 50 });
    // mark it ready directly through a tick where the only plugin reports it ready
    merge_tick(
        &mut q,
        &mut tags,
        &vec![id],
        vec![resp("p", OptimizationResult { ready: vec![id], claims: vec![], replacements: vec![], new_ops: vec![] })],
    );
    assert_eq!(q.state_of(id), Some(OpState::Ready));
    // first failure: decremented to 0 and resubmitted
    assert_eq!(complete_execution(&mut q, &mut tags, id, false), None);
    assert_eq!(
        q.get(id).unwrap().content,
        Operation::Retry { inner: Box::new(leaf("tx")), attempts_remaining: 0, backoff_ms: 50 }
    );
    assert_eq!(q.state_of(id), Some(OpState::Fresh));
    // second failure: terminal, never a third attempt
    merge_tick(
        &mut q,
        &mut tags,
        &vec![id],
        vec![resp("p", OptimizationResult { ready: vec![id], claims: vec![], replacements: vec![], new_ops: vec![] })],
    );
    assert_eq!(
        complete_execution(&mut q, &mut tags, id, false),
        Some(FailKind::SubmissionError)
    );
    assert_eq!(q.state_of(id), Some(OpState::Failed { kind: FailKind::SubmissionError }));
}

#[test]
fn retry_policy_decrements() {
    let r = on_execution_failure(Operation::Retry { inner: Box::new(leaf("x")), attempts_remaining: 3, backoff_ms: 10 });
    match r {
        RetryStep::Reenqueue { op } => assert_eq!(
            op,
            Operation::Retry { inner: Box::new(leaf("x")), attempts_remaining: 2, backoff_ms: 10 }
        ),
        _ => panic!("expected reenqueue"),
    }
    match on_execution_failure(leaf("y")) {
        RetryStep::Fail { op, kind } => {
            assert_eq!(op, leaf("y"));
            assert_eq!(kind, FailKind::SubmissionError);
        }
        _ => panic!("expected fail"),
    }
}

#[test]
fn protocol_violations_discard_contribution() {
    let mut q = Queue::new();
    let mut tags = TagManager::new();
    let a = q.enqueue(leaf("a"));
    let batch = vec![a];
    // foreign id: whole contribution dropped, op still becomes ready via the default
    merge_tick(&mut q, &mut tags, &batch, vec![resp("p", claim_result("k", 999))]);
    assert_eq!(q.state_of(a), Some(OpState::Ready));
    assert!(tags.resolve(a).is_none());
    // malformed plugin name: contribution dropped
    let mut q2 = Queue::new();
    let mut t2 = TagManager::new();
    let b = q2.enqueue(leaf("b"));
    merge_tick(&mut q2, &mut t2, &vec![b], vec![resp("bad@name", claim_result("k", b))]);
    assert!(t2.resolve(b).is_none());
}

#[test]
fn defer_until_gates_dispatch() {
    let mut q = Queue::new();
    let id = q.enqueue(Operation::DeferUntil { until_height: 100, inner: Box::new(leaf("x")) });
    assert!(q.collect_fresh(99).is_empty());
    assert_eq!(q.collect_fresh(100), vec![id]);
}

#[test]
fn registry_rules() {
    let mut reg = PluginRegistry::new();
    let info = |n: &str| PluginInfo { name: n.to_string(), endpoint: format!("unix:///{n}.sock"), filter_capable: true, process_capable: true };
    assert_eq!(reg.register(info("a")), Ok(()));
    assert_eq!(reg.register(info("a")), Err(RegistryError::DuplicateName));
    assert_eq!(reg.register(info("b@d")), Err(RegistryError::InvalidName));
    assert_eq!(reg.register(info("b")), Ok(()));
    assert_eq!(reg.len(), 2);
    assert_eq!(reg.get(0).name, "a");
    assert!(reg.endpoint_of(&"b".to_string()).is_some());
    assert!(reg.endpoint_of(&"c".to_string()).is_none());
}

#[test]
fn chain_id_parsing() {
    assert_eq!(parse_chain_revision("union-testnet-8"), Ok(8));
    assert_eq!(parse_chain_revision("union-1"), Ok(1));
    assert_eq!(parse_chain_revision("123"), Ok(123));
    match parse_chain_revision("union-") {
        Err(UnionInitError::ChainIdParse { found }) => assert_eq!(found, "union-"),
        other => panic!("unexpected: {other:?}"),
    }
    assert!(matches!(parse_chain_revision("union-x1"), Err(UnionInitError::ChainIdParse { .. })));
    assert!(matches!(
        parse_chain_revision("union-99999999999999999999999"),
        Err(UnionInitError::ChainIdParse { .. })
    ));
}

fn test_config() -> Config {
    Config {
        keyring: KeyringConfig { name: "kr".to_string(), keys: vec![] },
        ws_url: "ws://localhost:26657".to_string(),
        prover_endpoints: vec!["http://prover".to_string()],
        grpc_url: "http://grpc".to_string(),
        gas_config: GasConfig { gas_denom: "muno".to_string(), gas_price: 1, max_gas: 400000 },
    }
}

#[test]
fn union_identity_and_heights() {
    let u = Union::from_chain_id(test_config(), "union-testnet-8".to_string()).expect("parses");
    assert_eq!(u.chain_revision, 8);
    assert_eq!(u.make_height(42), Height { revision: 8, height: 42 });
    assert_eq!(u.keyring().name, "kr");
    assert!(Union::from_chain_id(test_config(), "nodigits".to_string()).is_err());
}

#[test]
fn checksum_cache_write_once() {
    let mut u = Union::from_chain_id(test_config(), "union-1".to_string()).expect("parses");
    let hash = vec![0xabu8; 32];
    assert_eq!(u.client_type_for(&hash, 7), 7);
    // the first recording wins, whatever a later fetch claims
    assert_eq!(u.client_type_for(&hash, 9), 7);
    let other = vec![0xcdu8; 32];
    assert_eq!(u.client_type_for(&other, 9), 9);
}

#[test]
fn requeued_routed_fresh_next_tick() {
    let mut q = Queue::new();
    let mut tags = TagManager::new();
    let a = q.enqueue(leaf("a"));
    merge_tick(
        &mut q,
        &mut tags,
        &vec![a],
        vec![resp(
            "p",
            OptimizationResult {
                ready: vec![],
                claims: vec![],
                replacements: vec![Replacement { id: a, expected_revision: 0, content: leaf("a2") }],
                new_ops: vec![],
            },
        )],
    );
    assert_eq!(q.state_of(a), Some(OpState::Requeued));
    q.refresh_requeued();
    assert_eq!(q.state_of(a), Some(OpState::Fresh));
    assert_eq!(q.get(a).unwrap().content, leaf("a2"));
}
