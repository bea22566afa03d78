//! Tests of the dependency-graph queue, the coordinator protocol, the
//! executor-factory selection, and the parallel/sequential equivalence on a
//! whole window.

use parallel_execution::account::{AccountDelta, AccountInfo, EMPTY_CODE_HASH};
use parallel_execution::args::{ChainConfig, EitherExecutorFactory, ExecutionArgs};
use parallel_execution::cache::SharedCacheState;
use parallel_execution::executor::{ParallelCoordinator, UnitOutput, clone_deltas};
use parallel_execution::queue::{BlockQueueStore, ConfigError, ExecutionQueue};

fn info(balance: u128, nonce: u64) -> AccountInfo {
    AccountInfo { balance, nonce, code_hash: EMPTY_CODE_HASH }
}

fn delta(balance: u128, nonce: u64) -> AccountDelta {
    AccountDelta { post_info: Some(info(balance, nonce)), storage_writes: Vec::new() }
}

#[test]
fn ready_units_follow_the_dependency_sets() {
    let q = ExecutionQueue::new(vec![vec![], vec![0], vec![0], vec![1, 2]]).unwrap();
    let mut completed = vec![false, false, false, false];
    assert_eq!(q.ready_units(&completed), vec![0]);
    completed[0] = true;
    assert_eq!(q.ready_units(&completed), vec![1, 2]);
    completed[1] = true;
    assert_eq!(q.ready_units(&completed), vec![2]);
    completed[2] = true;
    assert_eq!(q.ready_units(&completed), vec![3]);
    completed[3] = true;
    assert_eq!(q.ready_units(&completed), Vec::<usize>::new());
}

#[test]
fn forward_dependency_is_a_configuration_error() {
    assert_eq!(ExecutionQueue::new(vec![vec![1], vec![]]).err(), Some(ConfigError::MalformedQueue));
    assert_eq!(ExecutionQueue::new(vec![vec![0]]).err(), Some(ConfigError::MalformedQueue));
    assert!(ExecutionQueue::new(vec![vec![], vec![0]]).is_ok());
}

#[test]
fn queue_store_hands_out_queues_by_index() {
    let q0 = ExecutionQueue::new(vec![vec![]]).unwrap();
    let q1 = ExecutionQueue::new(vec![vec![], vec![0]]).unwrap();
    let store = BlockQueueStore::new(vec![q0, q1]);
    assert_eq!(store.len(), 2);
    assert_eq!(store.get_queue(0).unwrap().deps.len(), 1);
    assert_eq!(store.get_queue(1).unwrap().deps.len(), 2);
    assert!(store.get_queue(2).is_none());
}

#[test]
fn factory_selection_honors_the_arguments() {
    let chain = ChainConfig { has_state_clear: true };
    let sequential = ExecutionArgs { parallel: false, queue_store: None };
    match sequential.pipeline_executor_factory(chain, None) {
        Ok(EitherExecutorFactory::Left(f)) => assert_eq!(f.chain, chain),
        _ => panic!("sequential arguments must select the sequential factory"),
    }

    let parallel_missing = ExecutionArgs { parallel: true, queue_store: None };
    assert!(matches!(
        parallel_missing.pipeline_executor_factory(chain, None),
        Err(ConfigError::MissingQueueStore)
    ));

    let parallel = ExecutionArgs { parallel: true, queue_store: Some("queues.json".to_string()) };
    match parallel.pipeline_executor_factory(chain, Some(vec![vec![vec![], vec![0]]])) {
        Ok(EitherExecutorFactory::Right(f)) => {
            assert_eq!(f.chain, chain);
            assert_eq!(f.store.len(), 1);
        },
        _ => panic!("parallel arguments with a store must select the parallel factory"),
    }

    assert!(matches!(
        parallel.pipeline_executor_factory(chain, Some(vec![vec![vec![1], vec![]]])),
        Err(ConfigError::MalformedQueue)
    ));
}

/// Drives a whole window through the coordinator protocol: every batch of
/// ready units is merged (here in reverse order, as if later units finished
/// first), then marked completed, until nothing remains.
fn run_parallel_window(
    queue: ExecutionQueue,
    outputs: &[UnitOutput],
    cache: &mut SharedCacheState,
) {
    let mut coordinator = ParallelCoordinator::new(queue);
    while !coordinator.all_completed() {
        let batch = coordinator.next_batch();
        assert!(!batch.is_empty(), "a well-formed queue must always make progress");
        let mut merged = Vec::new();
        for &u in batch.iter().rev() {
            merged.push((u, clone_deltas(&outputs[u].deltas)));
        }
        assert_eq!(cache.apply_evm_states(merged), Ok(()));
        for &u in &batch {
            coordinator.mark_completed(u);
        }
    }
}

#[test]
fn parallel_window_equals_sequential_window() {
    let a = 1u64;
    let b = 2u64;
    let c = 3u64;
    // Unit 0 touches a; units 1 and 2 are independent of each other; unit 3
    // waits on both and touches all three accounts.
    let queue = ExecutionQueue::new(vec![vec![], vec![0], vec![0], vec![1, 2]]).unwrap();
    let outputs = vec![
        UnitOutput { deltas: vec![(a, delta(90, 1))] },
        UnitOutput { deltas: vec![(b, delta(60, 1))] },
        UnitOutput { deltas: vec![(c, delta(30, 1))] },
        UnitOutput { deltas: vec![(a, delta(80, 2)), (b, delta(55, 2)), (c, delta(25, 2))] },
    ];

    let mut parallel = SharedCacheState::new(true);
    let mut sequential = SharedCacheState::new(true);
    for cache in [&mut parallel, &mut sequential] {
        cache.insert_account(a, info(100, 0));
        cache.insert_account(b, info(50, 0));
        cache.insert_account(c, info(40, 0));
    }

    run_parallel_window(queue, &outputs, &mut parallel);
    for (rev, out) in outputs.iter().enumerate() {
        assert_eq!(sequential.apply_evm_states(vec![(rev, clone_deltas(&out.deltas))]), Ok(()));
    }

    let ts_parallel = parallel.take_transitions();
    let ts_sequential = sequential.take_transitions();
    assert_eq!(ts_parallel.len(), ts_sequential.len());
    for addr in [a, b, c] {
        let p = ts_parallel.get(addr).expect("touched account");
        let s = ts_sequential.get(addr).expect("touched account");
        assert_eq!(p.previous_info, s.previous_info);
        assert_eq!(p.current_info, s.current_info);
        assert_eq!(p.current_storage, s.current_storage);
    }
    assert_eq!(ts_parallel.get(a).unwrap().current_info, Some(info(80, 2)));
    assert_eq!(ts_parallel.get(b).unwrap().current_info, Some(info(55, 2)));
    assert_eq!(ts_parallel.get(c).unwrap().current_info, Some(info(25, 2)));
}

#[test]
fn coordinator_tracks_completion() {
    let q = ExecutionQueue::new(vec![vec![], vec![0]]).unwrap();
    let mut coordinator = ParallelCoordinator::new(q);
    assert!(!coordinator.all_completed());
    assert_eq!(coordinator.next_batch(), vec![0]);
    coordinator.mark_completed(0);
    assert!(!coordinator.all_completed());
    assert_eq!(coordinator.next_batch(), vec![1]);
    coordinator.mark_completed(1);
    assert!(coordinator.all_completed());
    assert_eq!(coordinator.next_batch(), Vec::<usize>::new());
}
