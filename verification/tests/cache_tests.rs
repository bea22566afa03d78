//! Behavioral tests of the shared cache: bytecode idempotence, state
//! clearing, merge preconditions, and the out-of-order revision merge.

use parallel_execution::account::{AccountDelta, AccountInfo, AccountStatus, EMPTY_CODE_HASH};
use parallel_execution::cache::{CacheError, SharedCacheState, TransitionState};

fn info(balance: u128, nonce: u64) -> AccountInfo {
    AccountInfo { balance, nonce, code_hash: EMPTY_CODE_HASH }
}

fn delta(balance: u128, nonce: u64) -> AccountDelta {
    AccountDelta { post_info: Some(info(balance, nonce)), storage_writes: Vec::new() }
}

#[test]
fn bytecode_insertion_is_idempotent() {
    let mut cache = SharedCacheState::new(true);
    let code = vec![0x60u8, 0x00, 0x60, 0x00];
    let first = cache.get_or_insert_code(7, code.clone());
    assert_eq!(first, code);
    assert_eq!(cache.code_count(), 1);
    for _ in 0..5 {
        let again = cache.get_or_insert_code(7, code.clone());
        assert_eq!(again, code);
        assert_eq!(cache.code_count(), 1);
    }
    assert_eq!(cache.bytecode_by_hash(7), Some(code));
    assert_eq!(cache.bytecode_by_hash(8), None);
    cache.get_or_insert_code(8, vec![1, 2, 3]);
    assert_eq!(cache.code_count(), 2);
}

#[test]
fn occupied_bytecode_entry_keeps_its_value() {
    let mut cache = SharedCacheState::new(true);
    assert_eq!(cache.code_count(), 0);
    let stored = cache.get_or_insert_code(7, vec![1, 2, 3]);
    assert_eq!(stored, vec![1, 2, 3]);
    let kept = cache.get_or_insert_code(7, vec![9, 9, 9]);
    assert_eq!(kept, vec![1, 2, 3]);
    assert_eq!(cache.bytecode_by_hash(7), Some(vec![1, 2, 3]));
    assert_eq!(cache.code_count(), 1);
}

#[test]
fn untouched_empty_account_is_deleted_under_state_clearing() {
    let mut cache = SharedCacheState::new(true);
    cache.insert_account(5, info(0, 0));
    let ts = cache.take_transitions();
    let tr = ts.get(5).expect("state clearing must reclassify the empty account");
    assert_eq!(tr.previous_info, Some(info(0, 0)));
    assert_eq!(tr.current_info, None);
}

#[test]
fn untouched_empty_account_stays_present_without_state_clearing() {
    let mut cache = SharedCacheState::new(false);
    cache.insert_account(5, info(0, 0));
    let ts = cache.take_transitions();
    assert!(ts.get(5).is_none());
    assert_eq!(cache.account_info(5), Some(Some(info(0, 0))));
    assert_eq!(cache.account_status(5), Some(AccountStatus::LoadedEmptyAndPrunable));
}

#[test]
fn delta_for_unloaded_address_is_fatal() {
    let mut cache = SharedCacheState::new(true);
    cache.insert_account(1, info(10, 0));
    let states = vec![(0usize, vec![(2u64, delta(1, 1))])];
    let r = cache.apply_evm_states(states);
    assert_eq!(r, Err(CacheError::MissingEntry { address: 2 }));
}

#[test]
fn duplicate_revision_is_fatal() {
    let mut cache = SharedCacheState::new(true);
    cache.insert_account(1, info(10, 0));
    let states = vec![
        (0usize, vec![(1u64, delta(9, 1))]),
        (0usize, vec![(1u64, delta(8, 2))]),
    ];
    let r = cache.apply_evm_states(states);
    assert_eq!(r, Err(CacheError::DuplicateRevision { address: 1, revision: 0 }));
}

fn transition_fields(ts: &TransitionState, address: u64) -> (Option<AccountInfo>, Option<AccountInfo>) {
    let tr = ts.get(address).expect("transition expected");
    (tr.previous_info, tr.current_info)
}

#[test]
fn independent_units_merge_identically_whatever_completes_first() {
    // U1 (revision 0) writes account A 100->90, nonce 0->1; U2 (revision 1)
    // writes account B 50->60. Workers finish U2 first.
    let a = 0xaau64;
    let b = 0xbbu64;
    let mut parallel = SharedCacheState::new(true);
    parallel.insert_account(a, info(100, 0));
    parallel.insert_account(b, info(50, 0));
    let arrival = vec![
        (1usize, vec![(b, delta(60, 0))]),
        (0usize, vec![(a, delta(90, 1))]),
    ];
    assert_eq!(parallel.apply_evm_states(arrival), Ok(()));
    let ts_parallel = parallel.take_transitions();

    let mut sequential = SharedCacheState::new(true);
    sequential.insert_account(a, info(100, 0));
    sequential.insert_account(b, info(50, 0));
    assert_eq!(sequential.apply_evm_states(vec![(0usize, vec![(a, delta(90, 1))])]), Ok(()));
    assert_eq!(sequential.apply_evm_states(vec![(1usize, vec![(b, delta(60, 0))])]), Ok(()));
    let ts_sequential = sequential.take_transitions();

    assert_eq!(ts_parallel.len(), 2);
    assert_eq!(ts_sequential.len(), 2);
    for addr in [a, b] {
        assert_eq!(transition_fields(&ts_parallel, addr), transition_fields(&ts_sequential, addr));
    }
    assert_eq!(transition_fields(&ts_parallel, a), (Some(info(100, 0)), Some(info(90, 1))));
    assert_eq!(transition_fields(&ts_parallel, b), (Some(info(50, 0)), Some(info(60, 0))));
}

#[test]
fn created_then_emptied_account_is_deleted_not_present_empty() {
    // U1 (revision 0) creates C with balance 5; U2 (revision 1) spends it to
    // empty. State clearing active: finalize must report C deleted. The
    // deltas arrive out of order.
    let c = 0xccu64;
    let mut cache = SharedCacheState::new(true);
    cache.insert_not_existing(c);
    assert_eq!(cache.account_status(c), Some(AccountStatus::NotExisting));
    let arrival = vec![
        (1usize, vec![(c, delta(0, 0))]),
        (0usize, vec![(c, delta(5, 0))]),
    ];
    assert_eq!(cache.apply_evm_states(arrival), Ok(()));
    assert_eq!(cache.account_status(c), Some(AccountStatus::LoadedEmptyAndPrunable));
    let ts = cache.take_transitions();
    let tr = ts.get(c).expect("the touched account must appear in the transition set");
    assert_eq!(tr.previous_info, None);
    assert_eq!(tr.current_info, None);
    assert!(tr.current_storage.is_empty());
    assert_eq!(cache.account_status(c), Some(AccountStatus::NotExisting));
}

#[test]
fn arrival_order_does_not_change_the_transition() {
    let a = 1u64;
    let deltas = [delta(10, 1), delta(20, 2), delta(30, 3)];
    let orders: [[usize; 3]; 3] = [[0, 1, 2], [2, 1, 0], [1, 2, 0]];
    let mut results = Vec::new();
    for order in orders {
        let mut cache = SharedCacheState::new(true);
        cache.insert_account(a, info(0, 0));
        let batch: Vec<(usize, Vec<(u64, AccountDelta)>)> = order
            .iter()
            .map(|&rev| {
                (
                    rev,
                    vec![(
                        a,
                        AccountDelta {
                            post_info: deltas[rev].post_info,
                            storage_writes: deltas[rev].storage_writes.clone(),
                        },
                    )],
                )
            })
            .collect();
        assert_eq!(cache.apply_evm_states(batch), Ok(()));
        let ts = cache.take_transitions();
        let tr = ts.get(a).expect("touched account");
        results.push((tr.previous_info, tr.current_info));
    }
    assert!(results.windows(2).all(|w| w[0] == w[1]));
    assert_eq!(results[0], (Some(info(0, 0)), Some(info(30, 3))));
}

#[test]
fn storage_writes_overlay_in_revision_order() {
    let a = 9u64;
    let mut cache = SharedCacheState::new(true);
    cache.insert_account_with_storage(a, info(1, 1), vec![(1u64, 100u128), (2, 200)]);
    let d0 = AccountDelta { post_info: Some(info(1, 2)), storage_writes: vec![(1u64, 111u128)] };
    let d1 = AccountDelta { post_info: Some(info(1, 3)), storage_writes: vec![(3u64, 333u128), (1, 112)] };
    // Revision 1 arrives before revision 0.
    assert_eq!(
        cache.apply_evm_states(vec![(1usize, vec![(a, d1)]), (0usize, vec![(a, d0)])]),
        Ok(()),
    );
    let ts = cache.take_transitions();
    let tr = ts.get(a).expect("touched account");
    assert_eq!(tr.current_info, Some(info(1, 3)));
    let mut slots: Vec<(u64, u128)> = tr.current_storage.clone();
    slots.sort();
    assert_eq!(slots, vec![(1, 112), (2, 200), (3, 333)]);
}

#[test]
fn destruction_clears_storage_and_later_revision_recreates() {
    let a = 4u64;
    let mut cache = SharedCacheState::new(true);
    cache.insert_account_with_storage(a, info(7, 1), vec![(1u64, 5u128)]);
    let destroy = AccountDelta { post_info: None, storage_writes: Vec::new() };
    let recreate = AccountDelta { post_info: Some(info(3, 0)), storage_writes: vec![(2u64, 9u128)] };
    assert_eq!(
        cache.apply_evm_states(vec![(0usize, vec![(a, destroy)]), (1usize, vec![(a, recreate)])]),
        Ok(()),
    );
    let ts = cache.take_transitions();
    let tr = ts.get(a).expect("touched account");
    assert_eq!(tr.previous_info, Some(info(7, 1)));
    assert_eq!(tr.current_info, Some(info(3, 0)));
    assert_eq!(tr.current_storage, vec![(2, 9)]);
}

#[test]
fn set_state_clear_flag_switches_policy() {
    let mut cache = SharedCacheState::default();
    assert!(cache.has_state_clear);
    cache.set_state_clear_flag(false);
    assert!(!cache.has_state_clear);
    cache.insert_account(1, info(0, 0));
    let ts = cache.take_transitions();
    assert!(ts.get(1).is_none());
}
