use starknet_mempool::address_to_nonce::AddressToNonce;
use starknet_mempool::mempool::{AddTransactionArgs, CommitBlockArgs, Mempool, MempoolConfig};
use starknet_mempool::transaction_pool::TransactionPool;
use starknet_mempool::transaction_queue::TransactionQueue;
use starknet_mempool::types::{
    try_increment_nonce, AccountState, AccountTransaction, MempoolError, TransactionReference,
};

fn tx(address: u64, nonce: u64, tx_hash: u64, tip: u64, gas: u128) -> AccountTransaction {
    AccountTransaction { contract_address: address, nonce, tx_hash, tip, max_l2_gas_price: gas }
}

fn add(m: &mut Mempool, t: AccountTransaction, account_nonce: u64) -> Result<(), MempoolError> {
    m.add_tx(AddTransactionArgs {
        tx: t,
        account_state: AccountState { address: t.contract_address, nonce: account_nonce },
    })
}

fn commit(m: &mut Mempool, nonces: &[(u64, u64)], hashes: &[u64]) {
    let mut address_to_nonce = AddressToNonce::new();
    for &(a, n) in nonces {
        address_to_nonce.insert(a, n);
    }
    m.commit_block(CommitBlockArgs { address_to_nonce, tx_hashes: hashes.to_vec() }).unwrap();
}

fn hashes(txs: &[AccountTransaction]) -> Vec<u64> {
    txs.iter().map(|t| t.tx_hash).collect()
}

fn queued_hashes(m: &Mempool) -> Vec<u64> {
    m.iter().iter().map(|t| t.tx_hash).collect()
}

fn pct10() -> Mempool {
    Mempool::new(MempoolConfig { enable_fee_escalation: true, fee_escalation_percentage: 10 })
}

#[test]
fn basic_add_and_pop() {
    let mut m = pct10();
    add(&mut m, tx(1, 0, 101, 5, 100), 0).unwrap();
    let got = m.get_txs(10).unwrap();
    assert_eq!(hashes(&got), vec![101]);
    assert_eq!(got[0], tx(1, 0, 101, 5, 100));
    commit(&mut m, &[(1, 1)], &[101]);
    assert_eq!(m.pool_len(), 0);
    assert!(queued_hashes(&m).is_empty());
}

#[test]
fn nonce_gap_deferral() {
    let mut m = pct10();
    add(&mut m, tx(1, 5, 105, 1, 1), 3).unwrap();
    assert!(queued_hashes(&m).is_empty());
    add(&mut m, tx(1, 3, 103, 1, 1), 3).unwrap();
    assert_eq!(queued_hashes(&m), vec![103]);
    let got = m.get_txs(2).unwrap();
    assert_eq!(hashes(&got), vec![103]);
    assert!(queued_hashes(&m).is_empty());
    assert!(m.contains_tx(105));
    assert_eq!(m.staged_nonce(1), Some(4));
}

#[test]
fn fee_escalation_on_queued_tx_is_rejected_by_nonce_validation() {
    // The incoming nonce equals the queued one, which nonce validation rejects before any
    // replacement is considered.
    let mut m = pct10();
    add(&mut m, tx(1, 0, 200, 100, 1000), 0).unwrap();
    let r = add(&mut m, tx(1, 0, 201, 110, 1100), 0);
    assert_eq!(r, Err(MempoolError::DuplicateNonce { address: 1, nonce: 0 }));
    assert!(m.contains_tx(200));
    assert!(!m.contains_tx(201));
    assert_eq!(queued_hashes(&m), vec![200]);
}

#[test]
fn fee_escalation_accepted() {
    let mut m = pct10();
    add(&mut m, tx(1, 1, 200, 100, 1000), 0).unwrap();
    add(&mut m, tx(1, 1, 201, 110, 1100), 0).unwrap();
    assert_eq!(m.pool_len(), 1);
    assert!(m.contains_tx(201));
    assert!(!m.contains_tx(200));
    add(&mut m, tx(1, 0, 202, 1, 1), 0).unwrap();
    assert_eq!(hashes(&m.get_txs(5).unwrap()), vec![202, 201]);
}

#[test]
fn fee_escalation_rejected() {
    let mut m = pct10();
    add(&mut m, tx(1, 1, 200, 100, 1000), 0).unwrap();
    let r = add(&mut m, tx(1, 1, 202, 105, 1100), 0);
    assert_eq!(r, Err(MempoolError::DuplicateNonce { address: 1, nonce: 1 }));
    assert_eq!(m.pool_len(), 1);
    assert!(m.contains_tx(200));
}

#[test]
fn fee_escalation_replacement_stays_qualified_when_bids_rise() {
    let mut m = pct10();
    add(&mut m, tx(1, 1, 200, 100, 1000), 0).unwrap();
    add(&mut m, tx(1, 1, 201, 500, 5000), 0).unwrap();
    assert!(m.contains_tx(201));
    assert!(!m.contains_tx(200));
}

#[test]
fn fee_escalation_fails_closed_on_overflow() {
    let mut m = pct10();
    add(&mut m, tx(1, 1, 200, 1, u128::MAX), 0).unwrap();
    let r = add(&mut m, tx(1, 1, 201, 10, u128::MAX), 0);
    assert_eq!(r, Err(MempoolError::DuplicateNonce { address: 1, nonce: 1 }));
    assert!(m.contains_tx(200));
}

#[test]
fn fee_escalation_disabled_rejects_same_nonce() {
    let mut m =
        Mempool::new(MempoolConfig { enable_fee_escalation: false, fee_escalation_percentage: 10 });
    add(&mut m, tx(1, 1, 200, 100, 1000), 0).unwrap();
    let r = add(&mut m, tx(1, 1, 201, 1000, 10000), 0);
    assert_eq!(r, Err(MempoolError::DuplicateNonce { address: 1, nonce: 1 }));
    assert!(m.contains_tx(200));
}

#[test]
fn equal_values_qualify_at_zero_percent() {
    let mut m =
        Mempool::new(MempoolConfig { enable_fee_escalation: true, fee_escalation_percentage: 0 });
    add(&mut m, tx(1, 1, 200, 100, 1000), 0).unwrap();
    add(&mut m, tx(1, 1, 201, 100, 1000), 0).unwrap();
    assert!(m.contains_tx(201));
    assert!(!m.contains_tx(200));
}

#[test]
fn rewind_on_non_inclusion() {
    let mut m = pct10();
    add(&mut m, tx(1, 0, 300, 1, 1), 0).unwrap();
    add(&mut m, tx(2, 0, 400, 1, 1), 0).unwrap();
    let got = m.get_txs(2).unwrap();
    assert_eq!(got.len(), 2);
    commit(&mut m, &[(1, 1)], &[300]);
    assert_eq!(queued_hashes(&m), vec![400]);
    assert_eq!(m.staged_nonce(1), None);
    assert_eq!(m.staged_nonce(2), None);
    assert_eq!(m.account_nonce(1), Some(1));
    assert!(!m.contains_tx(300));
}

#[test]
fn priority_ordering() {
    let mut m = pct10();
    add(&mut m, tx(1, 0, 10, 10, 1), 0).unwrap();
    add(&mut m, tx(2, 0, 20, 50, 1), 0).unwrap();
    add(&mut m, tx(3, 0, 30, 30, 1), 0).unwrap();
    assert_eq!(hashes(&m.get_txs(3).unwrap()), vec![20, 30, 10]);
}

#[test]
fn equal_tips_order_by_hash() {
    let mut m = pct10();
    add(&mut m, tx(1, 0, 9, 7, 1), 0).unwrap();
    add(&mut m, tx(2, 0, 3, 7, 1), 0).unwrap();
    add(&mut m, tx(3, 0, 5, 7, 1), 0).unwrap();
    assert_eq!(hashes(&m.get_txs(3).unwrap()), vec![3, 5, 9]);
}

#[test]
fn successive_get_txs_are_disjoint() {
    let mut m = pct10();
    add(&mut m, tx(1, 0, 1, 5, 1), 0).unwrap();
    add(&mut m, tx(1, 1, 2, 9, 1), 0).unwrap();
    add(&mut m, tx(2, 0, 3, 7, 1), 0).unwrap();
    let first = hashes(&m.get_txs(1).unwrap());
    let second = hashes(&m.get_txs(5).unwrap());
    assert_eq!(first, vec![3]);
    assert_eq!(second, vec![1, 2]);
    assert!(m.get_txs(5).unwrap().is_empty());
}

#[test]
fn get_txs_chains_next_nonce() {
    let mut m = pct10();
    add(&mut m, tx(1, 0, 1, 5, 1), 0).unwrap();
    add(&mut m, tx(1, 1, 2, 5, 1), 0).unwrap();
    add(&mut m, tx(1, 2, 3, 5, 1), 0).unwrap();
    assert_eq!(hashes(&m.get_txs(2).unwrap()), vec![1, 2]);
    assert_eq!(m.staged_nonce(1), Some(2));
    assert_eq!(queued_hashes(&m), vec![3]);
}

#[test]
fn commit_with_empty_block_changes_nothing() {
    let mut m = pct10();
    add(&mut m, tx(1, 0, 1, 5, 1), 0).unwrap();
    add(&mut m, tx(2, 3, 2, 5, 1), 1).unwrap();
    commit(&mut m, &[], &[]);
    assert_eq!(m.pool_len(), 2);
    assert_eq!(queued_hashes(&m), vec![1]);
    assert_eq!(m.account_nonce(1), Some(0));
    assert_eq!(m.account_nonce(2), Some(1));
}

#[test]
fn commit_clears_staged_nonces() {
    let mut m = pct10();
    add(&mut m, tx(1, 0, 1, 5, 1), 0).unwrap();
    m.get_txs(1).unwrap();
    assert_eq!(m.staged_nonce(1), Some(1));
    commit(&mut m, &[], &[]);
    assert_eq!(m.staged_nonce(1), None);
    assert_eq!(queued_hashes(&m), vec![1]);
}

#[test]
fn commit_removes_stale_transactions_and_closes_gap() {
    let mut m = pct10();
    add(&mut m, tx(1, 0, 1, 5, 1), 0).unwrap();
    add(&mut m, tx(1, 1, 2, 5, 1), 0).unwrap();
    add(&mut m, tx(1, 3, 4, 5, 1), 0).unwrap();
    commit(&mut m, &[(1, 3)], &[]);
    assert!(!m.contains_tx(1));
    assert!(!m.contains_tx(2));
    assert_eq!(queued_hashes(&m), vec![4]);
    assert_eq!(m.account_nonce(1), Some(3));
}

#[test]
fn commit_ignores_unknown_hashes() {
    let mut m = pct10();
    add(&mut m, tx(1, 0, 1, 5, 1), 0).unwrap();
    commit(&mut m, &[], &[999]);
    assert_eq!(m.pool_len(), 1);
}

#[test]
fn nonce_too_old() {
    let mut m = pct10();
    add(&mut m, tx(1, 0, 1, 5, 1), 0).unwrap();
    add(&mut m, tx(1, 1, 2, 5, 1), 0).unwrap();
    m.get_txs(2).unwrap();
    let r = add(&mut m, tx(1, 1, 3, 50, 50), 0);
    assert_eq!(r, Err(MempoolError::NonceTooOld { address: 1, nonce: 1 }));
}

#[test]
fn duplicate_nonce_against_queue() {
    let mut m = pct10();
    add(&mut m, tx(1, 2, 1, 5, 1), 2).unwrap();
    let r = add(&mut m, tx(1, 1, 2, 5, 1), 2);
    assert_eq!(r, Err(MempoolError::DuplicateNonce { address: 1, nonce: 1 }));
}

#[test]
fn duplicate_transaction() {
    let mut m = pct10();
    add(&mut m, tx(1, 0, 7, 5, 1), 0).unwrap();
    let r = add(&mut m, tx(2, 0, 7, 5, 1), 0);
    assert_eq!(r, Err(MempoolError::DuplicateTransaction { tx_hash: 7 }));
    assert_eq!(m.pool_len(), 1);
}

#[test]
fn nonce_overflow() {
    let mut m = pct10();
    add(&mut m, tx(1, u64::MAX, 7, 5, 1), u64::MAX).unwrap();
    assert_eq!(m.get_txs(1), Err(MempoolError::NonceOverflow { nonce: u64::MAX }));
    assert_eq!(try_increment_nonce(4), Ok(5));
}

#[test]
fn gateway_nonce_only_seeds() {
    let mut m = pct10();
    add(&mut m, tx(1, 0, 1, 5, 1), 0).unwrap();
    add(&mut m, tx(1, 1, 2, 5, 1), 5).unwrap();
    assert_eq!(m.account_nonce(1), Some(0));
}

#[test]
fn gas_price_threshold_holds_back_cheap_transactions() {
    let mut m = pct10();
    add(&mut m, tx(1, 0, 1, 50, 10), 0).unwrap();
    add(&mut m, tx(2, 0, 2, 5, 100), 0).unwrap();
    m.update_gas_price_threshold(50);
    assert_eq!(queued_hashes(&m), vec![2]);
    assert_eq!(hashes(&m.get_txs(5).unwrap()), vec![2]);
    m.update_gas_price_threshold(0);
    assert_eq!(hashes(&m.get_txs(5).unwrap()), vec![1]);
}

#[test]
fn default_config() {
    let c = MempoolConfig::default();
    assert!(c.enable_fee_escalation);
    assert_eq!(c.fee_escalation_percentage, 10);
    let mut m = Mempool::default();
    add(&mut m, tx(1, 0, 1, 100, 1000), 0).unwrap();
    assert_eq!(m.pool_len(), 1);
}

#[test]
fn reference_summarises_transaction() {
    let t = tx(4, 2, 9, 3, 8);
    let r = TransactionReference::new(&t);
    assert_eq!(r, TransactionReference { address: 4, nonce: 2, tx_hash: 9, tip: 3, max_l2_gas_price: 8 });
}

#[test]
fn pool_operations() {
    let mut p = TransactionPool::new();
    p.insert(tx(1, 0, 1, 1, 1)).unwrap();
    p.insert(tx(1, 2, 2, 1, 1)).unwrap();
    assert_eq!(p.insert(tx(1, 2, 3, 1, 1)), Err(MempoolError::DuplicateNonce { address: 1, nonce: 2 }));
    assert_eq!(p.remove(42), Err(MempoolError::TransactionNotFound { tx_hash: 42 }));
    assert_eq!(p.get_by_tx_hash(42), Err(MempoolError::TransactionNotFound { tx_hash: 42 }));
    assert_eq!(p.get_lowest_nonce_tx(1).map(|t| t.tx_hash), Some(1));
    assert_eq!(p.get_next_eligible_tx(AccountState { address: 1, nonce: 2 }).map(|t| t.tx_hash), Some(2));
    p.remove_up_to_nonce(1, 2);
    assert_eq!(p.len(), 1);
    assert_eq!(p.get_by_address_and_nonce(1, 0), None);
    assert_eq!(p.remove(2).map(|t| t.nonce), Ok(2));
    assert_eq!(p.len(), 0);
}

#[test]
fn queue_operations() {
    let r = |a: u64, h: u64, tip: u64, gas: u128| TransactionReference {
        address: a,
        nonce: 0,
        tx_hash: h,
        tip,
        max_l2_gas_price: gas,
    };
    let mut q = TransactionQueue::new();
    q.insert(r(1, 1, 5, 10));
    q.insert(r(2, 2, 9, 1));
    q.insert(r(3, 3, 7, 10));
    assert_eq!(q.get_nonce(2), Some(0));
    assert!(q.has_ready_txs());
    q.update_gas_price_threshold(5);
    let ready: Vec<u64> = q.iter_over_ready_txs().iter().map(|t| t.tx_hash).collect();
    assert_eq!(ready, vec![3, 1]);
    let chunk: Vec<u64> = q.pop_ready_chunk(1).iter().map(|t| t.tx_hash).collect();
    assert_eq!(chunk, vec![3]);
    assert!(q.remove(1));
    assert!(!q.remove(1));
    assert!(!q.has_ready_txs());
    assert_eq!(q.len(), 1);
}

#[test]
fn address_to_nonce_map() {
    let mut m = AddressToNonce::new();
    m.insert(1, 5);
    m.insert(1, 6);
    m.insert(2, 0);
    assert_eq!(m.get(1), Some(6));
    assert!(m.contains_key(2));
    assert_eq!(m.keys().len(), 2);
    m.clear();
    assert_eq!(m.get(1), None);
}
