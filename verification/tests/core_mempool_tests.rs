use shared_mempool::core_mempool::{
    CoreMempool, MempoolAddTransactionStatus, MempoolAddTransactionStatusCode, MempoolTrait,
    TimelineState,
};
use shared_mempool::types::{AccountAddress, SignedTransaction};

fn txn(sender: u8, sequence_number: u64) -> SignedTransaction {
    SignedTransaction { sender: AccountAddress::repeated(sender), sequence_number, max_gas_amount: 10 }
}

fn put(pool: &mut CoreMempool, txn: SignedTransaction, state: TimelineState) -> MempoolAddTransactionStatusCode {
    pool.add_txn(txn, txn.max_gas_amount, 0, 1_000, state).code
}

fn pool_with_ready(count: u64) -> CoreMempool {
    let mut pool = CoreMempool::new(100, 1_000);
    for sequence_number in 0..count {
        assert_eq!(
            put(&mut pool, txn(1, sequence_number), TimelineState::Ready),
            MempoolAddTransactionStatusCode::Valid
        );
    }
    pool
}

#[test]
fn a_new_pool_is_empty() {
    let mut pool = CoreMempool::new(10, 1_000);
    assert_eq!(pool.len(), 0);
    assert!(!pool.contains(&txn(1, 0)));
    assert_eq!(pool.read_timeline(0, 10), (vec![], 0));
}

#[test]
fn status_new_keeps_code_and_message() {
    let status = MempoolAddTransactionStatus::new(
        MempoolAddTransactionStatusCode::MempoolIsFull,
        String::from("full"),
    );
    assert_eq!(status.code, MempoolAddTransactionStatusCode::MempoolIsFull);
    assert_eq!(status.message, "full");
}

#[test]
fn a_valid_transaction_is_admitted() {
    let mut pool = CoreMempool::new(10, 1_000);
    let status = pool.add_txn(txn(1, 3), 10, 3, 10, TimelineState::Ready);
    assert_eq!(status.code, MempoolAddTransactionStatusCode::Valid);
    assert_eq!(status.message, "");
    assert_eq!(pool.len(), 1);
    assert!(pool.contains(&txn(1, 3)));
    assert!(!pool.contains(&txn(1, 4)));
    assert!(!pool.contains(&txn(2, 3)));
}

#[test]
fn an_old_sequence_number_is_refused() {
    let mut pool = CoreMempool::new(10, 1_000);
    let status = pool.add_txn(txn(1, 2), 10, 3, 100, TimelineState::Ready);
    assert_eq!(status.code, MempoolAddTransactionStatusCode::InvalidSeqNumber);
    assert_eq!(pool.len(), 0);
}

#[test]
fn a_balance_below_the_gas_is_refused() {
    let mut pool = CoreMempool::new(10, 1_000);
    let status = pool.add_txn(txn(1, 0), 10, 0, 9, TimelineState::Ready);
    assert_eq!(status.code, MempoolAddTransactionStatusCode::InsufficientBalance);
    assert_eq!(pool.len(), 0);
}

#[test]
fn a_held_transaction_is_no_valid_update() {
    let mut pool = CoreMempool::new(10, 1_000);
    assert_eq!(put(&mut pool, txn(1, 0), TimelineState::Ready), MempoolAddTransactionStatusCode::Valid);
    let again = SignedTransaction { max_gas_amount: 20, ..txn(1, 0) };
    assert_eq!(put(&mut pool, again, TimelineState::Ready), MempoolAddTransactionStatusCode::InvalidUpdate);
    assert_eq!(pool.len(), 1);
    assert_eq!(pool.read_timeline(0, 10), (vec![txn(1, 0)], 1));
}

#[test]
fn a_full_pool_refuses() {
    let mut pool = CoreMempool::new(2, 1_000);
    assert_eq!(put(&mut pool, txn(1, 0), TimelineState::Ready), MempoolAddTransactionStatusCode::Valid);
    assert_eq!(put(&mut pool, txn(1, 1), TimelineState::NotReady), MempoolAddTransactionStatusCode::Valid);
    assert_eq!(put(&mut pool, txn(1, 2), TimelineState::Ready), MempoolAddTransactionStatusCode::MempoolIsFull);
    assert_eq!(pool.len(), 2);
    let mut none = CoreMempool::new(0, 1_000);
    assert_eq!(put(&mut none, txn(1, 0), TimelineState::Ready), MempoolAddTransactionStatusCode::MempoolIsFull);
}

#[test]
fn the_rules_of_admission_apply_in_order() {
    let mut pool = CoreMempool::new(1, 1_000);
    assert_eq!(put(&mut pool, txn(1, 5), TimelineState::Ready), MempoolAddTransactionStatusCode::Valid);
    assert_eq!(
        pool.add_txn(txn(1, 5), 10, 6, 0, TimelineState::Ready).code,
        MempoolAddTransactionStatusCode::InvalidSeqNumber
    );
    assert_eq!(
        pool.add_txn(txn(1, 5), 10, 5, 0, TimelineState::Ready).code,
        MempoolAddTransactionStatusCode::InsufficientBalance
    );
    assert_eq!(
        pool.add_txn(txn(1, 5), 10, 5, 10, TimelineState::Ready).code,
        MempoolAddTransactionStatusCode::InvalidUpdate
    );
    assert_eq!(
        pool.add_txn(txn(1, 6), 10, 5, 10, TimelineState::Ready).code,
        MempoolAddTransactionStatusCode::MempoolIsFull
    );
}

#[test]
fn timeline_ids_count_the_ready_transactions() {
    let mut pool = CoreMempool::new(10, 1_000);
    put(&mut pool, txn(1, 0), TimelineState::Ready);
    put(&mut pool, txn(1, 1), TimelineState::NotReady);
    put(&mut pool, txn(2, 0), TimelineState::NonQualified);
    put(&mut pool, txn(3, 0), TimelineState::Ready);
    assert_eq!(pool.read_timeline(0, 10), (vec![txn(1, 0), txn(3, 0)], 2));
    assert_eq!(pool.read_timeline(1, 10), (vec![txn(3, 0)], 2));
    assert_eq!(pool.read_timeline(2, 10), (vec![], 2));
}

#[test]
fn read_timeline_reads_after_the_cursor_in_order() {
    let mut pool = pool_with_ready(5);
    assert_eq!(
        pool.read_timeline(0, 10),
        (vec![txn(1, 0), txn(1, 1), txn(1, 2), txn(1, 3), txn(1, 4)], 5)
    );
    assert_eq!(pool.read_timeline(3, 10), (vec![txn(1, 3), txn(1, 4)], 5));
    assert_eq!(pool.read_timeline(5, 10), (vec![], 5));
    assert_eq!(pool.read_timeline(9, 10), (vec![], 9));
}

#[test]
fn read_timeline_reads_at_most_the_count() {
    let mut pool = pool_with_ready(5);
    assert_eq!(pool.read_timeline(0, 2), (vec![txn(1, 0), txn(1, 1)], 2));
    assert_eq!(pool.read_timeline(2, 2), (vec![txn(1, 2), txn(1, 3)], 4));
    assert_eq!(pool.read_timeline(4, 2), (vec![txn(1, 4)], 5));
    assert_eq!(pool.read_timeline(0, 5), (vec![txn(1, 0), txn(1, 1), txn(1, 2), txn(1, 3), txn(1, 4)], 5));
}

#[test]
fn read_timeline_for_nothing_keeps_the_cursor() {
    let mut pool = pool_with_ready(5);
    assert_eq!(pool.read_timeline(0, 0), (vec![], 0));
    assert_eq!(pool.read_timeline(3, 0), (vec![], 3));
    assert_eq!(pool.read_timeline(u64::MAX, 0), (vec![], u64::MAX));
    assert_eq!(pool.len(), 5);
}

#[test]
fn read_timeline_leaves_the_pool_as_it_is() {
    let mut pool = pool_with_ready(3);
    let first = pool.read_timeline(0, 10);
    let second = pool.read_timeline(0, 10);
    assert_eq!(first, second);
    assert_eq!(pool.len(), 3);
}

#[test]
fn a_non_qualified_transaction_is_never_read() {
    let mut pool = CoreMempool::new(10, 1_000);
    assert_eq!(put(&mut pool, txn(7, 0), TimelineState::NonQualified), MempoolAddTransactionStatusCode::Valid);
    assert!(pool.contains(&txn(7, 0)));
    assert_eq!(pool.read_timeline(0, 10), (vec![], 0));
    put(&mut pool, txn(1, 0), TimelineState::Ready);
    assert_eq!(put(&mut pool, txn(7, 0), TimelineState::Ready), MempoolAddTransactionStatusCode::InvalidUpdate);
    assert_eq!(pool.read_timeline(0, 10), (vec![txn(1, 0)], 1));
}

#[test]
fn a_second_admission_keeps_the_order_of_the_timeline() {
    let mut pool = pool_with_ready(3);
    let before = pool.read_timeline(0, 10);
    assert_eq!(put(&mut pool, txn(1, 1), TimelineState::Ready), MempoolAddTransactionStatusCode::InvalidUpdate);
    assert_eq!(put(&mut pool, txn(1, 0), TimelineState::NonQualified), MempoolAddTransactionStatusCode::InvalidUpdate);
    assert_eq!(pool.read_timeline(0, 10), before);
    put(&mut pool, txn(1, 3), TimelineState::Ready);
    assert_eq!(pool.read_timeline(0, 10), (vec![txn(1, 0), txn(1, 1), txn(1, 2), txn(1, 3)], 4));
}

#[test]
fn gc_without_expired_transactions_changes_nothing() {
    let mut pool = pool_with_ready(3);
    let before = pool.read_timeline(0, 10);
    pool.gc_by_system_ttl();
    assert_eq!(pool.len(), 3);
    assert_eq!(pool.read_timeline(0, 10), before);
    pool.advance_time(1_000);
    pool.gc_by_system_ttl();
    assert_eq!(pool.len(), 3);
    assert_eq!(pool.read_timeline(0, 10), before);
}

#[test]
fn gc_removes_what_has_stayed_longer_than_the_time_to_live() {
    let mut pool = CoreMempool::new(10, 1_000);
    put(&mut pool, txn(1, 0), TimelineState::Ready);
    pool.advance_time(500);
    put(&mut pool, txn(1, 1), TimelineState::Ready);
    put(&mut pool, txn(2, 0), TimelineState::NonQualified);
    pool.advance_time(1_001);
    pool.gc_by_system_ttl();
    assert_eq!(pool.len(), 2);
    assert!(!pool.contains(&txn(1, 0)));
    assert_eq!(pool.read_timeline(0, 10), (vec![txn(1, 1)], 2));
    pool.advance_time(1_500);
    pool.gc_by_system_ttl();
    assert_eq!(pool.len(), 2);
    pool.advance_time(1_501);
    pool.gc_by_system_ttl();
    assert_eq!(pool.len(), 0);
    assert_eq!(pool.read_timeline(0, 10), (vec![], 0));
}

#[test]
fn timeline_ids_go_on_after_gc() {
    let mut pool = CoreMempool::new(10, 10);
    put(&mut pool, txn(1, 0), TimelineState::Ready);
    put(&mut pool, txn(1, 1), TimelineState::Ready);
    pool.advance_time(11);
    pool.gc_by_system_ttl();
    assert_eq!(pool.len(), 0);
    assert_eq!(put(&mut pool, txn(1, 0), TimelineState::Ready), MempoolAddTransactionStatusCode::Valid);
    assert_eq!(pool.read_timeline(0, 10), (vec![txn(1, 0)], 3));
    assert_eq!(pool.read_timeline(2, 10), (vec![txn(1, 0)], 3));
    assert_eq!(pool.read_timeline(3, 10), (vec![], 3));
}

#[test]
fn the_time_of_the_pool_never_runs_back() {
    let mut pool = CoreMempool::new(10, 100);
    pool.advance_time(1_000);
    pool.advance_time(10);
    put(&mut pool, txn(1, 0), TimelineState::Ready);
    pool.advance_time(1_100);
    pool.gc_by_system_ttl();
    assert_eq!(pool.len(), 1);
    pool.advance_time(1_101);
    pool.gc_by_system_ttl();
    assert_eq!(pool.len(), 0);
}

#[test]
fn a_time_to_live_at_the_limit_never_expires() {
    let mut pool = CoreMempool::new(10, u64::MAX);
    put(&mut pool, txn(1, 0), TimelineState::Ready);
    pool.advance_time(u64::MAX);
    pool.gc_by_system_ttl();
    assert_eq!(pool.len(), 1);
}
