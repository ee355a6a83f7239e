use shared_mempool::core_mempool::{
    CoreMempool, MempoolAddTransactionStatus, MempoolAddTransactionStatusCode, MempoolTrait,
    TimelineState,
};
use shared_mempool::mocks::coupled_ac_smp::MockMempool;
use shared_mempool::types::{AccountAddress, SignedTransaction};

fn code_for(sender: AccountAddress) -> MempoolAddTransactionStatusCode {
    let mut pool = MockMempool {};
    let txn = SignedTransaction { sender, sequence_number: 0, max_gas_amount: 1 };
    let status = pool.add_txn(txn, 1, 0, 1, TimelineState::NotReady);
    assert_eq!(status.message, "");
    assert_eq!(status.code, MockMempool::status_code(sender));
    status.code
}

#[test]
fn repeated_fills_all_bytes_of_an_address() {
    let address = AccountAddress::repeated(100);
    assert_eq!(address.hi, u128::from_be_bytes([100u8; 16]));
    assert_eq!(address.lo, u128::from_be_bytes([100u8; 16]));
    assert_eq!(AccountAddress::repeated(0), AccountAddress { hi: 0, lo: 0 });
    assert_eq!(AccountAddress::repeated(255), AccountAddress { hi: u128::MAX, lo: u128::MAX });
    assert_eq!(AccountAddress::repeated(1).lo, 0x0101_0101_0101_0101_0101_0101_0101_0101);
}

#[test]
fn the_mock_pool_answers_by_the_senders_address() {
    assert_eq!(code_for(AccountAddress::repeated(100)), MempoolAddTransactionStatusCode::InsufficientBalance);
    assert_eq!(code_for(AccountAddress::repeated(101)), MempoolAddTransactionStatusCode::InvalidSeqNumber);
    assert_eq!(code_for(AccountAddress::repeated(102)), MempoolAddTransactionStatusCode::InvalidUpdate);
    assert_eq!(code_for(AccountAddress::repeated(103)), MempoolAddTransactionStatusCode::Valid);
    assert_eq!(code_for(AccountAddress::repeated(104)), MempoolAddTransactionStatusCode::MempoolIsFull);
}

#[test]
fn the_mock_pool_admits_every_other_sender() {
    assert_eq!(code_for(AccountAddress::repeated(0)), MempoolAddTransactionStatusCode::Valid);
    assert_eq!(code_for(AccountAddress::repeated(99)), MempoolAddTransactionStatusCode::Valid);
    assert_eq!(code_for(AccountAddress::repeated(105)), MempoolAddTransactionStatusCode::Valid);
    let mixed = AccountAddress { hi: AccountAddress::repeated(100).hi, lo: AccountAddress::repeated(101).lo };
    assert_eq!(code_for(mixed), MempoolAddTransactionStatusCode::Valid);
}

#[test]
fn the_mock_pool_holds_nothing() {
    let mut pool = MockMempool {};
    let txn = SignedTransaction { sender: AccountAddress::repeated(103), sequence_number: 0, max_gas_amount: 1 };
    pool.add_txn(txn, 1, 0, 1, TimelineState::Ready);
    assert_eq!(pool.read_timeline(0, 10), (vec![], 0));
    assert_eq!(pool.read_timeline(7, 10), (vec![], 7));
    pool.gc_by_system_ttl();
    assert_eq!(pool.read_timeline(0, 0), (vec![], 0));
    assert_eq!(pool.read_timeline(7, 0), (vec![], 7));
    assert_eq!(pool.read_timeline(u64::MAX, 0), (vec![], u64::MAX));
}

struct CountingPool {
    admitted: usize,
}

impl MempoolTrait for CountingPool {
    fn add_txn(
        &mut self,
        _txn: SignedTransaction,
        _gas_amount: u64,
        _db_sequence_number: u64,
        _balance: u64,
        _timeline_state: TimelineState,
    ) -> MempoolAddTransactionStatus {
        self.admitted += 1;
        MempoolAddTransactionStatus::new(MempoolAddTransactionStatusCode::Valid, String::new())
    }

    fn read_timeline(&mut self, timeline_id: u64, _count: usize) -> (Vec<SignedTransaction>, u64) {
        (vec![], timeline_id)
    }

    fn gc_by_system_ttl(&mut self) {
        self.admitted = 0;
    }
}

fn fill<M: MempoolTrait>(pool: &mut M, count: u64) -> usize {
    let mut valid = 0;
    for sequence_number in 0..count {
        let txn = SignedTransaction { sender: AccountAddress::repeated(1), sequence_number, max_gas_amount: 1 };
        if pool.add_txn(txn, 1, 0, 1, TimelineState::Ready).code == MempoolAddTransactionStatusCode::Valid {
            valid += 1;
        }
    }
    pool.read_timeline(0, 100).0.len()
        + valid
}

#[test]
fn every_pool_serves_behind_the_same_interface() {
    assert_eq!(fill(&mut MockMempool {}, 3), 3);
    assert_eq!(fill(&mut CoreMempool::new(2, 10), 3), 4);
    let mut counting = CountingPool { admitted: 0 };
    assert_eq!(fill(&mut counting, 3), 3);
    assert_eq!(counting.admitted, 3);
    counting.gc_by_system_ttl();
    assert_eq!(counting.admitted, 0);
}

#[test]
fn identities_and_transactions_hand_out_their_parts() {
    let peer = shared_mempool::types::PeerNetworkId(
        shared_mempool::runtime::MempoolNetworkType::FullNode,
        AccountAddress::repeated(7),
    );
    assert_eq!(peer.network(), shared_mempool::runtime::MempoolNetworkType::FullNode);
    assert_eq!(peer.peer_id(), AccountAddress::repeated(7));
    assert_ne!(peer.network(), shared_mempool::runtime::MempoolNetworkType::Validator);
    let txn = SignedTransaction { sender: AccountAddress::repeated(3), sequence_number: 4, max_gas_amount: 5 };
    assert_eq!(txn.sender(), AccountAddress::repeated(3));
    assert_eq!(txn.sequence_number(), 4);
    assert_eq!(txn.max_gas_amount(), 5);
}
