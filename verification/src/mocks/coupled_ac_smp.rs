//! The pool that stands in for the mempool where admission control is
//! coupled with a shared mempool for trials: it holds nothing, answers each
//! admission by the sender's address alone, and reads nothing at any cursor.

use crate::core_mempool::{
    MempoolAddTransactionStatus, MempoolAddTransactionStatusCode, MempoolTrait, TimelineState,
};
use crate::types::{AccountAddress, SignedTransaction};
use vstd::prelude::*;

verus! {

/// A pool without transactions: it admits nothing into its log and reads
/// nothing out of it.
pub struct MockMempool {}

/// The answer that the mock pool gives to a transaction of `sender`: each of
/// the addresses made of the bytes 100 to 104 has an answer of its own, and
/// every other address is admitted.
pub open spec fn mock_status_code(sender: AccountAddress) -> MempoolAddTransactionStatusCode {
    if sender == AccountAddress::spec_repeated(100) {
        MempoolAddTransactionStatusCode::InsufficientBalance
    } else if sender == AccountAddress::spec_repeated(101) {
        MempoolAddTransactionStatusCode::InvalidSeqNumber
    } else if sender == AccountAddress::spec_repeated(102) {
        MempoolAddTransactionStatusCode::InvalidUpdate
    } else if sender == AccountAddress::spec_repeated(103) {
        MempoolAddTransactionStatusCode::Valid
    } else if sender == AccountAddress::spec_repeated(104) {
        MempoolAddTransactionStatusCode::MempoolIsFull
    } else {
        MempoolAddTransactionStatusCode::Valid
    }
}

impl MockMempool {
    /// The code with which the mock pool answers a transaction of `sender`.
    pub fn status_code(sender: AccountAddress) -> (code: MempoolAddTransactionStatusCode)
        ensures
            code == mock_status_code(sender),
    {
        let insufficient_balance_add = AccountAddress::repeated(100);
        let invalid_seq_add = AccountAddress::repeated(101);
        let sys_error_add = AccountAddress::repeated(102);
        let accepted_add = AccountAddress::repeated(103);
        let mempool_full = AccountAddress::repeated(104);
        if sender == insufficient_balance_add {
            MempoolAddTransactionStatusCode::InsufficientBalance
        } else if sender == invalid_seq_add {
            MempoolAddTransactionStatusCode::InvalidSeqNumber
        } else if sender == sys_error_add {
            MempoolAddTransactionStatusCode::InvalidUpdate
        } else if sender == accepted_add {
            MempoolAddTransactionStatusCode::Valid
        } else if sender == mempool_full {
            MempoolAddTransactionStatusCode::MempoolIsFull
        } else {
            MempoolAddTransactionStatusCode::Valid
        }
    }
}

impl MempoolTrait for MockMempool {
    /// Answers by the sender's address and keeps nothing.
    fn add_txn(
        &mut self,
        txn: SignedTransaction,
        _gas_amount: u64,
        _db_sequence_number: u64,
        _balance: u64,
        _timeline_state: TimelineState,
    ) -> (status: MempoolAddTransactionStatus)
        ensures
            *final(self) == *old(self),
            status.code == mock_status_code(txn.sender),
            status.message@.len() == 0,
    {
        MempoolAddTransactionStatus::new(Self::status_code(txn.sender), String::new())
    }

    /// Hands out no transaction and the cursor as it came.
    fn read_timeline(&mut self, timeline_id: u64, _count: usize) -> (read: (
        Vec<SignedTransaction>,
        u64,
    ))
        ensures
            *final(self) == *old(self),
            read.0@.len() == 0,
            read.1 == timeline_id,
    {
        (Vec::new(), timeline_id)
    }

    /// Does nothing.
    fn gc_by_system_ttl(&mut self)
        ensures
            *final(self) == *old(self),
    {
    }
}

} // verus!
